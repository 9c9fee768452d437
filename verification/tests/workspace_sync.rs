use sideromelane::autosave::{auto_save_debounce_ms, auto_save_dirty_notes, due_for_auto_save, SELF_WRITE_SUPPRESS_WINDOW_MS};
use sideromelane::conflict::{apply_reload, classify_watch_event, reload_note, OpenNote, WatchOutcome};
use sideromelane::folder::NoteId;
use sideromelane::indexer::{IndexerAction, IndexerCommand, IndexerState, NoteRecord, merge_discovered};
use sideromelane::naming::{asset_candidate_name, new_note_source, untitled_note_name};
use sideromelane::scan::WalkOptions;
use sideromelane::settings::{check_settings_version, walk_options_for, IgnoreSettings, UiSettings};
use sideromelane::state::{
    clamp_auto_save_debounce_secs, normalize_excluded_file_globs, record_recent_folder,
    RECENT_FOLDERS_CAP,
};
use sideromelane::watcher::{WatchEvent, WatchKind};
use sideromelane::workspace::{append_image_embed, build_note_path_index, merge_discovered_notes, note_named};

fn id(path: &str) -> NoteId {
    NoteId::from_folder_relative_path(path).expect("note id")
}

fn open(path: &str, source: &str, dirty: bool, last_edit_at: u64) -> OpenNote {
    OpenNote {
        note_id: id(path),
        absolute_path: format!("/root/{path}"),
        source: source.to_owned(),
        dirty,
        last_edit_at,
    }
}

fn record(path: &str, source: &str) -> NoteRecord {
    NoteRecord {
        note_id: id(path),
        absolute_path: format!("/root/{path}"),
        source: source.to_owned(),
    }
}

// ── auto-save ──────────────────────────────────────────────────────────

#[test]
fn auto_save_due_only_after_debounce_and_when_dirty() {
    let notes = vec![
        open("a.md", "a", true, 1_000),
        open("b.md", "b", true, 4_500),
        open("c.md", "c", false, 0),
    ];
    assert_eq!(due_for_auto_save(&notes, 5_000, 9_000), vec![0]);
    assert_eq!(due_for_auto_save(&notes, 5_000, 10_000), vec![0, 1]);
    // A clock that went backwards counts as no time elapsed.
    assert!(due_for_auto_save(&notes, 1, 0).is_empty());
}

#[test]
fn auto_save_results_clear_dirty_and_keep_first_error() {
    let mut notes = vec![
        open("a.md", "a", true, 0),
        open("dir/b.md", "b", true, 0),
        open("c.md", "c", true, 0),
    ];
    let writes: Vec<(usize, Result<(), String>)> = vec![
        (0, Ok(())),
        (1, Err("disk full".to_owned())),
        (2, Err("again".to_owned())),
    ];
    let sweep = auto_save_dirty_notes(&mut notes, writes);
    assert!(!notes[0].dirty);
    assert!(notes[1].dirty);
    assert!(notes[2].dirty);
    assert_eq!(sweep.saved.len(), 1);
    assert_eq!(sweep.saved[0].relative, "a.md");
    assert_eq!(sweep.saved[0].source, "a");
    assert_eq!(sweep.saved[0].absolute_path, "/root/a.md");
    assert_eq!(sweep.first_error, Some(("dir/b.md".to_owned(), "disk full".to_owned())));
}

// ── watch events ───────────────────────────────────────────────────────

#[test]
fn watch_events_are_classified_in_rule_order() {
    let notes = vec![open("a.md", "a", false, 0), open("b.md", "b", true, 0)];
    let index = build_note_path_index(&notes);
    let writes = vec![("/root/a.md".to_owned(), 1_000u64)];
    let modify = |p: &str| WatchEvent { path: p.to_owned(), kind: WatchKind::Modify };
    let other = WatchEvent { path: "/root/a.md".to_owned(), kind: WatchKind::Other };
    let w = SELF_WRITE_SUPPRESS_WINDOW_MS;
    assert_eq!(classify_watch_event(&other, &notes, &index, &writes, w, 1_050), WatchOutcome::Ignored);
    assert_eq!(
        classify_watch_event(&modify("/root/a.md"), &notes, &index, &writes, w, 1_050),
        WatchOutcome::Suppressed
    );
    assert_eq!(
        classify_watch_event(&modify("/root/a.md"), &notes, &index, &writes, w, 1_200),
        WatchOutcome::Reload { index: 0 }
    );
    assert_eq!(
        classify_watch_event(&modify("/root/b.md"), &notes, &index, &writes, w, 1_050),
        WatchOutcome::Conflict(id("b.md"))
    );
    assert_eq!(
        classify_watch_event(&modify("/root/zz.md"), &notes, &index, &writes, w, 1_050),
        WatchOutcome::UnknownPath
    );
    // An event stamped before our own write is not suppressed.
    assert_eq!(
        classify_watch_event(&modify("/root/a.md"), &notes, &index, &writes, w, 900),
        WatchOutcome::Reload { index: 0 }
    );
}

#[test]
fn reload_replaces_source_and_clears_dirty_only() {
    let mut notes = vec![open("a.md", "old", true, 77), open("b.md", "b", true, 5)];
    apply_reload(&mut notes, 0, "fresh".to_owned());
    assert_eq!(notes[0].source, "fresh");
    assert!(!notes[0].dirty);
    assert_eq!(notes[0].last_edit_at, 77);
    assert_eq!(notes[1].source, "b");
    assert!(notes[1].dirty);
}

#[test]
fn path_index_maps_duplicate_paths_to_last_position() {
    let notes = vec![open("a.md", "1", false, 0), open("b.md", "2", false, 0), open("a.md", "3", false, 0)];
    let index = build_note_path_index(&notes);
    let found: Vec<usize> = notes
        .iter()
        .map(|n| index.iter().find(|(p, _)| *p == n.absolute_path).map(|(_, i)| *i).unwrap())
        .collect();
    assert_eq!(found, vec![2, 1, 2]);
}

// ── discovery merges ───────────────────────────────────────────────────

#[test]
fn merge_keeps_dirty_edits_and_unsaved_buffers() {
    let notes = vec![
        open("a.md", "edited", true, 3),
        open("b.md", "stale", false, 4),
        open("Untitled.md", "# Untitled\n", true, 5),
    ];
    let discovered = vec![record("b.md", "disk b"), record("a.md", "disk a"), record("c.md", "disk c")];
    let (merged, selected) = merge_discovered_notes(&notes, Some(2), &discovered, 99);
    let view: Vec<(&str, &str, bool, u64)> = merged
        .iter()
        .map(|n| (n.note_id.relative_path(), n.source.as_str(), n.dirty, n.last_edit_at))
        .collect();
    assert_eq!(
        view,
        vec![
            ("b.md", "disk b", false, 4),
            ("a.md", "edited", true, 3),
            ("c.md", "disk c", false, 99),
            ("Untitled.md", "# Untitled\n", true, 5),
        ]
    );
    assert_eq!(selected, Some(3));
    let (_, none_selected) = merge_discovered_notes(&[], None, &[], 0);
    assert_eq!(none_selected, None);
    let (_, first) = merge_discovered_notes(&notes, Some(9), &discovered, 0);
    assert_eq!(first, Some(0));
}

#[test]
fn indexer_merge_keeps_held_contents_and_takes_fresh_paths() {
    let held = vec![record("a.md", "held a")];
    let mut fresh = vec![record("a.md", "disk a"), record("b.md", "disk b")];
    fresh[0].absolute_path = "/moved/a.md".to_owned();
    let merged = merge_discovered(&held, &fresh);
    assert_eq!(merged.len(), 2);
    assert_eq!(merged[0].source, "held a");
    assert_eq!(merged[0].absolute_path, "/moved/a.md");
    assert_eq!(merged[1].source, "disk b");
}

#[test]
fn indexer_state_machine_follows_commands() {
    let mut state = IndexerState::new();
    let action = state.handle_command(IndexerCommand::NoteChanged {
        note_id: id("a.md"),
        source: "x".to_owned(),
    });
    assert!(matches!(action, IndexerAction::Publish));

    let action = state.handle_command(IndexerCommand::Rescan {
        root: "/root".to_owned(),
        options: WalkOptions::default(),
    });
    let (root, options) = match action {
        IndexerAction::Rescan { root, options } => (root, options),
        other => panic!("unexpected {other:?}"),
    };
    assert!(state.on_rescanned(root, options, Ok(vec![record("a.md", "disk")])).is_ok());
    assert_eq!(state.notes().len(), 1);

    let action = state.handle_command(IndexerCommand::NoteChanged {
        note_id: id("a.md"),
        source: "edited".to_owned(),
    });
    assert!(matches!(action, IndexerAction::Publish));
    assert_eq!(state.notes()[0].source, "edited");

    let action = state.handle_command(IndexerCommand::NoteChanged {
        note_id: id("new.md"),
        source: "brand new".to_owned(),
    });
    let (note_id, source) = match action {
        IndexerAction::Rediscover { root, note_id, source, .. } => {
            assert_eq!(root, "/root");
            (note_id, source)
        }
        other => panic!("unexpected {other:?}"),
    };
    let fresh = Ok(vec![record("a.md", "disk again"), record("new.md", "on disk")]);
    assert!(state.on_rediscovered(&note_id, source, fresh).is_ok());
    let sources: Vec<&str> = state.notes().iter().map(|r| r.source.as_str()).collect();
    assert_eq!(sources, vec!["edited", "brand new"]);

    let failed = state.on_rediscovered(&id("zz.md"), "z".to_owned(), Err("walk failed".to_owned()));
    assert_eq!(failed, Err("walk failed".to_owned()));
    assert_eq!(state.notes().len(), 2);
    assert!(matches!(state.handle_command(IndexerCommand::Shutdown), IndexerAction::Stop));
}

// ── names ──────────────────────────────────────────────────────────────

#[test]
fn untitled_names_count_up() {
    assert_eq!(untitled_note_name(0), "Untitled.md");
    assert_eq!(untitled_note_name(1), "Untitled 1.md");
    assert_eq!(untitled_note_name(42), "Untitled 42.md");
    assert_eq!(new_note_source(&id("dir/Untitled 3.md")), "# Untitled 3\n");
}

#[test]
fn asset_candidates_number_the_stem() {
    assert_eq!(asset_candidate_name("photo.png", 0), "photo.png");
    assert_eq!(asset_candidate_name("photo.png", 1), "photo-1.png");
    assert_eq!(asset_candidate_name("archive.tar.gz", 1024), "archive.tar-1024.gz");
    assert_eq!(asset_candidate_name("README", 7), "README-7.png");
    assert_eq!(asset_candidate_name("..", 2), "image-2.png");
}

#[test]
fn image_embed_is_appended_on_its_own_line() {
    let mut note = open("a.md", "text", false, 1);
    append_image_embed(&mut note, "assets/pic.png", 50);
    assert_eq!(note.source, "text\n![[assets/pic.png]]\n");
    assert!(note.dirty);
    assert_eq!(note.last_edit_at, 50);
}

// ── app state and settings ─────────────────────────────────────────────

#[test]
fn recent_folders_dedup_and_cap() {
    let mut recent: Vec<String> = Vec::new();
    for i in 0..(RECENT_FOLDERS_CAP + 5) {
        record_recent_folder(&mut recent, &format!("/f{i}"));
    }
    assert_eq!(recent.len(), RECENT_FOLDERS_CAP);
    assert_eq!(recent[0], format!("/f{}", RECENT_FOLDERS_CAP + 4));
    let target = recent[3].clone();
    record_recent_folder(&mut recent, &target);
    assert_eq!(recent.first(), Some(&target));
    assert_eq!(recent.len(), RECENT_FOLDERS_CAP);
    assert_eq!(recent.iter().filter(|f| **f == target).count(), 1);
}

#[test]
fn debounce_and_globs_are_normalised() {
    assert_eq!(clamp_auto_save_debounce_secs(0), 1);
    assert_eq!(clamp_auto_save_debounce_secs(9999), 60);
    assert_eq!(clamp_auto_save_debounce_secs(5), 5);
    let globs = vec!["".to_owned(), " node_modules/** ".to_owned(), "node_modules/**".to_owned()];
    assert_eq!(normalize_excluded_file_globs(&globs), vec!["node_modules/**".to_owned()]);
}

#[test]
fn folder_settings_defaults_and_version_rule() {
    let ui = UiSettings::default();
    assert!(ui.editor_word_wrap);
    assert!(ui.tree_expanded_paths.is_empty());
    let ignore = IgnoreSettings { honor_gitignore: true, include_dotfiles: false };
    let options = walk_options_for(&ignore);
    assert!(options.honor_gitignore);
    assert!(!options.include_dotfiles);
    assert!(!options.follow_symlinks);
    assert_eq!(options.max_depth, Some(64));
    assert_eq!(check_settings_version(1), Ok(()));
    assert_eq!(check_settings_version(2), Err((2, 1)));
}

#[test]
fn link_names_find_notes_by_stem() {
    let notes = vec![open("a/Plan.md", "", false, 0), open("Plan.md", "", false, 0), open("b/Other.md", "", false, 0)];
    assert_eq!(note_named(&notes, "Plan"), Some(0));
    assert_eq!(note_named(&notes, "Other#Intro"), Some(2));
    assert_eq!(note_named(&notes, "Missing"), None);
    assert_eq!(note_named(&notes, "plan"), None);
}

#[test]
fn debounce_setting_is_read_in_milliseconds_with_a_one_second_floor() {
    assert_eq!(auto_save_debounce_ms(0), 1_000);
    assert_eq!(auto_save_debounce_ms(1), 1_000);
    assert_eq!(auto_save_debounce_ms(5), 5_000);
    assert_eq!(auto_save_debounce_ms(60), 60_000);
}

#[test]
fn recent_folders_treat_equal_paths_as_one_folder() {
    let mut recent = vec!["/x/a/".to_owned(), "/x/b".to_owned(), "/x//a".to_owned(), "x/a".to_owned()];
    record_recent_folder(&mut recent, "/x/a");
    assert_eq!(recent, vec!["/x/a".to_owned(), "/x/b".to_owned(), "x/a".to_owned()]);
    let mut dotted = vec!["./n".to_owned(), "n".to_owned()];
    record_recent_folder(&mut dotted, "n/");
    assert_eq!(dotted, vec!["n/".to_owned(), "./n".to_owned()]);
}

#[test]
fn walk_options_carry_excluded_globs() {
    assert!(WalkOptions::default().excluded_globs.is_empty());
    let mut options = WalkOptions::default();
    options.excluded_globs = vec!["node_modules/**".to_owned()];
    let copy = options.clone();
    assert_eq!(copy.excluded_globs, vec!["node_modules/**".to_owned()]);
    assert_eq!(copy.max_depth, Some(64));
}

#[test]
fn reloading_from_disk_stamps_the_reload_time() {
    let mut notes = vec![open("a.md", "old", true, 77), open("b.md", "b", true, 5)];
    reload_note(&mut notes, 0, "fresh".to_owned(), 900);
    assert_eq!(notes[0].source, "fresh");
    assert!(!notes[0].dirty);
    assert_eq!(notes[0].last_edit_at, 900);
    assert_eq!(notes[0].absolute_path, "/root/a.md");
    assert!(notes[1].dirty);
}

#[test]
fn watch_events_match_note_paths_as_paths() {
    let notes = vec![open("a.md", "a", false, 0)];
    let index = vec![("/root//a.md".to_owned(), 0usize)];
    let writes = vec![("/root/b.md/".to_owned(), 1_000u64)];
    let modify = |p: &str| WatchEvent { path: p.to_owned(), kind: WatchKind::Modify };
    let w = SELF_WRITE_SUPPRESS_WINDOW_MS;
    assert_eq!(
        classify_watch_event(&modify("/root/a.md"), &notes, &index, &writes, w, 1_050),
        WatchOutcome::Reload { index: 0 }
    );
    assert_eq!(
        classify_watch_event(&modify("/root/b.md"), &notes, &index, &writes, w, 1_050),
        WatchOutcome::Suppressed
    );
    assert_eq!(
        classify_watch_event(&modify("root/a.md"), &notes, &index, &writes, w, 1_050),
        WatchOutcome::UnknownPath
    );
}
