use sideromelane::folder::NoteId;
use sideromelane::graph_view::{node_label, note_focus};
use sideromelane::index::GraphNode;
use sideromelane::note::Tag;
use sideromelane::outline::{byte_offset_for_heading, display_heading_text, heading_is_bold};
use sideromelane::state::{
    check_state_version, default_excluded_file_globs, normalize_excluded_file_globs, parse_excluded_file_globs,
    startup_action, StartupAction, StartupMode,
};
use sideromelane::wiki_link_popup::WikiLinkPopup;

// ── outline ────────────────────────────────────────────────────────────

#[test]
fn strips_hash_prefix() {
    assert_eq!(display_heading_text("# Title"), "Title");
    assert_eq!(display_heading_text("### Deep"), "Deep");
}

#[test]
fn strips_double_star_emphasis() {
    assert_eq!(display_heading_text("## **Bold Heading**"), "Bold Heading");
}

#[test]
fn strips_underscore_emphasis() {
    assert_eq!(display_heading_text("# __Strong__"), "Strong");
    assert_eq!(display_heading_text("# _Italic_"), "Italic");
}

#[test]
fn strips_mixed_markers() {
    assert_eq!(display_heading_text("###  **_Mixed_** "), "Mixed");
}

#[test]
fn passes_plain_text_through() {
    assert_eq!(display_heading_text("# Plain"), "Plain");
}

#[test]
fn handles_only_markers() {
    assert_eq!(display_heading_text("# ****"), "");
}

#[test]
fn handles_only_hashes_and_whitespace() {
    assert_eq!(display_heading_text("###"), "");
    assert_eq!(display_heading_text("##   "), "");
}

#[test]
fn handles_internal_emphasis_runs() {
    assert_eq!(
        display_heading_text("## **First** and *second*"),
        "First** and *second"
    );
}

#[test]
fn handles_mismatched_markers() {
    assert_eq!(display_heading_text("# ***Bold-ish*"), "Bold-ish");
}

#[test]
fn passes_through_when_no_hash_prefix() {
    assert_eq!(display_heading_text("Plain"), "Plain");
}

#[test]
fn byte_offset_simple_match() {
    let source = "# Alpha\n## Beta\n# Gamma\n";
    let offset = byte_offset_for_heading(source, 2, "Beta");
    assert_eq!(offset, Some(8));
}

#[test]
fn byte_offset_skips_fence_fake_heading() {
    let source = "# Real\n```\n# Fake\n```\n";
    assert_eq!(byte_offset_for_heading(source, 1, "Real"), Some(0));
    assert_eq!(byte_offset_for_heading(source, 1, "Fake"), None);
}

#[test]
fn byte_offset_mismatched_level_returns_none() {
    let source = "# Title\n";
    assert_eq!(byte_offset_for_heading(source, 2, "Title"), None);
}

#[test]
fn byte_offset_first_of_two_duplicates() {
    let source = "# Dup\nsome text\n# Dup\n";
    assert_eq!(byte_offset_for_heading(source, 1, "Dup"), Some(0));
}

#[test]
fn byte_offset_handles_crlf_line_endings() {
    let source = "# Alpha\r\n## Beta\r\n# Gamma\r\n";
    assert_eq!(byte_offset_for_heading(source, 1, "Alpha"), Some(0));
    assert_eq!(byte_offset_for_heading(source, 2, "Beta"), Some(9));
    assert_eq!(byte_offset_for_heading(source, 1, "Gamma"), Some(18));
}

#[test]
fn heading_bold_only_for_top_three_levels() {
    assert!(heading_is_bold(1));
    assert!(heading_is_bold(3));
    assert!(!heading_is_bold(4));
    assert!(!heading_is_bold(6));
}

#[test]
fn byte_offset_matches_display_text_of_emphasised_heading() {
    let source = "intro\n## **Plan**\n";
    assert_eq!(byte_offset_for_heading(source, 2, "Plan"), Some(6));
}

// ── wiki-link popup ────────────────────────────────────────────────────

fn popup_with(items: &[&str]) -> WikiLinkPopup {
    let mut p = WikiLinkPopup::default();
    p.set_items(items.iter().copied().map(String::from).collect());
    p
}

#[test]
fn new_starts_at_first_item() {
    let p = popup_with(&["Alpha", "Beta", "Gamma"]);
    assert_eq!(p.selected_item(), Some("Alpha"));
}

#[test]
fn select_next_advances_selection() {
    let mut p = popup_with(&["Alpha", "Beta", "Gamma"]);
    p.select_next();
    assert_eq!(p.selected_item(), Some("Beta"));
}

#[test]
fn select_next_wraps_from_last_to_first() {
    let mut p = popup_with(&["Alpha", "Beta", "Gamma"]);
    p.select_next();
    p.select_next();
    p.select_next();
    assert_eq!(p.selected_item(), Some("Alpha"));
}

#[test]
fn select_prev_retreats_selection() {
    let mut p = popup_with(&["Alpha", "Beta", "Gamma"]);
    p.select_next();
    p.select_prev();
    assert_eq!(p.selected_item(), Some("Alpha"));
}

#[test]
fn select_prev_wraps_from_first_to_last() {
    let mut p = popup_with(&["Alpha", "Beta", "Gamma"]);
    p.select_prev();
    assert_eq!(p.selected_item(), Some("Gamma"));
}

#[test]
fn selected_item_returns_none_for_empty_list() {
    let p = WikiLinkPopup::default();
    assert_eq!(p.selected_item(), None);
}

#[test]
fn set_items_resets_selection_when_list_changes() {
    let mut p = popup_with(&["Alpha", "Beta", "Gamma"]);
    p.select_next();
    p.set_items(vec!["Delta".into(), "Epsilon".into()]);
    assert_eq!(p.selected(), 0);
    assert_eq!(p.selected_item(), Some("Delta"));
}

#[test]
fn set_items_preserves_selection_when_list_unchanged() {
    let mut p = popup_with(&["Alpha", "Beta"]);
    p.select_next();
    p.set_items(vec!["Alpha".into(), "Beta".into()]);
    assert_eq!(
        p.selected(), 1,
        "selection must be preserved on identical list"
    );
}

#[test]
fn select_next_on_empty_list_does_not_panic() {
    let mut p = WikiLinkPopup::default();
    p.select_next();
    assert_eq!(p.selected_item(), None);
}

#[test]
fn select_prev_on_empty_list_does_not_panic() {
    let mut p = WikiLinkPopup::default();
    p.select_prev();
    assert_eq!(p.selected_item(), None);
}

#[test]
fn next_then_prev_returns_to_same_item() {
    let mut p = popup_with(&["A", "B", "C", "D"]);
    p.select_next();
    p.select_next();
    p.select_next();
    p.select_prev();
    assert_eq!(p.selected_item(), Some("C"));
    assert!(!p.is_empty());
    assert!(WikiLinkPopup::default().is_empty());
}

// ── graph view ─────────────────────────────────────────────────────────

#[test]
fn node_label_prefixes_tag_with_hash() {
    let tag = Tag::new("kubernetes").unwrap();
    let label = node_label(&GraphNode::Tag { tag });
    assert_eq!(label, "#kubernetes");
}

#[test]
fn node_label_returns_file_stem_for_note_node() {
    let note_id = NoteId::from_folder_relative_path("work/My Note.md").unwrap();
    let label = node_label(&GraphNode::Note { note_id });
    assert_eq!(label, "My Note");
}

#[test]
fn note_focus_wraps_note_id() {
    let note_id = NoteId::from_folder_relative_path("a/b.md").unwrap();
    let node = note_focus(&note_id);
    assert_eq!(node, GraphNode::Note { note_id });
}

// ── preferences ────────────────────────────────────────────────────────

#[test]
fn parse_excluded_file_globs_trims_blanks_and_dedups() {
    let parsed = parse_excluded_file_globs(" .git/** \n\nnode_modules/**\n.git/**\r\n");
    assert_eq!(
        parsed,
        vec![".git/**".to_string(), "node_modules/**".to_string()]
    );
}

#[test]
fn parse_excluded_file_globs_of_blank_text_is_empty() {
    assert!(parse_excluded_file_globs("").is_empty());
    assert!(parse_excluded_file_globs(" \n\t\n").is_empty());
}

#[test]
fn startup_mode_defaults_to_reload_last() {
    assert_eq!(StartupMode::default(), StartupMode::ReloadLast);
}

#[test]
fn normalizing_parsed_globs_changes_nothing() {
    let text = " .git/** \n\u{a0}node_modules/**\u{2003}\n\n.git/**\r\n*.tmp";
    let parsed = parse_excluded_file_globs(text);
    assert_eq!(parsed, vec![".git/**".to_owned(), "node_modules/**".to_owned(), "*.tmp".to_owned()]);
    assert_eq!(normalize_excluded_file_globs(&parsed), parsed);
}

#[test]
fn state_versions_newer_than_supported_are_refused() {
    assert_eq!(check_state_version(0), Ok(()));
    assert_eq!(check_state_version(1), Ok(()));
    assert_eq!(check_state_version(2), Err((2, 1)));
}

#[test]
fn default_globs_exclude_git_ds_store_and_node_modules() {
    assert_eq!(default_excluded_file_globs(), vec![".git/**", ".DS_Store", "node_modules/**"]);
    let parsed = default_excluded_file_globs();
    assert_eq!(normalize_excluded_file_globs(&parsed), parsed);
}

#[test]
fn startup_reloads_the_last_folder_only_when_it_is_there() {
    assert_eq!(startup_action(StartupMode::ReloadLast, true), StartupAction::OpenLast);
    assert_eq!(startup_action(StartupMode::ReloadLast, false), StartupAction::OpenDefault);
    assert_eq!(startup_action(StartupMode::NewNote, true), StartupAction::OpenDefaultWithNewNote);
    assert_eq!(startup_action(StartupMode::NewNote, false), StartupAction::OpenDefaultWithNewNote);
}

#[test]
fn heading_offset_is_the_first_matching_line_outside_fences() {
    let source = "```\n## Twin\n```\nintro\n## Twin\ntext\n## Twin\n";
    assert_eq!(byte_offset_for_heading(source, 2, "Twin"), Some(22));
    assert_eq!(byte_offset_for_heading(source, 3, "Twin"), None);
}
