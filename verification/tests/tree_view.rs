use sideromelane::folder::NoteId;
use sideromelane::tree::{ancestor_paths, build_tree};

fn note(path: &str) -> NoteId {
    NoteId::from_folder_relative_path(path).expect("valid note id")
}

#[test]
fn flat_notes_sit_at_root() {
    let tree = build_tree(&[note("a.md"), note("b.md")]);
    assert!(tree.subdirs.is_empty());
    assert_eq!(tree.root_notes.len(), 2);
    assert_eq!(tree.root_notes[0].file_stem(), "a");
    assert_eq!(tree.root_notes[1].file_stem(), "b");
}

#[test]
fn nested_notes_create_subdirs() {
    let tree = build_tree(&[
        note("Cloud/Plan.md"),
        note("Cloud/Charter.md"),
        note("Index.md"),
    ]);
    assert_eq!(tree.root_notes.len(), 1);
    assert_eq!(tree.subdirs.len(), 1);
    assert_eq!(tree.subdirs[0].name, "Cloud");
    assert_eq!(tree.subdirs[0].relative_path, "Cloud");
    assert_eq!(tree.subdirs[0].notes.len(), 2);
    assert_eq!(tree.subdirs[0].notes[0].file_stem(), "Charter");
    assert_eq!(tree.subdirs[0].notes[1].file_stem(), "Plan");
}

#[test]
fn deep_nesting_works() {
    let tree = build_tree(&[note("a/b/c/Deep.md")]);
    assert_eq!(tree.subdirs.len(), 1);
    let level1 = &tree.subdirs[0];
    assert_eq!(level1.name, "a");
    assert_eq!(level1.relative_path, "a");
    assert_eq!(level1.subdirs.len(), 1);
    let level2 = &level1.subdirs[0];
    assert_eq!(level2.name, "b");
    assert_eq!(level2.relative_path, "a/b");
    let level3 = &level2.subdirs[0];
    assert_eq!(level3.name, "c");
    assert_eq!(level3.relative_path, "a/b/c");
    assert_eq!(level3.notes.len(), 1);
    assert_eq!(level3.notes[0].file_stem(), "Deep");
}

#[test]
fn directory_with_subdirs_and_notes_keeps_both() {
    let tree = build_tree(&[
        note("Cloud/Plan.md"),
        note("Cloud/Q4/Forecast.md"),
        note("Cloud/Q4/Notes.md"),
        note("Cloud/Charter.md"),
    ]);
    assert_eq!(tree.subdirs.len(), 1);
    let cloud = &tree.subdirs[0];
    assert_eq!(cloud.name, "Cloud");
    assert_eq!(cloud.notes.len(), 2);
    assert_eq!(cloud.notes[0].file_stem(), "Charter");
    assert_eq!(cloud.notes[1].file_stem(), "Plan");
    assert_eq!(cloud.subdirs.len(), 1);
    let q4 = &cloud.subdirs[0];
    assert_eq!(q4.name, "Q4");
    assert_eq!(q4.relative_path, "Cloud/Q4");
    assert_eq!(q4.notes.len(), 2);
    assert_eq!(q4.notes[0].file_stem(), "Forecast");
    assert_eq!(q4.notes[1].file_stem(), "Notes");
}

#[test]
fn multiple_top_level_subdirs_are_sorted() {
    let tree = build_tree(&[note("Zeta/A.md"), note("Alpha/B.md"), note("Mid/C.md")]);
    let names: Vec<&str> = tree.subdirs.iter().map(|d| d.name.as_str()).collect();
    assert_eq!(names, vec!["Alpha", "Mid", "Zeta"]);
}

#[test]
fn ancestor_paths_returns_each_directory_step() {
    let ancestors = ancestor_paths(&note("a/b/c/Deep.md"));
    assert_eq!(ancestors, vec!["a", "a/b", "a/b/c"]);
}

#[test]
fn ancestor_paths_empty_for_root_notes() {
    assert!(ancestor_paths(&note("Index.md")).is_empty());
}

#[test]
fn notes_sort_by_stem_bytes() {
    let tree = build_tree(&[note("x/b.md"), note("x/a.md"), note("y/a.md"), note("x/a.markdown.md")]);
    let x = &tree.subdirs[0];
    assert_eq!(x.name, "x");
    let stems: Vec<&str> = x.notes.iter().map(|n| n.relative_path()).collect();
    assert_eq!(stems, vec!["x/a.md", "x/a.markdown.md", "x/b.md"]);
    assert_eq!(tree.subdirs[1].name, "y");
}

#[test]
fn subdirectory_names_sort_by_bytes() {
    let tree = build_tree(&[note("b/n.md"), note("B/n.md"), note("a/n.md"), note("b/n2.md")]);
    let names: Vec<&str> = tree.subdirs.iter().map(|d| d.name.as_str()).collect();
    assert_eq!(names, vec!["B", "a", "b"]);
    assert_eq!(tree.subdirs[2].notes.len(), 2);
}

fn collect_paths(dir: &sideromelane::tree::DirNode, out: &mut Vec<String>) {
    for n in &dir.notes {
        assert_eq!(n.relative_path().rsplit_once('/').map(|(p, _)| p), Some(dir.relative_path.as_str()));
        out.push(n.relative_path().to_owned());
    }
    for d in &dir.subdirs {
        collect_paths(d, out);
    }
}

#[test]
fn every_note_is_listed_once_under_its_parent() {
    let paths = ["a.md", "x/b.md", "x/y/c.md", "x/y/z/d.md", "w/e.md", "x/f.md"];
    let ids: Vec<NoteId> = paths.iter().map(|p| note(p)).collect();
    let tree = build_tree(&ids);
    let mut seen: Vec<String> = tree.root_notes.iter().map(|n| n.relative_path().to_owned()).collect();
    for d in &tree.subdirs {
        collect_paths(d, &mut seen);
    }
    seen.sort();
    let mut expected: Vec<String> = paths.iter().map(|p| (*p).to_owned()).collect();
    expected.sort();
    assert_eq!(seen, expected);
}
