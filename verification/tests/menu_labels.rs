use sideromelane::menu::{display_label, shorten, MenuAction, RECENT_LABEL_MAX};

#[test]
fn display_label_for_short_path() {
    // "/Users/me/Notes": file name "Notes", parent "/Users/me".
    let label = display_label("Notes", "/Users/me");
    assert!(label.starts_with("Notes"));
    assert!(label.contains("/Users/me"));
}

#[test]
fn display_label_truncates_long_parent() {
    let long_parent = "/Users/me/".to_owned() + &"deep/".repeat(40);
    let label = display_label("Plan.md", &long_parent);
    assert!(label.starts_with("Plan.md"));
    assert!(label.chars().count() <= RECENT_LABEL_MAX);
    assert!(label.contains('\u{2026}'));
}

#[test]
fn shorten_keeps_short_strings_intact() {
    assert_eq!(shorten("hello"), "hello");
}

#[test]
fn shorten_truncates_with_leading_ellipsis() {
    let long: String = "x".repeat(RECENT_LABEL_MAX + 10);
    let out = shorten(&long);
    assert_eq!(out.chars().count(), RECENT_LABEL_MAX);
    assert!(out.starts_with('\u{2026}'));
}

#[test]
fn display_label_exact_forms() {
    assert_eq!(display_label("Notes", "/Users/me"), "Notes \u{2014} /Users/me");
    assert_eq!(display_label("Notes", ""), "Notes");
    let parent = "/".to_owned() + &"p".repeat(70);
    // 64 - (7 + 5) = 52 characters of the parent survive.
    let label = display_label("Plan.md", &parent);
    let expected = format!("Plan.md \u{2014} \u{2026}{}", "p".repeat(52));
    assert_eq!(label, expected);
}

#[test]
fn display_label_keeps_at_least_eight_parent_chars() {
    let name = "n".repeat(70);
    let label = display_label(&name, "/abcdefghijkl");
    let expected = format!("{name} \u{2014} \u{2026}efghijkl");
    assert_eq!(label, expected);
}

#[test]
fn shorten_keeps_the_tail_of_multibyte_text() {
    let long = "é".repeat(70);
    let out = shorten(&long);
    assert_eq!(out, format!("\u{2026}{}", "é".repeat(63)));
}

#[test]
fn menu_action_carries_recent_path() {
    let a = MenuAction::OpenRecent("/tmp/notes".to_owned());
    assert_eq!(a.clone(), MenuAction::OpenRecent("/tmp/notes".to_owned()));
    assert_ne!(a, MenuAction::Save);
}
