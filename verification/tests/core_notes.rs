use sideromelane::analysis::{merged_tags, non_fence_ranges, ImageEmbed, NoteAnalysis, WikiLink};
use sideromelane::folder::{FolderPathError, NoteId};
use sideromelane::note::{MarkdownNote, MetadataValue, Tag};
use sideromelane::project_name;

#[test]
fn project_name_is_stable() {
    assert_eq!(project_name(), "Sideromelane");
}

#[test]
fn project_exports_name() {
    assert_eq!(project_name(), "Sideromelane");
}

#[test]
fn note_id_accepts_nested_markdown_paths() {
    let note_id = NoteId::from_folder_relative_path("notes/Launch Plan.md").unwrap();

    assert_eq!(note_id.relative_path(), "notes/Launch Plan.md");
    assert_eq!(note_id.file_stem(), "Launch Plan");
}

#[test]
fn note_id_rejects_paths_that_are_not_safe_vault_notes() {
    for path in [
        "",
        ".",
        "/tmp/secret.md",
        "../secret.md",
        "notes/../../secret.md",
        "notes/",
        "assets/image.png",
    ] {
        assert!(
            NoteId::from_folder_relative_path(path).is_err(),
            "expected {path:?} to be rejected"
        );
    }
}

#[test]
fn parses_note_body_and_simple_frontmatter() {
    let note_id = NoteId::from_folder_relative_path("plans/Launch Plan.md").unwrap();
    let note = MarkdownNote::parse(
        note_id,
        r#"---
title: Launch Plan
tags: [planning, product]
status: draft
priority: "high"
---

# Launch Plan

Ship the [[Release Checklist]].
"#,
    );

    let frontmatter = note.frontmatter().unwrap();

    assert_eq!(
        note.body(),
        "# Launch Plan\n\nShip the [[Release Checklist]].\n"
    );
    assert_eq!(frontmatter.scalar("title"), Some("Launch Plan"));
    assert_eq!(frontmatter.scalar("status"), Some("draft"));
    assert_eq!(frontmatter.scalar("priority"), Some("high"));
    assert_eq!(
        frontmatter.list("tags"),
        Some([String::from("planning"), String::from("product")].as_slice())
    );
    assert_eq!(
        frontmatter.get("priority"),
        Some(&MetadataValue::Scalar(String::from("high")))
    );
}

#[test]
fn treats_text_without_complete_frontmatter_as_body() {
    let note_id = NoteId::from_folder_relative_path("Inbox.md").unwrap();
    let source = "---\ntitle: Missing Close\n\n# Still Source\n";
    let note = MarkdownNote::parse(note_id, source);

    assert!(note.frontmatter().is_none());
    assert_eq!(note.body(), source);
}

#[test]
fn extracts_headings_links_and_image_embeds_from_note_body() {
    let note_id = NoteId::from_folder_relative_path("plans/Launch Plan.md").unwrap();
    let note = MarkdownNote::parse(
        note_id,
        r"---
title: Launch Plan
---

# Launch Plan

Ship the [[Release Checklist]] and review [[Roadmap]].

![[diagram.png]]

## Milestones
",
    );

    let analysis = NoteAnalysis::from_note(&note);

    assert_eq!(
        analysis
            .headings()
            .iter()
            .map(|heading| (heading.level(), heading.text()))
            .collect::<Vec<_>>(),
        vec![(1, "Launch Plan"), (2, "Milestones")]
    );
    assert_eq!(
        analysis
            .wiki_links()
            .iter()
            .map(WikiLink::target)
            .collect::<Vec<_>>(),
        vec!["Release Checklist", "Roadmap"]
    );
    assert_eq!(
        analysis
            .image_embeds()
            .iter()
            .map(ImageEmbed::target)
            .collect::<Vec<_>>(),
        vec!["diagram.png"]
    );
}

#[test]
fn double_bang_is_not_an_image_embed() {
    let note_id = NoteId::from_folder_relative_path("scratch/test.md").unwrap();
    let note = MarkdownNote::parse(
        note_id,
        "Not an image: !![[fake.png]] but this is: ![[real.png]]\n",
    );
    let analysis = NoteAnalysis::from_note(&note);

    let embed_targets: Vec<&str> = analysis
        .image_embeds()
        .iter()
        .map(ImageEmbed::target)
        .collect();
    assert!(
        !embed_targets.contains(&"fake.png"),
        "!![[fake.png]] must not be treated as image embed"
    );
    assert!(
        embed_targets.contains(&"real.png"),
        "![[real.png]] must be treated as image embed"
    );
}

#[test]
fn wiki_link_alias_and_anchor_are_parsed() {
    let note_id = NoteId::from_folder_relative_path("scratch/test.md").unwrap();
    let note = MarkdownNote::parse(
        note_id,
        "[[Note|display alias]] [[Other#section]] [[Both#anchor|label]] [[Bare]]\n",
    );
    let analysis = NoteAnalysis::from_note(&note);
    let links = analysis.wiki_links();

    assert_eq!(links[0].target(), "Note");
    assert_eq!(links[0].alias(), Some("display alias"));
    assert_eq!(links[0].anchor(), None);

    assert_eq!(links[1].target(), "Other");
    assert_eq!(links[1].anchor(), Some("section"));
    assert_eq!(links[1].alias(), None);

    assert_eq!(links[2].target(), "Both");
    assert_eq!(links[2].anchor(), Some("anchor"));
    assert_eq!(links[2].alias(), Some("label"));

    assert_eq!(links[3].target(), "Bare");
    assert_eq!(links[3].anchor(), None);
    assert_eq!(links[3].alias(), None);
}

#[test]
fn merged_tags_returns_sorted_deduplicated_union_of_frontmatter_and_inline() {
    let note_id = NoteId::from_folder_relative_path("notes/K8s.md").unwrap();
    let note = MarkdownNote::parse(
        note_id,
        "---\ntags: [datadog, kubernetes]\n---\n\nSee #kubernetes and #sumologic.\n",
    );
    let analysis = NoteAnalysis::from_note(&note);
    let tags = merged_tags(&note, &analysis);
    let names: Vec<&str> = tags.iter().map(Tag::name).collect();
    assert_eq!(names, ["datadog", "kubernetes", "sumologic"]);
}

#[test]
fn merged_tags_with_only_inline_tags_returns_those_tags() {
    let note_id = NoteId::from_folder_relative_path("notes/Inline.md").unwrap();
    let note = MarkdownNote::parse(
        note_id,
        "---\ntitle: Inline Only\n---\n\nUses #celery and #datadog.\n",
    );
    let analysis = NoteAnalysis::from_note(&note);
    let tags = merged_tags(&note, &analysis);
    let names: Vec<&str> = tags.iter().map(Tag::name).collect();
    assert_eq!(names, ["celery", "datadog"]);
}

#[test]
fn fenced_code_block_content_is_not_extracted() {
    let source = "# Project Overview\n\nSee [[Roadmap]].\n\n```\n[[fake_link]]\n# fake heading\n[[another_fake]]\n```\n\n~~~\n[[also_fake]]\n# fake tilde heading\n~~~\n\nSee also [[Appendix]].\n";
    let note_id = NoteId::from_folder_relative_path("valid/Project Overview.md").unwrap();
    let note = MarkdownNote::parse(note_id, source);
    let analysis = NoteAnalysis::from_note(&note);

    let link_targets: Vec<&str> = analysis.wiki_links().iter().map(WikiLink::target).collect();
    assert!(!link_targets.contains(&"fake_link"));
    assert!(!link_targets.contains(&"another_fake"));
    assert!(!link_targets.contains(&"also_fake"));
    let heading_texts: Vec<&str> = analysis.headings().iter().map(|h| h.text()).collect();
    assert!(!heading_texts.contains(&"fake heading"));
    assert!(!heading_texts.contains(&"fake tilde heading"));
    assert!(link_targets.contains(&"Roadmap"));
    assert!(link_targets.contains(&"Appendix"));
}

#[test]
fn duplicate_frontmatter_keys_last_wins() {
    let note_id = NoteId::from_folder_relative_path("dup.md").unwrap();
    let note = MarkdownNote::parse(note_id, "---\nstatus: draft\nstatus: final\n---\nBody\n");
    let fm = note.frontmatter().unwrap();
    assert_eq!(fm.scalar("status"), Some("final"));
    assert_eq!(fm.fields().len(), 1);
    assert_eq!(note.body(), "Body\n");
}

#[test]
fn tag_new_validates_names() {
    assert_eq!(Tag::new("#foo").unwrap().name(), "foo");
    assert_eq!(Tag::new("foo/bar").unwrap().name(), "foo/bar");
    assert!(Tag::new("#").is_err());
    assert!(Tag::new("").is_err());
    assert!(matches!(Tag::new("foo bar"), Err(sideromelane::note::TagError::InvalidChar(' '))));
    assert!(matches!(Tag::new("foo#bar"), Err(sideromelane::note::TagError::InvalidChar('#'))));
    assert!(matches!(Tag::new("caf\u{e9}"), Err(sideromelane::note::TagError::InvalidChar('\u{e9}'))));
}

#[test]
fn inline_tags_skip_code_and_mid_word() {
    let note_id = NoteId::from_folder_relative_path("t.md").unwrap();
    let note = MarkdownNote::parse(
        note_id,
        "#start text#nope `#code` #tag. #a/b #tag\n```\n#fenced\n```\n",
    );
    let analysis = NoteAnalysis::from_note(&note);
    let names: Vec<&str> = analysis.inline_tags().iter().map(Tag::name).collect();
    assert_eq!(names, ["start", "tag", "a/b"]);
}

#[test]
fn dot_segments_are_refused_anywhere_in_a_note_path() {
    use_error(NoteId::from_folder_relative_path("notes/./Plan.md"));
    use_error(NoteId::from_folder_relative_path("./Plan.md"));
    use_error(NoteId::from_folder_relative_path("notes/Plan/."));
    assert!(NoteId::from_folder_relative_path("notes/.hidden/Plan.md").is_ok());
    assert!(NoteId::from_folder_relative_path("notes//Plan.md").is_ok());
}

fn use_error(r: Result<NoteId, FolderPathError>) {
    assert_eq!(r.err(), Some(FolderPathError::UnsafeComponent));
}

#[test]
fn a_body_without_fences_is_one_range() {
    let body = "# Title\n  ``not a fence\n\ttext ~~\n";
    assert_eq!(non_fence_ranges(body), vec![0..body.len()]);
    assert_eq!(non_fence_ranges(""), Vec::<std::ops::Range<usize>>::new());
    let fenced = "a\n```\ncode\n```\nb\n";
    assert_eq!(non_fence_ranges(fenced), vec![0..2, 15..17]);
}

#[test]
fn fence_free_ranges_start_lines_and_never_touch() {
    let body = "a\n```\nx\n```\nb\n~~~\ny\n~~~\nc";
    let ranges = non_fence_ranges(body);
    assert_eq!(ranges, vec![0..2, 12..14, 24..25]);
    for range in &ranges {
        assert!(range.start == 0 || body.as_bytes()[range.start - 1] == b'\n');
    }
    for pair in ranges.windows(2) {
        assert!(pair[0].end < pair[1].start);
    }
}

#[test]
fn repeated_frontmatter_keys_keep_the_last_value() {
    let id = NoteId::from_folder_relative_path("notes/Dup.md").unwrap();
    let note = MarkdownNote::parse(id, "---\ntitle: First Title\ntitle: Second Title\n---\nBody\n");
    let fm = note.frontmatter().unwrap();
    assert_eq!(fm.scalar("title"), Some("Second Title"));
}

#[test]
fn colons_inside_frontmatter_values_are_kept() {
    let id = NoteId::from_folder_relative_path("notes/Colon.md").unwrap();
    let note = MarkdownNote::parse(id, "---\nsummary: \"foo: bar\"\nurl: https://example.com\n---\nBody\n");
    let fm = note.frontmatter().unwrap();
    assert_eq!(fm.scalar("summary"), Some("foo: bar"));
    assert!(fm.get("url").is_some());
}

#[test]
fn unterminated_frontmatter_stays_in_the_body() {
    let id = NoteId::from_folder_relative_path("notes/Open.md").unwrap();
    let source = "---\ntitle: Fake\n\nBody Starts Here\n";
    let note = MarkdownNote::parse(id, source);
    assert!(note.frontmatter().is_none());
    assert!(note.body().contains("Body Starts Here"));
}
