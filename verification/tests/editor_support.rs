use std::cell::Cell;

use sideromelane::wiki_link_popup::WikiLinkPopup;
use sideromelane::editor::{
    raw_popup_pass, PopupKeys, block_at_offset, replace_block_text, note_link_target, render_block_preview,
    char_idx_to_byte, complete_note_links, extract_note_link_targets, find_wiki_link_prefix,
    get_or_insert_cached_preview, hash_block_text, markdown_blocks, splice_wiki_completion,
    sweep_stale_block_previews, BlockPreviewCache, CachedBlockPreview,
};

#[test]
fn get_or_insert_cached_preview_invokes_compute_once_per_key() {
    let mut cache = BlockPreviewCache::new();
    let calls = Cell::new(0u32);
    let range = 0..10;
    let hash = hash_block_text("body");

    let first = get_or_insert_cached_preview(&mut cache, range.clone(), hash, || {
        calls.set(calls.get() + 1);
        CachedBlockPreview {
            transformed: "out".to_owned(),
            link_targets: Vec::new(),
        }
    });
    assert_eq!(first.transformed, "out");
    assert_eq!(calls.get(), 1, "compute should run on miss");

    let second = get_or_insert_cached_preview(&mut cache, range, hash, || {
        calls.set(calls.get() + 1);
        CachedBlockPreview {
            transformed: "should not be used".to_owned(),
            link_targets: Vec::new(),
        }
    });
    assert_eq!(
        second.transformed, "out",
        "second call must reuse the cached value"
    );
    assert_eq!(calls.get(), 1, "compute must not run on hit");
}

#[test]
fn get_or_insert_cached_preview_misses_on_hash_change() {
    let mut cache = BlockPreviewCache::new();
    let range = 0..10;

    let calls = Cell::new(0u32);
    get_or_insert_cached_preview(&mut cache, range.clone(), 1, || {
        calls.set(calls.get() + 1);
        CachedBlockPreview {
            transformed: String::new(),
            link_targets: Vec::new(),
        }
    });
    get_or_insert_cached_preview(&mut cache, range, 2, || {
        calls.set(calls.get() + 1);
        CachedBlockPreview {
            transformed: String::new(),
            link_targets: Vec::new(),
        }
    });
    assert_eq!(
        calls.get(),
        2,
        "hash change must produce a fresh cache miss"
    );
}

#[test]
fn sweep_stale_block_previews_drops_entries_outside_current_layout() {
    let mut cache = BlockPreviewCache::new();
    cache.insert(
        (0..10, 1),
        CachedBlockPreview {
            transformed: "a".to_owned(),
            link_targets: Vec::new(),
        },
    );
    cache.insert(
        (10..20, 2),
        CachedBlockPreview {
            transformed: "b".to_owned(),
            link_targets: Vec::new(),
        },
    );

    sweep_stale_block_previews(&mut cache, &[0..10]);

    assert!(cache.contains_key(&(0..10, 1)), "0..10 must survive sweep");
    assert!(!cache.contains_key(&(10..20, 2)), "10..20 must be evicted");
}

#[test]
fn extract_note_link_targets_collects_unique_urls() {
    let text = "see [a](sideromelane://note/A) and [b](sideromelane://note/B) and [a again](sideromelane://note/A)";
    let targets = extract_note_link_targets(text);
    assert_eq!(
        targets,
        vec![
            "sideromelane://note/A".to_owned(),
            "sideromelane://note/B".to_owned(),
        ]
    );
}

#[test]
fn wiki_prefix_returns_prefix_when_cursor_inside_open_link() {
    assert_eq!(find_wiki_link_prefix("[[Foo", 5), Some("Foo"));
}

#[test]
fn wiki_prefix_returns_empty_string_at_bare_open_bracket() {
    assert_eq!(find_wiki_link_prefix("[[", 2), Some(""));
}

#[test]
fn wiki_prefix_returns_none_when_link_already_closed() {
    assert_eq!(find_wiki_link_prefix("[[Foo]]", 7), None);
}

#[test]
fn wiki_prefix_returns_prefix_for_second_open_link() {
    let src = "[[Done]] [[Bar";
    assert_eq!(find_wiki_link_prefix(src, src.len()), Some("Bar"));
}

#[test]
fn wiki_prefix_returns_none_when_cursor_before_open_bracket() {
    assert_eq!(find_wiki_link_prefix("[[Foo", 0), None);
}

#[test]
fn wiki_prefix_returns_none_for_plain_text() {
    let src = "no wiki links here";
    assert_eq!(find_wiki_link_prefix(src, src.len()), None);
}

#[test]
fn wiki_prefix_mid_prefix() {
    let src = "text [[Foc";
    assert_eq!(find_wiki_link_prefix(src, src.len()), Some("Foc"));
}

#[test]
fn complete_links_returns_case_insensitive_substring_matches() {
    let stems = ["Alpha", "alpha-two", "Beta", "Alphabet"];
    assert_eq!(
        complete_note_links(&stems, "alpha"),
        vec!["Alpha", "alpha-two", "Alphabet"]
    );
}

#[test]
fn complete_links_empty_prefix_returns_all_up_to_cap() {
    let stems: Vec<&str> = (0..15).map(|_| "Note").collect();
    assert_eq!(complete_note_links(&stems, "").len(), 10);
}

#[test]
fn complete_links_returns_empty_when_no_match() {
    let stems = ["Alpha", "Beta"];
    assert!(complete_note_links(&stems, "Gamma").is_empty());
}

#[test]
fn complete_links_is_case_insensitive() {
    let stems = ["MyNote"];
    assert_eq!(complete_note_links(&stems, "mynote"), vec!["MyNote"]);
}

#[test]
fn popup_pipeline_filters_by_bracket_prefix() {
    let source = "See [[Foc";
    let cursor_byte = source.len();
    let prefix = find_wiki_link_prefix(source, cursor_byte).expect("prefix");
    assert_eq!(prefix, "Foc");
    let stems = ["Focus", "Notes", "Filter"];
    let results = complete_note_links(&stems, prefix);
    assert_eq!(results, vec!["Focus"]);
}

#[test]
fn popup_pipeline_empty_prefix_shows_all_stems() {
    let source = "[[";
    let cursor_byte = source.len();
    let prefix = find_wiki_link_prefix(source, cursor_byte).expect("cursor inside [[ span");
    assert_eq!(prefix, "");
    let stems = ["Alpha", "Beta", "Gamma"];
    let results = complete_note_links(&stems, prefix);
    assert_eq!(results, vec!["Alpha", "Beta", "Gamma"]);
}

#[test]
fn popup_pipeline_completed_link_shows_no_popup() {
    let source = "[[Focus]]";
    let cursor_byte = source.len();
    assert!(find_wiki_link_prefix(source, cursor_byte).is_none());
}

#[test]
fn char_idx_to_byte_ascii_identity() {
    assert_eq!(char_idx_to_byte("hello", 3), 3);
}

#[test]
fn char_idx_to_byte_multibyte_char() {
    assert_eq!(char_idx_to_byte("café", 3), 3);
    assert_eq!(char_idx_to_byte("café", 4), 5);
}

#[test]
fn char_idx_to_byte_past_end_clamps_to_len() {
    assert_eq!(char_idx_to_byte("hi", 99), 2);
}

#[test]
fn char_idx_to_byte_at_zero() {
    assert_eq!(char_idx_to_byte("hello", 0), 0);
}

#[test]
fn splice_completes_simple_prefix() {
    let mut source = "text [[Foc".to_string();
    let cursor_byte = source.len();
    let new_char =
        splice_wiki_completion(&mut source, cursor_byte, "Focus").expect("source contains [[");
    assert_eq!(source, "text [[Focus]]");
    assert_eq!(new_char, 14);
}

#[test]
fn splice_completes_at_bare_open_bracket() {
    let mut source = "[[".to_string();
    let cursor_byte = source.len();
    let new_char =
        splice_wiki_completion(&mut source, cursor_byte, "Alpha").expect("source contains [[");
    assert_eq!(source, "[[Alpha]]");
    assert_eq!(new_char, 9);
}

#[test]
fn splice_completes_with_longer_stem_than_prefix() {
    let mut source = "[[A".to_string();
    let cursor_byte = source.len();
    splice_wiki_completion(&mut source, cursor_byte, "Alphabet").expect("source contains [[");
    assert_eq!(source, "[[Alphabet]]");
}

#[test]
fn splice_handles_multibyte_text_before_bracket() {
    let mut source = "café [[N".to_string();
    let cursor_byte = source.len();
    let new_char =
        splice_wiki_completion(&mut source, cursor_byte, "Notes").expect("source contains [[");
    assert_eq!(source, "café [[Notes]]");
    assert_eq!(new_char, 5 + 9);
}

#[test]
fn splice_returns_none_when_no_open_bracket() {
    let mut source = "plain text".to_string();
    let cursor_byte = source.len();
    assert!(splice_wiki_completion(&mut source, cursor_byte, "Note").is_none());
    assert_eq!(source, "plain text");
}

// ── further cases ──────────────────────────────────────────────────────

#[test]
fn cache_insert_replaces_value_under_same_key() {
    let mut cache = BlockPreviewCache::new();
    let make = |s: &str| CachedBlockPreview {
        transformed: s.to_owned(),
        link_targets: Vec::new(),
    };
    cache.insert((0..4, 7), make("first"));
    cache.insert((0..4, 7), make("second"));
    assert_eq!(cache.len(), 1);
    let got = get_or_insert_cached_preview(&mut cache, 0..4, 7, || make("unused"));
    assert_eq!(got.transformed, "second");
}

#[test]
fn hash_block_text_distinguishes_texts() {
    assert_eq!(hash_block_text("abc"), hash_block_text("abc"));
    assert_ne!(hash_block_text("abc"), hash_block_text("abd"));
}

#[test]
fn wiki_prefix_cursor_mid_text_looks_back_only() {
    // Cursor inside the first link; the rest of the text is ignored.
    assert_eq!(find_wiki_link_prefix("[[Ab]] x", 4), Some("Ab"));
    // A cursor past the end of the text gives no prefix.
    assert_eq!(find_wiki_link_prefix("[[Ab", 9), None);
}

#[test]
fn extract_note_link_targets_ignores_other_schemes() {
    let text = "[x](https://example.com) [y](sideromelane://note/work/Plan.md)";
    assert_eq!(
        extract_note_link_targets(text),
        vec!["sideromelane://note/work/Plan.md".to_owned()]
    );
}

#[test]
fn markdown_blocks_split_on_blank_lines() {
    let blocks = markdown_blocks("# T\n\npara one\nstill\n\n- a\n");
    let texts: Vec<&str> = blocks.iter().map(|b| b.text.as_str()).collect();
    assert_eq!(texts, vec!["# T\n", "\n", "para one\nstill\n", "\n", "- a\n"]);
    let ranges: Vec<(usize, usize)> = blocks.iter().map(|b| (b.range.start, b.range.end)).collect();
    assert_eq!(ranges, vec![(0, 4), (4, 5), (5, 20), (20, 21), (21, 25)]);
}

#[test]
fn popup_pass_offers_then_completes_highlighted_stem() {
    let stems = ["Focus", "Forecast", "Notes"];
    let mut source = "café [[fo".to_string();
    let mut popup = WikiLinkPopup::default();
    let cursor = source.chars().count();
    let none = raw_popup_pass(&mut source, Some(cursor), &stems, &mut popup, PopupKeys::default());
    assert_eq!(none, None);
    assert_eq!(popup.selected_item(), Some("Focus"));
    let down = PopupKeys { down: true, ..PopupKeys::default() };
    assert_eq!(raw_popup_pass(&mut source, Some(cursor), &stems, &mut popup, down), None);
    assert_eq!(popup.selected_item(), Some("Forecast"));
    let enter = PopupKeys { enter: true, ..PopupKeys::default() };
    let new_cursor = raw_popup_pass(&mut source, Some(cursor), &stems, &mut popup, enter);
    assert_eq!(source, "café [[Forecast]]");
    assert_eq!(new_cursor, Some(17));
    assert!(popup.is_empty());
}

#[test]
fn popup_pass_closes_on_escape_or_outside_link() {
    let stems = ["Alpha"];
    let mut source = "[[Al".to_string();
    let mut popup = WikiLinkPopup::default();
    raw_popup_pass(&mut source, Some(4), &stems, &mut popup, PopupKeys::default());
    assert!(!popup.is_empty());
    let escape = PopupKeys { escape: true, ..PopupKeys::default() };
    assert_eq!(raw_popup_pass(&mut source, Some(4), &stems, &mut popup, escape), None);
    assert!(popup.is_empty());
    raw_popup_pass(&mut source, Some(4), &stems, &mut popup, PopupKeys::default());
    raw_popup_pass(&mut source, None, &stems, &mut popup, PopupKeys::default());
    assert!(popup.is_empty());
    raw_popup_pass(&mut source, Some(1), &stems, &mut popup, PopupKeys::default());
    assert!(popup.is_empty());
    assert_eq!(source, "[[Al");
}

#[test]
fn jump_offset_selects_holding_block_or_last() {
    let blocks = markdown_blocks("# T\n\npara\n");
    assert_eq!(block_at_offset(&blocks, 0), Some(0));
    assert_eq!(block_at_offset(&blocks, 6), Some(2));
    assert_eq!(block_at_offset(&blocks, 500), Some(blocks.len() - 1));
    assert_eq!(block_at_offset(&[], 3), None);
}

#[test]
fn edited_block_replaces_its_range() {
    let mut source = "# T\n\npara\n".to_string();
    replace_block_text(&mut source, 5, 10, "new text\n");
    assert_eq!(source, "# T\n\nnew text\n");
}

#[test]
fn clicked_note_link_loses_its_scheme() {
    assert_eq!(note_link_target("sideromelane://note/Plan#x"), Some("Plan#x".to_owned()));
    assert_eq!(note_link_target("https://example.com"), None);
    assert_eq!(note_link_target("sideromelane://"), None);
}

#[test]
fn block_preview_collects_rendered_note_links() {
    let p = render_block_preview("[[A]] and [[B|b]] and [[A]]", &[]);
    assert_eq!(p.transformed, "[A](sideromelane://note/A) and [b](sideromelane://note/B) and [A](sideromelane://note/A)");
    assert_eq!(p.link_targets, vec!["sideromelane://note/A".to_owned(), "sideromelane://note/B".to_owned()]);
}

#[test]
fn completed_link_offers_no_further_completion() {
    let mut source = String::from("See [[Ro and more");
    let cursor = "See [[Ro".len();
    assert_eq!(find_wiki_link_prefix(&source, cursor), Some("Ro"));
    let after = splice_wiki_completion(&mut source, cursor, "Roadmap").unwrap();
    assert_eq!(source, "See [[Roadmap]] and more");
    let byte = char_idx_to_byte(&source, after);
    assert_eq!(byte, "See [[Roadmap]]".len());
    assert_eq!(find_wiki_link_prefix(&source, byte), None);
}

#[test]
fn blocks_tile_the_source_on_char_boundaries() {
    let source = "---\ntitle: Ünïcode\n---\n# Café\n\nPara één\nstill para\n\n- a\n- b\n\n```\ncode ü\n```\n| x | y |\n|---|---|\n";
    let blocks = markdown_blocks(source);
    let mut last_end = 0;
    for block in &blocks {
        assert!(last_end <= block.range.start);
        assert!(block.range.start <= block.range.end && block.range.end <= source.len());
        assert!(source.is_char_boundary(block.range.start) && source.is_char_boundary(block.range.end));
        assert_eq!(&source[block.range.clone()], block.text);
        last_end = block.range.end;
    }
    assert_eq!(blocks[0].text, "---\ntitle: Ünïcode\n---\n");
}

#[test]
fn block_texts_join_back_to_the_source() {
    for source in ["", "x", "# H\n\ntext\n", "---\na: b\n---\nbody\n- a\n- b\n```\nc\n```\n"] {
        let blocks = markdown_blocks(source);
        assert!(!blocks.is_empty());
        assert_eq!(blocks[0].range.start, 0);
        assert_eq!(blocks[blocks.len() - 1].range.end, source.len());
        let joined: String = blocks.iter().map(|b| b.text.as_str()).collect();
        assert_eq!(joined, source);
    }
}
