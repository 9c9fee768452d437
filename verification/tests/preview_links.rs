use sideromelane::preview::{image_embed_targets, transform_wiki_links};

/// Renders `source` with every named image placed under `/notes/assets`.
fn render(source: &str) -> String {
    let paths: Vec<Option<String>> = image_embed_targets(source)
        .into_iter()
        .map(|target| Some(format!("/notes/assets/{target}")))
        .collect();
    transform_wiki_links(source, &paths)
}

#[test]
fn bare_wiki_link_becomes_note_uri() {
    let out = render("See [[Note]] today.");
    assert_eq!(out, "See [Note](sideromelane://note/Note) today.");
}

#[test]
fn aliased_wiki_link_uses_alias_as_display() {
    let out = render("See [[Note|Alias]].");
    assert_eq!(out, "See [Alias](sideromelane://note/Note).");
}

#[test]
fn anchored_wiki_link_preserves_anchor() {
    let out = render("See [[Note#anchor]].");
    assert_eq!(out, "See [Note](sideromelane://note/Note#anchor).");
}

#[test]
fn anchored_aliased_wiki_link_uses_both() {
    let out = render("See [[Note#anchor|Alias]].");
    assert_eq!(out, "See [Alias](sideromelane://note/Note#anchor).");
}

#[test]
fn image_embed_resolves_against_folder_assets() {
    let out = render("![[diagram.png]]");
    assert_eq!(out, "![image](file:///notes/assets/diagram.png)");
}

#[test]
fn fenced_code_blocks_are_skipped() {
    let input = "before [[A]]\n\n```\n[[Inside]] should not change\n```\n\nafter [[B]]\n";
    let out = render(input);
    let expected = "before [A](sideromelane://note/A)\n\n```\n[[Inside]] should not change\n```\n\nafter [B](sideromelane://note/B)\n";
    assert_eq!(out, expected);
}

#[test]
fn tilde_fenced_code_block_is_skipped() {
    let input = "~~~\n[[Inside]]\n~~~\n[[Outside]]\n";
    let out = render(input);
    assert_eq!(
        out,
        "~~~\n[[Inside]]\n~~~\n[Outside](sideromelane://note/Outside)\n"
    );
}

#[test]
fn empty_brackets_are_left_alone() {
    let out = render("text [[]] more");
    assert_eq!(out, "text [[]] more");
}

#[test]
fn image_embed_dot_traversal_is_rendered_inert() {
    let out = render("![[../../../etc/passwd]]");
    assert_eq!(out, "![[../../../etc/passwd]]");
}

#[test]
fn image_embed_bracket_injected_name_is_rendered_inert() {
    let out = render("![[foo[evil].png]]");
    assert_eq!(out, "![[foo[evil].png]]");
}

#[test]
fn image_embed_without_a_path_stays_literal() {
    let out = transform_wiki_links("a ![[pic.png]] b", &[None]);
    assert_eq!(out, "a ![[pic.png]] b");
    let out = transform_wiki_links("a ![[pic.png]] b", &[]);
    assert_eq!(out, "a ![[pic.png]] b");
}

#[test]
fn image_paths_follow_the_order_of_named_embeds() {
    let source = "![[.hidden.png]] ![[one.png|First]] x![[inline.png]] ![[two.gif]]";
    // The dotfile is not a valid asset name; `x!` is not an embed prefix.
    assert_eq!(image_embed_targets(source), vec!["one.png".to_owned(), "two.gif".to_owned()]);
    let out = transform_wiki_links(source, &[Some("/a/1.png".to_owned()), Some("/a/2.gif".to_owned())]);
    assert_eq!(
        out,
        "![[.hidden.png]] ![First](file:///a/1.png) x![inline.png](sideromelane://note/inline.png) ![image](file:///a/2.gif)"
    );
}

#[test]
fn unterminated_link_is_copied() {
    assert_eq!(render("a [[b c"), "a [[b c");
}
