use sideromelane::folder::NoteId;
use sideromelane::index::{FolderIndex, GraphNode};
use sideromelane::note::MarkdownNote;
use sideromelane::search::{feature_bucket, SearchIndex, SearchQuery};

fn note_node(id: &NoteId) -> GraphNode {
    GraphNode::Note { note_id: id.clone() }
}

fn stem_of(node: &GraphNode) -> &str {
    node.as_note().unwrap().file_stem()
}

#[test]
fn builds_backlinks_and_graph_edges_from_resolved_wiki_links() {
    let launch_id = NoteId::from_folder_relative_path("plans/Launch Plan.md").unwrap();
    let checklist_id = NoteId::from_folder_relative_path("plans/Release Checklist.md").unwrap();
    let roadmap_id = NoteId::from_folder_relative_path("plans/Roadmap.md").unwrap();

    let launch = MarkdownNote::parse(
        launch_id.clone(),
        "# Launch Plan\n\nUse the [[Release Checklist]] and [[Missing Note]].\n",
    );
    let checklist = MarkdownNote::parse(
        checklist_id.clone(),
        "# Release Checklist\n\nReview the [[Launch Plan]].\n",
    );
    let roadmap = MarkdownNote::parse(roadmap_id.clone(), "# Roadmap\n\nNo links yet.\n");

    let index = FolderIndex::from_notes(vec![launch, checklist, roadmap]);

    assert_eq!(
        index
            .backlinks_to(&launch_id)
            .iter()
            .map(|backlink| backlink.source().file_stem())
            .collect::<Vec<_>>(),
        vec!["Release Checklist"]
    );
    assert_eq!(
        index
            .backlinks_to(&checklist_id)
            .iter()
            .map(|backlink| backlink.source().file_stem())
            .collect::<Vec<_>>(),
        vec!["Launch Plan"]
    );
    assert!(index.backlinks_to(&roadmap_id).is_empty());

    assert_eq!(
        index.graph().nodes().iter().map(stem_of).collect::<Vec<_>>(),
        vec!["Launch Plan", "Release Checklist", "Roadmap"]
    );
    assert_eq!(
        index
            .graph()
            .edges()
            .iter()
            .map(|edge| (stem_of(edge.source()), stem_of(edge.target())))
            .collect::<Vec<_>>(),
        vec![
            ("Launch Plan", "Release Checklist"),
            ("Release Checklist", "Launch Plan"),
        ]
    );
}

#[test]
fn duplicate_stems_produce_non_empty_ambiguous_targets() {
    let paths = ["a/Roadmap.md", "b/Roadmap.md", "Index.md"];
    let notes: Vec<MarkdownNote> = paths
        .iter()
        .map(|rel| {
            let note_id = NoteId::from_folder_relative_path(rel).unwrap();
            MarkdownNote::parse(note_id, "# Note\n\nSee [[Roadmap]].\n")
        })
        .collect();

    let index = FolderIndex::from_notes(notes);
    let ambiguous = index.ambiguous_targets();
    assert!(!ambiguous.is_empty());
    let roadmap = ambiguous.iter().find(|(stem, _)| stem == "Roadmap").unwrap();
    assert_eq!(roadmap.1.len(), 2);
    assert!(index.graph().edges().is_empty());
}

#[test]
fn neighborhood_one_hop_collects_direct_neighbors() {
    let a_id = NoteId::from_folder_relative_path("A.md").unwrap();
    let b_id = NoteId::from_folder_relative_path("B.md").unwrap();
    let c_id = NoteId::from_folder_relative_path("C.md").unwrap();

    let a = MarkdownNote::parse(a_id.clone(), "# A\n[[B]] [[C]]\n");
    let b = MarkdownNote::parse(b_id, "# B\n");
    let c = MarkdownNote::parse(c_id, "# C\n");

    let index = FolderIndex::from_notes(vec![a, b, c]);
    let neighborhood = index.neighborhood(&note_node(&a_id), 1);

    let mut node_stems: Vec<&str> = neighborhood.nodes.iter().map(stem_of).collect();
    node_stems.sort_unstable();
    assert_eq!(node_stems, vec!["A", "B", "C"]);
    assert_eq!(neighborhood.edges.len(), 2);
}

#[test]
fn neighborhood_depth_bounds_traversal() {
    let a_id = NoteId::from_folder_relative_path("A.md").unwrap();
    let b_id = NoteId::from_folder_relative_path("B.md").unwrap();
    let c_id = NoteId::from_folder_relative_path("C.md").unwrap();

    let a = MarkdownNote::parse(a_id.clone(), "# A\n[[B]]\n");
    let b = MarkdownNote::parse(b_id, "# B\n[[C]]\n");
    let c = MarkdownNote::parse(c_id, "# C\n");

    let index = FolderIndex::from_notes(vec![a, b, c]);

    let depth_one = index.neighborhood(&note_node(&a_id), 1);
    let mut one_stems: Vec<&str> = depth_one.nodes.iter().map(stem_of).collect();
    one_stems.sort_unstable();
    assert_eq!(one_stems, vec!["A", "B"]);

    let depth_two = index.neighborhood(&note_node(&a_id), 2);
    let mut two_stems: Vec<&str> = depth_two.nodes.iter().map(stem_of).collect();
    two_stems.sort_unstable();
    assert_eq!(two_stems, vec!["A", "B", "C"]);
}

#[test]
fn neighborhood_unknown_focus_returns_singleton() {
    let known_id = NoteId::from_folder_relative_path("Known.md").unwrap();
    let known = MarkdownNote::parse(known_id.clone(), "# Known\n");
    let index = FolderIndex::from_notes(vec![known]);

    let stranger_id = NoteId::from_folder_relative_path("Stranger.md").unwrap();
    let neighborhood = index.neighborhood(&note_node(&stranger_id), 3);

    assert_eq!(neighborhood.nodes, vec![note_node(&stranger_id)]);
    assert!(neighborhood.edges.is_empty());

    let zero_depth = index.neighborhood(&note_node(&known_id), 0);
    assert_eq!(zero_depth.nodes, vec![note_node(&known_id)]);
    assert!(zero_depth.edges.is_empty());
}

#[test]
fn tags_become_graph_nodes_and_tag_index_entries() {
    let n1 = NoteId::from_folder_relative_path("one.md").unwrap();
    let n2 = NoteId::from_folder_relative_path("two.md").unwrap();
    let a = MarkdownNote::parse(n1.clone(), "---\ntags: [shared]\n---\nBody\n");
    let b = MarkdownNote::parse(n2.clone(), "Uses #shared here.\n");
    let index = FolderIndex::from_notes(vec![a, b]);

    let nodes = index.graph().nodes();
    assert_eq!(nodes.len(), 3);
    assert_eq!(nodes[2].as_tag().unwrap().name(), "shared");
    assert_eq!(index.graph().edges().len(), 2);
    let entry = &index.tag_index()[0];
    assert_eq!(entry.0.name(), "shared");
    assert_eq!(entry.1.len(), 2);

    let tag_focus = GraphNode::Tag { tag: sideromelane::note::Tag::new("shared").unwrap() };
    let around = index.neighborhood(&tag_focus, 1);
    assert_eq!(around.nodes.len(), 3);
    assert_eq!(index.note_stems(), vec!["one", "two"]);
}

#[test]
fn keyword_search_ranks_text_matches_and_applies_filters() {
    let launch_id = NoteId::from_folder_relative_path("plans/Launch Plan.md").unwrap();
    let roadmap_id = NoteId::from_folder_relative_path("plans/Roadmap.md").unwrap();
    let retro_id = NoteId::from_folder_relative_path("meetings/Retro.md").unwrap();

    let launch = MarkdownNote::parse(
        launch_id.clone(),
        "---\ntitle: Launch Plan\ntags: [planning, product]\nstatus: draft\n---\n\n# Launch\n\nShip the checklist.\n",
    );
    let roadmap = MarkdownNote::parse(
        roadmap_id,
        "---\ntitle: Product Roadmap\ntags: [product]\nstatus: active\n---\n\nLaunch sequencing notes.\n",
    );
    let retro = MarkdownNote::parse(
        retro_id.clone(),
        "---\ntitle: Retro\ntags: [meetings]\nstatus: draft\n---\n\nLaunch review.\n",
    );

    let index = SearchIndex::from_notes(vec![launch, roadmap, retro]);

    let launch_results = index.search(&SearchQuery::text("launch"));
    assert_eq!(launch_results[0].note_id(), &launch_id);
    assert!(launch_results[0].score() > launch_results[1].score());

    let filtered_results = index.search(
        &SearchQuery::text("launch")
            .with_tag("planning")
            .with_field("status", "draft"),
    );
    assert_eq!(filtered_results.len(), 1);
    assert_eq!(filtered_results[0].note_id(), &launch_id);

    let file_results = index.search(&SearchQuery::empty().with_file_name("retro"));
    assert_eq!(file_results.len(), 1);
    assert_eq!(file_results[0].note_id(), &retro_id);
}

#[test]
fn inline_tag_filter_matches_note_without_frontmatter_tag() {
    let note_id = NoteId::from_folder_relative_path("notes/K8s.md").unwrap();
    let note = MarkdownNote::parse(
        note_id.clone(),
        "---\ntitle: K8s Notes\n---\n\nSee #kubernetes for context.\n",
    );

    let index = SearchIndex::from_notes(vec![note]);

    let results = index.search(&SearchQuery::empty().with_tag("kubernetes"));
    assert_eq!(results.len(), 1);
    assert_eq!(results[0].note_id(), &note_id);
}

#[test]
fn search_scores_are_exact_weights() {
    let id = NoteId::from_folder_relative_path("a/Alpha.md").unwrap();
    let note = MarkdownNote::parse(id, "---\ntitle: Alpha\n---\nalpha body\n");
    let index = SearchIndex::from_notes(vec![note]);
    let r = index.search(&SearchQuery::text("ALPHA"));
    assert_eq!(r.len(), 1);
    assert_eq!(r[0].score(), 50 + 40 + 20 + 10);
    assert!(index.search(&SearchQuery::text("zzz")).is_empty());
    assert_eq!(index.search(&SearchQuery::empty())[0].score(), 1);
}

#[test]
fn embedding_texts_list_fields_then_body_in_index_order() {
    let b = MarkdownNote::parse(
        NoteId::from_folder_relative_path("b.md").unwrap(),
        "---\ntitle: Bee\ntags: [x, y]\nstatus: open\n---\nbody #z\n",
    );
    let a = MarkdownNote::parse(NoteId::from_folder_relative_path("a.md").unwrap(), "plain");
    let index = SearchIndex::from_notes(vec![b, a]);
    assert_eq!(index.len(), 2);
    let texts = index.embedding_texts();
    assert_eq!(texts[0].0.relative_path(), "a.md");
    assert_eq!(texts[0].1, "a.md\nplain");
    assert_eq!(texts[1].0.relative_path(), "b.md");
    assert_eq!(texts[1].1, "b.md\nBee\nx\ny\nz\nstatus\nopen\ntags\nx\ny\ntitle\nBee\nbody #z\n");
    let filtered = SearchQuery::empty().with_tag("z");
    assert!(!index.matches_filters_at(0, &filtered));
    assert!(index.matches_filters_at(1, &filtered));
}

#[test]
fn feature_buckets_follow_fnv1a() {
    assert_eq!(feature_bucket("abc"), 11);
    assert_eq!(feature_bucket(""), 37);
    assert_eq!(feature_bucket("not"), 10);
}

#[test]
fn index_hands_out_each_note_with_its_own_path_text() {
    let plan_id = NoteId::from_folder_relative_path("plans//Plan.md").unwrap();
    let todo_id = NoteId::from_folder_relative_path("todo/Todo.md").unwrap();
    let plan = MarkdownNote::parse(plan_id, "See [[Todo]]. #work\n");
    let todo = MarkdownNote::parse(todo_id, "Back to [[Plan]].\n");
    let index = FolderIndex::from_notes(vec![plan, todo]);
    let paths: Vec<&str> = index
        .graph()
        .nodes()
        .iter()
        .filter_map(|node| node.as_note())
        .map(|id| id.relative_path())
        .collect();
    assert_eq!(paths, vec!["plans//Plan.md", "todo/Todo.md"]);
    let todo_key = NoteId::from_folder_relative_path("todo/Todo.md").unwrap();
    let backlinks = index.backlinks_to(&todo_key);
    assert_eq!(backlinks.len(), 1);
    assert_eq!(backlinks[0].source().relative_path(), "plans//Plan.md");
    assert_eq!(backlinks[0].target().relative_path(), "todo/Todo.md");
    let tagged = &index.tag_index()[0].1;
    assert_eq!(tagged[0].relative_path(), "plans//Plan.md");
}

#[test]
fn search_results_carry_each_note_path_text() {
    let id = NoteId::from_folder_relative_path("inbox//Todo.md").unwrap();
    let note = MarkdownNote::parse(id, "buy milk\n");
    let index = SearchIndex::from_notes(vec![note]);
    let results = index.search(&SearchQuery::text("milk"));
    assert_eq!(results.len(), 1);
    assert_eq!(results[0].note_id().relative_path(), "inbox//Todo.md");
}
