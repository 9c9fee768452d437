//! The folder index: note and tag graph, backlinks, ambiguous stems, the tag
//! index, and depth-bounded neighborhoods.
//!
//! Wiki links resolve by case-sensitive comparison against note file stems.
//! A stem shared by several notes is ambiguous: links to it make no edge and
//! no backlink, and the stem is reported by `ambiguous_targets`.
use vstd::prelude::*;
use vstd::string::*;
use crate::folder::NoteId;
use crate::note::{Tag, MarkdownNote, tag_names};
use crate::analysis::{
    NoteAnalysis, WikiLink, merged_tags, fold_names, insert_name, names_sorted, note_fm_tags,
    wiki_links_of, inline_tags_of, links_view,
};
use crate::path::{comps_order, bytes_order, lemma_comps_order, lemma_bytes_order, name_stem, strings_bytes};
use crate::text::utf8_bytes;

verus! {

broadcast use vstd::seq::group_seq_axioms;

// ---------------------------------------------------------------------------
// Nodes, edges, backlinks
// ---------------------------------------------------------------------------
/// The model of a graph node: a note by its path components, or a tag by name.
pub enum NodeView {
    Note(Seq<Seq<u8>>),
    Tag(Seq<u8>),
}

/// A node in the folder graph: either a note or a tag.
#[derive(Debug, PartialEq, Eq)]
pub enum GraphNode {
    /// A note node, identified by its [`NoteId`].
    Note {
        /// The note identifier.
        note_id: NoteId,
    },
    /// A tag node, identified by its [`Tag`].
    Tag {
        /// The tag value.
        tag: Tag,
    },
}

impl View for GraphNode {
    type V = NodeView;

    open spec fn view(&self) -> NodeView {
        match self {
            GraphNode::Note { note_id } => NodeView::Note(note_id.key()),
            GraphNode::Tag { tag } => NodeView::Tag(tag.view_bytes()),
        }
    }
}

/// The order of nodes: notes before tags, notes by path, tags by name.
pub open spec fn node_order(a: NodeView, b: NodeView) -> int {
    match (a, b) {
        (NodeView::Note(x), NodeView::Note(y)) => comps_order(x, y),
        (NodeView::Note(_), NodeView::Tag(_)) => -1,
        (NodeView::Tag(_), NodeView::Note(_)) => 1,
        (NodeView::Tag(x), NodeView::Tag(y)) => bytes_order(x, y),
    }
}

pub proof fn lemma_node_order(a: NodeView, b: NodeView)
    ensures
        node_order(a, b) == 0 <==> a == b,
        node_order(a, b) == -node_order(b, a),
        -1 <= node_order(a, b) <= 1,
{
    match (a, b) {
        (NodeView::Note(x), NodeView::Note(y)) => {
            lemma_comps_order(x, y);
        },
        (NodeView::Tag(x), NodeView::Tag(y)) => {
            lemma_bytes_order(x, y);
        },
        _ => {},
    }
}

impl GraphNode {
    /// The relative path of a note node (empty for a tag node).
    pub open spec fn as_note_id_path(&self) -> Seq<u8> {
        match self {
            GraphNode::Note { note_id } => note_id.path(),
            GraphNode::Tag { .. } => Seq::empty(),
        }
    }
}

impl Clone for GraphNode {
    fn clone(&self) -> (r: GraphNode)
        ensures
            r@ == self@,
    {
        match self {
            GraphNode::Note { note_id } => GraphNode::Note { note_id: note_id.clone() },
            GraphNode::Tag { tag } => GraphNode::Tag { tag: tag.duplicate() },
        }
    }
}

impl GraphNode {
    /// Returns the [`NoteId`] if this is a note node.
    pub fn as_note(&self) -> (r: Option<&NoteId>)
        ensures
            match r {
                Some(id) => self@ == NodeView::Note(id.key()),
                None => self@ is Tag,
            },
    {
        match self {
            GraphNode::Note { note_id } => Some(note_id),
            GraphNode::Tag { .. } => None,
        }
    }

    /// Returns the [`Tag`] if this is a tag node.
    pub fn as_tag(&self) -> (r: Option<&Tag>)
        ensures
            match r {
                Some(t) => self@ == NodeView::Tag(t.view_bytes()),
                None => self@ is Note,
            },
    {
        match self {
            GraphNode::Note { .. } => None,
            GraphNode::Tag { tag } => Some(tag),
        }
    }

    /// Compares two nodes: -1, 0 or 1 (notes before tags).
    pub fn order(&self, other: &GraphNode) -> (r: i8)
        ensures
            r as int == node_order(self@, other@),
    {
        match (self, other) {
            (GraphNode::Note { note_id: a }, GraphNode::Note { note_id: b }) => a.order(b),
            (GraphNode::Note { .. }, GraphNode::Tag { .. }) => -1,
            (GraphNode::Tag { .. }, GraphNode::Note { .. }) => 1,
            (GraphNode::Tag { tag: a }, GraphNode::Tag { tag: b }) => a.order(b),
        }
    }

    /// Whether two nodes are the same node.
    pub fn same(&self, other: &GraphNode) -> (r: bool)
        ensures
            r == (self@ == other@),
    {
        proof {
            lemma_node_order(self@, other@);
        }
        self.order(other) == 0
    }
}

/// Directed graph edge from a source node to a target node.
#[derive(Debug, Clone, PartialEq, Eq)]
pub struct GraphEdge {
    source: GraphNode,
    target: GraphNode,
}

impl View for GraphEdge {
    type V = (NodeView, NodeView);

    closed spec fn view(&self) -> (NodeView, NodeView) {
        (self.source@, self.target@)
    }
}

impl GraphEdge {
    /// The source node.
    pub closed spec fn source_node(&self) -> GraphNode {
        self.source
    }

    /// The target node.
    pub closed spec fn target_node(&self) -> GraphNode {
        self.target
    }

    /// Returns the source node.
    pub fn source(&self) -> (r: &GraphNode)
        ensures
            r@ == self@.0,
            *r == self.source_node(),
    {
        &self.source
    }

    /// Returns the target node.
    pub fn target(&self) -> (r: &GraphNode)
        ensures
            r@ == self@.1,
            *r == self.target_node(),
    {
        &self.target
    }
}

/// Reverse link from a source note to the target note.
#[derive(Debug, Clone, PartialEq, Eq)]
pub struct Backlink {
    source: NoteId,
    target: NoteId,
}

impl View for Backlink {
    type V = (Seq<Seq<u8>>, Seq<Seq<u8>>);

    closed spec fn view(&self) -> (Seq<Seq<u8>>, Seq<Seq<u8>>) {
        (self.source.key(), self.target.key())
    }
}

impl Backlink {
    /// The note that contains the wiki link.
    pub closed spec fn source_id(&self) -> NoteId {
        self.source
    }

    /// The note the wiki link resolves to.
    pub closed spec fn target_id(&self) -> NoteId {
        self.target
    }

    /// Returns the note that contains the wiki link.
    pub fn source(&self) -> (r: &NoteId)
        ensures
            r.key() == self@.0,
            *r == self.source_id(),
    {
        &self.source
    }

    /// Returns the note the wiki link resolves to.
    pub fn target(&self) -> (r: &NoteId)
        ensures
            r.key() == self@.1,
            *r == self.target_id(),
    {
        &self.target
    }
}

/// A note identifier with its path text: the components, which decide which
/// note it is, and the path as it was written.
pub open spec fn id_pair(id: NoteId) -> (Seq<Seq<u8>>, Seq<u8>) {
    (id.key(), id.path())
}

/// The identifiers of the notes `ns`, each with its path text.
pub open spec fn note_ids(ns: Seq<MarkdownNote>) -> Set<(Seq<Seq<u8>>, Seq<u8>)> {
    ns.map_values(|n: MarkdownNote| id_pair(n.id())).to_set()
}

/// Whether the note of the node `n`, when it is a note, is one of `s`.
pub open spec fn node_among(n: GraphNode, s: Set<(Seq<Seq<u8>>, Seq<u8>)>) -> bool {
    match n {
        GraphNode::Note { note_id } => s.contains(id_pair(note_id)),
        GraphNode::Tag { .. } => true,
    }
}

/// Whether both ends of the edge `e` are among `s`.
pub open spec fn edge_among(e: GraphEdge, s: Set<(Seq<Seq<u8>>, Seq<u8>)>) -> bool {
    node_among(e.source_node(), s) && node_among(e.target_node(), s)
}

/// Whether both notes of the backlink `b` are among `s`.
pub open spec fn backlink_among(b: Backlink, s: Set<(Seq<Seq<u8>>, Seq<u8>)>) -> bool {
    s.contains(id_pair(b.source_id())) && s.contains(id_pair(b.target_id()))
}

/// Whether every identifier of `v` is among `s`.
pub open spec fn ids_among(v: Seq<NoteId>, s: Set<(Seq<Seq<u8>>, Seq<u8>)>) -> bool {
    forall|i: int| 0 <= i < v.len() ==> s.contains(id_pair(#[trigger] v[i]))
}

/// When no two notes share their components, an identifier with the
/// components of one of them has that note's path text.
pub proof fn lemma_distinct_notes_fix_path_text(ns: Seq<MarkdownNote>, k: Seq<Seq<u8>>, p: Seq<u8>, q: Seq<u8>)
    requires
        forall|i: int, j: int| 0 <= i < ns.len() && 0 <= j < ns.len() && i != j ==> (#[trigger] ns[i]).id().key()
            != (#[trigger] ns[j]).id().key(),
        note_ids(ns).contains((k, p)),
        note_ids(ns).contains((k, q)),
    ensures
        p == q,
{
    let m = ns.map_values(|n: MarkdownNote| id_pair(n.id()));
    let i = choose|i: int| 0 <= i < m.len() && m[i] == (k, p);
    let j = choose|j: int| 0 <= j < m.len() && m[j] == (k, q);
    assert(m[i] == id_pair(ns[i].id()));
    assert(m[j] == id_pair(ns[j].id()));
}

pub open spec fn nodes_view(v: Seq<GraphNode>) -> Seq<NodeView> {
    v.map_values(|n: GraphNode| n@)
}

pub open spec fn edges_view(v: Seq<GraphEdge>) -> Seq<(NodeView, NodeView)> {
    v.map_values(|e: GraphEdge| e@)
}

pub open spec fn backlinks_view(v: Seq<Backlink>) -> Seq<(Seq<Seq<u8>>, Seq<Seq<u8>>)> {
    v.map_values(|b: Backlink| b@)
}

pub open spec fn ids_view(v: Seq<NoteId>) -> Seq<Seq<Seq<u8>>> {
    v.map_values(|id: NoteId| id.key())
}

pub open spec fn pairs_view(v: Seq<(GraphNode, GraphNode)>) -> Seq<(NodeView, NodeView)> {
    v.map_values(|p: (GraphNode, GraphNode)| (p.0@, p.1@))
}


// ---------------------------------------------------------------------------
// The model of an index
// ---------------------------------------------------------------------------
/// What the index uses of a note: its path components, its wiki link targets
/// in body order, and its merged tags.
pub type Facts = (Seq<Seq<u8>>, Seq<Seq<u8>>, Seq<Seq<u8>>);

/// The file stem of a note with path components `key`.
pub open spec fn key_stem(key: Seq<Seq<u8>>) -> Seq<u8> {
    if key.len() == 0 {
        Seq::empty()
    } else {
        name_stem(key.last())
    }
}

/// The facts of a parsed note.
pub open spec fn note_facts(n: MarkdownNote) -> Facts {
    (
        n.id().key(),
        wiki_links_of(n.body_bytes()).map_values(|l: (Seq<u8>, Option<Seq<u8>>, Option<Seq<u8>>)| l.0),
        fold_names(note_fm_tags(n) + inline_tags_of(n.body_bytes())),
    )
}

/// Inserts `x` after every note whose path is not greater (a stable insertion).
pub open spec fn insert_by_key(s: Seq<Facts>, x: Facts) -> Seq<Facts>
    decreases s.len(),
{
    if s.len() == 0 {
        seq![x]
    } else if comps_order(x.0, s[0].0) < 0 {
        seq![x] + s
    } else {
        seq![s[0]] + insert_by_key(s.drop_first(), x)
    }
}

/// `s` stably sorted by path.
pub open spec fn sort_by_key(s: Seq<Facts>) -> Seq<Facts>
    decreases s.len(),
{
    if s.len() == 0 {
        Seq::empty()
    } else {
        insert_by_key(sort_by_key(s.drop_last()), s.last())
    }
}

/// The facts of a list of notes, sorted by note identifier.
pub open spec fn index_facts(ns: Seq<MarkdownNote>) -> Seq<Facts> {
    sort_by_key(ns.map_values(|n: MarkdownNote| note_facts(n)))
}

/// Paths of the notes of `part` whose stem is `t`, in order.
pub open spec fn keys_with_stem(part: Seq<Facts>, t: Seq<u8>) -> Seq<Seq<Seq<u8>>>
    decreases part.len(),
{
    if part.len() == 0 {
        Seq::empty()
    } else if key_stem(part.last().0) == t {
        keys_with_stem(part.drop_last(), t).push(part.last().0)
    } else {
        keys_with_stem(part.drop_last(), t)
    }
}

/// The note a link target resolves to: the only note with that stem.
pub open spec fn resolve(ms: Seq<Facts>, t: Seq<u8>) -> Option<Seq<Seq<u8>>> {
    if keys_with_stem(ms, t).len() == 1 {
        Some(keys_with_stem(ms, t)[0])
    } else {
        None
    }
}

/// Edges of the links of the note `src`, in link order.
pub open spec fn link_edges(ms: Seq<Facts>, src: Seq<Seq<u8>>, links: Seq<Seq<u8>>) -> Seq<(NodeView, NodeView)>
    decreases links.len(),
{
    if links.len() == 0 {
        Seq::empty()
    } else {
        link_edges(ms, src, links.drop_last()) + match resolve(ms, links.last()) {
            Some(k) => seq![(NodeView::Note(src), NodeView::Note(k))],
            None => Seq::empty(),
        }
    }
}

/// Edges from the note `src` to each of its tags.
pub open spec fn tag_edges(src: Seq<Seq<u8>>, tags: Seq<Seq<u8>>) -> Seq<(NodeView, NodeView)> {
    tags.map_values(|g: Seq<u8>| (NodeView::Note(src), NodeView::Tag(g)))
}

/// Edges of the notes of `part`: each note's link edges, then its tag edges.
pub open spec fn edges_over(ms: Seq<Facts>, part: Seq<Facts>) -> Seq<(NodeView, NodeView)>
    decreases part.len(),
{
    if part.len() == 0 {
        Seq::empty()
    } else {
        edges_over(ms, part.drop_last()) + link_edges(ms, part.last().0, part.last().1) + tag_edges(
            part.last().0,
            part.last().2,
        )
    }
}

/// All tag names of the notes of `part`, in order, with repetitions.
pub open spec fn tags_of(part: Seq<Facts>) -> Seq<Seq<u8>>
    decreases part.len(),
{
    if part.len() == 0 {
        Seq::empty()
    } else {
        tags_of(part.drop_last()) + part.last().2
    }
}

/// The tags used by some note, sorted by name.
pub open spec fn all_tags(ms: Seq<Facts>) -> Seq<Seq<u8>> {
    fold_names(tags_of(ms))
}

/// The graph nodes: notes in index order, then tags by name.
pub open spec fn nodes_of(ms: Seq<Facts>) -> Seq<NodeView> {
    ms.map_values(|m: Facts| NodeView::Note(m.0)) + all_tags(ms).map_values(|g: Seq<u8>| NodeView::Tag(g))
}

/// The graph edges.
pub open spec fn edges_of(ms: Seq<Facts>) -> Seq<(NodeView, NodeView)> {
    edges_over(ms, ms)
}

/// Backlinks to `k` from the links of the note `src`.
pub open spec fn link_backs(ms: Seq<Facts>, src: Seq<Seq<u8>>, links: Seq<Seq<u8>>, k: Seq<Seq<u8>>) -> Seq<
    (Seq<Seq<u8>>, Seq<Seq<u8>>),
>
    decreases links.len(),
{
    if links.len() == 0 {
        Seq::empty()
    } else if resolve(ms, links.last()) == Some(k) {
        link_backs(ms, src, links.drop_last(), k).push((src, k))
    } else {
        link_backs(ms, src, links.drop_last(), k)
    }
}

/// Backlinks to `k` from the notes of `part`, in order.
pub open spec fn backs_over(ms: Seq<Facts>, part: Seq<Facts>, k: Seq<Seq<u8>>) -> Seq<(Seq<Seq<u8>>, Seq<Seq<u8>>)>
    decreases part.len(),
{
    if part.len() == 0 {
        Seq::empty()
    } else {
        backs_over(ms, part.drop_last(), k) + link_backs(ms, part.last().0, part.last().1, k)
    }
}

/// Backlinks to the note with path `k`.
pub open spec fn backlinks_of(ms: Seq<Facts>, k: Seq<Seq<u8>>) -> Seq<(Seq<Seq<u8>>, Seq<Seq<u8>>)> {
    backs_over(ms, ms, k)
}

/// Stems of the notes of `part` shared with another note, with repetitions.
pub open spec fn shared_stems(ms: Seq<Facts>, part: Seq<Facts>) -> Seq<Seq<u8>>
    decreases part.len(),
{
    if part.len() == 0 {
        Seq::empty()
    } else if keys_with_stem(ms, key_stem(part.last().0)).len() > 1 {
        shared_stems(ms, part.drop_last()).push(key_stem(part.last().0))
    } else {
        shared_stems(ms, part.drop_last())
    }
}

/// Ambiguous stems by name, each with its notes in index order.
pub open spec fn ambiguous_of(ms: Seq<Facts>) -> Seq<(Seq<u8>, Seq<Seq<Seq<u8>>>)> {
    fold_names(shared_stems(ms, ms)).map_values(|s: Seq<u8>| (s, keys_with_stem(ms, s)))
}

/// Paths of the notes of `part` that use tag `g`, in order.
pub open spec fn keys_with_tag(part: Seq<Facts>, g: Seq<u8>) -> Seq<Seq<Seq<u8>>>
    decreases part.len(),
{
    if part.len() == 0 {
        Seq::empty()
    } else if part.last().2.contains(g) {
        keys_with_tag(part.drop_last(), g).push(part.last().0)
    } else {
        keys_with_tag(part.drop_last(), g)
    }
}

/// Each tag by name with the notes using it, in index order.
pub open spec fn tag_index_of(ms: Seq<Facts>) -> Seq<(Seq<u8>, Seq<Seq<Seq<u8>>>)> {
    all_tags(ms).map_values(|g: Seq<u8>| (g, keys_with_tag(ms, g)))
}


// ---------------------------------------------------------------------------
// Building the model
// ---------------------------------------------------------------------------
/// A note's facts, as values.
struct Entry {
    id: NoteId,
    links: Vec<String>,
    tags: Vec<Tag>,
}

spec fn entry_view(e: Entry) -> Facts {
    (e.id.key(), strings_bytes(e.links@), tag_names(e.tags@))
}

spec fn entries_view(v: Seq<Entry>) -> Seq<Facts> {
    v.map_values(|e: Entry| entry_view(e))
}

spec fn entries_among(v: Seq<Entry>, s: Set<(Seq<Seq<u8>>, Seq<u8>)>) -> bool {
    forall|i: int| 0 <= i < v.len() ==> s.contains(id_pair((#[trigger] v[i]).id))
}

spec fn entries_wf(v: Seq<Entry>) -> bool {
    forall|i: int, j: int| 0 <= i < v.len() && 0 <= j < v[i].tags@.len() ==> (#[trigger] v[i].tags@[j]).wf()
}

fn entry_of(note: &MarkdownNote) -> (e: Entry)
    ensures
        entry_view(e) == note_facts(*note),
        forall|j: int| 0 <= j < e.tags@.len() ==> (#[trigger] e.tags@[j]).wf(),
        id_pair(e.id) == id_pair(note.id()),
{
    let analysis = NoteAnalysis::from_note(note);
    let src = analysis.wiki_links();
    let ghost want = links_view(src@).map_values(|l: (Seq<u8>, Option<Seq<u8>>, Option<Seq<u8>>)| l.0);
    let mut links: Vec<String> = Vec::new();
    let mut i: usize = 0;
    while i < src.len()
        invariant
            0 <= i <= src@.len(),
            want == links_view(src@).map_values(|l: (Seq<u8>, Option<Seq<u8>>, Option<Seq<u8>>)| l.0),
            strings_bytes(links@) == want.take(i as int),
        decreases src@.len() - i,
    {
        let t = crate::text::to_owned_string(src[i].target());
        let ghost before = links@;
        links.push(t);
        proof {
            crate::path::lemma_strings_bytes_push(before, t);
            assert(want.take(i + 1) =~= want.take(i as int).push(want[i as int]));
        }
        i = i + 1;
    }
    assert(want.take(i as int) =~= want);
    let tags = merged_tags(note, &analysis);
    Entry { id: note.note_id().clone(), links, tags }
}

proof fn lemma_insert_by_key_at(s: Seq<Facts>, x: Facts, i: int)
    requires
        0 <= i <= s.len(),
        forall|j: int| 0 <= j < i ==> comps_order(x.0, (#[trigger] s[j]).0) >= 0,
    ensures
        i == s.len() ==> insert_by_key(s, x) == s.push(x),
        i < s.len() && comps_order(x.0, s[i].0) < 0 ==> insert_by_key(s, x) == s.take(i) + seq![x]
            + s.skip(i),
    decreases i,
{
    if i > 0 {
        let t = s.drop_first();
        assert forall|j: int| 0 <= j < i - 1 implies comps_order(x.0, (#[trigger] t[j]).0) >= 0 by {
            assert(t[j] == s[j + 1]);
        }
        lemma_insert_by_key_at(t, x, i - 1);
        if i == s.len() {
            assert(s.push(x) =~= seq![s[0]] + t.push(x));
        } else {
            assert(t[i - 1] == s[i]);
            assert(s.take(i) + seq![x] + s.skip(i) =~= seq![s[0]] + (t.take(i - 1) + seq![x] + t.skip(i - 1)));
        }
    } else {
        if s.len() == 0 {
            assert(s.push(x) =~= seq![x]);
        } else {
            assert(s.take(0) + seq![x] + s.skip(0) =~= seq![x] + s);
        }
    }
}

fn insert_entry(sorted: &mut Vec<Entry>, e: Entry, Ghost(ids): Ghost<Set<(Seq<Seq<u8>>, Seq<u8>)>>)
    requires
        entries_wf(old(sorted)@),
        forall|j: int| 0 <= j < e.tags@.len() ==> (#[trigger] e.tags@[j]).wf(),
        entries_among(old(sorted)@, ids),
        ids.contains(id_pair(e.id)),
    ensures
        entries_view(final(sorted)@) == insert_by_key(entries_view(old(sorted)@), entry_view(e)),
        entries_wf(final(sorted)@),
        entries_among(final(sorted)@, ids),
{
    let ghost s = entries_view(sorted@);
    let ghost x = entry_view(e);
    let mut i: usize = 0;
    while i < sorted.len()
        invariant
            0 <= i <= sorted@.len(),
            s == entries_view(sorted@),
            sorted@ == old(sorted)@,
            x == entry_view(e),
            forall|j: int| 0 <= j < i ==> comps_order(x.0, (#[trigger] s[j]).0) >= 0,
            entries_wf(old(sorted)@),
            forall|j: int| 0 <= j < e.tags@.len() ==> (#[trigger] e.tags@[j]).wf(),
            entries_among(old(sorted)@, ids),
            ids.contains(id_pair(e.id)),
        decreases sorted@.len() - i,
    {
        let c = e.id.order(&sorted[i].id);
        assert(s[i as int].0 == sorted@[i as int].id.key());
        if c < 0 {
            proof {
                lemma_insert_by_key_at(s, x, i as int);
            }
            let ghost old_v = sorted@;
            sorted.insert(i, e);
            proof {
                assert(entries_view(sorted@) =~= s.take(i as int) + seq![x] + s.skip(i as int));
                assert forall|a: int, j: int| 0 <= a < sorted@.len() && 0 <= j < sorted@[a].tags@.len() implies (#[trigger] sorted@[a].tags@[j]).wf() by {
                    if a < i {
                        assert(sorted@[a] == old_v[a]);
                    } else if a > i {
                        assert(sorted@[a] == old_v[a - 1]);
                    } else {
                        assert(sorted@[a] == e);
                    }
                }
                assert forall|a: int| 0 <= a < sorted@.len() implies ids.contains(id_pair((#[trigger] sorted@[a]).id)) by {
                    if a < i {
                        assert(sorted@[a] == old_v[a]);
                    } else if a > i {
                        assert(sorted@[a] == old_v[a - 1]);
                    }
                }
            }
            return;
        }
        i = i + 1;
    }
    proof {
        lemma_insert_by_key_at(s, x, i as int);
    }
    let ghost old_v = sorted@;
    sorted.push(e);
    proof {
        assert(entries_view(sorted@) =~= s.push(x));
        assert forall|a: int, j: int| 0 <= a < sorted@.len() && 0 <= j < sorted@[a].tags@.len() implies (#[trigger] sorted@[a].tags@[j]).wf() by {
            if a < old_v.len() {
                assert(sorted@[a] == old_v[a]);
            } else {
                assert(sorted@[a] == e);
            }
        }
        assert forall|a: int| 0 <= a < sorted@.len() implies ids.contains(id_pair((#[trigger] sorted@[a]).id)) by {
            if a < old_v.len() {
                assert(sorted@[a] == old_v[a]);
            }
        }
    }
}

/// The notes' facts, sorted by note identifier.
fn sorted_entries(notes: &Vec<MarkdownNote>) -> (r: Vec<Entry>)
    ensures
        entries_view(r@) == index_facts(notes@),
        entries_wf(r@),
        entries_among(r@, note_ids(notes@)),
{
    let ghost facts = notes@.map_values(|n: MarkdownNote| note_facts(n));
    let ghost ids = note_ids(notes@);
    let mut sorted: Vec<Entry> = Vec::new();
    let mut i: usize = 0;
    assert(facts.take(0) =~= Seq::<Facts>::empty());
    assert(entries_view(sorted@) =~= Seq::<Facts>::empty());
    while i < notes.len()
        invariant
            0 <= i <= notes@.len(),
            facts == notes@.map_values(|n: MarkdownNote| note_facts(n)),
            entries_view(sorted@) == sort_by_key(facts.take(i as int)),
            entries_wf(sorted@),
            ids == note_ids(notes@),
            entries_among(sorted@, ids),
        decreases notes@.len() - i,
    {
        let e = entry_of(&notes[i]);
        proof {
            let m = notes@.map_values(|n: MarkdownNote| id_pair(n.id()));
            assert(m[i as int] == id_pair(e.id));
            assert(m.contains(id_pair(e.id)));
        }
        insert_entry(&mut sorted, e, Ghost(ids));
        assert(facts.take(i + 1).drop_last() =~= facts.take(i as int));
        assert(facts.take(i + 1).last() == facts[i as int]);
        i = i + 1;
    }
    assert(facts.take(i as int) =~= facts);
    sorted
}


fn stem_is(id: &NoteId, t: &str) -> (r: bool)
    ensures
        r == (key_stem(id.key()) == t.spec_bytes()),
{
    crate::text::bytes_eq(id.file_stem().as_bytes(), t.as_bytes())
}

/// The index of the only note whose stem is `t`, if exactly one has it.
fn resolve_exec(entries: &Vec<Entry>, t: &str) -> (r: Option<usize>)
    ensures
        match r {
            Some(j) => j < entries@.len() && resolve(entries_view(entries@), t.spec_bytes()) == Some(
                entries_view(entries@)[j as int].0,
            ),
            None => resolve(entries_view(entries@), t.spec_bytes()) is None,
        },
{
    let ghost ms = entries_view(entries@);
    let ghost tb = t.spec_bytes();
    let mut count: usize = 0;
    let mut first: usize = 0;
    let mut i: usize = 0;
    while i < entries.len()
        invariant
            0 <= i <= entries@.len(),
            ms == entries_view(entries@),
            tb == t.spec_bytes(),
            count == keys_with_stem(ms.take(i as int), tb).len(),
            count <= i,
            count >= 1 ==> first < i && keys_with_stem(ms.take(i as int), tb)[0] == ms[first as int].0,
        decreases entries@.len() - i,
    {
        assert(ms.take(i + 1).drop_last() =~= ms.take(i as int));
        assert(ms.take(i + 1).last() == ms[i as int]);
        if stem_is(&entries[i].id, t) {
            if count == 0 {
                first = i;
            }
            count = count + 1;
        }
        i = i + 1;
    }
    assert(ms.take(i as int) =~= ms);
    if count == 1 {
        Some(first)
    } else {
        None
    }
}

/// Number of notes whose stem is `t`.
fn stem_count(entries: &Vec<Entry>, t: &str) -> (r: usize)
    ensures
        r == keys_with_stem(entries_view(entries@), t.spec_bytes()).len(),
{
    let ghost ms = entries_view(entries@);
    let mut count: usize = 0;
    let mut i: usize = 0;
    while i < entries.len()
        invariant
            0 <= i <= entries@.len(),
            ms == entries_view(entries@),
            count == keys_with_stem(ms.take(i as int), t.spec_bytes()).len(),
            count <= i,
        decreases entries@.len() - i,
    {
        assert(ms.take(i + 1).drop_last() =~= ms.take(i as int));
        assert(ms.take(i + 1).last() == ms[i as int]);
        if stem_is(&entries[i].id, t) {
            count = count + 1;
        }
        i = i + 1;
    }
    assert(ms.take(i as int) =~= ms);
    count
}

fn note_node(id: &NoteId) -> (r: GraphNode)
    ensures
        r@ == NodeView::Note(id.key()),
        r is Note && id_pair(r->note_id) == id_pair(*id),
{
    GraphNode::Note { note_id: id.clone() }
}

fn build_edges(entries: &Vec<Entry>, Ghost(ids): Ghost<Set<(Seq<Seq<u8>>, Seq<u8>)>>) -> (r: Vec<GraphEdge>)
    requires
        entries_wf(entries@),
        entries_among(entries@, ids),
    ensures
        edges_view(r@) == edges_of(entries_view(entries@)),
        forall|x: int| 0 <= x < r@.len() ==> edge_among(#[trigger] r@[x], ids),
{
    let ghost ms = entries_view(entries@);
    let mut out: Vec<GraphEdge> = Vec::new();
    let mut i: usize = 0;
    assert(ms.take(0) =~= Seq::<Facts>::empty());
    assert(edges_view(out@) =~= Seq::<(NodeView, NodeView)>::empty());
    while i < entries.len()
        invariant
            0 <= i <= entries@.len(),
            ms == entries_view(entries@),
            edges_view(out@) == edges_over(ms, ms.take(i as int)),
            entries_among(entries@, ids),
            forall|x: int| 0 <= x < out@.len() ==> edge_among(#[trigger] out@[x], ids),
        decreases entries@.len() - i,
    {
        let e = &entries[i];
        let ghost m = ms[i as int];
        assert(m == entry_view(*e));
        let ghost base = edges_view(out@);
        let mut j: usize = 0;
        assert(m.1.take(0) =~= Seq::<Seq<u8>>::empty());
        assert(base =~= base + link_edges(ms, m.0, m.1.take(0)));
        while j < e.links.len()
            invariant
                0 <= j <= e.links@.len(),
                ms == entries_view(entries@),
                m == entry_view(*e),
                edges_view(out@) == base + link_edges(ms, m.0, m.1.take(j as int)),
                e == entries@[i as int],
                0 <= i < entries@.len(),
                entries_among(entries@, ids),
                forall|x: int| 0 <= x < out@.len() ==> edge_among(#[trigger] out@[x], ids),
            decreases e.links@.len() - j,
        {
            assert(m.1.take(j + 1).drop_last() =~= m.1.take(j as int));
            assert(m.1.take(j + 1).last() == m.1[j as int]);
            assert(m.1[j as int] == utf8_bytes(e.links@[j as int]@));
            match resolve_exec(entries, e.links[j].as_str()) {
                Some(k) => {
                    let edge = GraphEdge { source: note_node(&e.id), target: note_node(&entries[k].id) };
                    let ghost before = out@;
                    out.push(edge);
                    assert(edges_view(out@) =~= edges_view(before).push(edge@));
                    proof {
                        assert(ids.contains(id_pair(entries@[i as int].id)));
                        assert(ids.contains(id_pair(entries@[k as int].id)));
                        assert(edge_among(edge, ids));
                        assert forall|x: int| 0 <= x < out@.len() implies edge_among(#[trigger] out@[x], ids) by {
                            if x < before.len() {
                                assert(out@[x] == before[x]);
                            }
                        }
                    }
                },
                None => {},
            }
            j = j + 1;
        }
        assert(m.1.take(j as int) =~= m.1);
        let ghost base2 = edges_view(out@);
        let mut j: usize = 0;
        assert(base2 =~= base2 + tag_edges(m.0, m.2.take(0)));
        while j < e.tags.len()
            invariant
                0 <= j <= e.tags@.len(),
                m == entry_view(*e),
                edges_view(out@) == base2 + tag_edges(m.0, m.2.take(j as int)),
                e == entries@[i as int],
                0 <= i < entries@.len(),
                entries_among(entries@, ids),
                forall|x: int| 0 <= x < out@.len() ==> edge_among(#[trigger] out@[x], ids),
            decreases e.tags@.len() - j,
        {
            let edge = GraphEdge {
                source: note_node(&e.id),
                target: GraphNode::Tag { tag: e.tags[j].duplicate() },
            };
            let ghost before = out@;
            out.push(edge);
            assert(m.2[j as int] == e.tags@[j as int].view_bytes());
            assert(tag_edges(m.0, m.2.take(j + 1)) =~= tag_edges(m.0, m.2.take(j as int)).push(edge@));
            assert(edges_view(out@) =~= edges_view(before).push(edge@));
            proof {
                assert(ids.contains(id_pair(entries@[i as int].id)));
                assert(edge_among(edge, ids));
                assert forall|x: int| 0 <= x < out@.len() implies edge_among(#[trigger] out@[x], ids) by {
                    if x < before.len() {
                        assert(out@[x] == before[x]);
                    }
                }
            }
            j = j + 1;
        }
        assert(m.2.take(j as int) =~= m.2);
        assert(ms.take(i + 1).drop_last() =~= ms.take(i as int));
        assert(ms.take(i + 1).last() == m);
        i = i + 1;
    }
    assert(ms.take(i as int) =~= ms);
    out
}

fn build_all_tags(entries: &Vec<Entry>) -> (r: Vec<Tag>)
    requires
        entries_wf(entries@),
    ensures
        tag_names(r@) == all_tags(entries_view(entries@)),
        forall|k: int| 0 <= k < r@.len() ==> (#[trigger] r@[k]).wf(),
{
    let ghost ms = entries_view(entries@);
    let mut out: Vec<Tag> = Vec::new();
    let mut i: usize = 0;
    assert(tags_of(ms.take(0)) =~= Seq::<Seq<u8>>::empty());
    assert(tag_names(out@) =~= Seq::<Seq<u8>>::empty());
    while i < entries.len()
        invariant
            0 <= i <= entries@.len(),
            ms == entries_view(entries@),
            entries_wf(entries@),
            tag_names(out@) == fold_names(tags_of(ms.take(i as int))),
            names_sorted(tag_names(out@)),
            forall|k: int| 0 <= k < out@.len() ==> (#[trigger] out@[k]).wf(),
        decreases entries@.len() - i,
    {
        let e = &entries[i];
        let ghost m = ms[i as int];
        assert(m == entry_view(*e));
        let ghost base = tags_of(ms.take(i as int));
        let mut j: usize = 0;
        assert(base + m.2.take(0) =~= base);
        while j < e.tags.len()
            invariant
                0 <= j <= e.tags@.len(),
                m == entry_view(*e),
                entries_wf(entries@),
                e == entries@[i as int],
                0 <= i < entries@.len(),
                tag_names(out@) == fold_names(base + m.2.take(j as int)),
                names_sorted(tag_names(out@)),
                forall|k: int| 0 <= k < out@.len() ==> (#[trigger] out@[k]).wf(),
            decreases e.tags@.len() - j,
        {
            let t = e.tags[j].duplicate();
            assert(e.tags@[j as int].wf());
            let ghost before = out@;
            crate::analysis::insert_sorted_tag(&mut out, t);
            proof {
                assert(m.2[j as int] == t.view_bytes());
                assert((base + m.2.take(j + 1)).drop_last() =~= base + m.2.take(j as int));
                assert((base + m.2.take(j + 1)).last() == m.2[j as int]);
                assert forall|k: int| 0 <= k < out@.len() implies (#[trigger] out@[k]).wf() by {
                    if out@[k] != t {
                        let w = choose|w: int| 0 <= w < before.len() && before[w] == out@[k];
                    }
                }
            }
            j = j + 1;
        }
        assert(m.2.take(j as int) =~= m.2);
        assert(ms.take(i + 1).drop_last() =~= ms.take(i as int));
        assert(ms.take(i + 1).last() == m);
        i = i + 1;
    }
    assert(ms.take(i as int) =~= ms);
    out
}


/// The backlinks to the note at index `target`.
fn build_backlinks_to(entries: &Vec<Entry>, target: usize, Ghost(ids): Ghost<Set<(Seq<Seq<u8>>, Seq<u8>)>>) -> (r: Vec<Backlink>)
    requires
        target < entries@.len(),
        entries_among(entries@, ids),
    ensures
        backlinks_view(r@) == backlinks_of(
            entries_view(entries@),
            entries_view(entries@)[target as int].0,
        ),
        forall|x: int| 0 <= x < r@.len() ==> backlink_among(#[trigger] r@[x], ids),
{
    let ghost ms = entries_view(entries@);
    let ghost k = ms[target as int].0;
    let mut out: Vec<Backlink> = Vec::new();
    let mut i: usize = 0;
    assert(ms.take(0) =~= Seq::<Facts>::empty());
    assert(backlinks_view(out@) =~= Seq::<(Seq<Seq<u8>>, Seq<Seq<u8>>)>::empty());
    while i < entries.len()
        invariant
            0 <= i <= entries@.len(),
            target < entries@.len(),
            ms == entries_view(entries@),
            k == ms[target as int].0,
            backlinks_view(out@) == backs_over(ms, ms.take(i as int), k),
            entries_among(entries@, ids),
            forall|x: int| 0 <= x < out@.len() ==> backlink_among(#[trigger] out@[x], ids),
        decreases entries@.len() - i,
    {
        let e = &entries[i];
        let ghost m = ms[i as int];
        assert(m == entry_view(*e));
        let ghost base = backlinks_view(out@);
        let mut j: usize = 0;
        assert(base =~= base + link_backs(ms, m.0, m.1.take(0), k));
        while j < e.links.len()
            invariant
                0 <= j <= e.links@.len(),
                target < entries@.len(),
                ms == entries_view(entries@),
                m == entry_view(*e),
                k == ms[target as int].0,
                backlinks_view(out@) == base + link_backs(ms, m.0, m.1.take(j as int), k),
                e == entries@[i as int],
                0 <= i < entries@.len(),
                entries_among(entries@, ids),
                forall|x: int| 0 <= x < out@.len() ==> backlink_among(#[trigger] out@[x], ids),
            decreases e.links@.len() - j,
        {
            assert(m.1.take(j + 1).drop_last() =~= m.1.take(j as int));
            assert(m.1.take(j + 1).last() == m.1[j as int]);
            assert(m.1[j as int] == utf8_bytes(e.links@[j as int]@));
            match resolve_exec(entries, e.links[j].as_str()) {
                Some(r) => {
                    if entries[r].id.same(&entries[target].id) {
                        let b = Backlink { source: e.id.clone(), target: entries[r].id.clone() };
                        let ghost before = out@;
                        out.push(b);
                        assert(backlinks_view(out@) =~= backlinks_view(before).push(b@));
                        proof {
                            assert(ids.contains(id_pair(entries@[i as int].id)));
                            assert(ids.contains(id_pair(entries@[r as int].id)));
                            assert(backlink_among(b, ids));
                            assert forall|x: int| 0 <= x < out@.len() implies backlink_among(#[trigger] out@[x], ids) by {
                                if x < before.len() {
                                    assert(out@[x] == before[x]);
                                }
                            }
                        }
                    }
                },
                None => {},
            }
            j = j + 1;
        }
        assert(m.1.take(j as int) =~= m.1);
        assert(ms.take(i + 1).drop_last() =~= ms.take(i as int));
        assert(ms.take(i + 1).last() == m);
        i = i + 1;
    }
    assert(ms.take(i as int) =~= ms);
    out
}

/// Inserts `x` into the sorted list of names `out`, unless it is there.
pub(crate) fn insert_sorted_name(out: &mut Vec<String>, x: String)
    ensures
        strings_bytes(final(out)@) == insert_name(strings_bytes(old(out)@), utf8_bytes(x@)),
{
    let ghost names = strings_bytes(out@);
    let ghost xb = utf8_bytes(x@);
    let mut i: usize = 0;
    while i < out.len()
        invariant
            0 <= i <= out@.len(),
            names == strings_bytes(out@),
            out@ == old(out)@,
            xb == utf8_bytes(x@),
            forall|j: int| 0 <= j < i ==> bytes_order(#[trigger] names[j], xb) < 0,
        decreases out@.len() - i,
    {
        let c = crate::path::bytes_order_exec(out[i].as_str().as_bytes(), x.as_str().as_bytes());
        assert(names[i as int] == utf8_bytes(out@[i as int]@));
        proof {
            crate::analysis::lemma_insert_name_at(names, xb, i as int);
        }
        if c == 0 {
            return;
        }
        if c > 0 {
            out.insert(i, x);
            assert(strings_bytes(out@) =~= names.take(i as int) + seq![xb] + names.skip(i as int));
            return;
        }
        i = i + 1;
    }
    proof {
        crate::analysis::lemma_insert_name_at(names, xb, i as int);
    }
    let ghost before = out@;
    out.push(x);
    proof {
        crate::path::lemma_strings_bytes_push(before, x);
    }
}

/// The notes whose stem is `t`.
fn ids_with_stem(entries: &Vec<Entry>, t: &str, Ghost(ids): Ghost<Set<(Seq<Seq<u8>>, Seq<u8>)>>) -> (r: Vec<NoteId>)
    requires
        entries_among(entries@, ids),
    ensures
        ids_view(r@) == keys_with_stem(entries_view(entries@), t.spec_bytes()),
        ids_among(r@, ids),
{
    let ghost ms = entries_view(entries@);
    let mut out: Vec<NoteId> = Vec::new();
    let mut i: usize = 0;
    assert(ids_view(out@) =~= keys_with_stem(ms.take(0), t.spec_bytes()));
    while i < entries.len()
        invariant
            0 <= i <= entries@.len(),
            ms == entries_view(entries@),
            ids_view(out@) == keys_with_stem(ms.take(i as int), t.spec_bytes()),
            entries_among(entries@, ids),
            ids_among(out@, ids),
        decreases entries@.len() - i,
    {
        assert(ms.take(i + 1).drop_last() =~= ms.take(i as int));
        assert(ms.take(i + 1).last() == ms[i as int]);
        if stem_is(&entries[i].id, t) {
            let id = entries[i].id.clone();
            let ghost before = out@;
            out.push(id);
            assert(ids_view(out@) =~= ids_view(before).push(id.key()));
            proof {
                assert(ids.contains(id_pair(entries@[i as int].id)));
                assert forall|x: int| 0 <= x < out@.len() implies ids.contains(id_pair(#[trigger] out@[x])) by {
                    if x < before.len() {
                        assert(out@[x] == before[x]);
                    }
                }
            }
        }
        i = i + 1;
    }
    assert(ms.take(i as int) =~= ms);
    out
}

fn build_ambiguous(entries: &Vec<Entry>, Ghost(ids): Ghost<Set<(Seq<Seq<u8>>, Seq<u8>)>>) -> (r: Vec<(String, Vec<NoteId>)>)
    requires
        entries_among(entries@, ids),
    ensures
        amb_view(r@) == ambiguous_of(entries_view(entries@)),
        forall|x: int| 0 <= x < r@.len() ==> ids_among((#[trigger] r@[x]).1@, ids),
{
    let ghost ms = entries_view(entries@);
    let mut stems: Vec<String> = Vec::new();
    let mut i: usize = 0;
    assert(shared_stems(ms, ms.take(0)) =~= Seq::<Seq<u8>>::empty());
    assert(strings_bytes(stems@) =~= Seq::<Seq<u8>>::empty());
    while i < entries.len()
        invariant
            0 <= i <= entries@.len(),
            ms == entries_view(entries@),
            strings_bytes(stems@) == fold_names(shared_stems(ms, ms.take(i as int))),
        decreases entries@.len() - i,
    {
        assert(ms.take(i + 1).drop_last() =~= ms.take(i as int));
        assert(ms.take(i + 1).last() == ms[i as int]);
        let stem = entries[i].id.file_stem();
        if stem_count(entries, stem) > 1 {
            let owned = crate::text::to_owned_string(stem);
            insert_sorted_name(&mut stems, owned);
            assert(shared_stems(ms, ms.take(i + 1)).drop_last() =~= shared_stems(ms, ms.take(i as int)));
        }
        i = i + 1;
    }
    assert(ms.take(i as int) =~= ms);
    let ghost names = strings_bytes(stems@);
    let mut out: Vec<(String, Vec<NoteId>)> = Vec::new();
    let mut j: usize = 0;
    while j < stems.len()
        invariant
            0 <= j <= stems@.len(),
            ms == entries_view(entries@),
            names == strings_bytes(stems@),
            names == fold_names(shared_stems(ms, ms)),
            amb_view(out@) == ambiguous_of(ms).take(j as int),
            entries_among(entries@, ids),
            forall|x: int| 0 <= x < out@.len() ==> ids_among((#[trigger] out@[x]).1@, ids),
        decreases stems@.len() - j,
    {
        let found = ids_with_stem(entries, stems[j].as_str(), Ghost(ids));
        let name = stems[j].clone();
        let ghost before = out@;
        out.push((name, found));
        proof {
            assert forall|x: int| 0 <= x < out@.len() implies ids_among((#[trigger] out@[x]).1@, ids) by {
                if x < before.len() {
                    assert(out@[x] == before[x]);
                }
            }
        }
        assert(names[j as int] == utf8_bytes(stems@[j as int]@));
        assert(amb_view(out@) =~= amb_view(before).push((names[j as int], keys_with_stem(ms, names[j as int]))));
        assert(ambiguous_of(ms)[j as int] == (names[j as int], keys_with_stem(ms, names[j as int])));
        assert(ambiguous_of(ms).take(j + 1) =~= ambiguous_of(ms).take(j as int).push(ambiguous_of(ms)[j as int]));
        assert(amb_view(out@) =~= ambiguous_of(ms).take(j + 1));
        j = j + 1;
    }
    assert(ambiguous_of(ms).take(j as int) =~= ambiguous_of(ms));
    out
}

pub open spec fn amb_view(v: Seq<(String, Vec<NoteId>)>) -> Seq<(Seq<u8>, Seq<Seq<Seq<u8>>>)> {
    v.map_values(|p: (String, Vec<NoteId>)| (utf8_bytes(p.0@), ids_view(p.1@)))
}

pub open spec fn tag_index_view(v: Seq<(Tag, Vec<NoteId>)>) -> Seq<(Seq<u8>, Seq<Seq<Seq<u8>>>)> {
    v.map_values(|p: (Tag, Vec<NoteId>)| (p.0.view_bytes(), ids_view(p.1@)))
}

fn has_tag(tags: &Vec<Tag>, g: &Tag) -> (r: bool)
    ensures
        r == tag_names(tags@).contains(g.view_bytes()),
{
    let mut i: usize = 0;
    while i < tags.len()
        invariant
            0 <= i <= tags@.len(),
            forall|k: int| 0 <= k < i ==> tag_names(tags@)[k] != g.view_bytes(),
        decreases tags@.len() - i,
    {
        proof {
            lemma_bytes_order(tags@[i as int].view_bytes(), g.view_bytes());
        }
        if tags[i].order(g) == 0 {
            assert(tag_names(tags@)[i as int] == g.view_bytes());
            return true;
        }
        i = i + 1;
    }
    false
}

fn build_tag_index(entries: &Vec<Entry>, all: &Vec<Tag>, Ghost(ids): Ghost<Set<(Seq<Seq<u8>>, Seq<u8>)>>) -> (r: Vec<(Tag, Vec<NoteId>)>)
    requires
        tag_names(all@) == all_tags(entries_view(entries@)),
        forall|k: int| 0 <= k < all@.len() ==> (#[trigger] all@[k]).wf(),
        entries_among(entries@, ids),
    ensures
        tag_index_view(r@) == tag_index_of(entries_view(entries@)),
        forall|k: int| 0 <= k < r@.len() ==> (#[trigger] r@[k]).0.wf(),
        forall|x: int| 0 <= x < r@.len() ==> ids_among((#[trigger] r@[x]).1@, ids),
{
    let ghost ms = entries_view(entries@);
    let mut out: Vec<(Tag, Vec<NoteId>)> = Vec::new();
    let mut j: usize = 0;
    while j < all.len()
        invariant
            0 <= j <= all@.len(),
            ms == entries_view(entries@),
            tag_names(all@) == all_tags(ms),
            forall|k: int| 0 <= k < all@.len() ==> (#[trigger] all@[k]).wf(),
            tag_index_view(out@) == tag_index_of(ms).take(j as int),
            forall|k: int| 0 <= k < out@.len() ==> (#[trigger] out@[k]).0.wf(),
            entries_among(entries@, ids),
            forall|x: int| 0 <= x < out@.len() ==> ids_among((#[trigger] out@[x]).1@, ids),
        decreases all@.len() - j,
    {
        let g = &all[j];
        let ghost gb = g.view_bytes();
        let mut users: Vec<NoteId> = Vec::new();
        let mut i: usize = 0;
        assert(ids_view(users@) =~= keys_with_tag(ms.take(0), gb));
        while i < entries.len()
            invariant
                0 <= i <= entries@.len(),
                ms == entries_view(entries@),
                gb == g.view_bytes(),
                ids_view(users@) == keys_with_tag(ms.take(i as int), gb),
                entries_among(entries@, ids),
                ids_among(users@, ids),
            decreases entries@.len() - i,
        {
            assert(ms.take(i + 1).drop_last() =~= ms.take(i as int));
            assert(ms.take(i + 1).last() == ms[i as int]);
            if has_tag(&entries[i].tags, g) {
                let id = entries[i].id.clone();
                let ghost before = users@;
                users.push(id);
                assert(ids_view(users@) =~= ids_view(before).push(id.key()));
                proof {
                    assert(ids.contains(id_pair(entries@[i as int].id)));
                    assert forall|x: int| 0 <= x < users@.len() implies ids.contains(id_pair(#[trigger] users@[x])) by {
                        if x < before.len() {
                            assert(users@[x] == before[x]);
                        }
                    }
                }
            }
            i = i + 1;
        }
        assert(ms.take(i as int) =~= ms);
        let t = g.duplicate();
        let ghost before = out@;
        out.push((t, users));
        assert(tag_names(all@)[j as int] == gb);
        assert(tag_index_view(out@) =~= tag_index_view(before).push((gb, keys_with_tag(ms, gb))));
        assert(tag_index_of(ms)[j as int] == (gb, keys_with_tag(ms, gb)));
        assert(tag_index_of(ms).take(j + 1) =~= tag_index_of(ms).take(j as int).push(tag_index_of(ms)[j as int]));
        assert(tag_index_view(out@) =~= tag_index_of(ms).take(j + 1));
        proof {
            assert forall|k: int| 0 <= k < out@.len() implies (#[trigger] out@[k]).0.wf() by {
                if k < before.len() {
                    assert(out@[k] == before[k]);
                }
            }
            assert forall|x: int| 0 <= x < out@.len() implies ids_among((#[trigger] out@[x]).1@, ids) by {
                if x < before.len() {
                    assert(out@[x] == before[x]);
                }
            }
        }
        j = j + 1;
    }
    assert(tag_index_of(ms).take(j as int) =~= tag_index_of(ms));
    out
}


// ---------------------------------------------------------------------------
// The index
// ---------------------------------------------------------------------------
/// Directed graph of note links and tag associations.
#[derive(Debug, Clone, PartialEq, Eq)]
pub struct Graph {
    nodes: Vec<GraphNode>,
    edges: Vec<GraphEdge>,
}

impl Graph {
    pub closed spec fn nodes_v(&self) -> Seq<NodeView> {
        nodes_view(self.nodes@)
    }

    pub closed spec fn edges_v(&self) -> Seq<(NodeView, NodeView)> {
        edges_view(self.edges@)
    }

    /// The nodes, notes first, then tags.
    pub closed spec fn node_list(&self) -> Seq<GraphNode> {
        self.nodes@
    }

    /// The edges, in source note order.
    pub closed spec fn edge_list(&self) -> Seq<GraphEdge> {
        self.edges@
    }

    /// Returns graph nodes: notes first, then tags.
    pub fn nodes(&self) -> (r: &[GraphNode])
        ensures
            nodes_view(r@) == self.nodes_v(),
            r@ == self.node_list(),
    {
        self.nodes.as_slice()
    }

    /// Returns directed graph edges in source note order.
    pub fn edges(&self) -> (r: &[GraphEdge])
        ensures
            edges_view(r@) == self.edges_v(),
            r@ == self.edge_list(),
    {
        self.edges.as_slice()
    }
}

/// In-memory derived index for a set of parsed notes.
///
/// Wiki links resolve by unique note file stem; links to missing or ambiguous
/// targets make no edge and no backlink.
pub struct FolderIndex {
    graph: Graph,
    backlinks: Vec<(NoteId, Vec<Backlink>)>,
    ambiguous_targets: Vec<(String, Vec<NoteId>)>,
    tag_index: Vec<(Tag, Vec<NoteId>)>,
    model: Ghost<Seq<Facts>>,
    id_texts: Ghost<Set<(Seq<Seq<u8>>, Seq<u8>)>>,
}

impl FolderIndex {
    #[verifier::type_invariant]
    spec fn inv(self) -> bool {
        let ms = self.model@;
        &&& nodes_view(self.graph.nodes@) == nodes_of(ms)
        &&& edges_view(self.graph.edges@) == edges_of(ms)
        &&& self.backlinks@.len() == ms.len()
        &&& forall|i: int|
            0 <= i < ms.len() ==> (#[trigger] self.backlinks@[i]).0.key() == ms[i].0
                && backlinks_view(self.backlinks@[i].1@) == backlinks_of(ms, ms[i].0)
        &&& amb_view(self.ambiguous_targets@) == ambiguous_of(ms)
        &&& tag_index_view(self.tag_index@) == tag_index_of(ms)
        &&& forall|k: int| 0 <= k < self.tag_index@.len() ==> (#[trigger] self.tag_index@[k]).0.wf()
        &&& forall|x: int| 0 <= x < self.graph.nodes@.len() ==> node_among(#[trigger] self.graph.nodes@[x], self.id_texts@)
        &&& forall|x: int| 0 <= x < self.graph.edges@.len() ==> edge_among(#[trigger] self.graph.edges@[x], self.id_texts@)
        &&& forall|x: int, y: int|
            0 <= x < self.backlinks@.len() && 0 <= y < self.backlinks@[x].1@.len() ==> backlink_among(
                #[trigger] self.backlinks@[x].1@[y],
                self.id_texts@,
            )
        &&& forall|x: int| 0 <= x < self.ambiguous_targets@.len() ==> ids_among((#[trigger] self.ambiguous_targets@[x]).1@, self.id_texts@)
        &&& forall|x: int| 0 <= x < self.tag_index@.len() ==> ids_among((#[trigger] self.tag_index@[x]).1@, self.id_texts@)
    }

    /// The identifiers of the indexed notes, each with its path text: every
    /// note identifier the index hands out is one of them.
    pub closed spec fn id_texts(&self) -> Set<(Seq<Seq<u8>>, Seq<u8>)> {
        self.id_texts@
    }

    /// The facts of the indexed notes, sorted by note identifier.
    pub closed spec fn model(&self) -> Seq<Facts> {
        self.model@
    }

    /// Builds an index from parsed notes.
    pub fn from_notes(notes: Vec<MarkdownNote>) -> (r: FolderIndex)
        ensures
            r.model() == index_facts(notes@),
            r.id_texts() == note_ids(notes@),
    {
        let entries = sorted_entries(&notes);
        let ghost ms = entries_view(entries@);
        let ghost ids = note_ids(notes@);
        let edges = build_edges(&entries, Ghost(ids));
        let all = build_all_tags(&entries);
        let mut nodes: Vec<GraphNode> = Vec::new();
        let mut i: usize = 0;
        while i < entries.len()
            invariant
                0 <= i <= entries@.len(),
                ms == entries_view(entries@),
                nodes_view(nodes@) == ms.take(i as int).map_values(|m: Facts| NodeView::Note(m.0)),
                entries_among(entries@, ids),
                forall|x: int| 0 <= x < nodes@.len() ==> node_among(#[trigger] nodes@[x], ids),
            decreases entries@.len() - i,
        {
            let n = note_node(&entries[i].id);
            let ghost before = nodes@;
            nodes.push(n);
            proof {
                assert(ids.contains(id_pair(entries@[i as int].id)));
                assert forall|x: int| 0 <= x < nodes@.len() implies node_among(#[trigger] nodes@[x], ids) by {
                    if x < before.len() {
                        assert(nodes@[x] == before[x]);
                    }
                }
            }
            assert(ms[i as int].0 == entries@[i as int].id.key());
            assert(nodes_view(nodes@) =~= nodes_view(before).push(n@));
            assert(ms.take(i + 1).map_values(|m: Facts| NodeView::Note(m.0)) =~= ms.take(i as int).map_values(
                |m: Facts| NodeView::Note(m.0),
            ).push(NodeView::Note(ms[i as int].0)));
            i = i + 1;
        }
        let ghost notes_part = nodes_view(nodes@);
        assert(ms.take(i as int) =~= ms);
        let mut j: usize = 0;
        while j < all.len()
            invariant
                0 <= j <= all@.len(),
                notes_part == ms.map_values(|m: Facts| NodeView::Note(m.0)),
                tag_names(all@) == all_tags(ms),
                nodes_view(nodes@) == notes_part + all_tags(ms).take(j as int).map_values(
                    |g: Seq<u8>| NodeView::Tag(g),
                ),
                forall|x: int| 0 <= x < nodes@.len() ==> node_among(#[trigger] nodes@[x], ids),
            decreases all@.len() - j,
        {
            let n = GraphNode::Tag { tag: all[j].duplicate() };
            let ghost before = nodes@;
            nodes.push(n);
            proof {
                assert forall|x: int| 0 <= x < nodes@.len() implies node_among(#[trigger] nodes@[x], ids) by {
                    if x < before.len() {
                        assert(nodes@[x] == before[x]);
                    }
                }
            }
            assert(tag_names(all@)[j as int] == all@[j as int].view_bytes());
            assert(n@ == NodeView::Tag(all_tags(ms)[j as int]));
            assert(all_tags(ms).take(j + 1).map_values(|g: Seq<u8>| NodeView::Tag(g)) =~= all_tags(ms).take(
                j as int,
            ).map_values(|g: Seq<u8>| NodeView::Tag(g)).push(n@));
            assert(nodes_view(nodes@) =~= nodes_view(before).push(n@));
            assert(nodes_view(nodes@) =~= notes_part + all_tags(ms).take(j + 1).map_values(
                |g: Seq<u8>| NodeView::Tag(g),
            ));
            j = j + 1;
        }
        assert(all_tags(ms).take(j as int) =~= all_tags(ms));
        let mut backlinks: Vec<(NoteId, Vec<Backlink>)> = Vec::new();
        let mut k: usize = 0;
        while k < entries.len()
            invariant
                0 <= k <= entries@.len(),
                ms == entries_view(entries@),
                backlinks@.len() == k,
                forall|x: int|
                    0 <= x < k ==> (#[trigger] backlinks@[x]).0.key() == ms[x].0 && backlinks_view(
                        backlinks@[x].1@,
                    ) == backlinks_of(ms, ms[x].0),
                entries_among(entries@, ids),
                forall|x: int, y: int|
                    0 <= x < backlinks@.len() && 0 <= y < backlinks@[x].1@.len() ==> backlink_among(
                        #[trigger] backlinks@[x].1@[y],
                        ids,
                    ),
            decreases entries@.len() - k,
        {
            let list = build_backlinks_to(&entries, k, Ghost(ids));
            let id = entries[k].id.clone();
            let ghost before = backlinks@;
            backlinks.push((id, list));
            proof {
                assert forall|x: int, y: int|
                    0 <= x < backlinks@.len() && 0 <= y < backlinks@[x].1@.len() implies backlink_among(
                    #[trigger] backlinks@[x].1@[y],
                    ids,
                ) by {
                    if x < before.len() {
                        assert(backlinks@[x] == before[x]);
                    }
                }
            }
            k = k + 1;
        }
        let ambiguous_targets = build_ambiguous(&entries, Ghost(ids));
        let tag_index = build_tag_index(&entries, &all, Ghost(ids));
        FolderIndex {
            graph: Graph { nodes, edges },
            backlinks,
            ambiguous_targets,
            tag_index,
            model: Ghost(ms),
            id_texts: Ghost(ids),
        }
    }

    /// Returns graph data for indexed notes.
    pub fn graph(&self) -> (r: &Graph)
        ensures
            r.nodes_v() == nodes_of(self.model()),
            r.edges_v() == edges_of(self.model()),
            forall|x: int| 0 <= x < r.node_list().len() ==> node_among(#[trigger] r.node_list()[x], self.id_texts()),
            forall|x: int| 0 <= x < r.edge_list().len() ==> edge_among(#[trigger] r.edge_list()[x], self.id_texts()),
    {
        proof {
            use_type_invariant(self);
        }
        &self.graph
    }

    /// Returns the backlinks that target the given note, in link order.
    pub fn backlinks_to(&self, note_id: &NoteId) -> (r: &[Backlink])
        ensures
            backlinks_view(r@) == backlinks_of(self.model(), note_id.key()),
            forall|x: int| 0 <= x < r@.len() ==> backlink_among(#[trigger] r@[x], self.id_texts()),
    {
        proof {
            use_type_invariant(self);
        }
        let mut i: usize = 0;
        while i < self.backlinks.len()
            invariant
                0 <= i <= self.backlinks@.len(),
                self.backlinks@.len() == self.model().len(),
                forall|x: int| 0 <= x < i ==> (#[trigger] self.backlinks@[x]).0.key() != note_id.key(),
                forall|x: int, y: int|
                    0 <= x < self.backlinks@.len() && 0 <= y < self.backlinks@[x].1@.len() ==> backlink_among(
                        #[trigger] self.backlinks@[x].1@[y],
                        self.id_texts(),
                    ),
                forall|x: int|
                    0 <= x < self.model().len() ==> (#[trigger] self.backlinks@[x]).0.key()
                        == self.model()[x].0 && backlinks_view(self.backlinks@[x].1@) == backlinks_of(
                        self.model(),
                        self.model()[x].0,
                    ),
            decreases self.backlinks@.len() - i,
        {
            if self.backlinks[i].0.same(note_id) {
                return self.backlinks[i].1.as_slice();
            }
            i = i + 1;
        }
        proof {
            assert forall|x: int| 0 <= x < self.model().len() implies (#[trigger] self.model()[x]).0
                != note_id.key() by {
                assert(self.backlinks@[x].0.key() == self.model()[x].0);
            }
            lemma_backlinks_of_unknown(self.model(), note_id.key());
        }
        let empty: &[Backlink] = &[];
        assert(backlinks_view(empty@) =~= Seq::<(Seq<Seq<u8>>, Seq<Seq<u8>>)>::empty());
        empty
    }

    /// Returns the stems shared by several notes, by name, each with its notes.
    /// Links to these stems are not resolved.
    pub fn ambiguous_targets(&self) -> (r: &Vec<(String, Vec<NoteId>)>)
        ensures
            amb_view(r@) == ambiguous_of(self.model()),
            forall|x: int| 0 <= x < r@.len() ==> ids_among((#[trigger] r@[x]).1@, self.id_texts()),
    {
        proof {
            use_type_invariant(self);
        }
        &self.ambiguous_targets
    }

    /// Returns each tag, by name, with the notes that use it.
    pub fn tag_index(&self) -> (r: &Vec<(Tag, Vec<NoteId>)>)
        ensures
            tag_index_view(r@) == tag_index_of(self.model()),
            forall|x: int| 0 <= x < r@.len() ==> ids_among((#[trigger] r@[x]).1@, self.id_texts()),
    {
        proof {
            use_type_invariant(self);
        }
        &self.tag_index
    }

    /// Returns the file stems of the indexed notes, in node order.
    pub fn note_stems(&self) -> (r: Vec<&str>)
        ensures
            r@.len() == self.model().len(),
            forall|i: int| 0 <= i < r@.len() ==> (#[trigger] r@[i]).spec_bytes() == key_stem(self.model()[i].0),
    {
        proof {
            use_type_invariant(self);
        }
        let ghost ms = self.model();
        let mut out: Vec<&str> = Vec::new();
        let mut i: usize = 0;
        while i < self.graph.nodes.len()
            invariant
                0 <= i <= self.graph.nodes@.len(),
                nodes_view(self.graph.nodes@) == nodes_of(ms),
                out@.len() == if i <= ms.len() { i as int } else { ms.len() as int },
                forall|x: int| 0 <= x < out@.len() ==> (#[trigger] out@[x]).spec_bytes() == key_stem(ms[x].0),
            decreases self.graph.nodes@.len() - i,
        {
            assert(nodes_of(ms)[i as int] == nodes_view(self.graph.nodes@)[i as int]);
            let ghost notes_part = ms.map_values(|m: Facts| NodeView::Note(m.0));
            let ghost tags_part = all_tags(ms).map_values(|g: Seq<u8>| NodeView::Tag(g));
            assert(nodes_of(ms) == notes_part + tags_part);
            proof {
                if i < ms.len() {
                    assert(nodes_of(ms)[i as int] == notes_part[i as int]);
                } else {
                    assert(nodes_of(ms)[i as int] == tags_part[i - ms.len()]);
                }
            }
            match &self.graph.nodes[i] {
                GraphNode::Note { note_id } => {
                    proof {
                        if i >= ms.len() {
                            assert(nodes_of(ms)[i as int] is Tag);
                        }
                    }
                    out.push(note_id.file_stem());
                },
                GraphNode::Tag { .. } => {
                    proof {
                        if i < ms.len() {
                            assert(nodes_of(ms)[i as int] is Note);
                        }
                    }
                },
            }
            i = i + 1;
        }
        assert(nodes_of(ms).len() >= ms.len());
        out
    }
}

/// A note that no link resolves to has no backlinks.
proof fn lemma_backlinks_of_unknown(ms: Seq<Facts>, k: Seq<Seq<u8>>)
    requires
        forall|x: int| 0 <= x < ms.len() ==> (#[trigger] ms[x]).0 != k,
    ensures
        backlinks_of(ms, k) == Seq::<(Seq<Seq<u8>>, Seq<Seq<u8>>)>::empty(),
{
    assert forall|t: Seq<u8>| resolve(ms, t) != Some(k) by {
        if resolve(ms, t) == Some(k) {
            lemma_keys_with_stem_in(ms, t);
            let w = choose|x: int| 0 <= x < ms.len() && ms[x].0 == keys_with_stem(ms, t)[0];
        }
    }
    lemma_backs_empty(ms, ms, k);
}

proof fn lemma_keys_with_stem_in(part: Seq<Facts>, t: Seq<u8>)
    ensures
        forall|j: int|
            0 <= j < keys_with_stem(part, t).len() ==> exists|x: int|
                0 <= x < part.len() && part[x].0 == #[trigger] keys_with_stem(part, t)[j],
    decreases part.len(),
{
    if part.len() > 0 {
        lemma_keys_with_stem_in(part.drop_last(), t);
        let r = keys_with_stem(part, t);
        let p = keys_with_stem(part.drop_last(), t);
        assert forall|j: int| 0 <= j < r.len() implies exists|x: int|
            0 <= x < part.len() && part[x].0 == #[trigger] r[j] by {
            if j < p.len() {
                assert(r[j] == p[j]);
                let x = choose|x: int| 0 <= x < part.drop_last().len() && part.drop_last()[x].0 == p[j];
                assert(part[x] == part.drop_last()[x]);
            } else {
                assert(part[part.len() - 1].0 == r[j]);
            }
        }
    }
}

proof fn lemma_backs_empty(ms: Seq<Facts>, part: Seq<Facts>, k: Seq<Seq<u8>>)
    requires
        forall|t: Seq<u8>| resolve(ms, t) != Some(k),
    ensures
        backs_over(ms, part, k) == Seq::<(Seq<Seq<u8>>, Seq<Seq<u8>>)>::empty(),
    decreases part.len(),
{
    if part.len() > 0 {
        lemma_backs_empty(ms, part.drop_last(), k);
        lemma_link_backs_empty(ms, part.last().0, part.last().1, k);
        assert(backs_over(ms, part, k) =~= Seq::<(Seq<Seq<u8>>, Seq<Seq<u8>>)>::empty());
    }
}

proof fn lemma_link_backs_empty(ms: Seq<Facts>, src: Seq<Seq<u8>>, links: Seq<Seq<u8>>, k: Seq<Seq<u8>>)
    requires
        forall|t: Seq<u8>| resolve(ms, t) != Some(k),
    ensures
        link_backs(ms, src, links, k) == Seq::<(Seq<Seq<u8>>, Seq<Seq<u8>>)>::empty(),
    decreases links.len(),
{
    if links.len() > 0 {
        lemma_link_backs_empty(ms, src, links.drop_last(), k);
        assert(resolve(ms, links.last()) != Some(k));
    }
}


// ---------------------------------------------------------------------------
// Neighborhoods
// ---------------------------------------------------------------------------
/// Nodes joined by some edge of `es` to a node of `s`, in either direction.
pub open spec fn neighbors(s: Set<NodeView>, es: Seq<(NodeView, NodeView)>, n: int) -> Set<NodeView> {
    Set::new(
        |v: NodeView|
            exists|i: int|
                0 <= i < n && i < es.len() && ((s.contains(es[i].0) && es[i].1 == v) || (s.contains(
                    es[i].1,
                ) && es[i].0 == v)),
    )
}

/// `s` and its neighbors.
pub open spec fn step(s: Set<NodeView>, es: Seq<(NodeView, NodeView)>) -> Set<NodeView> {
    s.union(neighbors(s, es, es.len() as int))
}

/// The nodes at most `k` hops from `focus`, following edges either way.
pub open spec fn within(focus: NodeView, es: Seq<(NodeView, NodeView)>, k: nat) -> Set<NodeView>
    decreases k,
{
    if k == 0 {
        set![focus]
    } else {
        step(within(focus, es, (k - 1) as nat), es)
    }
}

/// The edges of `es` with both ends in `s`, in order.
pub open spec fn edges_within(es: Seq<(NodeView, NodeView)>, s: Set<NodeView>) -> Seq<(NodeView, NodeView)>
    decreases es.len(),
{
    if es.len() == 0 {
        Seq::empty()
    } else if s.contains(es.last().0) && s.contains(es.last().1) {
        edges_within(es.drop_last(), s).push(es.last())
    } else {
        edges_within(es.drop_last(), s)
    }
}

/// Once a step adds nothing, further steps add nothing either.
pub proof fn lemma_within_fixpoint(focus: NodeView, es: Seq<(NodeView, NodeView)>, k: nat, m: nat)
    requires
        within(focus, es, k + 1) == within(focus, es, k),
        k <= m,
    ensures
        within(focus, es, m) == within(focus, es, k),
    decreases m - k,
{
    if m > k {
        lemma_within_fixpoint(focus, es, k, (m - 1) as nat);
    }
}

pub proof fn lemma_node_order_trans(a: NodeView, b: NodeView, c: NodeView)
    requires
        node_order(a, b) < 0,
        node_order(b, c) < 0,
    ensures
        node_order(a, c) < 0,
{
    match (a, b, c) {
        (NodeView::Note(x), NodeView::Note(y), NodeView::Note(z)) => {
            crate::path::lemma_comps_order_trans(x, y, z, 0);
        },
        (NodeView::Tag(x), NodeView::Tag(y), NodeView::Tag(z)) => {
            crate::path::lemma_bytes_order_trans(x, y, z, 0);
        },
        _ => {},
    }
}

/// Nodes strictly increase.
pub open spec fn nodes_sorted(s: Seq<NodeView>) -> bool {
    forall|i: int, j: int| 0 <= i < j < s.len() ==> node_order(#[trigger] s[i], #[trigger] s[j]) < 0
}

/// Depth-bounded view of a [`FolderIndex`] centered on one node.
#[derive(Debug, Clone, PartialEq, Eq)]
pub struct Neighborhood {
    /// Notes and tags within the requested hop distance, deduplicated and sorted.
    pub nodes: Vec<GraphNode>,
    /// Directed edges between two nodes of `nodes`, including self-loops.
    pub edges: Vec<(GraphNode, GraphNode)>,
}

fn contains_node(v: &Vec<GraphNode>, n: &GraphNode) -> (r: bool)
    ensures
        r == nodes_view(v@).contains(n@),
{
    let mut i: usize = 0;
    while i < v.len()
        invariant
            0 <= i <= v@.len(),
            forall|k: int| 0 <= k < i ==> nodes_view(v@)[k] != n@,
        decreases v@.len() - i,
    {
        if v[i].same(n) {
            assert(nodes_view(v@)[i as int] == n@);
            return true;
        }
        i = i + 1;
    }
    false
}

fn clone_nodes(v: &Vec<GraphNode>) -> (r: Vec<GraphNode>)
    ensures
        nodes_view(r@) == nodes_view(v@),
{
    let mut out: Vec<GraphNode> = Vec::new();
    let mut i: usize = 0;
    while i < v.len()
        invariant
            0 <= i <= v@.len(),
            out@.len() == i,
            nodes_view(out@) == nodes_view(v@).take(i as int),
        decreases v@.len() - i,
    {
        let n = v[i].clone();
        out.push(n);
        assert(nodes_view(out@) =~= nodes_view(v@).take(i + 1));
        i = i + 1;
    }
    assert(nodes_view(v@).take(i as int) =~= nodes_view(v@));
    out
}

proof fn lemma_push_to_set<T>(s: Seq<T>, x: T)
    ensures
        forall|v: T| s.push(x).to_set().contains(v) <==> (s.to_set().contains(v) || v == x),
{
    assert forall|v: T| s.push(x).to_set().contains(v) <==> (s.to_set().contains(v) || v == x) by {
        if s.push(x).contains(v) {
            let k = choose|k: int| 0 <= k < s.push(x).len() && s.push(x)[k] == v;
            if k < s.len() {
                assert(s[k] == v);
            }
        }
        if s.contains(v) {
            let k = choose|k: int| 0 <= k < s.len() && s[k] == v;
            assert(s.push(x)[k] == v);
        }
        if v == x {
            assert(s.push(x)[s.len() as int] == v);
        }
    }
}

/// One breadth step: `visited` and its neighbors; whether a node was added.
fn expand(visited: &Vec<GraphNode>, es: &Vec<GraphEdge>) -> (r: (Vec<GraphNode>, bool))
    ensures
        nodes_view(r.0@).to_set() == step(nodes_view(visited@).to_set(), edges_view(es@)),
        !r.1 ==> nodes_view(r.0@).to_set() == nodes_view(visited@).to_set(),
{
    let ghost s = nodes_view(visited@).to_set();
    let ghost ev = edges_view(es@);
    let mut next = clone_nodes(visited);
    let mut grew = false;
    let mut i: usize = 0;
    assert(nodes_view(next@).to_set() =~= s.union(neighbors(s, ev, 0)));
    while i < es.len()
        invariant
            0 <= i <= es@.len(),
            s == nodes_view(visited@).to_set(),
            ev == edges_view(es@),
            nodes_view(next@).to_set() == s.union(neighbors(s, ev, i as int)),
            !grew ==> nodes_view(next@).to_set() == s,
        decreases es@.len() - i,
    {
        let e = &es[i];
        assert(ev[i as int] == e@);
        let src_in = contains_node(visited, e.source());
        let dst_in = contains_node(visited, e.target());
        let ghost before = nodes_view(next@).to_set();
        if src_in && !contains_node(&next, e.target()) {
            let n = e.target().clone();
            let ghost b0 = next@;
            next.push(n);
            proof {
                assert(nodes_view(next@) =~= nodes_view(b0).push(n@));
                lemma_push_to_set(nodes_view(b0), n@);
            }
            grew = true;
        }
        let ghost mid = nodes_view(next@).to_set();
        proof {
            assert(src_in == nodes_view(visited@).contains(e@.0));
            assert(nodes_view(visited@).contains(e@.0) == s.contains(e@.0));
            assert forall|v: NodeView| mid.contains(v) <==> (before.contains(v) || (s.contains(e@.0) && v == e@.1)) by {
                if s.contains(e@.0) && v == e@.1 && !mid.contains(v) {
                    assert(before.contains(e@.1));
                }
            }
        }
        if dst_in && !contains_node(&next, e.source()) {
            let n = e.source().clone();
            let ghost b0 = next@;
            next.push(n);
            proof {
                assert(nodes_view(next@) =~= nodes_view(b0).push(n@));
                lemma_push_to_set(nodes_view(b0), n@);
            }
            grew = true;
        }
        proof {
            let after = nodes_view(next@).to_set();
            assert(dst_in == nodes_view(visited@).contains(e@.1));
            assert(nodes_view(visited@).contains(e@.1) == s.contains(e@.1));
            assert forall|v: NodeView| after.contains(v) <==> (mid.contains(v) || (s.contains(e@.1) && v == e@.0)) by {
                if s.contains(e@.1) && v == e@.0 && !after.contains(v) {
                    assert(mid.contains(e@.0));
                }
            }
            let want = s.union(neighbors(s, ev, i + 1));
            assert forall|v: NodeView| after.contains(v) <==> want.contains(v) by {
                if neighbors(s, ev, i + 1).contains(v) && !neighbors(s, ev, i as int).contains(v) {
                    let w = choose|w: int|
                        0 <= w < i + 1 && w < ev.len() && ((s.contains(ev[w].0) && ev[w].1 == v) || (
                        s.contains(ev[w].1) && ev[w].0 == v));
                    assert(w == i);
                }
                if neighbors(s, ev, i as int).contains(v) {
                    let w = choose|w: int|
                        0 <= w < i && w < ev.len() && ((s.contains(ev[w].0) && ev[w].1 == v) || (
                        s.contains(ev[w].1) && ev[w].0 == v));
                    assert(neighbors(s, ev, i + 1).contains(v));
                }
                if s.contains(e@.0) && v == e@.1 {
                    assert(neighbors(s, ev, i + 1).contains(v));
                }
                if s.contains(e@.1) && v == e@.0 {
                    assert(neighbors(s, ev, i + 1).contains(v));
                }
            }
            assert(after =~= want);
        }
        i = i + 1;
    }
    (next, grew)
}

/// Inserts `n` into the strictly sorted node list `out`, unless it is there.
fn insert_sorted_node(out: &mut Vec<GraphNode>, n: GraphNode)
    requires
        nodes_sorted(nodes_view(old(out)@)),
    ensures
        nodes_sorted(nodes_view(final(out)@)),
        forall|x: NodeView| nodes_view(final(out)@).contains(x) <==> (nodes_view(old(out)@).contains(x)
            || x == n@),
{
    let ghost names = nodes_view(out@);
    let ghost x = n@;
    let mut i: usize = 0;
    while i < out.len()
        invariant
            0 <= i <= out@.len(),
            names == nodes_view(out@),
            out@ == old(out)@,
            nodes_sorted(names),
            x == n@,
            forall|j: int| 0 <= j < i ==> node_order(#[trigger] names[j], x) < 0,
        decreases out@.len() - i,
    {
        let c = out[i].order(&n);
        proof {
            lemma_node_order(names[i as int], x);
        }
        if c == 0 {
            proof {
                assert forall|y: NodeView| names.contains(y) <==> (names.contains(y) || y == x) by {
                    if y == x {
                        assert(names[i as int] == y);
                    }
                }
            }
            return;
        }
        if c > 0 {
            out.insert(i, n);
            proof {
                let r = nodes_view(out@);
                assert(r =~= names.take(i as int) + seq![x] + names.skip(i as int));
                assert forall|a: int, bb: int| 0 <= a < bb < r.len() implies node_order(
                    #[trigger] r[a],
                    #[trigger] r[bb],
                ) < 0 by {
                    if bb < i {
                    } else if bb == i {
                        assert(r[a] == names[a]);
                    } else if a < i {
                        assert(r[bb] == names[bb - 1]);
                        assert(r[a] == names[a]);
                        lemma_node_order(x, names[i as int]);
                        if bb - 1 > i {
                            lemma_node_order_trans(x, names[i as int], names[bb - 1]);
                        }
                        lemma_node_order_trans(names[a], x, names[bb - 1]);
                    } else if a == i {
                        assert(r[bb] == names[bb - 1]);
                        lemma_node_order(x, names[i as int]);
                        if bb - 1 > i {
                            lemma_node_order_trans(x, names[i as int], names[bb - 1]);
                        }
                    } else {
                        assert(r[a] == names[a - 1] && r[bb] == names[bb - 1]);
                    }
                }
                assert forall|y: NodeView| r.contains(y) <==> (names.contains(y) || y == x) by {
                    if r.contains(y) {
                        let k = choose|k: int| 0 <= k < r.len() && r[k] == y;
                        if k < i {
                            assert(names[k] == y);
                        } else if k > i {
                            assert(names[k - 1] == y);
                        }
                    }
                    if names.contains(y) {
                        let k = choose|k: int| 0 <= k < names.len() && names[k] == y;
                        if k < i {
                            assert(r[k] == y);
                        } else {
                            assert(r[k + 1] == y);
                        }
                    }
                    if y == x {
                        assert(r[i as int] == y);
                    }
                }
            }
            return;
        }
        i = i + 1;
    }
    out.push(n);
    proof {
        let r = nodes_view(out@);
        assert(r =~= names.push(x));
        assert forall|y: NodeView| r.contains(y) <==> (names.contains(y) || y == x) by {
            if r.contains(y) {
                let k = choose|k: int| 0 <= k < r.len() && r[k] == y;
                if k < names.len() {
                    assert(names[k] == y);
                }
            }
            if names.contains(y) {
                let k = choose|k: int| 0 <= k < names.len() && names[k] == y;
                assert(r[k] == y);
            }
            if y == x {
                assert(r[names.len() as int] == y);
            }
        }
    }
}

impl FolderIndex {
    /// Returns the nodes at most `depth` hops from `focus`, following edges in
    /// either direction, sorted and deduplicated, with every edge between two
    /// of them. An unknown focus gives just that node.
    pub fn neighborhood(&self, focus: &GraphNode, depth: usize) -> (r: Neighborhood)
        ensures
            nodes_sorted(nodes_view(r.nodes@)),
            forall|v: NodeView| nodes_view(r.nodes@).contains(v) <==> within(
                focus@,
                edges_of(self.model()),
                depth as nat,
            ).contains(v),
            pairs_view(r.edges@) == edges_within(
                edges_of(self.model()),
                within(focus@, edges_of(self.model()), depth as nat),
            ),
    {
        proof {
            use_type_invariant(self);
        }
        let es = &self.graph.edges;
        let ghost ev = edges_view(es@);
        let mut visited: Vec<GraphNode> = Vec::new();
        visited.push(focus.clone());
        proof {
            assert forall|v: NodeView| nodes_view(visited@).to_set().contains(v) <==> within(focus@, ev, 0).contains(v) by {
                assert(nodes_view(visited@)[0] == focus@);
                if nodes_view(visited@).contains(v) {
                    let k = choose|k: int| 0 <= k < nodes_view(visited@).len() && nodes_view(visited@)[k] == v;
                }
            }
            assert(nodes_view(visited@).to_set() =~= within(focus@, ev, 0));
        }
        let mut k: usize = 0;
        loop
            invariant
                k <= depth,
                ev == edges_view(es@),
                ev == edges_of(self.model()),
                nodes_view(visited@).to_set() == within(focus@, ev, k as nat),
            ensures
                nodes_view(visited@).to_set() == within(focus@, ev, depth as nat),
            decreases depth - k,
        {
            if k == depth {
                break;
            }
            let (next, grew) = expand(&visited, es);
            if !grew {
                proof {
                    assert(within(focus@, ev, (k + 1) as nat) == step(within(focus@, ev, k as nat), ev));
                    lemma_within_fixpoint(focus@, ev, k as nat, depth as nat);
                }
                break;
            }
            visited = next;
            k = k + 1;
        }
        let ghost set = within(focus@, ev, depth as nat);
        let mut nodes: Vec<GraphNode> = Vec::new();
        let mut i: usize = 0;
        while i < visited.len()
            invariant
                0 <= i <= visited@.len(),
                nodes_sorted(nodes_view(nodes@)),
                forall|x: NodeView| nodes_view(nodes@).contains(x) <==> nodes_view(visited@).take(i as int).contains(x),
            decreases visited@.len() - i,
        {
            let n = visited[i].clone();
            insert_sorted_node(&mut nodes, n);
            proof {
                let t1 = nodes_view(visited@).take(i + 1);
                let t0 = nodes_view(visited@).take(i as int);
                assert(t1[i as int] == n@);
                assert forall|x: NodeView| nodes_view(nodes@).contains(x) <==> t1.contains(x) by {
                    if t1.contains(x) {
                        let w = choose|w: int| 0 <= w < t1.len() && t1[w] == x;
                        if w < i {
                            assert(t0[w] == x);
                        }
                    }
                    if t0.contains(x) {
                        let w = choose|w: int| 0 <= w < t0.len() && t0[w] == x;
                        assert(t1[w] == x);
                    }
                }
            }
            i = i + 1;
        }
        assert(nodes_view(visited@).take(i as int) =~= nodes_view(visited@));
        let mut edges: Vec<(GraphNode, GraphNode)> = Vec::new();
        let mut j: usize = 0;
        assert(ev.take(0) =~= Seq::<(NodeView, NodeView)>::empty());
        assert(pairs_view(edges@) =~= edges_within(ev.take(0), set));
        while j < es.len()
            invariant
                0 <= j <= es@.len(),
                ev == edges_view(es@),
                set == nodes_view(visited@).to_set(),
                pairs_view(edges@) == edges_within(ev.take(j as int), set),
            decreases es@.len() - j,
        {
            let e = &es[j];
            assert(ev[j as int] == e@);
            assert(ev.take(j + 1).drop_last() =~= ev.take(j as int));
            assert(ev.take(j + 1).last() == e@);
            let a = contains_node(&visited, e.source());
            let b = contains_node(&visited, e.target());
            proof {
                assert(nodes_view(visited@).contains(e@.0) == set.contains(e@.0));
                assert(nodes_view(visited@).contains(e@.1) == set.contains(e@.1));
            }
            if a && b {
                let p = (e.source().clone(), e.target().clone());
                let ghost before = edges@;
                edges.push(p);
                assert(pairs_view(edges@) =~= pairs_view(before).push(e@));
            }
            j = j + 1;
        }
        assert(ev.take(j as int) =~= ev);
        proof {
            assert forall|v: NodeView| nodes_view(nodes@).contains(v) <==> set.contains(v) by {
                assert(nodes_view(visited@).contains(v) == set.contains(v));
            }
        }
        Neighborhood { nodes, edges }
    }
}

// ---------------------------------------------------------------------------
// The link resolution policy
// ---------------------------------------------------------------------------
proof fn lemma_contains_concat<A>(s1: Seq<A>, s2: Seq<A>, x: A)
    ensures
        (s1 + s2).contains(x) <==> s1.contains(x) || s2.contains(x),
{
    if (s1 + s2).contains(x) {
        let i = choose|i: int| 0 <= i < (s1 + s2).len() && (s1 + s2)[i] == x;
        if i >= s1.len() {
            assert(s2[i - s1.len()] == x);
        }
    }
    if s1.contains(x) {
        let i = choose|i: int| 0 <= i < s1.len() && s1[i] == x;
        assert((s1 + s2)[i] == x);
    }
    if s2.contains(x) {
        let i = choose|i: int| 0 <= i < s2.len() && s2[i] == x;
        assert((s1 + s2)[s1.len() + i] == x);
    }
}

proof fn lemma_keys_with_stem_have_stem(part: Seq<Facts>, t: Seq<u8>)
    ensures
        forall|j: int| 0 <= j < keys_with_stem(part, t).len() ==> key_stem(#[trigger] keys_with_stem(part, t)[j]) == t,
    decreases part.len(),
{
    if part.len() > 0 {
        lemma_keys_with_stem_have_stem(part.drop_last(), t);
        let p = keys_with_stem(part.drop_last(), t);
        assert forall|j: int| 0 <= j < keys_with_stem(part, t).len() implies key_stem(
            #[trigger] keys_with_stem(part, t)[j],
        ) == t by {
            if j < p.len() {
                assert(keys_with_stem(part, t)[j] == p[j]);
            }
        }
    }
}

/// Whether some link of `links` resolves to the note `k`.
pub open spec fn links_resolve_to(ms: Seq<Facts>, links: Seq<Seq<u8>>, k: Seq<Seq<u8>>) -> bool {
    exists|j: int| 0 <= j < links.len() && resolve(ms, #[trigger] links[j]) == Some(k)
}

proof fn lemma_link_edges_contains(
    ms: Seq<Facts>,
    src: Seq<Seq<u8>>,
    links: Seq<Seq<u8>>,
    a: Seq<Seq<u8>>,
    k: Seq<Seq<u8>>,
)
    ensures
        link_edges(ms, src, links).contains((NodeView::Note(a), NodeView::Note(k))) <==> (a == src
            && links_resolve_to(ms, links, k)),
    decreases links.len(),
{
    let e = (NodeView::Note(a), NodeView::Note(k));
    if links.len() > 0 {
        let d = links.drop_last();
        lemma_link_edges_contains(ms, src, d, a, k);
        let tail: Seq<(NodeView, NodeView)> = match resolve(ms, links.last()) {
            Some(t) => seq![(NodeView::Note(src), NodeView::Note(t))],
            None => Seq::empty(),
        };
        lemma_contains_concat(link_edges(ms, src, d), tail, e);
        if links_resolve_to(ms, links, k) {
            let j = choose|j: int| 0 <= j < links.len() && resolve(ms, #[trigger] links[j]) == Some(k);
            if j < d.len() {
                assert(d[j] == links[j]);
            } else if a == src {
                assert(tail[0] == e);
            }
        }
        if links_resolve_to(ms, d, k) {
            let j = choose|j: int| 0 <= j < d.len() && resolve(ms, #[trigger] d[j]) == Some(k);
            assert(links[j] == d[j]);
        }
        if tail.contains(e) {
            assert(resolve(ms, links[links.len() - 1]) == Some(k));
        }
    }
}

proof fn lemma_link_backs_contains(
    ms: Seq<Facts>,
    src: Seq<Seq<u8>>,
    links: Seq<Seq<u8>>,
    a: Seq<Seq<u8>>,
    k: Seq<Seq<u8>>,
)
    ensures
        link_backs(ms, src, links, k).contains((a, k)) <==> (a == src && links_resolve_to(ms, links, k)),
    decreases links.len(),
{
    if links.len() > 0 {
        let d = links.drop_last();
        lemma_link_backs_contains(ms, src, d, a, k);
        let prev = link_backs(ms, src, d, k);
        if resolve(ms, links.last()) == Some(k) {
            lemma_contains_concat(prev, seq![(src, k)], (a, k));
            assert(prev.push((src, k)) == prev + seq![(src, k)]);
        }
        if links_resolve_to(ms, links, k) {
            let j = choose|j: int| 0 <= j < links.len() && resolve(ms, #[trigger] links[j]) == Some(k);
            if j < d.len() {
                assert(d[j] == links[j]);
            } else if a == src {
                assert(prev.push((src, k))[prev.len() as int] == (a, k));
            }
        }
        if links_resolve_to(ms, d, k) {
            let j = choose|j: int| 0 <= j < d.len() && resolve(ms, #[trigger] d[j]) == Some(k);
            assert(links[j] == d[j]);
        }
    }
}

proof fn lemma_tag_edges_no_notes(src: Seq<Seq<u8>>, tags: Seq<Seq<u8>>, a: Seq<Seq<u8>>, k: Seq<Seq<u8>>)
    ensures
        !tag_edges(src, tags).contains((NodeView::Note(a), NodeView::Note(k))),
{
    if tag_edges(src, tags).contains((NodeView::Note(a), NodeView::Note(k))) {
        let i = choose|i: int| 0 <= i < tag_edges(src, tags).len() && tag_edges(src, tags)[i] == (
            NodeView::Note(a),
            NodeView::Note(k),
        );
    }
}

/// Whether some note of `part` is `a` and has a link resolving to `k`.
pub open spec fn some_note_links(ms: Seq<Facts>, part: Seq<Facts>, a: Seq<Seq<u8>>, k: Seq<Seq<u8>>) -> bool {
    exists|x: int| 0 <= x < part.len() && (#[trigger] part[x]).0 == a && links_resolve_to(ms, part[x].1, k)
}

proof fn lemma_over_contains(ms: Seq<Facts>, part: Seq<Facts>, a: Seq<Seq<u8>>, k: Seq<Seq<u8>>)
    ensures
        edges_over(ms, part).contains((NodeView::Note(a), NodeView::Note(k))) <==> some_note_links(ms, part, a, k),
        backs_over(ms, part, k).contains((a, k)) <==> some_note_links(ms, part, a, k),
    decreases part.len(),
{
    let e = (NodeView::Note(a), NodeView::Note(k));
    if part.len() > 0 {
        let d = part.drop_last();
        let l = part.last();
        lemma_over_contains(ms, d, a, k);
        lemma_link_edges_contains(ms, l.0, l.1, a, k);
        lemma_link_backs_contains(ms, l.0, l.1, a, k);
        lemma_tag_edges_no_notes(l.0, l.2, a, k);
        lemma_contains_concat(edges_over(ms, d), link_edges(ms, l.0, l.1), e);
        lemma_contains_concat(edges_over(ms, d) + link_edges(ms, l.0, l.1), tag_edges(l.0, l.2), e);
        lemma_contains_concat(backs_over(ms, d, k), link_backs(ms, l.0, l.1, k), (a, k));
        if some_note_links(ms, part, a, k) {
            let x = choose|x: int| 0 <= x < part.len() && (#[trigger] part[x]).0 == a && links_resolve_to(ms, part[x].1, k);
            if x < d.len() {
                assert(d[x] == part[x]);
            }
        }
        if some_note_links(ms, d, a, k) {
            let x = choose|x: int| 0 <= x < d.len() && (#[trigger] d[x]).0 == a && links_resolve_to(ms, d[x].1, k);
            assert(part[x] == d[x]);
        }
    }
}

/// The backlinks agree with the graph: note `a` is a backlink of note `k`
/// exactly when the graph has an edge from `a` to `k`.
pub proof fn lemma_backlinks_match_edges(ms: Seq<Facts>, a: Seq<Seq<u8>>, k: Seq<Seq<u8>>)
    ensures
        backlinks_of(ms, k).contains((a, k)) <==> edges_of(ms).contains((NodeView::Note(a), NodeView::Note(k))),
{
    lemma_over_contains(ms, ms, a, k);
}

/// Links resolve by file stem only to a note no other note shares its stem
/// with: every edge between two notes ends at the only note with its stem,
/// so an ambiguous or missing target gives no edge (and no backlink).
pub proof fn lemma_note_edges_end_at_unique_stem(ms: Seq<Facts>, a: Seq<Seq<u8>>, k: Seq<Seq<u8>>)
    requires
        edges_of(ms).contains((NodeView::Note(a), NodeView::Note(k))),
    ensures
        keys_with_stem(ms, key_stem(k)) == seq![k],
{
    lemma_over_contains(ms, ms, a, k);
    let x = choose|x: int| 0 <= x < ms.len() && (#[trigger] ms[x]).0 == a && links_resolve_to(ms, ms[x].1, k);
    let j = choose|j: int| 0 <= j < ms[x].1.len() && resolve(ms, #[trigger] ms[x].1[j]) == Some(k);
    let t = ms[x].1[j];
    lemma_keys_with_stem_have_stem(ms, t);
    assert(keys_with_stem(ms, t)[0] == k);
    assert(keys_with_stem(ms, t) =~= seq![k]);
}

proof fn lemma_link_edges_no_tags(ms: Seq<Facts>, src: Seq<Seq<u8>>, links: Seq<Seq<u8>>, a: Seq<Seq<u8>>, g: Seq<u8>)
    ensures
        !link_edges(ms, src, links).contains((NodeView::Note(a), NodeView::Tag(g))),
    decreases links.len(),
{
    if links.len() > 0 {
        let d = links.drop_last();
        lemma_link_edges_no_tags(ms, src, d, a, g);
        let e = (NodeView::Note(a), NodeView::Tag(g));
        let last = match resolve(ms, links.last()) {
            Some(k) => seq![(NodeView::Note(src), NodeView::Note(k))],
            None => Seq::<(NodeView, NodeView)>::empty(),
        };
        lemma_contains_concat(link_edges(ms, src, d), last, e);
        if last.contains(e) {
            let i = choose|i: int| 0 <= i < last.len() && last[i] == e;
        }
    }
}

proof fn lemma_tag_edges_contains(src: Seq<Seq<u8>>, tags: Seq<Seq<u8>>, a: Seq<Seq<u8>>, g: Seq<u8>)
    ensures
        tag_edges(src, tags).contains((NodeView::Note(a), NodeView::Tag(g))) <==> src == a && tags.contains(g),
{
    let e = (NodeView::Note(a), NodeView::Tag(g));
    if tag_edges(src, tags).contains(e) {
        let i = choose|i: int| 0 <= i < tag_edges(src, tags).len() && tag_edges(src, tags)[i] == e;
        assert(tags[i] == g);
    }
    if src == a && tags.contains(g) {
        let i = choose|i: int| 0 <= i < tags.len() && tags[i] == g;
        assert(tag_edges(src, tags)[i] == e);
    }
}

/// Whether some note of `part` is `a` and uses the tag `g`.
pub open spec fn some_note_tags(part: Seq<Facts>, a: Seq<Seq<u8>>, g: Seq<u8>) -> bool {
    exists|x: int| 0 <= x < part.len() && (#[trigger] part[x]).0 == a && part[x].2.contains(g)
}

proof fn lemma_over_tag_edges(ms: Seq<Facts>, part: Seq<Facts>, a: Seq<Seq<u8>>, g: Seq<u8>)
    ensures
        edges_over(ms, part).contains((NodeView::Note(a), NodeView::Tag(g))) <==> some_note_tags(part, a, g),
    decreases part.len(),
{
    let e = (NodeView::Note(a), NodeView::Tag(g));
    if part.len() > 0 {
        let d = part.drop_last();
        let l = part.last();
        lemma_over_tag_edges(ms, d, a, g);
        lemma_link_edges_no_tags(ms, l.0, l.1, a, g);
        lemma_tag_edges_contains(l.0, l.2, a, g);
        lemma_contains_concat(edges_over(ms, d), link_edges(ms, l.0, l.1), e);
        lemma_contains_concat(edges_over(ms, d) + link_edges(ms, l.0, l.1), tag_edges(l.0, l.2), e);
        if some_note_tags(part, a, g) {
            let x = choose|x: int| 0 <= x < part.len() && (#[trigger] part[x]).0 == a && part[x].2.contains(g);
            if x < d.len() {
                assert(d[x] == part[x]);
            }
        }
        if some_note_tags(d, a, g) {
            let x = choose|x: int| 0 <= x < d.len() && (#[trigger] d[x]).0 == a && d[x].2.contains(g);
            assert(part[x] == d[x]);
        }
    }
}

/// Tags are graph nodes: the graph has an edge from note `a` to tag `g`
/// exactly when a note `a` uses the tag `g`.
pub proof fn lemma_tag_edges_match_note_tags(ms: Seq<Facts>, a: Seq<Seq<u8>>, g: Seq<u8>)
    ensures
        edges_of(ms).contains((NodeView::Note(a), NodeView::Tag(g))) <==> some_note_tags(ms, a, g),
{
    lemma_over_tag_edges(ms, ms, a, g);
}

/// The edges of `es` that end at a note, in order.
pub open spec fn note_edges(es: Seq<(NodeView, NodeView)>) -> Seq<(NodeView, NodeView)>
    decreases es.len(),
{
    if es.len() == 0 {
        Seq::empty()
    } else if es.last().1 is Note {
        note_edges(es.drop_last()).push(es.last())
    } else {
        note_edges(es.drop_last())
    }
}

/// The edges of the resolved wiki links of the notes of `part`: note by
/// note in order, each note's links in body order.
pub open spec fn link_edges_over(ms: Seq<Facts>, part: Seq<Facts>) -> Seq<(NodeView, NodeView)>
    decreases part.len(),
{
    if part.len() == 0 {
        Seq::empty()
    } else {
        link_edges_over(ms, part.drop_last()) + link_edges(ms, part.last().0, part.last().1)
    }
}

/// The note-to-note edges of `es` that end at the note `k`, as pairs of
/// source and target.
pub open spec fn edges_into(es: Seq<(NodeView, NodeView)>, k: Seq<Seq<u8>>) -> Seq<(Seq<Seq<u8>>, Seq<Seq<u8>>)>
    decreases es.len(),
{
    if es.len() == 0 {
        Seq::empty()
    } else {
        match es.last() {
            (NodeView::Note(a), NodeView::Note(t)) => if t == k {
                edges_into(es.drop_last(), k).push((a, k))
            } else {
                edges_into(es.drop_last(), k)
            },
            _ => edges_into(es.drop_last(), k),
        }
    }
}

proof fn lemma_note_edges_add(a: Seq<(NodeView, NodeView)>, b: Seq<(NodeView, NodeView)>)
    ensures
        note_edges(a + b) == note_edges(a) + note_edges(b),
    decreases b.len(),
{
    if b.len() == 0 {
        assert(a + b =~= a);
        assert(note_edges(a) + note_edges(b) =~= note_edges(a));
    } else {
        lemma_note_edges_add(a, b.drop_last());
        assert((a + b).drop_last() =~= a + b.drop_last());
        assert((a + b).last() == b.last());
        if b.last().1 is Note {
            assert(note_edges(a + b) =~= note_edges(a) + note_edges(b));
        }
    }
}

proof fn lemma_edges_into_add(a: Seq<(NodeView, NodeView)>, b: Seq<(NodeView, NodeView)>, k: Seq<Seq<u8>>)
    ensures
        edges_into(a + b, k) == edges_into(a, k) + edges_into(b, k),
    decreases b.len(),
{
    if b.len() == 0 {
        assert(a + b =~= a);
        assert(edges_into(a, k) + edges_into(b, k) =~= edges_into(a, k));
    } else {
        lemma_edges_into_add(a, b.drop_last(), k);
        assert((a + b).drop_last() =~= a + b.drop_last());
        assert((a + b).last() == b.last());
        assert(edges_into(a + b, k) =~= edges_into(a, k) + edges_into(b, k));
    }
}

proof fn lemma_link_edges_end_at_notes(ms: Seq<Facts>, src: Seq<Seq<u8>>, links: Seq<Seq<u8>>, k: Seq<Seq<u8>>)
    ensures
        note_edges(link_edges(ms, src, links)) == link_edges(ms, src, links),
        edges_into(link_edges(ms, src, links), k) == link_backs(ms, src, links, k),
    decreases links.len(),
{
    if links.len() > 0 {
        lemma_link_edges_end_at_notes(ms, src, links.drop_last(), k);
        let pre = link_edges(ms, src, links.drop_last());
        let tail = match resolve(ms, links.last()) {
            Some(r) => seq![(NodeView::Note(src), NodeView::Note(r))],
            None => Seq::<(NodeView, NodeView)>::empty(),
        };
        lemma_note_edges_add(pre, tail);
        lemma_edges_into_add(pre, tail, k);
        if tail.len() == 1 {
            let e = Seq::<(NodeView, NodeView)>::empty();
            assert(tail.drop_last() =~= e);
            assert(note_edges(e) == e);
            assert(edges_into(e, k) =~= Seq::<(Seq<Seq<u8>>, Seq<Seq<u8>>)>::empty());
            assert(tail.last().1 is Note);
            assert(note_edges(tail) =~= tail);
            let r = resolve(ms, links.last())->Some_0;
            if r == k {
                assert(edges_into(tail, k) =~= seq![(src, k)]);
            } else {
                assert(edges_into(tail, k) =~= Seq::<(Seq<Seq<u8>>, Seq<Seq<u8>>)>::empty());
            }
        }
        assert(link_edges(ms, src, links) == pre + tail);
        assert(link_edges(ms, src, links) =~= pre + tail);
        if tail.len() == 1 {
            assert(edges_into(link_edges(ms, src, links), k) =~= link_backs(ms, src, links, k));
        } else {
            assert(pre + tail =~= pre);
        }
    }
}

proof fn lemma_tag_edges_end_at_tags(src: Seq<Seq<u8>>, tags: Seq<Seq<u8>>, k: Seq<Seq<u8>>)
    ensures
        note_edges(tag_edges(src, tags)) == Seq::<(NodeView, NodeView)>::empty(),
        edges_into(tag_edges(src, tags), k) == Seq::<(Seq<Seq<u8>>, Seq<Seq<u8>>)>::empty(),
    decreases tags.len(),
{
    if tags.len() > 0 {
        lemma_tag_edges_end_at_tags(src, tags.drop_last(), k);
        assert(tag_edges(src, tags).drop_last() =~= tag_edges(src, tags.drop_last()));
    }
}

proof fn lemma_edges_over_notes(ms: Seq<Facts>, part: Seq<Facts>, k: Seq<Seq<u8>>)
    ensures
        note_edges(edges_over(ms, part)) == link_edges_over(ms, part),
        edges_into(edges_over(ms, part), k) == backs_over(ms, part, k),
    decreases part.len(),
{
    if part.len() > 0 {
        let m = part.last();
        lemma_edges_over_notes(ms, part.drop_last(), k);
        let a = edges_over(ms, part.drop_last());
        let l = link_edges(ms, m.0, m.1);
        let t = tag_edges(m.0, m.2);
        lemma_link_edges_end_at_notes(ms, m.0, m.1, k);
        lemma_tag_edges_end_at_tags(m.0, m.2, k);
        lemma_note_edges_add(a + l, t);
        lemma_note_edges_add(a, l);
        lemma_edges_into_add(a + l, t, k);
        lemma_edges_into_add(a, l, k);
        assert(note_edges(edges_over(ms, part)) =~= link_edges_over(ms, part));
        assert(edges_into(edges_over(ms, part), k) =~= backs_over(ms, part, k));
    }
}

/// The edges between notes are the resolved wiki links, in order: note by
/// note in index order, each note's links in body order, a link giving an
/// edge exactly when one note alone has its target as stem. The backlinks to
/// a note are those edges that end at it, in the same order.
pub proof fn lemma_note_edges_follow_links(ms: Seq<Facts>, k: Seq<Seq<u8>>)
    ensures
        note_edges(edges_of(ms)) == link_edges_over(ms, ms),
        backlinks_of(ms, k) == edges_into(edges_of(ms), k),
{
    lemma_edges_over_notes(ms, ms, k);
}

} // verus!
