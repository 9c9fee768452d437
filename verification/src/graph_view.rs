//! Labels and focus nodes of the graph view.
use vstd::prelude::*;
use vstd::string::*;
use crate::folder::NoteId;
use crate::index::{GraphNode, NodeView, key_stem};
use crate::text::{utf8_bytes, to_owned_string, push_str};

verus! {

/// The label of a node: a note's file stem, or `#` and a tag's name.
pub open spec fn label_of(n: NodeView) -> Seq<u8> {
    match n {
        NodeView::Note(k) => key_stem(k),
        NodeView::Tag(t) => seq![0x23u8] + t,
    }
}

/// Returns the label shown for a graph node.
pub fn node_label(node: &GraphNode) -> (r: String)
    ensures
        utf8_bytes(r@) == label_of(node@),
{
    match node {
        GraphNode::Note { note_id } => to_owned_string(note_id.file_stem()),
        GraphNode::Tag { tag } => {
            let hash = "#";
            proof {
                reveal_strlit("#");
                crate::text::lemma_ascii_str(hash);
                assert(hash.spec_bytes() =~= seq![0x23u8]);
            }
            let mut out = to_owned_string(hash);
            push_str(&mut out, tag.name());
            out
        },
    }
}

/// Returns the note node of `note_id`, for callers that track focus by note.
pub fn note_focus(note_id: &NoteId) -> (r: GraphNode)
    ensures
        r@ == NodeView::Note(note_id.key()),
        r.as_note_id_path() == note_id.path(),
{
    GraphNode::Note { note_id: note_id.clone() }
}

} // verus!
