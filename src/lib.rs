//! Renders an arbitrary tree as a GraphViz DOT directed graph.
//!
//! Each node gets a fingerprint derived from its content; fingerprints that
//! collide within one rendering are moved to the next free value, so every
//! node of the document has its own identifier.
use std::collections::hash_map::DefaultHasher;
use std::hash::{Hash, Hasher};
use vstd::prelude::*;

pub mod dot;
pub mod identity;
pub mod text;

use crate::dot::{document, draw_tree, VizTree};

verus! {

broadcast use vstd::std_specs::vec::group_vec_axioms;

/// A node in a caller's tree.
///
/// To render a tree with [`draw_nodes`] the node type also implements
/// `ToString` (its display text) and `Hash` (its content hash).
pub trait TreeVizNode: Sized {
    /// A measure that strictly shrinks from a node to each of its children,
    /// so that every tree is finite. Its value is left unspecified unless an
    /// impl gives one: only its decrease is relied on.
    closed spec fn height(&self) -> nat {
        arbitrary()
    }

    /// The children of this node, in display order. Its value is left
    /// unspecified unless an impl gives one.
    closed spec fn child_nodes(&self) -> Seq<Self> {
        arbitrary()
    }

    /// Returns a vector containing the sub-nodes that are children of this node.
    fn children(&self) -> (r: Vec<Self>)
        ensures
            r@ == self.child_nodes(),
            forall|i: int| 0 <= i < r.len() ==> #[trigger] r[i].height() < self.height(),
    ;
}

/// The snapshot `t` has the shape of the tree under `n`: as many children,
/// each with the shape of the matching child.
pub open spec fn mirrors<T: TreeVizNode>(t: VizTree, n: T) -> bool
    decreases t,
{
    &&& t.children.len() == n.child_nodes().len()
    &&& forall|i: int|
        0 <= i < t.children.len() ==> mirrors(#[trigger] t.children[i], n.child_nodes()[i])
}

/// Relies on the node's `ToString` impl for its display text.
#[verifier::external_body]
fn display_text<T: ToString>(node: &T) -> String {
    node.to_string()
}

/// Relies on the node's `Hash` impl to feed its content to `state`.
#[verifier::external_body]
fn feed_hash<T: Hash>(node: &T, state: &mut DefaultHasher) {
    node.hash(state)
}

/// The content hash of `node`: what its `Hash` impl feeds to a fresh
/// `DefaultHasher`.
pub fn content_hash<T: Hash>(node: &T) -> u64 {
    let mut state = DefaultHasher::new();
    feed_hash(node, &mut state);
    state.finish()
}

/// Reads the tree under `node` into a snapshot: each node's display text,
/// content hash and children, in the order the node reports them.
pub fn snapshot<T: TreeVizNode + ToString + Hash>(node: &T) -> (r: VizTree)
    ensures
        mirrors(r, *node),
    decreases node.height(),
{
    let hash = content_hash(node);
    let label = display_text(node);
    let kids = node.children();
    let mut children: Vec<VizTree> = Vec::new();
    let mut i: usize = 0;
    while i < kids.len()
        invariant
            i <= kids.len(),
            children.len() == i,
            kids@ == node.child_nodes(),
            forall|j: int| 0 <= j < i ==> mirrors(#[trigger] children[j], kids[j]),
            forall|j: int| 0 <= j < kids.len() ==> #[trigger] kids[j].height() < node.height(),
        decreases kids.len() - i,
    {
        children.push(snapshot(&kids[i]));
        i = i + 1;
    }
    let r = VizTree { label, hash, children };
    assert(mirrors(r, *node));
    r
}

/// Returns a visualisation of the tree with the root node `node` in the
/// GraphViz DOT format, as a string.
///
/// `graph_name` is the name of the graph; its spaces and non-ASCII characters
/// are removed to comply with DOT's format restrictions.
pub fn draw_nodes<T: TreeVizNode + ToString + Hash>(graph_name: &str, node: T) -> (r: String)
    ensures
        exists|t: VizTree| mirrors(t, node) && r@ == document(graph_name@, t),
{
    let t = snapshot(&node);
    draw_tree(graph_name, &t)
}

} // verus!
