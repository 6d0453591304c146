//! A term stored with its nodes in reverse of the usual order: the root at
//! index 0 and every parent before its children.
use vstd::prelude::*;
use crate::lang::{children_after, children_before, nodes_view, PatternNode, SpecNode};

verus! {

/// A term whose nodes are in reverse order: parents before children, the
/// root first.
#[derive(Debug, Clone)]
pub struct RevExpr<L> {
    pub nodes: Vec<L>,
}

impl<L> RevExpr<L> {
    /// A term with the given nodes.
    pub fn new(nodes: Vec<L>) -> (r: Self)
        ensures
            r.nodes@ == nodes@,
    {
        RevExpr { nodes }
    }
}

/// A child id moved to the other order; an id out of range becomes 0.
pub open spec fn mirror_id(c: usize, len: int) -> usize {
    if c < len {
        (len - 1 - c) as usize
    } else {
        0
    }
}

/// The node at `i` of a term of `len` nodes, moved to the other order: the
/// position reversed and every child id with it.
pub open spec fn mirror_node(node: SpecNode, len: int) -> SpecNode {
    SpecNode {
        op: node.op,
        children: node.children.map_values(|c: usize| mirror_id(c, len)),
    }
}

/// A term's nodes in the other order: position `i` holds the node of
/// position `len - 1 - i`, with child ids mirrored the same way.
pub open spec fn mirrored(nodes: Seq<SpecNode>) -> Seq<SpecNode> {
    Seq::new(nodes.len(), |i: int| mirror_node(nodes[nodes.len() - 1 - i], nodes.len() as int))
}

/// Mirrors the nodes of a term, reversing their order and renumbering each
/// child id to match.
fn mirror_nodes(nodes: Vec<PatternNode>) -> (r: Vec<PatternNode>)
    ensures
        nodes_view(r@) == mirrored(nodes_view(nodes@)),
{
    let n = nodes.len();
    let mut out: Vec<PatternNode> = Vec::new();
    let mut i: usize = n;
    while i > 0
        invariant
            i <= n,
            n == nodes.len(),
            out.len() == n - i,
            forall|t: int|
                0 <= t < out.len() ==> #[trigger] out@[t]@ == mirror_node(
                    nodes@[n - 1 - t]@,
                    n as int,
                ),
        decreases i,
    {
        i = i - 1;
        let node = &nodes[i];
        let mut kids: Vec<usize> = Vec::new();
        let mut j: usize = 0;
        while j < node.children.len()
            invariant
                i < n,
                n == nodes.len(),
                node == &nodes@[i as int],
                j <= node.children.len(),
                kids@ == node.children@.subrange(0, j as int).map_values(
                    |c: usize| mirror_id(c, n as int),
                ),
            decreases node.children.len() - j,
        {
            let c = node.children[j];
            let m: usize = if c < n {
                n - 1 - c
            } else {
                0
            };
            kids.push(m);
            assert(kids@ =~= node.children@.subrange(0, j + 1).map_values(
                |c: usize| mirror_id(c, n as int),
            ));
            j = j + 1;
        }
        assert(node.children@.subrange(0, j as int) =~= node.children@);
        out.push(PatternNode { op: node.op.duplicate(), children: kids });
    }
    assert(nodes_view(out@) =~= mirrored(nodes_view(nodes@)));
    out
}

impl RevExpr<PatternNode> {
    /// The term's nodes in term order: children before parents, root last.
    pub fn to_rec_order(self) -> (r: Vec<PatternNode>)
        ensures
            nodes_view(r@) == mirrored(nodes_view(self.nodes@)),
    {
        mirror_nodes(self.nodes)
    }

    /// The term whose nodes in term order are `nodes`.
    pub fn from_rec_order(nodes: Vec<PatternNode>) -> (r: Self)
        ensures
            nodes_view(r.nodes@) == mirrored(nodes_view(nodes@)),
    {
        RevExpr { nodes: mirror_nodes(nodes) }
    }
}


/// Every child id is in range.
pub open spec fn ids_in_range(nodes: Seq<SpecNode>) -> bool {
    forall|i: int, j: int|
        0 <= i < nodes.len() && 0 <= j < nodes[i].children.len() ==> #[trigger] nodes[i].children[j]
            < nodes.len()
}

/// Moving a term to the other order and back gives the term again.
pub proof fn lemma_mirror_roundtrip(nodes: Seq<SpecNode>)
    requires
        ids_in_range(nodes),
        nodes.len() <= usize::MAX,
    ensures
        mirrored(mirrored(nodes)) == nodes,
{
    let n = nodes.len() as int;
    let once = mirrored(nodes);
    let twice = mirrored(once);
    assert forall|i: int| 0 <= i < n implies #[trigger] twice[i] == nodes[i] by {
        let src = nodes[i];
        assert(once[n - 1 - i] == mirror_node(nodes[i], n));
        assert(twice[i].children =~= src.children) by {
            assert forall|j: int| 0 <= j < src.children.len() implies twice[i].children[j] == src.children[j] by {
                let c = src.children[j];
                assert(c < n);
                assert(once[n - 1 - i].children[j] == mirror_id(c, n));
                assert(mirror_id(c, n) == (n - 1 - c) as usize);
                assert(twice[i] == mirror_node(once[n - 1 - i], n));
                assert(twice[i].children[j] == mirror_id(once[n - 1 - i].children[j], n));
            }
        }
    }
    assert(twice =~= nodes);
}

/// Parents before children in one order is children before parents in the
/// other.
pub proof fn lemma_mirror_order(nodes: Seq<SpecNode>)
    requires
        children_after(nodes),
    ensures
        children_before(mirrored(nodes)),
        ids_in_range(mirrored(nodes)),
{
    let n = nodes.len() as int;
    let m = mirrored(nodes);
    assert forall|i: int, j: int| 0 <= i < m.len() && 0 <= j < m[i].children.len() implies 0
        <= #[trigger] m[i].children[j] < i by {
        let src = nodes[n - 1 - i];
        assert(n - 1 - i < src.children[j] < n);
    }
}

impl RevExpr<PatternNode> {
    /// The term as an s-expression.
    pub fn to_string(&self) -> (s: String)
        requires
            1 <= self.nodes.len(),
            children_after(nodes_view(self.nodes@)),
        ensures
            s@ == crate::render::render_after(nodes_view(self.nodes@), 0),
    {
        let mut out = String::new();
        crate::render::push_render_after(&mut out, &self.nodes, 0);
        out
    }
}

} // verus!
