//! What a hash of a pattern reads: the ops met by a walk from the root,
//! each node before its children, children left to right. The walk follows
//! child ids, so the sequence depends on the term alone and not on the
//! layout of the node vector; equal patterns give equal sequences.
use vstd::prelude::*;
use crate::lang::{children_after, nodes_view, PatternNode, PatternOp, SpecPatternOp};
use crate::pattern::Pattern;
use crate::revexpr::RevExpr;
use crate::tree::{lemma_tree_after_kids, tree_after, Tree};
use vstd::std_specs::cmp::PartialEqSpec;

verus! {

/// The ops of a tree in preorder.
pub open spec fn preorder(t: Tree) -> Seq<SpecPatternOp>
    decreases t, 0int,
{
    seq![t.op] + preorder_kids(t.kids, t.kids.len() as int)
}

/// The preorder ops of the first `j` trees of a list, one after another.
pub open spec fn preorder_kids(kids: Seq<Tree>, j: int) -> Seq<SpecPatternOp>
    decreases kids, j,
{
    if 0 < j <= kids.len() {
        preorder_kids(kids, j - 1) + preorder(kids[j - 1])
    } else {
        Seq::empty()
    }
}

/// The values of a vector of ops.
pub open spec fn ops_view(s: Seq<PatternOp>) -> Seq<SpecPatternOp> {
    s.map_values(|o: PatternOp| o@)
}

/// Appends to `state` the ops of the term at `id`, in preorder.
pub fn hash_node(expr: &RevExpr<PatternNode>, id: usize, state: &mut Vec<PatternOp>)
    requires
        children_after(nodes_view(expr.nodes@)),
        id < expr.nodes.len(),
    ensures
        ops_view(final(state)@) == ops_view(old(state)@) + preorder(tree_after(nodes_view(expr.nodes@), id as int)),
    decreases expr.nodes.len() - id,
{
    let ghost v = nodes_view(expr.nodes@);
    let ghost start = ops_view(state@);
    let node = &expr.nodes[id];
    assert(v[id as int] == node@);
    let ghost t = tree_after(v, id as int);
    proof {
        lemma_tree_after_kids(v, id as int, node.children.len() as int);
    }
    state.push(node.op.duplicate());
    assert(ops_view(state@) =~= start + seq![t.op]);
    let k = node.children.len();
    let mut j: usize = 0;
    while j < k
        invariant
            v == nodes_view(expr.nodes@),
            children_after(v),
            id < expr.nodes.len(),
            node@ == v[id as int],
            k == node.children.len(),
            t == tree_after(v, id as int),
            t.kids.len() == k,
            forall|i: int| 0 <= i < k ==> #[trigger] t.kids[i] == tree_after(v, node.children@[i] as int),
            j <= k,
            ops_view(state@) == start + seq![t.op] + preorder_kids(t.kids, j as int),
        decreases k - j,
    {
        let c = node.children[j];
        assert(id < c < expr.nodes.len()) by {
            assert(v[id as int].children[j as int] == c);
        }
        hash_node(expr, c, state);
        assert(ops_view(state@) =~= start + seq![t.op] + preorder_kids(t.kids, j + 1));
        j = j + 1;
    }
    assert(ops_view(state@) =~= start + preorder(t));
}

impl Pattern {
    /// The ops of the pattern's term in preorder: what a hash of the pattern
    /// reads, the same for equal patterns whatever their layout.
    pub fn hash_key(&self) -> (r: Vec<PatternOp>)
        requires
            self@.wf(),
        ensures
            ops_view(r@) == preorder(tree_after(self@.nodes, 0)),
    {
        let mut r: Vec<PatternOp> = Vec::new();
        assert(ops_view(r@) =~= Seq::empty());
        hash_node(&self.pattern, 0, &mut r);
        assert(ops_view(r@) =~= preorder(tree_after(self@.nodes, 0)));
        r
    }
}

/// Equal patterns give the same hash key: the key reads the term reached
/// from the root, which equality compares.
pub proof fn lemma_equal_patterns_same_key(p: Pattern, q: Pattern)
    requires
        p.eq_spec(&q),
    ensures
        preorder(tree_after(p@.nodes, 0)) == preorder(tree_after(q@.nodes, 0)),
{
}

} // verus!
