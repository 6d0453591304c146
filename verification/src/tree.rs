//! The term that a node denotes: the tree reached by unfolding child ids,
//! whatever sharing the stored nodes have, and the shift of its free de
//! Bruijn indices.
use vstd::prelude::*;
use crate::lang::{binder_step, children_after, children_before, SpecNode, SpecOp, SpecPatternOp};

verus! {

/// A term: an op over a sequence of sub-terms.
pub struct Tree {
    pub op: SpecPatternOp,
    pub kids: Seq<Tree>,
}

/// The tree that stands for an id out of range.
pub open spec fn no_tree() -> Tree {
    Tree { op: SpecPatternOp::Var(0), kids: Seq::empty() }
}

/// The tree of the node at `id`, nodes in term order (children before
/// their parent).
pub open spec fn tree_before(nodes: Seq<SpecNode>, id: int) -> Tree
    decreases id, nodes[id].children.len() + 1,
{
    if 0 <= id < nodes.len() {
        Tree {
            op: nodes[id].op,
            kids: tree_before_kids(nodes, id, nodes[id].children.len() as int),
        }
    } else {
        no_tree()
    }
}

/// The trees of the first `j` children of the node at `id`.
pub open spec fn tree_before_kids(nodes: Seq<SpecNode>, id: int, j: int) -> Seq<Tree>
    decreases id, j,
{
    if 0 <= id < nodes.len() && 0 < j <= nodes[id].children.len() {
        let c = nodes[id].children[j - 1] as int;
        tree_before_kids(nodes, id, j - 1).push(
            if 0 <= c < id {
                tree_before(nodes, c)
            } else {
                no_tree()
            },
        )
    } else {
        Seq::empty()
    }
}

/// The tree of the node at `id`, nodes in pattern order (children after
/// their parent).
pub open spec fn tree_after(nodes: Seq<SpecNode>, id: int) -> Tree
    decreases nodes.len() - id, nodes[id].children.len() + 1,
{
    if 0 <= id < nodes.len() {
        Tree {
            op: nodes[id].op,
            kids: tree_after_kids(nodes, id, nodes[id].children.len() as int),
        }
    } else {
        no_tree()
    }
}

/// The trees of the first `j` children of the node at `id`.
pub open spec fn tree_after_kids(nodes: Seq<SpecNode>, id: int, j: int) -> Seq<Tree>
    decreases nodes.len() - id, j,
{
    if 0 <= id < nodes.len() && 0 < j <= nodes[id].children.len() {
        let c = nodes[id].children[j - 1] as int;
        tree_after_kids(nodes, id, j - 1).push(
            if id < c < nodes.len() {
                tree_after(nodes, c)
            } else {
                no_tree()
            },
        )
    } else {
        Seq::empty()
    }
}

/// An op with its de Bruijn index shifted by `delta` when the index is free,
/// that is at least `cutoff`; other ops unchanged.
pub open spec fn shift_free_op(op: SpecPatternOp, cutoff: int, delta: int) -> SpecPatternOp {
    match op {
        SpecPatternOp::Node(SpecOp::DbVar(i)) => if i >= cutoff {
            SpecPatternOp::Node(SpecOp::DbVar((i + delta) as i32))
        } else {
            op
        },
        _ => op,
    }
}

/// Whether shifting a free index of `op` stays a valid index.
pub open spec fn shift_free_ok(op: SpecPatternOp, cutoff: int, delta: int) -> bool {
    match op {
        SpecPatternOp::Node(SpecOp::DbVar(i)) => i >= cutoff ==> 0 <= i + delta <= i32::MAX,
        _ => true,
    }
}

/// The tree with every free de Bruijn index shifted by `delta`: an index is
/// free when it is at least the number of binders above it inside the tree,
/// plus `cutoff`.
pub open spec fn shift_tree(t: Tree, cutoff: int, delta: int) -> Tree
    decreases t, t.kids.len() + 1,
{
    Tree {
        op: shift_free_op(t.op, cutoff, delta),
        kids: shift_kids(t, cutoff, delta, t.kids.len() as int),
    }
}

/// The first `j` children of `t`, each shifted under its binders.
pub open spec fn shift_kids(t: Tree, cutoff: int, delta: int, j: int) -> Seq<Tree>
    decreases t, j,
{
    if 0 < j <= t.kids.len() {
        shift_kids(t, cutoff, delta, j - 1).push(
            shift_tree(t.kids[j - 1], cutoff + binder_step(t.op, j - 1), delta),
        )
    } else {
        Seq::empty()
    }
}

/// Whether every free index of the tree stays valid when shifted.
pub open spec fn shift_ok(t: Tree, cutoff: int, delta: int) -> bool
    decreases t, t.kids.len() + 1,
{
    shift_free_ok(t.op, cutoff, delta) && shift_ok_kids(t, cutoff, delta, t.kids.len() as int)
}

/// Whether the first `j` children of `t` shift validly.
pub open spec fn shift_ok_kids(t: Tree, cutoff: int, delta: int, j: int) -> bool
    decreases t, j,
{
    if 0 < j <= t.kids.len() {
        shift_ok_kids(t, cutoff, delta, j - 1) && shift_ok(
            t.kids[j - 1],
            cutoff + binder_step(t.op, j - 1),
            delta,
        )
    } else {
        true
    }
}

/// Whether no node of the tree is a pattern variable.
pub open spec fn var_free(t: Tree) -> bool
    decreases t, t.kids.len() + 1,
{
    !(t.op is Var) && var_free_kids(t, t.kids.len() as int)
}

/// Whether no node of the first `j` children of `t` is a pattern variable.
pub open spec fn var_free_kids(t: Tree, j: int) -> bool
    decreases t, j,
{
    if 0 < j <= t.kids.len() {
        var_free_kids(t, j - 1) && var_free(t.kids[j - 1])
    } else {
        true
    }
}

/// The trees of the first `j` children of a node in term order.
pub proof fn lemma_tree_before_kids(nodes: Seq<SpecNode>, id: int, j: int)
    requires
        0 <= id < nodes.len(),
        0 <= j <= nodes[id].children.len(),
        forall|s: int| 0 <= s < nodes[id].children.len() ==> 0 <= #[trigger] nodes[id].children[s] < id,
    ensures
        tree_before_kids(nodes, id, j).len() == j,
        forall|i: int|
            0 <= i < j ==> #[trigger] tree_before_kids(nodes, id, j)[i] == tree_before(
                nodes,
                nodes[id].children[i] as int,
            ),
    decreases j,
{
    if j > 0 {
        lemma_tree_before_kids(nodes, id, j - 1);
    }
}

/// The trees of the first `j` children of a node in pattern order.
pub proof fn lemma_tree_after_kids(nodes: Seq<SpecNode>, id: int, j: int)
    requires
        0 <= id < nodes.len(),
        0 <= j <= nodes[id].children.len(),
        children_after(nodes),
    ensures
        tree_after_kids(nodes, id, j).len() == j,
        forall|i: int|
            0 <= i < j ==> #[trigger] tree_after_kids(nodes, id, j)[i] == tree_after(
                nodes,
                nodes[id].children[i] as int,
            ),
    decreases j,
{
    if j > 0 {
        lemma_tree_after_kids(nodes, id, j - 1);
        assert(id < nodes[id].children[j - 1]);
    }
}

/// The first `j` shifted kids are the kids, each shifted under its slot's
/// binders.
pub proof fn lemma_shift_kids(t: Tree, cutoff: int, delta: int, j: int)
    requires
        0 <= j <= t.kids.len(),
    ensures
        shift_kids(t, cutoff, delta, j).len() == j,
        forall|i: int|
            0 <= i < j ==> #[trigger] shift_kids(t, cutoff, delta, j)[i] == shift_tree(
                t.kids[i],
                cutoff + binder_step(t.op, i),
                delta,
            ),
    decreases j,
{
    if j > 0 {
        lemma_shift_kids(t, cutoff, delta, j - 1);
    }
}

/// The first `j` kids can be shifted exactly when each can, under its
/// slot's binders.
pub proof fn lemma_shift_ok_kids(t: Tree, cutoff: int, delta: int, j: int)
    requires
        0 <= j <= t.kids.len(),
    ensures
        shift_ok_kids(t, cutoff, delta, j) <==> forall|i: int|
            0 <= i < j ==> shift_ok(#[trigger] t.kids[i], cutoff + binder_step(t.op, i), delta),
    decreases j,
{
    if j > 0 {
        lemma_shift_ok_kids(t, cutoff, delta, j - 1);
    }
}

/// The first `j` kids are free of variables exactly when each is.
pub proof fn lemma_var_free_kids(t: Tree, j: int)
    requires
        0 <= j <= t.kids.len(),
    ensures
        var_free_kids(t, j) <==> forall|i: int| 0 <= i < j ==> var_free(#[trigger] t.kids[i]),
    decreases j,
{
    if j > 0 {
        lemma_var_free_kids(t, j - 1);
    }
}

/// Appending nodes in term order leaves the trees of the nodes already
/// there unchanged.
pub proof fn lemma_tree_before_prefix(nodes: Seq<SpecNode>, more: Seq<SpecNode>, id: int)
    requires
        more.len() >= nodes.len(),
        more.subrange(0, nodes.len() as int) == nodes,
        0 <= id < nodes.len(),
    ensures
        tree_before(more, id) == tree_before(nodes, id),
    decreases id,
{
    assert(more[id] == nodes[id]);
    let k = nodes[id].children.len() as int;
    assert forall|i: int|
        0 <= i < k && 0 <= #[trigger] nodes[id].children[i] < id implies tree_before(
        more,
        nodes[id].children[i] as int,
    ) == tree_before(nodes, nodes[id].children[i] as int) by {
        lemma_tree_before_prefix(nodes, more, nodes[id].children[i] as int);
    }
    lemma_before_kids_agree(nodes, more, id, k);
}

proof fn lemma_before_kids_agree(nodes: Seq<SpecNode>, more: Seq<SpecNode>, id: int, j: int)
    requires
        more.len() >= nodes.len(),
        more.subrange(0, nodes.len() as int) == nodes,
        0 <= id < nodes.len(),
        0 <= j <= nodes[id].children.len(),
        forall|i: int|
            0 <= i < nodes[id].children.len() && 0 <= #[trigger] nodes[id].children[i] < id ==> tree_before(
                more,
                nodes[id].children[i] as int,
            ) == tree_before(nodes, nodes[id].children[i] as int),
    ensures
        tree_before_kids(more, id, j) == tree_before_kids(nodes, id, j),
    decreases j,
{
    assert(more[id] == nodes[id]);
    if j > 0 {
        lemma_before_kids_agree(nodes, more, id, j - 1);
    }
}

/// The trees of the children of one node, in pattern order, when that
/// node's children come after it and are in range.
pub proof fn lemma_tree_after_kids_at(nodes: Seq<SpecNode>, id: int, j: int)
    requires
        0 <= id < nodes.len(),
        0 <= j <= nodes[id].children.len(),
        forall|s: int|
            0 <= s < nodes[id].children.len() ==> id < #[trigger] nodes[id].children[s] < nodes.len(),
    ensures
        tree_after_kids(nodes, id, j).len() == j,
        forall|i: int|
            0 <= i < j ==> #[trigger] tree_after_kids(nodes, id, j)[i] == tree_after(
                nodes,
                nodes[id].children[i] as int,
            ),
    decreases j,
{
    if j > 0 {
        lemma_tree_after_kids_at(nodes, id, j - 1);
    }
}

/// Shifting the free indices of a term up by `delta` and then down by
/// `delta` gives the term back: an index raised from free stays free, and a
/// bound one is never touched.
pub proof fn lemma_shift_round_trip(t: Tree, cutoff: int, delta: int)
    requires
        shift_ok(t, cutoff, delta),
        0 <= cutoff,
        0 <= delta,
    ensures
        shift_ok(shift_tree(t, cutoff, delta), cutoff, -delta),
        shift_tree(shift_tree(t, cutoff, delta), cutoff, -delta) == t,
    decreases t, t.kids.len() + 1,
{
    let u = shift_tree(t, cutoff, delta);
    let n = t.kids.len() as int;
    lemma_shift_kids(t, cutoff, delta, n);
    lemma_shift_ok_kids(t, cutoff, delta, n);
    assert forall|i: int| 0 <= i < n implies binder_step(u.op, i) == binder_step(t.op, i) by {
    }
    assert forall|i: int| 0 <= i < n implies shift_ok(
        #[trigger] u.kids[i],
        cutoff + binder_step(u.op, i),
        -delta,
    ) && shift_tree(u.kids[i], cutoff + binder_step(u.op, i), -delta) == t.kids[i] by {
        lemma_shift_round_trip(t.kids[i], cutoff + binder_step(t.op, i), delta);
    }
    lemma_shift_kids(u, cutoff, -delta, n);
    lemma_shift_ok_kids(u, cutoff, -delta, n);
    let w = shift_tree(u, cutoff, -delta);
    assert(w.kids =~= t.kids);
    match t.op {
        SpecPatternOp::Node(SpecOp::DbVar(i)) => {
            if i >= cutoff {
                assert(u.op == SpecPatternOp::Node(SpecOp::DbVar((i + delta) as i32)));
                assert((i + delta) as i32 == i + delta);
            }
        },
        _ => {},
    }
    assert(w.op == t.op);
}

} // verus!
