//! Capture-aware shifting of the free de Bruijn indices of a term stored in
//! term order (children before parents, root last).
use vstd::prelude::*;
use rustc_hash::FxHashMap;
use crate::fxmap::{memo_get, memo_insert};
use crate::lang::{binder_step, children_before, nodes_view, Op, PatternNode, PatternOp, SpecNode};
use crate::tree::{
    lemma_shift_kids, lemma_shift_ok_kids, lemma_tree_before_kids, lemma_tree_before_prefix,
    shift_free_op, shift_ok, shift_tree, tree_before,
};

verus! {

/// No node holds a pattern variable.
pub open spec fn no_var_nodes(nodes: Seq<SpecNode>) -> bool {
    forall|i: int| 0 <= i < nodes.len() ==> !((#[trigger] nodes[i]).op is Var)
}

/// Every memo entry `(id, cutoff) -> o` names a node `o` of `out` whose tree
/// is the tree of `id` with its free indices shifted under `cutoff` binders.
pub open spec fn memo_ok(
    memo: Map<(usize, u32), usize>,
    ext: Seq<SpecNode>,
    out: Seq<SpecNode>,
    delta: int,
) -> bool {
    forall|k: (usize, u32)|
        #[trigger] memo.contains_key(k) ==> {
            &&& k.0 < ext.len()
            &&& memo[k] < out.len()
            &&& tree_before(out, memo[k] as int) == shift_tree(
                tree_before(ext, k.0 as int),
                k.1 as int,
                delta,
            )
        }
}

/// The op of a node with its de Bruijn index shifted when free.
fn shift_free(op: &PatternOp, cutoff: u32, delta: i64) -> (r: PatternOp)
    requires
        crate::tree::shift_free_ok(op@, cutoff as int, delta as int),
    ensures
        r@ == shift_free_op(op@, cutoff as int, delta as int),
{
    match op {
        PatternOp::Node(Op::DbVar(i)) => {
            if *i as i64 >= cutoff as i64 {
                let j: i64 = *i as i64 + delta;
                match Op::make_db_var(j as i32) {
                    Some(o) => PatternOp::Node(o),
                    None => PatternOp::Node(Op::DbVar(*i)),
                }
            } else {
                PatternOp::Node(Op::DbVar(*i))
            }
        },
        _ => op.duplicate(),
    }
}

/// The memo gives each output node to exactly one `(id, cutoff)` pair: no
/// two pairs share an output node, and every one of the first `n` output
/// nodes belongs to some pair.
pub open spec fn memo_onto(memo: Map<(usize, u32), usize>, n: int) -> bool {
    &&& forall|k1: (usize, u32), k2: (usize, u32)|
        #[trigger] memo.contains_key(k1) && #[trigger] memo.contains_key(k2) && k1 != k2 ==> memo[k1]
            != memo[k2]
    &&& forall|i: int| 0 <= i < n ==> #[trigger] memo_covers(memo, i)
}

/// Some pair of the memo gives output node `i`.
pub open spec fn memo_covers(memo: Map<(usize, u32), usize>, i: int) -> bool {
    exists|k: (usize, u32)| #[trigger] memo.contains_key(k) && memo[k] == i
}

/// The `(node, cutoff)` pairs that shifting node `id` under `cutoff`
/// binders meets: the pair itself and, through each child slot, the pairs of
/// the child under the slot's binders.
pub open spec fn reached(ext: Seq<SpecNode>, id: int, cutoff: u32) -> Set<(usize, u32)>
    decreases id, ext[id].children.len() + 1,
{
    if 0 <= id < ext.len() {
        set![(id as usize, cutoff)].union(reached_kids(ext, id, cutoff, ext[id].children.len() as int))
    } else {
        Set::empty()
    }
}

/// The pairs met through the first `j` child slots of node `id`.
pub open spec fn reached_kids(ext: Seq<SpecNode>, id: int, cutoff: u32, j: int) -> Set<(usize, u32)>
    decreases id, j,
{
    if 0 <= id < ext.len() && 0 < j <= ext[id].children.len() {
        let c = ext[id].children[j - 1] as int;
        reached_kids(ext, id, cutoff, j - 1).union(
            if 0 <= c < id {
                reached(ext, c, (cutoff + binder_step(ext[id].op, j - 1)) as u32)
            } else {
                Set::empty()
            },
        )
    } else {
        Set::empty()
    }
}

/// Every pair of the memo has all the pairs it meets in the memo too.
pub open spec fn memo_closed(memo: Map<(usize, u32), usize>, ext: Seq<SpecNode>) -> bool {
    forall|k: (usize, u32)| #[trigger] memo.contains_key(k) ==> reached(ext, k.0 as int, k.1).subset_of(memo.dom())
}

/// Emits the shifted form of node `id`, whose free indices start at
/// `cutoff` binders, into `out`, and returns its index there. A node met
/// again at the same binder count is shared through `memo`; met at another
/// count it is copied, since its free and bound indices differ.
fn shift_extraction_rec(
    extraction: &[PatternNode],
    id: usize,
    cutoff: u32,
    delta: i64,
    out: &mut Vec<PatternNode>,
    memo: &mut FxHashMap<(usize, u32), usize>,
) -> (r: usize)
    requires
        children_before(nodes_view(extraction@)),
        id < extraction.len(),
        cutoff + id <= u32::MAX,
        shift_ok(tree_before(nodes_view(extraction@), id as int), cutoff as int, delta as int),
        memo_ok(old(memo)@, nodes_view(extraction@), nodes_view(old(out)@), delta as int),
    ensures
        children_before(nodes_view(old(out)@)) ==> children_before(nodes_view(final(out)@)),
        no_var_nodes(nodes_view(extraction@)) && no_var_nodes(nodes_view(old(out)@)) ==> no_var_nodes(
            nodes_view(final(out)@),
        ),
        final(out).len() >= old(out).len(),
        nodes_view(final(out)@).subrange(0, old(out).len() as int) == nodes_view(old(out)@),
        memo_ok(final(memo)@, nodes_view(extraction@), nodes_view(final(out)@), delta as int),
        memo_onto(old(memo)@, old(out).len() as int) ==> memo_onto(final(memo)@, final(out).len() as int),
        memo_closed(old(memo)@, nodes_view(extraction@)) ==> memo_closed(final(memo)@, nodes_view(extraction@))
            && final(memo)@.dom() == old(memo)@.dom().union(reached(nodes_view(extraction@), id as int, cutoff)),
        final(memo)@.contains_key((id, cutoff)) && final(memo)@[(id, cutoff)] == r,
        r < final(out).len(),
        tree_before(nodes_view(final(out)@), r as int) == shift_tree(
            tree_before(nodes_view(extraction@), id as int),
            cutoff as int,
            delta as int,
        ),
        !old(memo)@.contains_key((id, cutoff)) ==> r == final(out).len() - 1,
        forall|key: (usize, u32)|
            #[trigger] final(memo)@.contains_key(key) ==> old(memo)@.contains_key(key) || key.0 <= id,
    decreases id,
{
    let ghost ev = nodes_view(extraction@);
    let ghost t = tree_before(ev, id as int);
    if let Some(m) = memo_get(memo, (id, cutoff)) {
        assert(nodes_view(out@).subrange(0, out.len() as int) =~= nodes_view(out@));
        proof {
            if memo_closed(memo@, ev) {
                assert(memo@.dom() =~= memo@.dom().union(reached(ev, id as int, cutoff)));
            }
        }
        return m;
    }
    let node = &extraction[id];
    assert(node@ == ev[id as int]);
    let k = node.children.len();
    proof {
        lemma_tree_before_kids(ev, id as int, k as int);
        lemma_shift_ok_kids(t, cutoff as int, delta as int, k as int);
        lemma_shift_kids(t, cutoff as int, delta as int, k as int);
    }
    let ghost out0 = nodes_view(out@);
    let ghost memo0 = memo@;
    let mut new_children: Vec<usize> = Vec::new();
    let mut j: usize = 0;
    assert(memo@.dom() =~= memo0.dom().union(reached_kids(ev, id as int, cutoff, 0)));
    while j < k
        invariant
            ev == nodes_view(extraction@),
            t == tree_before(ev, id as int),
            children_before(ev),
            id < extraction.len(),
            node@ == ev[id as int],
            k == node.children.len(),
            cutoff + id <= u32::MAX,
            t.kids.len() == k,
            t.op == ev[id as int].op,
            forall|i: int| 0 <= i < k ==> #[trigger] t.kids[i] == tree_before(ev, node.children@[i] as int),
            forall|i: int|
                0 <= i < k ==> shift_ok(#[trigger] t.kids[i], cutoff + binder_step(t.op, i), delta as int),
            j <= k,
            children_before(out0) ==> children_before(nodes_view(out@)),
            no_var_nodes(ev) && no_var_nodes(out0) ==> no_var_nodes(nodes_view(out@)),
            out.len() >= out0.len(),
            nodes_view(out@).subrange(0, out0.len() as int) == out0,
            memo_ok(memo@, ev, nodes_view(out@), delta as int),
            memo_onto(memo0, out0.len() as int) ==> memo_onto(memo@, out.len() as int),
            memo_closed(memo0, ev) ==> memo_closed(memo@, ev) && memo@.dom() == memo0.dom().union(
                reached_kids(ev, id as int, cutoff, j as int),
            ),
            !memo@.contains_key((id, cutoff)),
            forall|key: (usize, u32)|
                #[trigger] memo@.contains_key(key) ==> memo0.contains_key(key) || key.0 < id,
            new_children.len() == j,
            forall|i: int|
                0 <= i < j ==> #[trigger] new_children@[i] < out.len() && tree_before(
                    nodes_view(out@),
                    new_children@[i] as int,
                ) == shift_tree(t.kids[i], cutoff + binder_step(t.op, i), delta as int),
        decreases k - j,
    {
        let c = node.children[j];
        assert(ev[id as int].children[j as int] == c);
        assert(c < id);
        let b: u32 = if node.op.binds_child(j) {
            1
        } else {
            0
        };
        assert(b == binder_step(t.op, j as int));
        assert(t.kids[j as int] == tree_before(ev, c as int));
        let ghost before = nodes_view(out@);
        let ghost memo_before = memo@;
        let rc = shift_extraction_rec(extraction, c, cutoff + b, delta, out, memo);
        proof {
            if memo_closed(memo0, ev) {
                assert(memo@.dom() =~= memo0.dom().union(reached_kids(ev, id as int, cutoff, j + 1)));
            }
            assert forall|i: int| 0 <= i < j implies #[trigger] new_children@[i] < out.len() && tree_before(
                nodes_view(out@),
                new_children@[i] as int,
            ) == shift_tree(t.kids[i], cutoff + binder_step(t.op, i), delta as int) by {
                lemma_tree_before_prefix(before, nodes_view(out@), new_children@[i] as int);
            }
            assert(nodes_view(out@).subrange(0, out0.len() as int) =~= out0) by {
                assert(nodes_view(out@).subrange(0, out0.len() as int) =~= nodes_view(out@).subrange(
                    0,
                    before.len() as int,
                ).subrange(0, out0.len() as int));
            }
            assert forall|key: (usize, u32)| #[trigger] memo@.contains_key(key) implies memo0.contains_key(key)
                || key.0 < id by {
                if !memo_before.contains_key(key) {
                    assert(key.0 <= c);
                }
            }
        }
        new_children.push(rc);
        j = j + 1;
    }
    let new_op = shift_free(&node.op, cutoff, delta);
    let ghost out1 = nodes_view(out@);
    let new_node = PatternNode { op: new_op, children: new_children };
    out.push(new_node);
    let new_id = out.len() - 1;
    proof {
        let ov = nodes_view(out@);
        assert(ov =~= out1.push(new_node@));
        assert(ov.subrange(0, out1.len() as int) =~= out1);
        assert(ov.subrange(0, out0.len() as int) =~= out0) by {
            assert(ov.subrange(0, out0.len() as int) =~= ov.subrange(0, out1.len() as int).subrange(
                0,
                out0.len() as int,
            ));
        }
        if children_before(out0) {
            assert forall|a: int, b: int|
                0 <= a < ov.len() && 0 <= b < ov[a].children.len() implies 0 <= #[trigger] ov[a].children[b]
                < a by {
                if a < out1.len() {
                    assert(ov[a] == out1[a]);
                }
            }
        }
        if no_var_nodes(ev) && no_var_nodes(out0) {
            assert forall|a: int| 0 <= a < ov.len() implies !((#[trigger] ov[a]).op is Var) by {
                if a < out1.len() {
                    assert(ov[a] == out1[a]);
                } else {
                    assert(!(ev[id as int].op is Var));
                }
            }
        }
        lemma_tree_before_kids(ov, new_id as int, k as int);
        assert forall|i: int| 0 <= i < k implies tree_before(ov, new_children@[i] as int) == shift_tree(
            t.kids[i],
            cutoff + binder_step(t.op, i),
            delta as int,
        ) by {
            lemma_tree_before_prefix(out1, ov, new_children@[i] as int);
        }
        let st = shift_tree(t, cutoff as int, delta as int);
        assert(tree_before(ov, new_id as int).kids =~= st.kids);
        assert(tree_before(ov, new_id as int) == st);
    }
    let ghost memo1 = memo@;
    memo_insert(memo, (id, cutoff), new_id);
    proof {
        let ov = nodes_view(out@);
        if memo_onto(memo0, out0.len() as int) {
            assert forall|k1: (usize, u32), k2: (usize, u32)|
                #[trigger] memo@.contains_key(k1) && #[trigger] memo@.contains_key(k2) && k1 != k2 implies memo@[k1]
                != memo@[k2] by {
                if k1 != (id, cutoff) {
                    assert(memo1.contains_key(k1));
                }
                if k2 != (id, cutoff) {
                    assert(memo1.contains_key(k2));
                }
            }
            assert forall|i: int| 0 <= i < out.len() implies #[trigger] memo_covers(memo@, i) by {
                if i < new_id {
                    assert(memo_covers(memo1, i));
                    let k = choose|k: (usize, u32)| #[trigger] memo1.contains_key(k) && memo1[k] == i;
                    assert(memo@.contains_key(k) && memo@[k] == i);
                } else {
                    assert(memo@.contains_key((id, cutoff)) && memo@[(id, cutoff)] == i);
                }
            }
        }
        if memo_closed(memo0, ev) {
            let full = reached(ev, id as int, cutoff);
            assert(full == set![(id, cutoff)].union(reached_kids(ev, id as int, cutoff, k as int)));
            assert(memo@.dom() =~= memo0.dom().union(full));
            assert forall|key: (usize, u32)| #[trigger] memo@.contains_key(key) implies reached(
                ev,
                key.0 as int,
                key.1,
            ).subset_of(memo@.dom()) by {
                if key != (id, cutoff) {
                    assert(memo1.contains_key(key));
                    assert(reached(ev, key.0 as int, key.1).subset_of(memo1.dom()));
                }
            }
        }
        assert forall|key: (usize, u32)| #[trigger] memo@.contains_key(key) implies memo0.contains_key(key)
            || key.0 <= id by {
            if key != (id, cutoff) {
                assert(memo1.contains_key(key));
            }
        }
        assert forall|key: (usize, u32)| #[trigger] memo@.contains_key(key) implies {
            &&& key.0 < ev.len()
            &&& memo@[key] < ov.len()
            &&& tree_before(ov, memo@[key] as int) == shift_tree(
                tree_before(ev, key.0 as int),
                key.1 as int,
                delta as int,
            )
        } by {
            if key != (id, cutoff) {
                assert(memo1.contains_key(key));
                lemma_tree_before_prefix(out1, ov, memo1[key] as int);
            }
        }
    }
    new_id
}

/// A copy of the term `extraction` (root at `root`) with every free de
/// Bruijn index shifted by `delta`, in term order; returns the nodes and
/// the root's index, which is the last. The copy holds one node for each
/// `(node, cutoff)` pair met from the root at cutoff 0, and no other.
pub fn shift_extraction(extraction: &[PatternNode], root: usize, delta: i64) -> (r: (
    Vec<PatternNode>,
    usize,
))
    requires
        children_before(nodes_view(extraction@)),
        root < extraction.len(),
        root <= u32::MAX,
        shift_ok(tree_before(nodes_view(extraction@), root as int), 0, delta as int),
    ensures
        children_before(nodes_view(r.0@)),
        no_var_nodes(nodes_view(extraction@)) ==> no_var_nodes(nodes_view(r.0@)),
        r.1 == r.0.len() - 1,
        tree_before(nodes_view(r.0@), r.1 as int) == shift_tree(
            tree_before(nodes_view(extraction@), root as int),
            0,
            delta as int,
        ),
        exists|m: Map<(usize, u32), usize>|
            memo_ok(m, nodes_view(extraction@), nodes_view(r.0@), delta as int) && memo_onto(
                m,
                r.0.len() as int,
            ) && m.dom() == reached(nodes_view(extraction@), root as int, 0),
{
    let mut out: Vec<PatternNode> = Vec::new();
    let mut memo: FxHashMap<(usize, u32), usize> = FxHashMap::default();
    assert(nodes_view(out@) =~= Seq::<SpecNode>::empty());
    let r = shift_extraction_rec(extraction, root, 0, delta, &mut out, &mut memo);
    assert(memo@.dom() =~= Set::<(usize, u32)>::empty().union(reached(nodes_view(extraction@), root as int, 0)));
    assert(memo_ok(memo@, nodes_view(extraction@), nodes_view(out@), delta as int) && memo_onto(
        memo@,
        out.len() as int,
    ) && memo@.dom() == reached(nodes_view(extraction@), root as int, 0));
    (out, r)
}

} // verus!
