//! Facts about the binder depth of the nodes of a pattern: what keeps it,
//! and what a node's depth is when every reference to it writes the same
//! value.
use vstd::prelude::*;
use crate::lang::{binder_step, children_after, var_leaf, SpecNode, SpecOp, SpecPatternOp};
use crate::pattern::{
    depth_step, depths_upto, expanded, expansion_fits, fresh_row, lemma_depth_step,
    lemma_depths_upto, lemma_expanded_facts, lemma_expanded_wf, lemma_reused_wf, lemma_slot,
    max_index, min_index, occurrence_depth, relabel_node, reused, same_depth, var_of,
    PatternView,
};

verus! {

/// The smallest depth over a non-empty list of nodes.
pub open spec fn min_depth(d: Seq<int>, list: Seq<usize>) -> int
    decreases list.len(),
{
    if list.len() <= 1 {
        d[list[0] as int]
    } else {
        let rest = min_depth(d, list.drop_last());
        let last = d[list.last() as int];
        if last < rest {
            last
        } else {
            rest
        }
    }
}

/// Writing the depths of a node's children keeps the vector's length.
pub proof fn lemma_depth_step_len(d: Seq<int>, node: SpecNode, base: int, j: int)
    ensures
        depth_step(d, node, base, j).len() == d.len(),
    decreases j,
{
    if j > 0 && j <= node.children.len() {
        lemma_depth_step_len(d, node, base, j - 1);
    }
}

/// The depth vector has one entry per node.
pub proof fn lemma_depths_upto_len(nodes: Seq<SpecNode>, i: int)
    ensures
        depths_upto(nodes, i).len() == nodes.len(),
    decreases i,
{
    if i > 0 {
        lemma_depths_upto_len(nodes, i - 1);
        let d = depths_upto(nodes, i - 1);
        lemma_depth_step_len(d, nodes[i - 1], d[i - 1], nodes[i - 1].children.len() as int);
    }
}

/// Two nodes with the same children and binders write the same values on
/// the first `lim` positions, where their inputs agree.
proof fn lemma_depth_step_same(
    d1: Seq<int>,
    d2: Seq<int>,
    n1: SpecNode,
    n2: SpecNode,
    base: int,
    j: int,
    lim: int,
)
    requires
        n1.children == n2.children,
        forall|s: int| 0 <= s < n1.children.len() ==> binder_step(n1.op, s) == binder_step(n2.op, s),
        lim <= d1.len(),
        lim <= d2.len(),
        forall|s: int| 0 <= s < n1.children.len() ==> #[trigger] n1.children[s] < d1.len(),
        forall|x: int| 0 <= x < lim ==> d1[x] == d2[x],
    ensures
        forall|x: int| 0 <= x < lim ==> depth_step(d1, n1, base, j)[x] == depth_step(d2, n2, base, j)[x],
    decreases j,
{
    if j > 0 && j <= n1.children.len() {
        lemma_depth_step_same(d1, d2, n1, n2, base, j - 1, lim);
        lemma_depth_step_len(d1, n1, base, j - 1);
        lemma_depth_step_len(d2, n2, base, j - 1);
        let c = n1.children[j - 1];
    }
}

/// A node whose children all lie at or past `lim` leaves the first `lim`
/// positions as they were.
proof fn lemma_depth_step_beyond(d: Seq<int>, node: SpecNode, base: int, j: int, lim: int)
    requires
        forall|s: int| 0 <= s < node.children.len() ==> #[trigger] node.children[s] >= lim,
    ensures
        forall|x: int| 0 <= x < lim && x < d.len() ==> #[trigger] depth_step(d, node, base, j)[x] == d[x],
    decreases j,
{
    if j > 0 && j <= node.children.len() {
        lemma_depth_step_beyond(d, node, base, j - 1, lim);
        lemma_depth_step_len(d, node, base, j - 1);
    }
}

/// The depth of the first nodes stays when later nodes change or are added,
/// as long as each first node keeps its children and binders or, having had
/// no children, gains only children beyond them.
pub proof fn lemma_depths_frame(a: Seq<SpecNode>, b: Seq<SpecNode>, i: int)
    requires
        children_after(a),
        children_after(b),
        a.len() <= b.len(),
        0 <= i <= b.len(),
        forall|y: int|
            0 <= y < a.len() ==> ((#[trigger] b[y]).children == a[y].children && forall|s: int|
                0 <= s < a[y].children.len() ==> binder_step(b[y].op, s) == binder_step(a[y].op, s))
                || (a[y].children.len() == 0 && forall|s: int|
                0 <= s < b[y].children.len() ==> b[y].children[s] >= a.len()),
    ensures
        forall|x: int|
            0 <= x < a.len() ==> #[trigger] depths_upto(b, i)[x] == depths_upto(
                a,
                if i < a.len() {
                    i
                } else {
                    a.len() as int
                },
            )[x],
    decreases i,
{
    let la = a.len() as int;
    lemma_depths_upto_len(a, i);
    lemma_depths_upto_len(b, i);
    if i > 0 {
        lemma_depths_frame(a, b, i - 1);
        lemma_depths_upto_len(b, i - 1);
        let y = i - 1;
        let db = depths_upto(b, i - 1);
        let ia = if i - 1 < la {
            i - 1
        } else {
            la
        };
        lemma_depths_upto_len(a, ia);
        let da = depths_upto(a, ia);
        let target = if i < la {
            i
        } else {
            la
        };
        let nb = depth_step(db, b[y], db[y], b[y].children.len() as int);
        assert(depths_upto(b, i) == nb);
        assert forall|s: int| 0 <= s < b[y].children.len() implies y < #[trigger] b[y].children[s] by {
        }
        if y < la {
            assert(target == i);
            assert(db[y] == da[y]);
            let na = depth_step(da, a[y], da[y], a[y].children.len() as int);
            assert(depths_upto(a, i) == na);
            if b[y].children == a[y].children && forall|s: int|
                0 <= s < a[y].children.len() ==> binder_step(b[y].op, s) == binder_step(a[y].op, s) {
                assert forall|s: int| 0 <= s < a[y].children.len() implies #[trigger] a[y].children[s] < da.len() by {
                    assert(a[y].children[s] < la);
                }
                lemma_depth_step_same(da, db, a[y], b[y], db[y], a[y].children.len() as int, la);
                assert forall|x: int| 0 <= x < la implies #[trigger] nb[x] == na[x] by {
                }
            } else {
                lemma_depth_step_beyond(db, b[y], db[y], b[y].children.len() as int, la);
                assert(na == da);
                assert forall|x: int| 0 <= x < la implies #[trigger] nb[x] == na[x] by {
                    assert(nb[x] == db[x]);
                    assert(db[x] == da[x]);
                }
            }
        } else {
            assert(target == la);
            assert(ia == la);
            lemma_depth_step_beyond(db, b[y], db[y], b[y].children.len() as int, la);
            assert forall|x: int| 0 <= x < la implies #[trigger] nb[x] == da[x] by {
                assert(nb[x] == db[x]);
                assert(db[x] == da[x]);
            }
        }
    }
}

/// A node's depth is settled once the nodes before it are processed.
pub proof fn lemma_depth_settled(b: Seq<SpecNode>, y: int, i: int)
    requires
        children_after(b),
        0 <= y <= i <= b.len(),
        y < b.len(),
    ensures
        depths_upto(b, i)[y] == depths_upto(b, y)[y],
    decreases i,
{
    if i > y {
        lemma_depth_settled(b, y, i - 1);
        lemma_depths_upto(b, i - 1);
        let d = depths_upto(b, i - 1);
        let node = b[i - 1];
        assert forall|s: int| 0 <= s < node.children.len() implies i - 1 < #[trigger] node.children[s] by {
            assert(i - 1 < b[i - 1].children[s]);
        }
        lemma_depth_step(d, node, d[i - 1], node.children.len() as int, i - 1);
    }
}

/// The slots of a node write `v` at `x` when they hold `x`.
proof fn lemma_written_step(d: Seq<int>, node: SpecNode, base: int, j: int, x: int, v: int)
    requires
        0 <= x < d.len(),
        0 <= j <= node.children.len(),
        forall|s: int| 0 <= s < j && node.children[s] == x ==> base + binder_step(node.op, s) == v,
    ensures
        depth_step(d, node, base, j)[x] == if exists|s: int| 0 <= s < j && node.children[s] == x {
            v
        } else {
            d[x]
        },
    decreases j,
{
    if j > 0 {
        lemma_written_step(d, node, base, j - 1, x, v);
        lemma_depth_step_len(d, node, base, j - 1);
        if node.children[j - 1] == x {
        } else if exists|s: int| 0 <= s < j && node.children[s] == x {
            let s0 = choose|s: int| 0 <= s < j && node.children[s] == x;
            assert(s0 < j - 1);
        } else {
            assert(!exists|s: int| 0 <= s < j - 1 && node.children[s] == x);
        }
    }
}

/// Whether some node before `i` references `x`.
pub open spec fn written_before(b: Seq<SpecNode>, x: int, i: int) -> bool {
    exists|y: int, s: int| 0 <= y < i && 0 <= s < b[y].children.len() && b[y].children[s] == x
}

/// When every reference to `x` writes the same value `v`, the depth of `x`
/// is `v` once some reference is processed.
pub proof fn lemma_written_value(b: Seq<SpecNode>, x: int, v: int, i: int)
    requires
        children_after(b),
        0 <= x < b.len(),
        0 <= i <= b.len(),
        forall|y: int, s: int|
            0 <= y < b.len() && 0 <= s < b[y].children.len() && b[y].children[s] == x ==> depths_upto(b, y)[y]
                + binder_step(b[y].op, s) == v,
    ensures
        written_before(b, x, i) ==> depths_upto(b, i)[x] == v,
    decreases i,
{
    if i > 0 {
        lemma_written_value(b, x, v, i - 1);
        lemma_depths_upto_len(b, i - 1);
        let d = depths_upto(b, i - 1);
        let y = i - 1;
        let node = b[y];
        assert forall|s: int| 0 <= s < node.children.len() && node.children[s] == x implies d[y]
            + binder_step(node.op, s) == v by {
        }
        lemma_written_step(d, node, d[y], node.children.len() as int, x, v);
        if written_before(b, x, i) && !written_before(b, x, i - 1) {
            let (y0, s0) = choose|y0: int, s0: int|
                0 <= y0 < i && 0 <= s0 < b[y0].children.len() && b[y0].children[s0] == x;
            assert(y0 == y);
        }
        if written_before(b, x, i - 1) && !(exists|s: int| 0 <= s < node.children.len() && node.children[s] == x) {
        }
    }
}

/// The smallest of two joined lists is the smaller of their smallest.
pub proof fn lemma_min_depth_concat(d: Seq<int>, a: Seq<usize>, b: Seq<usize>)
    requires
        a.len() > 0,
        b.len() > 0,
    ensures
        min_depth(d, a + b) == if min_depth(d, a) <= min_depth(d, b) {
            min_depth(d, a)
        } else {
            min_depth(d, b)
        },
    decreases b.len(),
{
    if b.len() == 1 {
        assert((a + b).drop_last() =~= a);
    } else {
        lemma_min_depth_concat(d, a, b.drop_last());
        assert((a + b).drop_last() =~= a + b.drop_last());
    }
}

/// Lists whose depths differ entry by entry by `c` have minima that differ
/// by `c`.
pub proof fn lemma_min_depth_pointwise(d1: Seq<int>, a: Seq<usize>, d2: Seq<int>, b: Seq<usize>, c: int)
    requires
        a.len() == b.len(),
        a.len() > 0,
        forall|m: int| 0 <= m < a.len() ==> d1[#[trigger] a[m] as int] == d2[b[m] as int] + c,
    ensures
        min_depth(d1, a) == min_depth(d2, b) + c,
    decreases a.len(),
{
    if a.len() > 1 {
        lemma_min_depth_pointwise(d1, a.drop_last(), d2, b.drop_last(), c);
        assert(d1[a[a.len() - 1] as int] == d2[b[b.len() - 1] as int] + c);
    } else {
        assert(d1[a[0] as int] == d2[b[0] as int] + c);
    }
}

/// The smallest over a list whose entries share one depth is that depth.
pub proof fn lemma_min_depth_const(d: Seq<int>, a: Seq<usize>, v: int)
    requires
        a.len() > 0,
        forall|m: int| 0 <= m < a.len() ==> d[#[trigger] a[m] as int] == v,
    ensures
        min_depth(d, a) == v,
    decreases a.len(),
{
    if a.len() > 1 {
        lemma_min_depth_const(d, a.drop_last(), v);
        assert(d[a[a.len() - 1] as int] == v);
    } else {
        assert(d[a[0] as int] == v);
    }
}

/// Lists on which two depth vectors agree have the same smallest depth.
proof fn lemma_min_depth_agree(d1: Seq<int>, d2: Seq<int>, a: Seq<usize>)
    requires
        a.len() > 0,
        forall|m: int| 0 <= m < a.len() ==> d1[#[trigger] a[m] as int] == d2[a[m] as int],
    ensures
        min_depth(d1, a) == min_depth(d2, a),
{
    lemma_min_depth_pointwise(d1, a, d2, a, 0);
}

impl PatternView {
    /// Every node that references a child agrees on the child's depth: the
    /// child sits at the referencing node's depth plus the slot's binder. A
    /// node shared by several parents is then shared among parents at one
    /// depth, and its depth does not depend on which parent comes last.
    pub open spec fn depths_consistent(self) -> bool {
        forall|y: int, s: int|
            0 <= y < self.nodes.len() && 0 <= s < self.nodes[y].children.len() ==> occurrence_depth(
                self.nodes,
            )[#[trigger] self.nodes[y].children[s] as int] == occurrence_depth(self.nodes)[y] + binder_step(
                self.nodes[y].op,
                s,
            )
    }

    /// Every variable's depth is the smallest binder depth among its
    /// positions.
    pub open spec fn depths_exact(self) -> bool {
        forall|k: int|
            0 <= k < self.vars.len() ==> self.var_depth[k] as int == min_depth(
                occurrence_depth(self.nodes),
                #[trigger] self.vars[k],
            )
    }
}

/// The single variable `?#0` sits at depth 0, and no node has a parent.
pub proof fn lemma_single_var_depths(p: PatternView)
    requires
        p.nodes == seq![var_leaf(0)],
        p.vars == seq![seq![0usize]],
        p.var_depth == seq![0u32],
    ensures
        p.depths_exact(),
        p.depths_consistent(),
{
    let d = occurrence_depth(p.nodes);
    assert(p.nodes[0].children.len() == 0);
    assert(depths_upto(p.nodes, 0) =~= seq![0int]);
    assert(d == depth_step(depths_upto(p.nodes, 0), p.nodes[0], 0, 0));
    assert(d[0] == 0);
    assert(min_depth(d, p.vars[0]) == d[0]);
}

/// Unifying two variables keeps every depth exact: the kept variable sits
/// at the smaller of the two depths, the smallest over both position lists.
pub proof fn lemma_reused_depths(p: PatternView, a: int, b: int)
    requires
        p.wf(),
        p.depths_exact(),
        0 <= a < p.vars.len(),
        0 <= b < p.vars.len(),
        a != b,
    ensures
        reused(p, a, b).depths_exact(),
{
    let r = reused(p, a, b);
    let keep = min_index(a, b);
    let drop = max_index(a, b);
    let d = occurrence_depth(p.nodes);
    let e = occurrence_depth(r.nodes);
    lemma_reused_wf(p, a, b);
    assert forall|y: int| 0 <= y < p.nodes.len() implies ((#[trigger] r.nodes[y]).children == p.nodes[y].children
        && forall|s: int| 0 <= s < p.nodes[y].children.len() ==> binder_step(r.nodes[y].op, s) == binder_step(p.nodes[y].op, s))
        || (p.nodes[y].children.len() == 0 && forall|s: int|
        0 <= s < r.nodes[y].children.len() ==> r.nodes[y].children[s] >= p.nodes.len()) by {
        assert(r.nodes[y] == relabel_node(p.nodes[y], drop as u32, 0, keep as u32));
    }
    lemma_depths_frame(p.nodes, r.nodes, r.nodes.len() as int);
    assert forall|k: int, m: int| 0 <= k < p.vars.len() && 0 <= m < p.vars[k].len() implies e[
        #[trigger] p.vars[k][m] as int] == d[p.vars[k][m] as int] by {
        assert(p.vars[k][m] < p.nodes.len());
    }
    assert forall|k: int| 0 <= k < r.vars.len() implies r.var_depth[k] as int == min_depth(
        e,
        #[trigger] r.vars[k],
    ) by {
        if k == keep {
            let l = p.vars[keep] + p.vars[drop];
            assert(r.vars[k] == l);
            assert forall|m: int| 0 <= m < l.len() implies e[#[trigger] l[m] as int] == d[l[m] as int] by {
                if m < p.vars[keep].len() {
                    assert(l[m] == p.vars[keep][m]);
                } else {
                    assert(l[m] == p.vars[drop][m - p.vars[keep].len()]);
                }
            }
            lemma_min_depth_agree(e, d, l);
            lemma_min_depth_concat(d, p.vars[keep], p.vars[drop]);
            assert(p.var_depth[keep] as int == min_depth(d, p.vars[keep]));
            assert(p.var_depth[drop] as int == min_depth(d, p.vars[drop]));
        } else {
            let k0 = if k < drop {
                k
            } else {
                k + 1
            };
            assert(r.vars[k] == p.vars[k0]);
            assert(r.var_depth[k] == p.var_depth[k0]);
            assert forall|m: int| 0 <= m < p.vars[k0].len() implies e[#[trigger] p.vars[k0][m] as int]
                == d[p.vars[k0][m] as int] by {
            }
            lemma_min_depth_agree(e, d, p.vars[k0]);
            assert(p.var_depth[k0] as int == min_depth(d, p.vars[k0]));
        }
    }
}

/// After an expansion, the nodes that were there keep their depth: each
/// keeps its children and binders, or, a position of the expanded variable,
/// gains only children past the old nodes.
proof fn lemma_expanded_keeps_depths(p: PatternView, t: int, op: SpecOp, n: int)
    requires
        p.wf(),
        0 <= t < p.vars.len(),
        0 <= n,
        expansion_fits(p, t, op, n),
    ensures
        forall|x: int|
            0 <= x < p.nodes.len() ==> #[trigger] occurrence_depth(expanded(p, t, op, n).nodes)[x]
                == occurrence_depth(p.nodes)[x],
{
    let r = expanded(p, t, op, n);
    let pos = p.vars[t];
    let base = p.nodes.len() as int;
    let same = same_depth(p, t);
    lemma_expanded_wf(p, t, op, n);
    lemma_expanded_facts(p, t, op, n);
    assert forall|y: int| 0 <= y < base implies ((#[trigger] r.nodes[y]).children == p.nodes[y].children
        && forall|s: int| 0 <= s < p.nodes[y].children.len() ==> binder_step(r.nodes[y].op, s) == binder_step(p.nodes[y].op, s))
        || (p.nodes[y].children.len() == 0 && forall|s: int|
        0 <= s < r.nodes[y].children.len() ==> r.nodes[y].children[s] >= base) by {
        if var_of(p.nodes[y]) == Some(t as u32) {
            assert(pos.contains(y as usize));
            let m = pos.index_of(y as usize);
            assert(pos[m] == y as usize);
            assert(p.nodes[y] == var_leaf(t as u32));
            if n > 0 {
                assert forall|s: int| 0 <= s < r.nodes[y].children.len() implies r.nodes[y].children[s] >= base by {
                    if !same {
                        lemma_slot(m, n, s, pos.len() as int);
                    }
                }
            }
        } else {
            assert(r.nodes[y] == relabel_node(p.nodes[y], t as u32, n, t as u32));
        }
    }
    lemma_depths_frame(p.nodes, r.nodes, r.nodes.len() as int);
}

/// Expanding a variable keeps every depth exact: each new variable sits at
/// the expanded variable's depth, one deeper under a binder, which is the
/// smallest depth among its fresh leaves.
pub proof fn lemma_expanded_depths(p: PatternView, t: int, op: SpecOp, n: int)
    requires
        p.wf(),
        p.depths_exact(),
        0 <= t < p.vars.len(),
        0 <= n,
        expansion_fits(p, t, op, n),
    ensures
        expanded(p, t, op, n).depths_exact(),
{
    let r = expanded(p, t, op, n);
    let pos = p.vars[t];
    let base = p.nodes.len() as int;
    let same = same_depth(p, t);
    let d = occurrence_depth(p.nodes);
    let e = occurrence_depth(r.nodes);
    let pd = p.var_depth[t] as int;
    lemma_expanded_wf(p, t, op, n);
    lemma_expanded_facts(p, t, op, n);
    lemma_expanded_keeps_depths(p, t, op, n);
    lemma_depths_upto_len(r.nodes, r.nodes.len() as int);
    assert(pd == min_depth(d, pos));
    assert forall|k: int| 0 <= k < r.vars.len() implies r.var_depth[k] as int == min_depth(
        e,
        #[trigger] r.vars[k],
    ) by {
        if k < t || k >= t + n {
            let k0 = if k < t {
                k
            } else {
                k - n + 1
            };
            assert(r.vars[k] == p.vars[k0]);
            assert(r.var_depth[k] == p.var_depth[k0]);
            assert forall|m: int| 0 <= m < p.vars[k0].len() implies e[#[trigger] p.vars[k0][m] as int]
                == d[p.vars[k0][m] as int] by {
                assert(p.vars[k0][m] < base);
            }
            lemma_min_depth_agree(e, d, p.vars[k0]);
            assert(p.var_depth[k0] as int == min_depth(d, p.vars[k0]));
        } else {
            let j = k - t;
            lemma_expanded_new_depth(p, t, op, n, j);
        }
    }
}

/// After an expansion into `n > 0` children, the fresh leaf in slot `j`
/// under the `m`-th position sits at that position's depth, one deeper
/// under a binder: every node that references it agrees.
proof fn lemma_expanded_leaf_depth(p: PatternView, t: int, op: SpecOp, n: int, m: int, j: int)
    requires
        p.wf(),
        0 <= t < p.vars.len(),
        0 <= j < n,
        0 <= m < p.vars[t].len(),
        expansion_fits(p, t, op, n),
    ensures
        ({
            let r = expanded(p, t, op, n);
            let q = p.vars[t][m] as int;
            &&& j < r.nodes[q].children.len()
            &&& occurrence_depth(r.nodes)[r.nodes[q].children[j] as int] == occurrence_depth(p.nodes)[q]
                + binder_step(SpecPatternOp::Node(op), j)
        }),
{
    let r = expanded(p, t, op, n);
    let pos = p.vars[t];
    let base = p.nodes.len() as int;
    let same = same_depth(p, t);
    let d = occurrence_depth(p.nodes);
    let c = binder_step(SpecPatternOp::Node(op), j);
    lemma_expanded_wf(p, t, op, n);
    lemma_expanded_facts(p, t, op, n);
    lemma_expanded_keeps_depths(p, t, op, n);
    lemma_depths_upto_len(r.nodes, r.nodes.len() as int);
    let rl = r.nodes.len() as int;
    assert forall|m2: int| 0 <= m2 < pos.len() implies #[trigger] depths_upto(r.nodes, pos[m2] as int)[pos[m2] as int]
        == d[pos[m2] as int] by {
        assert(pos[m2] < base);
        lemma_depth_settled(r.nodes, pos[m2] as int, rl);
        assert(occurrence_depth(r.nodes)[pos[m2] as int] == d[pos[m2] as int]);
    }
    if same {
        let x = base + j;
        let v = d[pos[0] as int] + c;
        assert(d[pos[m] as int] == d[pos[0] as int]);
        assert forall|y: int, s: int|
            0 <= y < rl && 0 <= s < r.nodes[y].children.len() && r.nodes[y].children[s] == x implies depths_upto(
            r.nodes,
            y,
        )[y] + binder_step(r.nodes[y].op, s) == v by {
            if y >= base {
                assert(r.nodes[y] == var_leaf((t + (y - base) % n) as u32));
            } else if var_of(p.nodes[y]) == Some(t as u32) {
                assert(pos.contains(y as usize));
                let m2 = pos.index_of(y as usize);
                assert(pos[m2] == y as usize);
                assert(d[pos[m2] as int] == d[pos[0] as int]);
                assert(r.nodes[y].children[s] == (base + s) as usize);
                assert(s == j);
            } else {
                assert(r.nodes[y] == relabel_node(p.nodes[y], t as u32, n, t as u32));
                assert(p.nodes[y].children[s] < base);
            }
        }
        lemma_written_value(r.nodes, x, v, rl);
        assert(r.nodes[pos[m] as int].children[j] == x as usize);
        assert(written_before(r.nodes, x, rl));
    } else {
        lemma_slot(m, n, j, pos.len() as int);
        let x = base + m * n + j;
        let v = d[pos[m] as int] + c;
        assert forall|y: int, s: int|
            0 <= y < rl && 0 <= s < r.nodes[y].children.len() && r.nodes[y].children[s] == x implies depths_upto(
            r.nodes,
            y,
        )[y] + binder_step(r.nodes[y].op, s) == v by {
            if y >= base {
                assert(r.nodes[y] == var_leaf((t + (y - base) % n) as u32));
            } else if var_of(p.nodes[y]) == Some(t as u32) {
                assert(pos.contains(y as usize));
                let m2 = pos.index_of(y as usize);
                assert(pos[m2] == y as usize);
                lemma_slot(m2, n, s, pos.len() as int);
                assert(r.nodes[y].children[s] == (base + m2 * n + s) as usize);
                assert(m2 * n + s == m * n + j);
                assert(m2 == m && s == j);
            } else {
                assert(r.nodes[y] == relabel_node(p.nodes[y], t as u32, n, t as u32));
                assert(p.nodes[y].children[s] < base);
            }
        }
        lemma_written_value(r.nodes, x, v, rl);
        assert(r.nodes[pos[m] as int].children[j] == x as usize);
        assert(written_before(r.nodes, x, rl));
    }
}

/// The depth of the `j`-th new variable after an expansion.
proof fn lemma_expanded_new_depth(p: PatternView, t: int, op: SpecOp, n: int, j: int)
    requires
        p.wf(),
        p.depths_exact(),
        0 <= t < p.vars.len(),
        0 <= j < n,
        expansion_fits(p, t, op, n),
    ensures
        expanded(p, t, op, n).var_depth[t + j] as int == min_depth(
            occurrence_depth(expanded(p, t, op, n).nodes),
            expanded(p, t, op, n).vars[t + j],
        ),
{
    let r = expanded(p, t, op, n);
    let pos = p.vars[t];
    let base = p.nodes.len() as int;
    let d = occurrence_depth(p.nodes);
    let e = occurrence_depth(r.nodes);
    let pd = p.var_depth[t] as int;
    let c = binder_step(SpecPatternOp::Node(op), j);
    lemma_expanded_facts(p, t, op, n);
    assert(pd == min_depth(d, pos));
    assert(r.var_depth[t + j] as int == pd + c);
    let row = fresh_row(p, t, n, j);
    assert(r.vars[t + j] == row);
    assert forall|m: int| 0 <= m < pos.len() implies r.nodes[#[trigger] pos[m] as int].children[j] as int == if same_depth(p, t) {
        base + j
    } else {
        base + m * n + j
    } by {
        assert(var_of(p.nodes[pos[m] as int]) == Some(t as u32));
        if !same_depth(p, t) {
            lemma_slot(m, n, j, pos.len() as int);
        }
    }
    if same_depth(p, t) {
        assert forall|m: int| 0 <= m < pos.len() implies d[#[trigger] pos[m] as int] == d[pos[0] as int] by {
        }
        lemma_min_depth_const(d, pos, d[pos[0] as int]);
        lemma_expanded_leaf_depth(p, t, op, n, 0, j);
        assert(row == seq![(base + j) as usize]);
        assert(min_depth(e, row) == e[base + j]);
    } else {
        assert forall|m: int| 0 <= m < row.len() implies e[#[trigger] row[m] as int] == d[pos[m] as int] + c by {
            lemma_slot(m, n, j, pos.len() as int);
            lemma_expanded_leaf_depth(p, t, op, n, m, j);
        }
        lemma_min_depth_pointwise(e, row, d, pos, c);
    }
}

/// Replacing a variable by a concrete subtree keeps every other depth
/// exact: the old nodes keep their depth and no new node is a variable.
pub proof fn lemma_concretized_depths(p: PatternView, t: int, r: PatternView)
    requires
        p.wf(),
        p.depths_exact(),
        r.wf(),
        0 <= t < p.vars.len(),
        r.vars == p.vars.remove(t),
        r.var_depth == p.var_depth.remove(t),
        p.nodes.len() <= r.nodes.len(),
        forall|q: int|
            0 <= q < p.nodes.len() && var_of(p.nodes[q]) != Some(t as u32) ==> #[trigger] r.nodes[q]
                == relabel_node(p.nodes[q], t as u32, 0, t as u32),
        forall|q: int|
            0 <= q < p.nodes.len() && var_of(p.nodes[q]) == Some(t as u32) ==> forall|s: int|
                0 <= s < (#[trigger] r.nodes[q]).children.len() ==> r.nodes[q].children[s] >= p.nodes.len(),
    ensures
        r.depths_exact(),
{
    let base = p.nodes.len() as int;
    let d = occurrence_depth(p.nodes);
    let e = occurrence_depth(r.nodes);
    crate::pattern::lemma_positions(p, t);
    assert forall|y: int| 0 <= y < base implies ((#[trigger] r.nodes[y]).children == p.nodes[y].children
        && forall|s: int| 0 <= s < p.nodes[y].children.len() ==> binder_step(r.nodes[y].op, s) == binder_step(p.nodes[y].op, s))
        || (p.nodes[y].children.len() == 0 && forall|s: int|
        0 <= s < r.nodes[y].children.len() ==> r.nodes[y].children[s] >= base) by {
        if var_of(p.nodes[y]) == Some(t as u32) {
            assert(p.vars[t].contains(y as usize));
            let m = choose|m: int| 0 <= m < p.vars[t].len() && p.vars[t][m] == y as usize;
            assert(p.nodes[y] == var_leaf(t as u32));
        }
    }
    lemma_depths_frame(p.nodes, r.nodes, r.nodes.len() as int);
    assert forall|k: int| 0 <= k < r.vars.len() implies r.var_depth[k] as int == min_depth(
        e,
        #[trigger] r.vars[k],
    ) by {
        let k0 = if k < t {
            k
        } else {
            k + 1
        };
        assert(r.vars[k] == p.vars[k0]);
        assert(r.var_depth[k] == p.var_depth[k0]);
        assert forall|m: int| 0 <= m < p.vars[k0].len() implies e[#[trigger] p.vars[k0][m] as int]
            == d[p.vars[k0][m] as int] by {
            assert(p.vars[k0][m] < base);
        }
        lemma_min_depth_agree(e, d, p.vars[k0]);
        assert(p.var_depth[k0] as int == min_depth(d, p.vars[k0]));
    }
}

/// Unifying two variables keeps every node's children and binders, so the
/// parents of every node still agree on its depth.
pub proof fn lemma_reused_consistent(p: PatternView, a: int, b: int)
    requires
        p.wf(),
        p.depths_consistent(),
        0 <= a < p.vars.len(),
        0 <= b < p.vars.len(),
        a != b,
    ensures
        reused(p, a, b).depths_consistent(),
{
    let r = reused(p, a, b);
    let keep = min_index(a, b);
    let drop = max_index(a, b);
    let d = occurrence_depth(p.nodes);
    let e = occurrence_depth(r.nodes);
    lemma_reused_wf(p, a, b);
    assert forall|y: int| 0 <= y < p.nodes.len() implies ((#[trigger] r.nodes[y]).children == p.nodes[y].children
        && forall|s: int| 0 <= s < p.nodes[y].children.len() ==> binder_step(r.nodes[y].op, s) == binder_step(p.nodes[y].op, s))
        || (p.nodes[y].children.len() == 0 && forall|s: int|
        0 <= s < r.nodes[y].children.len() ==> r.nodes[y].children[s] >= p.nodes.len()) by {
        assert(r.nodes[y] == relabel_node(p.nodes[y], drop as u32, 0, keep as u32));
    }
    lemma_depths_frame(p.nodes, r.nodes, r.nodes.len() as int);
    assert forall|y: int, s: int| 0 <= y < r.nodes.len() && 0 <= s < r.nodes[y].children.len() implies e[
        #[trigger] r.nodes[y].children[s] as int] == e[y] + binder_step(r.nodes[y].op, s) by {
        assert(r.nodes[y] == relabel_node(p.nodes[y], drop as u32, 0, keep as u32));
        let c = p.nodes[y].children[s] as int;
        assert(y < c < p.nodes.len());
        assert(d[c] == d[y] + binder_step(p.nodes[y].op, s));
    }
}

/// Expanding a variable keeps the parents of every node agreeing on its
/// depth: a fresh leaf is shared only among positions at one depth.
pub proof fn lemma_expanded_consistent(p: PatternView, t: int, op: SpecOp, n: int)
    requires
        p.wf(),
        p.depths_consistent(),
        0 <= t < p.vars.len(),
        0 <= n,
        expansion_fits(p, t, op, n),
    ensures
        expanded(p, t, op, n).depths_consistent(),
{
    let r = expanded(p, t, op, n);
    let pos = p.vars[t];
    let base = p.nodes.len() as int;
    let d = occurrence_depth(p.nodes);
    let e = occurrence_depth(r.nodes);
    lemma_expanded_wf(p, t, op, n);
    lemma_expanded_facts(p, t, op, n);
    lemma_expanded_keeps_depths(p, t, op, n);
    assert forall|y: int, s: int| 0 <= y < r.nodes.len() && 0 <= s < r.nodes[y].children.len() implies e[
        #[trigger] r.nodes[y].children[s] as int] == e[y] + binder_step(r.nodes[y].op, s) by {
        if y >= base {
            assert(r.nodes[y] == var_leaf((t + (y - base) % n) as u32));
        } else if var_of(p.nodes[y]) == Some(t as u32) {
            assert(pos.contains(y as usize));
            let m = pos.index_of(y as usize);
            assert(pos[m] == y as usize);
            assert(n > 0);
            lemma_expanded_leaf_depth(p, t, op, n, m, s);
        } else {
            assert(r.nodes[y] == relabel_node(p.nodes[y], t as u32, n, t as u32));
            let c = p.nodes[y].children[s] as int;
            assert(y < c < p.nodes.len());
            assert(d[c] == d[y] + binder_step(p.nodes[y].op, s));
        }
    }
}

} // verus!
