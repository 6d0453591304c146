//! A partially built pattern: a term over pattern nodes, stored parents
//! before children with the root at index 0, together with one list of
//! positions per pattern variable.
//!
//! Canonical form: for every `k`, every id in `vars[k]` holds a leaf `?#k`,
//! and every leaf `?#k` in the term is listed in `vars[k]`, so the variables
//! are named in the order of their slots. `expand`, `reuse` and `concretize`
//! keep this form.
use vstd::prelude::*;
use crate::lang::{
    binder_step, children_after, nodes_view, shift_in_range, shifted_op, var_leaf, Op,
    PatternNode, PatternOp, ProgramNode, SpecNode, SpecOp, SpecPatternOp,
};
use crate::render::{push_render_after, render_after};
use crate::revexpr::RevExpr;
use crate::lang::children_before;
use crate::tree::{
    lemma_tree_after_kids_at, lemma_tree_before_kids, shift_ok, shift_tree, tree_after,
    tree_before, Tree,
};
use crate::shift::{no_var_nodes, shift_extraction};

verus! {

/// A partially built pattern.
#[derive(Debug, Clone)]
pub struct Pattern {
    /// The term, root at index 0, parents before children.
    pub pattern: RevExpr<PatternNode>,
    /// `vars[k]`: the ids of all nodes holding `?#k`.
    pub vars: Vec<Vec<usize>>,
    /// `var_depth[k]`: the number of pattern binders above `?#k`.
    pub var_depth: Vec<u32>,
    /// `var_occurrences[k]`: how many times a walk from the root meets `?#k`.
    pub var_occurrences: Vec<usize>,
    /// `var_reusable[k]`: whether `?#k` may still take part in a reuse.
    pub var_reusable: Vec<bool>,
}

/// The mathematical value of a [`Pattern`].
pub struct PatternView {
    pub nodes: Seq<SpecNode>,
    pub vars: Seq<Seq<usize>>,
    pub var_depth: Seq<u32>,
    pub var_occurrences: Seq<usize>,
    pub var_reusable: Seq<bool>,
}

/// The lists of a vector of id vectors.
pub open spec fn lists_view(v: Seq<Vec<usize>>) -> Seq<Seq<usize>> {
    v.map_values(|l: Vec<usize>| l@)
}

impl View for Pattern {
    type V = PatternView;

    open spec fn view(&self) -> PatternView {
        PatternView {
            nodes: nodes_view(self.pattern.nodes@),
            vars: lists_view(self.vars@),
            var_depth: self.var_depth@,
            var_occurrences: self.var_occurrences@,
            var_reusable: self.var_reusable@,
        }
    }
}

/// The variable index a node's op holds, if any.
pub open spec fn var_of(node: SpecNode) -> Option<u32> {
    match node.op {
        SpecPatternOp::Var(k) => Some(k),
        _ => None,
    }
}

impl PatternView {
    /// Every id in `vars[k]` holds a leaf `?#k`.
    pub open spec fn canonical(self) -> bool {
        forall|k: int, m: int|
            0 <= k < self.vars.len() && 0 <= m < self.vars[k].len() ==> {
                &&& 0 <= #[trigger] self.vars[k][m] < self.nodes.len()
                &&& self.nodes[self.vars[k][m] as int] == var_leaf(k as u32)
            }
    }

    /// Every leaf `?#k` of the term is listed in `vars[k]`.
    pub open spec fn complete(self) -> bool {
        forall|q: int|
            0 <= q < self.nodes.len() && (#[trigger] var_of(self.nodes[q])) is Some ==> {
                let k = var_of(self.nodes[q])->0 as int;
                &&& k < self.vars.len()
                &&& self.vars[k].contains(q as usize)
            }
    }

    /// The pattern is well formed: the term is stored parents before
    /// children, the per-variable lists line up, each variable has at least
    /// one position, listed once, and the lists are canonical and complete.
    pub open spec fn wf(self) -> bool {
        &&& 1 <= self.nodes.len() <= usize::MAX
        &&& children_after(self.nodes)
        &&& self.vars.len() < u32::MAX
        &&& self.var_depth.len() == self.vars.len()
        &&& self.var_occurrences.len() == self.vars.len()
        &&& self.var_reusable.len() == self.vars.len()
        &&& forall|k: int|
            0 <= k < self.vars.len() ==> (#[trigger] self.vars[k]).len() > 0
                && self.vars[k].no_duplicates()
        &&& self.canonical()
        &&& self.complete()
    }
}

/// The new index of variable `k` when variable `t` gives way to `n`
/// variables, and `keep` takes the place of `t` itself.
pub open spec fn relabel(k: u32, t: u32, n: int, keep: u32) -> u32 {
    if k == t {
        keep
    } else if k > t {
        (k + n - 1) as u32
    } else {
        k
    }
}

/// A node with its variable renamed by [`relabel`]; other nodes unchanged.
pub open spec fn relabel_node(node: SpecNode, t: u32, n: int, keep: u32) -> SpecNode {
    match node.op {
        SpecPatternOp::Var(k) => SpecNode {
            op: SpecPatternOp::Var(relabel(k, t, n, keep)),
            children: node.children,
        },
        _ => node,
    }
}

/// Renames every variable leaf by [`relabel`].
fn relabel_vars(nodes: &mut Vec<PatternNode>, t: u32, n: u32, keep: u32)
    requires
        forall|q: int|
            0 <= q < old(nodes).len() ==> match #[trigger] old(nodes)@[q]@.op {
                SpecPatternOp::Var(k) => k > t ==> k + n - 1 <= u32::MAX,
                _ => true,
            },
    ensures
        final(nodes).len() == old(nodes).len(),
        nodes_view(final(nodes)@) == nodes_view(old(nodes)@).map_values(
            |nd: SpecNode| relabel_node(nd, t, n as int, keep),
        ),
{
    let len = nodes.len();
    let ghost start = nodes_view(nodes@);
    let mut q: usize = 0;
    while q < len
        invariant
            len == nodes.len(),
            start.len() == len,
            q <= len,
            forall|i: int|
                0 <= i < len ==> match #[trigger] start[i].op {
                    SpecPatternOp::Var(k) => k > t ==> k + n - 1 <= u32::MAX,
                    _ => true,
                },
            forall|i: int|
                0 <= i < len ==> #[trigger] nodes@[i]@ == if i < q {
                    relabel_node(start[i], t, n as int, keep)
                } else {
                    start[i]
                },
        decreases len - q,
    {
        assert(nodes@[q as int]@ == start[q as int]);
        if let PatternOp::Var(k) = nodes[q].op {
            let k2: u32 = if k == t {
                keep
            } else if k > t {
                k - 1 + n
            } else {
                k
            };
            let children = crate::lang::copy_ids(&nodes[q].children);
            nodes.set(q, PatternNode { op: PatternOp::Var(k2), children });
        }
        q = q + 1;
    }
    assert(nodes_view(nodes@) =~= start.map_values(
        |nd: SpecNode| relabel_node(nd, t, n as int, keep),
    ));
}

// ----- binder depth of every node -----

/// The depths after the first `j` child slots of `node`, whose own depth is
/// `base`, have written theirs: each child gets `base`, plus one under a
/// binder; a later write wins.
pub open spec fn depth_step(d: Seq<int>, node: SpecNode, base: int, j: int) -> Seq<int>
    decreases j,
{
    if j <= 0 || j > node.children.len() {
        d
    } else {
        let prev = depth_step(d, node, base, j - 1);
        let c = node.children[j - 1] as int;
        if c < prev.len() {
            prev.update(c, base + binder_step(node.op, j - 1))
        } else {
            prev
        }
    }
}

/// The depths after the first `i` nodes, in order, have written their
/// children's; every node starts at 0.
pub open spec fn depths_upto(nodes: Seq<SpecNode>, i: int) -> Seq<int>
    decreases i,
{
    if i <= 0 {
        Seq::new(nodes.len(), |k: int| 0)
    } else {
        let d = depths_upto(nodes, i - 1);
        depth_step(d, nodes[i - 1], d[i - 1], nodes[i - 1].children.len() as int)
    }
}

/// The binder depth of every node of a term stored parents first: the
/// number of binders between the root and the node, along the parent that
/// comes last.
pub open spec fn occurrence_depth(nodes: Seq<SpecNode>) -> Seq<int> {
    depths_upto(nodes, nodes.len() as int)
}

/// Writing a node's children, all past `at`, keeps every depth between 0
/// and its node's id and leaves the depths up to `at` as they were.
pub proof fn lemma_depth_step(d: Seq<int>, node: SpecNode, base: int, j: int, at: int)
    requires
        0 <= at,
        0 <= base <= at,
        forall|x: int| 0 <= x < d.len() ==> 0 <= #[trigger] d[x] <= x,
        forall|s: int| 0 <= s < node.children.len() ==> at < #[trigger] node.children[s],
    ensures
        depth_step(d, node, base, j).len() == d.len(),
        forall|x: int|
            0 <= x < d.len() ==> 0 <= #[trigger] depth_step(d, node, base, j)[x] <= x,
        forall|x: int| 0 <= x <= at && x < d.len() ==> #[trigger] depth_step(d, node, base, j)[x] == d[x],
    decreases j,
{
    if j <= 0 || j > node.children.len() {
    } else {
        lemma_depth_step(d, node, base, j - 1, at);
        let c = node.children[j - 1];
        assert(at < c);
    }
}

/// Every node's depth lies between 0 and its id.
pub proof fn lemma_depths_upto(nodes: Seq<SpecNode>, i: int)
    requires
        children_after(nodes),
        0 <= i <= nodes.len(),
    ensures
        depths_upto(nodes, i).len() == nodes.len(),
        forall|x: int| 0 <= x < nodes.len() ==> 0 <= #[trigger] depths_upto(nodes, i)[x] <= x,
    decreases i,
{
    if i > 0 {
        lemma_depths_upto(nodes, i - 1);
        let d = depths_upto(nodes, i - 1);
        let node = nodes[i - 1];
        assert forall|s: int| 0 <= s < node.children.len() implies i - 1 < #[trigger] node.children[s] by {
            assert(i - 1 < nodes[i - 1].children[s]);
        }
        lemma_depth_step(d, node, d[i - 1], node.children.len() as int, i - 1);
    }
}

/// The depths of a vector as integers.
pub open spec fn as_ints(s: Seq<u32>) -> Seq<int> {
    s.map_values(|x: u32| x as int)
}

/// The smaller of two indices.
pub open spec fn min_index(a: int, b: int) -> int {
    if a < b {
        a
    } else {
        b
    }
}

/// The larger of two indices.
pub open spec fn max_index(a: int, b: int) -> int {
    if a < b {
        b
    } else {
        a
    }
}

/// The pattern after variables `a` and `b` are unified: the lower index
/// `keep` stays and takes every position of the higher one `drop`, which
/// goes; the variables after `drop` move down by one; the merged variable
/// has the smaller depth and the summed occurrences; every variable below
/// `drop` stops being reusable.
pub open spec fn reused(p: PatternView, a: int, b: int) -> PatternView {
    let keep = min_index(a, b);
    let drop = max_index(a, b);
    PatternView {
        nodes: p.nodes.map_values(|nd: SpecNode| relabel_node(nd, drop as u32, 0, keep as u32)),
        vars: p.vars.update(keep, p.vars[keep] + p.vars[drop]).remove(drop),
        var_depth: p.var_depth.update(
            keep,
            if p.var_depth[keep] <= p.var_depth[drop] {
                p.var_depth[keep]
            } else {
                p.var_depth[drop]
            },
        ).remove(drop),
        var_occurrences: p.var_occurrences.update(
            keep,
            (p.var_occurrences[keep] + p.var_occurrences[drop]) as usize,
        ).remove(drop),
        var_reusable: Seq::new(
            (p.var_reusable.len() - 1) as nat,
            |k: int|
                if k < drop {
                    false
                } else {
                    p.var_reusable[k + 1]
                },
        ),
    }
}

/// Unifying is order-independent: `reuse(a, b)` and `reuse(b, a)` give the
/// same pattern.
pub proof fn lemma_reuse_symmetric(p: PatternView, a: int, b: int)
    ensures
        reused(p, a, b) == reused(p, b, a),
{
    assert(min_index(a, b) == min_index(b, a) || a == b);
    assert(max_index(a, b) == max_index(b, a) || a == b);
}

/// After unifying variables `a` and `b`, no variable below the higher of
/// the two is reusable, and each variable from there on keeps the flag of
/// the variable one past it: reusing commits to the order, so later reuses
/// involve only indices at or above the dropped one.
pub proof fn lemma_reuse_reusable(p: PatternView, a: int, b: int)
    requires
        0 <= a < p.var_reusable.len(),
        0 <= b < p.var_reusable.len(),
        a != b,
    ensures
        reused(p, a, b).var_reusable.len() == p.var_reusable.len() - 1,
        forall|k: int|
            0 <= k < p.var_reusable.len() - 1 ==> #[trigger] reused(p, a, b).var_reusable[k] == (k >= (if a
                < b {
                b
            } else {
                a
            }) && p.var_reusable[k + 1]),
{
}

/// After expanding variable `t` into `n` children, exactly the new
/// variables `t .. t+n-1` are reusable: every variable that was there
/// before stops being reusable, whatever `n`, a leaf expansion included.
pub proof fn lemma_expand_reusable(p: PatternView, t: int, op: SpecOp, n: int)
    requires
        0 <= t < p.vars.len(),
        0 <= n,
    ensures
        expanded(p, t, op, n).var_reusable.len() == p.vars.len() - 1 + n,
        forall|k: int|
            0 <= k < p.vars.len() - 1 + n ==> #[trigger] expanded(p, t, op, n).var_reusable[k] == (t <= k
                && k < t + n),
{
}

/// Unifying two variables of a well-formed pattern gives a well-formed
/// pattern: the canonical form survives a reuse.
pub proof fn lemma_reused_wf(p: PatternView, a: int, b: int)
    requires
        p.wf(),
        0 <= a < p.vars.len(),
        0 <= b < p.vars.len(),
        a != b,
    ensures
        reused(p, a, b).wf(),
{
    let r = reused(p, a, b);
    let keep = min_index(a, b);
    let drop = max_index(a, b);
    assert forall|i: int, j: int|
        0 <= i < r.nodes.len() && 0 <= j < r.nodes[i].children.len() implies i
            < #[trigger] r.nodes[i].children[j] < r.nodes.len() by {
        assert(r.nodes[i].children == p.nodes[i].children);
        assert(i < p.nodes[i].children[j]);
    }
    assert forall|k: int| 0 <= k < r.vars.len() implies (#[trigger] r.vars[k]).len() > 0
        && r.vars[k].no_duplicates() by {
        if k == keep {
            let l = p.vars[keep] + p.vars[drop];
            assert(r.vars[k] == l);
            assert forall|x: int, y: int| 0 <= x < l.len() && 0 <= y < l.len() && x != y implies l[x]
                != l[y] by {
                let kk = p.vars[keep].len() as int;
                if x < kk && y < kk {
                } else if x >= kk && y >= kk {
                    assert(l[x] == p.vars[drop][x - kk]);
                    assert(l[y] == p.vars[drop][y - kk]);
                } else if x < kk {
                    assert(p.nodes[p.vars[keep][x] as int] == var_leaf(keep as u32));
                    assert(p.nodes[p.vars[drop][y - kk] as int] == var_leaf(drop as u32));
                } else {
                    assert(p.nodes[p.vars[keep][y] as int] == var_leaf(keep as u32));
                    assert(p.nodes[p.vars[drop][x - kk] as int] == var_leaf(drop as u32));
                }
            }
        } else if k < drop {
            assert(r.vars[k] == p.vars[k]);
        } else {
            assert(r.vars[k] == p.vars[k + 1]);
        }
    }
    assert forall|k: int, m: int| 0 <= k < r.vars.len() && 0 <= m < r.vars[k].len() implies {
        &&& 0 <= #[trigger] r.vars[k][m] < r.nodes.len()
        &&& r.nodes[r.vars[k][m] as int] == var_leaf(k as u32)
    } by {
        if k == keep {
            let kk = p.vars[keep].len() as int;
            if m < kk {
                let q = p.vars[keep][m] as int;
                assert(p.nodes[q] == var_leaf(keep as u32));
                assert(r.nodes[q] == relabel_node(p.nodes[q], drop as u32, 0, keep as u32));
            } else {
                let q = p.vars[drop][m - kk] as int;
                assert(r.vars[k][m] == q);
                assert(p.nodes[q] == var_leaf(drop as u32));
                assert(r.nodes[q] == relabel_node(p.nodes[q], drop as u32, 0, keep as u32));
            }
        } else if k < drop {
            let q = p.vars[k][m] as int;
            assert(r.vars[k][m] == q);
            assert(p.nodes[q] == var_leaf(k as u32));
            assert(r.nodes[q] == relabel_node(p.nodes[q], drop as u32, 0, keep as u32));
        } else {
            let q = p.vars[k + 1][m] as int;
            assert(r.vars[k][m] == q);
            assert(p.nodes[q] == var_leaf((k + 1) as u32));
            assert(r.nodes[q] == relabel_node(p.nodes[q], drop as u32, 0, keep as u32));
        }
    }
    assert forall|q: int| 0 <= q < r.nodes.len() && (#[trigger] var_of(r.nodes[q])) is Some implies {
        let k = var_of(r.nodes[q])->0 as int;
        &&& k < r.vars.len()
        &&& r.vars[k].contains(q as usize)
    } by {
        assert(r.nodes[q] == relabel_node(p.nodes[q], drop as u32, 0, keep as u32));
        assert(var_of(p.nodes[q]) is Some);
        let k = var_of(p.nodes[q])->0 as int;
        assert(k < p.vars.len() && p.vars[k].contains(q as usize));
        let m = choose|m: int| 0 <= m < p.vars[k].len() && p.vars[k][m] == q as usize;
        if k == drop {
            assert(r.vars[keep][p.vars[keep].len() + m] == q as usize);
        } else if k == keep {
            assert(r.vars[keep][m] == q as usize);
        } else if k < drop {
            assert(r.vars[k][m] == q as usize);
        } else {
            assert(r.vars[k - 1][m] == q as usize);
        }
    }
}

/// Whether all positions of variable `t` sit at one binder depth.
pub open spec fn same_depth(p: PatternView, t: int) -> bool {
    let d = occurrence_depth(p.nodes);
    let pos = p.vars[t];
    forall|m: int| 0 <= m < pos.len() ==> d[#[trigger] pos[m] as int] == d[pos[0] as int]
}

/// The id of the fresh leaf for child slot `j` under the `m`-th position of
/// an expanded variable: one shared row when all positions sit at one
/// depth, else one row of `n` per position.
pub open spec fn fresh_id(base: int, m: int, n: int, j: int, same: bool) -> int {
    if same {
        base + j
    } else {
        base + m * n + j
    }
}

/// The number of nodes that an expansion into `n` children appends.
pub open spec fn expansion_growth(p: PatternView, t: int, n: int) -> int {
    if n == 0 {
        0
    } else if same_depth(p, t) {
        n
    } else {
        p.vars[t].len() * n
    }
}

/// The positions of the `j`-th new variable after an expansion.
pub open spec fn fresh_row(p: PatternView, t: int, n: int, j: int) -> Seq<usize> {
    let base = p.nodes.len() as int;
    if same_depth(p, t) {
        seq![(base + j) as usize]
    } else {
        Seq::new(p.vars[t].len(), |m: int| (base + m * n + j) as usize)
    }
}

/// The pattern after variable `t` is expanded with op `op` and `n` children.
/// Every position of `t` gets a node with `op` whose children are fresh
/// variable leaves `?#t .. ?#t+n-1` (one shared row when all positions sit at
/// one depth, else one row per position); with no children, each position
/// gets a leaf, a de Bruijn index shifted by the position's depth below the
/// variable's. The variables after `t` move up by `n - 1`; the new ones sit at
/// the variable's depth, one deeper under a binder, are met as often as it
/// was, and are the only reusable ones.
pub open spec fn expanded(p: PatternView, t: int, op: SpecOp, n: int) -> PatternView {
    let d = occurrence_depth(p.nodes);
    let pos = p.vars[t];
    let pd = p.var_depth[t] as int;
    let base = p.nodes.len() as int;
    let same = same_depth(p, t);
    PatternView {
        nodes: Seq::new(
            (base + expansion_growth(p, t, n)) as nat,
            |q: int|
                if q >= base {
                    var_leaf((t + (q - base) % n) as u32)
                } else if var_of(p.nodes[q]) == Some(t as u32) {
                    if n == 0 {
                        SpecNode {
                            op: SpecPatternOp::Node(shifted_op(op, d[q] - pd)),
                            children: Seq::empty(),
                        }
                    } else {
                        SpecNode {
                            op: SpecPatternOp::Node(op),
                            children: Seq::new(
                                n as nat,
                                |j: int| fresh_id(base, pos.index_of(q as usize), n, j, same) as usize,
                            ),
                        }
                    }
                } else {
                    relabel_node(p.nodes[q], t as u32, n, t as u32)
                },
        ),
        vars: p.vars.subrange(0, t) + Seq::new(n as nat, |j: int| fresh_row(p, t, n, j))
            + p.vars.subrange(t + 1, p.vars.len() as int),
        var_depth: p.var_depth.subrange(0, t) + Seq::new(
            n as nat,
            |j: int| (pd + binder_step(SpecPatternOp::Node(op), j)) as u32,
        ) + p.var_depth.subrange(t + 1, p.vars.len() as int),
        var_occurrences: p.var_occurrences.subrange(0, t) + Seq::new(
            n as nat,
            |j: int| p.var_occurrences[t],
        ) + p.var_occurrences.subrange(t + 1, p.vars.len() as int),
        var_reusable: Seq::new((p.vars.len() - 1 + n) as nat, |k: int| t <= k < t + n),
    }
}

/// What an expansion of variable `t` into `n` children with op `op` needs:
/// the new variable names, node count and depths fit their integer types, and
/// for a leaf each de Bruijn index that moves to a deeper or shallower
/// position stays valid.
pub open spec fn expansion_fits(p: PatternView, t: int, op: SpecOp, n: int) -> bool {
    let d = occurrence_depth(p.nodes);
    let pos = p.vars[t];
    &&& p.vars.len() + n <= u32::MAX
    &&& p.nodes.len() + expansion_growth(p, t, n) <= u32::MAX
    &&& forall|j: int| 0 <= j < n ==> p.var_depth[t] + binder_step(SpecPatternOp::Node(op), j) <= u32::MAX
    &&& n == 0 ==> forall|m: int|
        0 <= m < pos.len() ==> d[#[trigger] pos[m] as int] != p.var_depth[t] ==> shift_in_range(
            op,
            d[pos[m] as int] - p.var_depth[t],
        )
}

/// Slot `j` of row `m` in rows of `n` lies in the rows and names its row
/// and slot back by division and remainder.
pub proof fn lemma_slot(m: int, n: int, j: int, count: int)
    requires
        0 <= m < count,
        0 <= j < n,
    ensures
        0 <= m * n,
        m * n + j < count * n,
        (m * n + j) % n == j,
        (m * n + j) / n == m,
{
    vstd::arithmetic::mul::lemma_mul_nonnegative(m, n);
    vstd::arithmetic::mul::lemma_mul_inequality(m + 1, count, n);
    vstd::arithmetic::mul::lemma_mul_is_distributive_add_other_way(n, m, 1);
    vstd::arithmetic::div_mod::lemma_fundamental_div_mod_converse(m * n + j, n, m, j);
}

proof fn lemma_slot_inverse(x: int, n: int, count: int)
    requires
        0 <= x < count * n,
        0 < n,
    ensures
        0 <= x / n < count,
        0 <= x % n < n,
        x == (x / n) * n + x % n,
{
    vstd::arithmetic::div_mod::lemma_fundamental_div_mod(x, n);
    vstd::arithmetic::div_mod::lemma_mod_bound(x, n);
    vstd::arithmetic::div_mod::lemma_div_pos_is_pos(x, n);
    vstd::arithmetic::mul::lemma_mul_is_commutative(n, x / n);
    if x / n >= count {
        vstd::arithmetic::mul::lemma_mul_inequality(count, x / n, n);
    }
}

proof fn lemma_slot_injective(m1: int, m2: int, n: int, j: int)
    requires
        0 <= j < n,
        0 <= m1,
        0 <= m2,
        m1 * n + j == m2 * n + j,
    ensures
        m1 == m2,
{
    lemma_slot(m1, n, j, m1 + 1);
    lemma_slot(m2, n, j, m2 + 1);
}

/// The size of an expanded pattern, and that the positions of the
/// expanded variable hold it and are listed once.
pub proof fn lemma_expanded_basics(p: PatternView, t: int, op: SpecOp, n: int)
    requires
        p.wf(),
        0 <= t < p.vars.len(),
        0 <= n,
        expansion_fits(p, t, op, n),
    ensures
        expanded(p, t, op, n).nodes.len() == p.nodes.len() + expansion_growth(p, t, n),
        expansion_growth(p, t, n) >= 0,
        forall|m: int|
            0 <= m < p.vars[t].len() ==> var_of(p.nodes[#[trigger] p.vars[t][m] as int]) == Some(t as u32)
                && p.vars[t].index_of(p.vars[t][m]) == m,
        forall|q: int|
            0 <= q < p.nodes.len() && var_of(p.nodes[q]) == Some(t as u32) ==> p.vars[t].contains(
                q as usize,
            ),
{
    let pos = p.vars[t];
    if n > 0 && !same_depth(p, t) {
        vstd::arithmetic::mul::lemma_mul_nonnegative(pos.len() as int, n);
    }
    assert forall|m: int| 0 <= m < pos.len() implies var_of(p.nodes[#[trigger] pos[m] as int]) == Some(
        t as u32,
    ) && pos.index_of(pos[m]) == m by {
        assert(p.nodes[pos[m] as int] == var_leaf(t as u32));
        assert(pos.contains(pos[m]));
    }
}

/// After an expansion, children still come after their parent.
proof fn lemma_expanded_children(p: PatternView, t: int, op: SpecOp, n: int)
    requires
        p.wf(),
        0 <= t < p.vars.len(),
        0 <= n,
        expansion_fits(p, t, op, n),
    ensures
        children_after(expanded(p, t, op, n).nodes),
{
    let r = expanded(p, t, op, n);
    let pos = p.vars[t];
    let base = p.nodes.len() as int;
    let same = same_depth(p, t);
    lemma_expanded_basics(p, t, op, n);
    assert forall|i: int, j: int|
        0 <= i < r.nodes.len() && 0 <= j < r.nodes[i].children.len() implies i
            < #[trigger] r.nodes[i].children[j] < r.nodes.len() by {
        if i < base {
            if var_of(p.nodes[i]) == Some(t as u32) {
                let m = pos.index_of(i as usize);
                assert(pos.contains(i as usize));
                if !same {
                    lemma_slot(m, n, j, pos.len() as int);
                }
            } else {
                assert(r.nodes[i].children == p.nodes[i].children);
                assert(i < p.nodes[i].children[j]);
            }
        }
    }
}

/// After an expansion, each list is non-empty and lists every id once.
proof fn lemma_expanded_lists(p: PatternView, t: int, op: SpecOp, n: int)
    requires
        p.wf(),
        0 <= t < p.vars.len(),
        0 <= n,
        expansion_fits(p, t, op, n),
    ensures
        forall|k: int| 0 <= k < expanded(p, t, op, n).vars.len() ==> (#[trigger] expanded(p, t, op, n).vars[k]).len() > 0 && expanded(p, t, op, n).vars[k].no_duplicates(),
{
    let r = expanded(p, t, op, n);
    let pos = p.vars[t];
    let base = p.nodes.len() as int;
    let same = same_depth(p, t);
    lemma_expanded_basics(p, t, op, n);
    assert forall|k: int| 0 <= k < r.vars.len() implies (#[trigger] r.vars[k]).len() > 0
        && r.vars[k].no_duplicates() by {
        if k < t {
            assert(r.vars[k] == p.vars[k]);
        } else if k < t + n {
            let row = fresh_row(p, t, n, k - t);
            assert(r.vars[k] == row);
            if !same {
                assert(row[0] == row[0]);
                assert forall|x: int, y: int| 0 <= x < row.len() && 0 <= y < row.len() && x != y implies row[x]
                    != row[y] by {
                    lemma_slot(x, n, k - t, pos.len() as int);
                    lemma_slot(y, n, k - t, pos.len() as int);
                    if x * n + (k - t) == y * n + (k - t) {
                        lemma_slot_injective(x, y, n, k - t);
                    }
                }
            }
        } else {
            assert(r.vars[k] == p.vars[k - n + 1]);
        }
    }
}

/// After an expansion, every id in `vars[k]` holds `?#k`.
proof fn lemma_expanded_canonical(p: PatternView, t: int, op: SpecOp, n: int)
    requires
        p.wf(),
        0 <= t < p.vars.len(),
        0 <= n,
        expansion_fits(p, t, op, n),
    ensures
        expanded(p, t, op, n).canonical(),
{
    let r = expanded(p, t, op, n);
    let pos = p.vars[t];
    let base = p.nodes.len() as int;
    let same = same_depth(p, t);
    lemma_expanded_basics(p, t, op, n);
    assert forall|k: int, m: int| 0 <= k < r.vars.len() && 0 <= m < r.vars[k].len() implies {
        &&& 0 <= #[trigger] r.vars[k][m] < r.nodes.len()
        &&& r.nodes[r.vars[k][m] as int] == var_leaf(k as u32)
    } by {
        if k < t {
            let q = p.vars[k][m] as int;
            assert(r.vars[k][m] == q);
            assert(p.nodes[q] == var_leaf(k as u32));
        } else if k < t + n {
            let j = k - t;
            if same {
                assert(r.vars[k][m] == base + j);
                vstd::arithmetic::div_mod::lemma_small_mod(j as nat, n as nat);
            } else {
                lemma_slot(m, n, j, pos.len() as int);
                assert(r.vars[k][m] == base + m * n + j);
            }
        } else {
            let q = p.vars[k - n + 1][m] as int;
            assert(r.vars[k][m] == q);
            assert(p.nodes[q] == var_leaf((k - n + 1) as u32));
        }
    }
}

/// After an expansion, every `?#k` is listed in `vars[k]`.
proof fn lemma_expanded_complete(p: PatternView, t: int, op: SpecOp, n: int)
    requires
        p.wf(),
        0 <= t < p.vars.len(),
        0 <= n,
        expansion_fits(p, t, op, n),
    ensures
        expanded(p, t, op, n).complete(),
{
    let r = expanded(p, t, op, n);
    let pos = p.vars[t];
    let base = p.nodes.len() as int;
    let same = same_depth(p, t);
    lemma_expanded_basics(p, t, op, n);
    assert forall|q: int| 0 <= q < r.nodes.len() && (#[trigger] var_of(r.nodes[q])) is Some implies {
        let k = var_of(r.nodes[q])->0 as int;
        &&& k < r.vars.len()
        &&& r.vars[k].contains(q as usize)
    } by {
        if q >= base {
            let x = q - base;
            if same {
                assert(x < n);
                vstd::arithmetic::div_mod::lemma_small_mod(x as nat, n as nat);
                assert(r.vars[t + x][0] == q as usize);
            } else {
                lemma_slot_inverse(x, n, pos.len() as int);
                let m = x / n;
                let j = x % n;
                lemma_slot(m, n, j, pos.len() as int);
                assert(r.vars[t + j][m] == q as usize);
            }
        } else {
            assert(var_of(p.nodes[q]) != Some(t as u32));
            assert(var_of(p.nodes[q]) is Some);
            let k = var_of(p.nodes[q])->0 as int;
            assert(p.vars[k].contains(q as usize));
            let m = choose|m: int| 0 <= m < p.vars[k].len() && p.vars[k][m] == q as usize;
            if k < t {
                assert(r.vars[k][m] == q as usize);
            } else {
                assert(r.vars[k + n - 1][m] == q as usize);
            }
        }
    }
}

/// What the laws about expansions use: the facts of
/// [`lemma_expanded_basics`], and that positions are the nodes holding `?#t`.
pub proof fn lemma_expanded_facts(p: PatternView, t: int, op: SpecOp, n: int)
    requires
        p.wf(),
        0 <= t < p.vars.len(),
        0 <= n,
        expansion_fits(p, t, op, n),
    ensures
        expanded(p, t, op, n).nodes.len() == p.nodes.len() + expansion_growth(p, t, n),
        expansion_growth(p, t, n) >= 0,
        forall|m: int|
            0 <= m < p.vars[t].len() ==> var_of(p.nodes[#[trigger] p.vars[t][m] as int]) == Some(t as u32)
                && p.vars[t].index_of(p.vars[t][m]) == m && p.vars[t][m] < p.nodes.len(),
        forall|q: int|
            0 <= q < p.nodes.len() ==> (p.vars[t].contains(q as usize) <==> var_of(#[trigger] p.nodes[q])
                == Some(t as u32)),
{
    lemma_expanded_basics(p, t, op, n);
    lemma_positions(p, t);
}

/// In an expansion whose positions share one row, the fresh leaf for slot
/// `j` is referenced once by every position and by nothing else.
pub proof fn lemma_expanded_hits_same(p: PatternView, t: int, op: SpecOp, n: int, j: int, y: int)
    requires
        p.wf(),
        0 <= t < p.vars.len(),
        0 < n,
        expansion_fits(p, t, op, n),
        same_depth(p, t),
        0 <= j < n,
        0 <= y < p.nodes.len() + j,
    ensures
        crate::counts::hits(expanded(p, t, op, n).nodes[y].children, p.nodes.len() + j) == if p.vars[t].contains(
            y as usize,
        ) {
            1int
        } else {
            0int
        },
{
    let r = expanded(p, t, op, n);
    let base = p.nodes.len() as int;
    let x = base + j;
    lemma_expanded_facts(p, t, op, n);
    let ch = r.nodes[y].children;
    if y >= base {
        if p.vars[t].contains(y as usize) {
            let m = choose|m: int| 0 <= m < p.vars[t].len() && p.vars[t][m] == y as usize;
        }
        crate::counts::lemma_hits_zero(ch, x, ch.len() as int);
    } else if var_of(p.nodes[y]) == Some(t as u32) {
        assert(expansion_growth(p, t, n) == n);
        assert(base + n <= u32::MAX);
        assert(ch.len() == n);
        assert forall|s: int| 0 <= s < n implies ch[s] == base + s by {
            assert(ch[s] == (base + s) as usize);
        }
        assert forall|s: int| 0 <= s < n && s != j implies ch[s] != x by {
            assert(ch[s] == base + s);
        }
        assert(ch[j] == x);
        crate::counts::lemma_hits_one(ch, x, j, n);
    } else {
        assert(r.nodes[y] == relabel_node(p.nodes[y], t as u32, n, t as u32));
        assert forall|s: int| 0 <= s < ch.len() implies ch[s] != x by {
            assert(p.nodes[y].children[s] < base);
        }
        crate::counts::lemma_hits_zero(ch, x, ch.len() as int);
    }
}

/// In an expansion whose positions each get their own row, the fresh leaf
/// for slot `j` of the `m`-th position is referenced once by that position
/// and by nothing else.
pub proof fn lemma_expanded_hits_cross(p: PatternView, t: int, op: SpecOp, n: int, m: int, j: int, y: int)
    requires
        p.wf(),
        0 <= t < p.vars.len(),
        0 < n,
        expansion_fits(p, t, op, n),
        !same_depth(p, t),
        0 <= m < p.vars[t].len(),
        0 <= j < n,
        0 <= y < p.nodes.len() + m * n + j,
    ensures
        crate::counts::hits(expanded(p, t, op, n).nodes[y].children, p.nodes.len() + m * n + j) == if y
            == p.vars[t][m] {
            1int
        } else {
            0int
        },
{
    let r = expanded(p, t, op, n);
    let pos = p.vars[t];
    let base = p.nodes.len() as int;
    let x = base + m * n + j;
    lemma_expanded_facts(p, t, op, n);
    lemma_slot(m, n, j, pos.len() as int);
    let ch = r.nodes[y].children;
    assert(pos[m] < base);
    if y >= base {
        crate::counts::lemma_hits_zero(ch, x, ch.len() as int);
    } else if var_of(p.nodes[y]) == Some(t as u32) {
        assert(pos.contains(y as usize));
        let m2 = pos.index_of(y as usize);
        assert(0 <= m2 < pos.len() && pos[m2] == y as usize);
        assert(ch.len() == n);
        assert(expansion_growth(p, t, n) == pos.len() * n);
        assert forall|s: int| 0 <= s < n implies ch[s] == base + m2 * n + s by {
            lemma_slot(m2, n, s, pos.len() as int);
            assert(ch[s] == (base + m2 * n + s) as usize);
        }
        if m2 == m {
            assert forall|s: int| 0 <= s < n && s != j implies ch[s] != x by {
                assert(ch[s] == base + m2 * n + s);
            }
            assert(ch[j] == x);
            crate::counts::lemma_hits_one(ch, x, j, n);
        } else {
            assert(y != pos[m]) by {
                assert(pos.no_duplicates());
            }
            assert forall|s: int| 0 <= s < ch.len() implies ch[s] != x by {
                lemma_slot(m2, n, s, pos.len() as int);
                assert(ch[s] == base + m2 * n + s);
                if m2 * n + s == m * n + j {
                    assert((m2 * n + s) / n == m2);
                    assert((m * n + j) / n == m);
                }
            }
            crate::counts::lemma_hits_zero(ch, x, ch.len() as int);
        }
    } else {
        assert(r.nodes[y] == relabel_node(p.nodes[y], t as u32, n, t as u32));
        assert forall|s: int| 0 <= s < ch.len() implies ch[s] != x by {
            assert(p.nodes[y].children[s] < base);
        }
        crate::counts::lemma_hits_zero(ch, x, ch.len() as int);
    }
}

/// Expanding a variable of a well-formed pattern, within the limits of
/// [`expansion_fits`], gives a well-formed pattern: the canonical form
/// survives an expansion.
pub proof fn lemma_expanded_wf(p: PatternView, t: int, op: SpecOp, n: int)
    requires
        p.wf(),
        0 <= t < p.vars.len(),
        0 <= n,
        expansion_fits(p, t, op, n),
    ensures
        expanded(p, t, op, n).wf(),
{
    lemma_expanded_basics(p, t, op, n);
    lemma_expanded_children(p, t, op, n);
    lemma_expanded_lists(p, t, op, n);
    lemma_expanded_canonical(p, t, op, n);
    lemma_expanded_complete(p, t, op, n);
}

/// Overwrites the node at every position with a leaf: `op` with its de
/// Bruijn index shifted by the position's depth below `pd`.
fn write_leaves(
    nodes: &mut Vec<PatternNode>,
    positions: &Vec<usize>,
    depths: &Vec<u32>,
    pd: u32,
    op: &Op,
)
    requires
        depths.len() == old(nodes).len(),
        forall|m: int| 0 <= m < positions.len() ==> #[trigger] positions@[m] < old(nodes).len(),
        forall|m: int|
            0 <= m < positions.len() ==> depths@[#[trigger] positions@[m] as int] != pd ==> shift_in_range(
                op@,
                depths@[positions@[m] as int] - pd,
            ),
    ensures
        final(nodes).len() == old(nodes).len(),
        forall|q: int|
            0 <= q < old(nodes).len() ==> #[trigger] final(nodes)@[q]@ == if positions@.contains(
                q as usize,
            ) {
                SpecNode {
                    op: SpecPatternOp::Node(shifted_op(op@, depths@[q] - pd)),
                    children: Seq::empty(),
                }
            } else {
                old(nodes)@[q]@
            },
{
    let mut m: usize = 0;
    while m < positions.len()
        invariant
            depths.len() == nodes.len(),
            nodes.len() == old(nodes).len(),
            m <= positions.len(),
            forall|i: int| 0 <= i < positions.len() ==> #[trigger] positions@[i] < old(nodes).len(),
            forall|i: int|
                0 <= i < positions.len() ==> depths@[#[trigger] positions@[i] as int] != pd ==> shift_in_range(
                    op@,
                    depths@[positions@[i] as int] - pd,
                ),
            forall|q: int|
                0 <= q < old(nodes).len() ==> #[trigger] nodes@[q]@ == if positions@.subrange(
                    0,
                    m as int,
                ).contains(q as usize) {
                    SpecNode {
                        op: SpecPatternOp::Node(shifted_op(op@, depths@[q] - pd)),
                        children: Seq::empty(),
                    }
                } else {
                    old(nodes)@[q]@
                },
        decreases positions.len() - m,
    {
        let var_id = positions[m];
        let delta: i64 = depths[var_id] as i64 - pd as i64;
        let disc = shift_db_disc(op.duplicate(), delta);
        let leaf = PatternNode { op: PatternOp::Node(disc), children: Vec::new() };
        assert(leaf@.children =~= Seq::<usize>::empty());
        let ghost prev = nodes@;
        nodes.set(var_id, leaf);
        assert forall|q: int| 0 <= q < old(nodes).len() implies #[trigger] nodes@[q]@ == if positions@.subrange(
            0,
            m + 1,
        ).contains(q as usize) {
            SpecNode {
                op: SpecPatternOp::Node(shifted_op(op@, depths@[q] - pd)),
                children: Seq::empty(),
            }
        } else {
            old(nodes)@[q]@
        } by {
            let pre = positions@.subrange(0, m as int);
            let post = positions@.subrange(0, m + 1);
            assert(post == pre.push(var_id));
            assert(post[m as int] == var_id);
            if q != var_id {
                assert(nodes@[q] == prev[q]);
            }
            if pre.contains(q as usize) {
                let i = choose|i: int| 0 <= i < pre.len() && pre[i] == q as usize;
                assert(post[i] == q as usize);
            }
            if post.contains(q as usize) && q != var_id {
                let i = choose|i: int| 0 <= i < post.len() && post[i] == q as usize;
                assert(pre[i] == q as usize);
            }
        }
        m = m + 1;
    }
    assert(positions@.subrange(0, m as int) =~= positions@);
}

/// Whether every position sits at the depth of the first.
fn all_same_depth(positions: &Vec<usize>, depths: &Vec<u32>) -> (r: bool)
    requires
        positions.len() > 0,
        forall|m: int| 0 <= m < positions.len() ==> #[trigger] positions@[m] < depths.len(),
    ensures
        r == forall|m: int|
            0 <= m < positions.len() ==> depths@[#[trigger] positions@[m] as int]
                == depths@[positions@[0] as int],
{
    let first = depths[positions[0]];
    let mut m: usize = 1;
    while m < positions.len()
        invariant
            1 <= m <= positions.len(),
            forall|i: int| 0 <= i < positions.len() ==> #[trigger] positions@[i] < depths.len(),
            first == depths@[positions@[0] as int],
            forall|i: int| 0 <= i < m ==> depths@[#[trigger] positions@[i] as int] == first,
        decreases positions.len() - m,
    {
        if depths[positions[m]] != first {
            return false;
        }
        m = m + 1;
    }
    true
}

/// Overwrites the node at every position with one node: `op` over `kids`.
fn write_shared(nodes: &mut Vec<PatternNode>, positions: &Vec<usize>, op: &Op, kids: &Vec<usize>)
    requires
        forall|m: int| 0 <= m < positions.len() ==> #[trigger] positions@[m] < old(nodes).len(),
    ensures
        final(nodes).len() == old(nodes).len(),
        forall|q: int|
            0 <= q < old(nodes).len() ==> #[trigger] final(nodes)@[q]@ == if positions@.contains(
                q as usize,
            ) {
                SpecNode { op: SpecPatternOp::Node(op@), children: kids@ }
            } else {
                old(nodes)@[q]@
            },
{
    let mut m: usize = 0;
    while m < positions.len()
        invariant
            nodes.len() == old(nodes).len(),
            m <= positions.len(),
            forall|i: int| 0 <= i < positions.len() ==> #[trigger] positions@[i] < old(nodes).len(),
            forall|q: int|
                0 <= q < old(nodes).len() ==> #[trigger] nodes@[q]@ == if positions@.subrange(
                    0,
                    m as int,
                ).contains(q as usize) {
                    SpecNode { op: SpecPatternOp::Node(op@), children: kids@ }
                } else {
                    old(nodes)@[q]@
                },
        decreases positions.len() - m,
    {
        let var_id = positions[m];
        let node = PatternNode { op: PatternOp::Node(op.duplicate()), children: crate::lang::copy_ids(kids) };
        let ghost prev = nodes@;
        nodes.set(var_id, node);
        assert forall|q: int| 0 <= q < old(nodes).len() implies #[trigger] nodes@[q]@ == if positions@.subrange(
            0,
            m + 1,
        ).contains(q as usize) {
            SpecNode { op: SpecPatternOp::Node(op@), children: kids@ }
        } else {
            old(nodes)@[q]@
        } by {
            let pre = positions@.subrange(0, m as int);
            let post = positions@.subrange(0, m + 1);
            assert(post == pre.push(var_id));
            assert(post[m as int] == var_id);
            if q != var_id {
                assert(nodes@[q] == prev[q]);
            }
            if pre.contains(q as usize) {
                let i = choose|i: int| 0 <= i < pre.len() && pre[i] == q as usize;
                assert(post[i] == q as usize);
            }
            if post.contains(q as usize) && q != var_id {
                let i = choose|i: int| 0 <= i < post.len() && post[i] == q as usize;
                assert(pre[i] == q as usize);
            }
        }
        m = m + 1;
    }
    assert(positions@.subrange(0, m as int) =~= positions@);
}

/// Appends `kids[j]` to `rows[j]` for every `j`.
fn push_each(rows: &mut Vec<Vec<usize>>, kids: &Vec<usize>)
    requires
        old(rows).len() == kids.len(),
    ensures
        lists_view(final(rows)@) == Seq::new(
            kids.len() as nat,
            |j: int| lists_view(old(rows)@)[j].push(kids@[j]),
        ),
{
    let mut j: usize = 0;
    while j < kids.len()
        invariant
            rows.len() == kids.len(),
            j <= kids.len(),
            forall|i: int|
                0 <= i < kids.len() ==> #[trigger] rows@[i]@ == if i < j {
                    old(rows)@[i]@.push(kids@[i])
                } else {
                    old(rows)@[i]@
                },
        decreases kids.len() - j,
    {
        let mut row: Vec<usize> = Vec::new();
        rows.set_and_swap(j, &mut row);
        row.push(kids[j]);
        rows.set(j, row);
        j = j + 1;
    }
    assert(lists_view(rows@) =~= Seq::new(
        kids.len() as nat,
        |j: int| lists_view(old(rows)@)[j].push(kids@[j]),
    ));
}

/// The de Bruijn index carried by a leaf op shifted by `delta`; other ops
/// unchanged.
pub fn shift_db_disc(disc: Op, delta: i64) -> (r: Op)
    requires
        delta != 0 ==> shift_in_range(disc@, delta as int),
    ensures
        r@ == shifted_op(disc@, delta as int),
{
    if delta == 0 {
        return disc;
    }
    match disc.de_bruijn_index() {
        Some(i) => {
            let j: i64 = i as i64 + delta;
            match Op::make_db_var(j as i32) {
                Some(o) => o,
                None => disc,
            }
        },
        None => disc,
    }
}

/// One single-id row per id.
fn singleton_rows(ids: &Vec<usize>) -> (rows: Vec<Vec<usize>>)
    ensures
        lists_view(rows@) == Seq::new(ids.len() as nat, |j: int| seq![ids@[j]]),
{
    let mut rows: Vec<Vec<usize>> = Vec::new();
    let mut j: usize = 0;
    while j < ids.len()
        invariant
            j <= ids.len(),
            lists_view(rows@) == Seq::new(j as nat, |i: int| seq![ids@[i]]),
        decreases ids.len() - j,
    {
        let mut row: Vec<usize> = Vec::new();
        row.push(ids[j]);
        assert(row@ =~= seq![ids@[j as int]]);
        let ghost prev = rows@;
        rows.push(row);
        assert(lists_view(rows@) =~= lists_view(prev).push(seq![ids@[j as int]]));
        assert(lists_view(rows@) =~= Seq::new((j + 1) as nat, |i: int| seq![ids@[i]]));
        j = j + 1;
    }
    rows
}

/// The positions of variable `t` are exactly the nodes that hold `?#t`.
pub proof fn lemma_positions(p: PatternView, t: int)
    requires
        p.wf(),
        0 <= t < p.vars.len(),
    ensures
        forall|q: int|
            0 <= q < p.nodes.len() ==> (p.vars[t].contains(q as usize) <==> var_of(#[trigger] p.nodes[q])
                == Some(t as u32)),
        forall|q: int|
            0 <= q < p.nodes.len() ==> match var_of(#[trigger] p.nodes[q]) {
                Some(k) => k < p.vars.len(),
                None => true,
            },
{
    assert forall|q: int| 0 <= q < p.nodes.len() implies (p.vars[t].contains(q as usize) <==> var_of(
        #[trigger] p.nodes[q],
    ) == Some(t as u32)) by {
        if p.vars[t].contains(q as usize) {
            let m = choose|m: int| 0 <= m < p.vars[t].len() && p.vars[t][m] == q as usize;
            assert(p.nodes[p.vars[t][m] as int] == var_leaf(t as u32));
        }
        if var_of(p.nodes[q]) == Some(t as u32) {
            assert(var_of(p.nodes[q]) is Some);
        }
    }
    assert forall|q: int| 0 <= q < p.nodes.len() implies match var_of(#[trigger] p.nodes[q]) {
        Some(k) => k < p.vars.len(),
        None => true,
    } by {
        if var_of(p.nodes[q]) is Some {
        }
    }
}

/// Where a node of an extraction of `n` nodes lands when its non-root
/// nodes are appended to a pattern at `base`, last first: id `c` becomes
/// `base + n - 2 - c`.
pub open spec fn spliced_id(c: usize, base: int, n: int) -> usize {
    (base + n - 2 - c) as usize
}

/// A node of an extraction with its children moved by [`spliced_id`].
pub open spec fn spliced_node(nd: SpecNode, base: int, n: int) -> SpecNode {
    SpecNode { op: nd.op, children: nd.children.map_values(|c: usize| spliced_id(c, base, n)) }
}

/// The nodes `base ..` hold the non-root nodes of the extraction `ext`,
/// last first, each moved by [`spliced_id`].
pub open spec fn region_holds(nodes: Seq<SpecNode>, ext: Seq<SpecNode>, base: int) -> bool {
    let n = ext.len() as int;
    &&& 0 <= base
    &&& base + n - 1 <= nodes.len()
    &&& forall|i: int| 0 <= i < n - 1 ==> nodes[base + n - 2 - i] == #[trigger] spliced_node(ext[i], base, n)
}

/// A spliced region denotes the same trees as the extraction it came from.
proof fn lemma_region_tree(nodes: Seq<SpecNode>, ext: Seq<SpecNode>, base: int, i: int)
    requires
        children_before(ext),
        ext.len() >= 1,
        nodes.len() <= usize::MAX,
        region_holds(nodes, ext, base),
        0 <= i < ext.len() - 1,
    ensures
        tree_after(nodes, base + ext.len() - 2 - i) == tree_before(ext, i),
    decreases i,
{
    let n = ext.len() as int;
    let pos = base + n - 2 - i;
    let node = nodes[pos];
    assert(node == spliced_node(ext[i], base, n));
    let k = ext[i].children.len() as int;
    assert forall|s: int| 0 <= s < k implies pos < #[trigger] node.children[s] < nodes.len() by {
        assert(ext[i].children[s] < i);
    }
    lemma_tree_after_kids_at(nodes, pos, k);
    lemma_tree_before_kids(ext, i, k);
    assert forall|s: int| 0 <= s < k implies tree_after(nodes, node.children[s] as int) == tree_before(
        ext,
        ext[i].children[s] as int,
    ) by {
        let c = ext[i].children[s] as int;
        assert(c < i);
        assert(node.children[s] == base + n - 2 - c);
        lemma_region_tree(nodes, ext, base, c);
    }
    assert(tree_after(nodes, pos).kids =~= tree_before(ext, i).kids);
}

/// The spliced root, written at `at` before the region, denotes the
/// extraction's tree.
proof fn lemma_root_tree(nodes: Seq<SpecNode>, ext: Seq<SpecNode>, base: int, at: int)
    requires
        children_before(ext),
        ext.len() >= 1,
        nodes.len() <= usize::MAX,
        region_holds(nodes, ext, base),
        0 <= at < base,
        nodes[at] == spliced_node(ext[ext.len() - 1], base, ext.len() as int),
    ensures
        tree_after(nodes, at) == tree_before(ext, ext.len() - 1),
{
    let n = ext.len() as int;
    let node = nodes[at];
    let k = ext[n - 1].children.len() as int;
    assert forall|s: int| 0 <= s < k implies at < #[trigger] node.children[s] < nodes.len() by {
        assert(ext[n - 1].children[s] < n - 1);
    }
    lemma_tree_after_kids_at(nodes, at, k);
    lemma_tree_before_kids(ext, n - 1, k);
    assert forall|s: int| 0 <= s < k implies tree_after(nodes, node.children[s] as int) == tree_before(
        ext,
        ext[n - 1].children[s] as int,
    ) by {
        let c = ext[n - 1].children[s] as int;
        assert(c < n - 1);
        lemma_region_tree(nodes, ext, base, c);
    }
    assert(tree_after(nodes, at).kids =~= tree_before(ext, n - 1).kids);
}

/// A copy of a node with every child id `c` replaced by `top - c`.
fn remap_children(node: &PatternNode, top: usize) -> (r: PatternNode)
    requires
        forall|s: int| 0 <= s < node.children.len() ==> #[trigger] node.children@[s] <= top,
    ensures
        r@ == (SpecNode {
            op: node@.op,
            children: node@.children.map_values(|c: usize| (top - c) as usize),
        }),
{
    let mut kids: Vec<usize> = Vec::new();
    let mut j: usize = 0;
    while j < node.children.len()
        invariant
            j <= node.children.len(),
            forall|s: int| 0 <= s < node.children.len() ==> #[trigger] node.children@[s] <= top,
            kids@ == node.children@.subrange(0, j as int).map_values(|c: usize| (top - c) as usize),
        decreases node.children.len() - j,
    {
        kids.push(top - node.children[j]);
        assert(kids@ =~= node.children@.subrange(0, j + 1).map_values(|c: usize| (top - c) as usize));
        j = j + 1;
    }
    assert(node.children@.subrange(0, j as int) =~= node.children@);
    PatternNode { op: node.op.duplicate(), children: kids }
}

/// Overwrites the node at every position with a copy of `node`.
fn write_node_all(nodes: &mut Vec<PatternNode>, positions: &Vec<usize>, node: &PatternNode)
    requires
        forall|m: int| 0 <= m < positions.len() ==> #[trigger] positions@[m] < old(nodes).len(),
    ensures
        final(nodes).len() == old(nodes).len(),
        forall|q: int|
            0 <= q < old(nodes).len() ==> #[trigger] final(nodes)@[q]@ == if positions@.contains(
                q as usize,
            ) {
                node@
            } else {
                old(nodes)@[q]@
            },
{
    let mut m: usize = 0;
    while m < positions.len()
        invariant
            nodes.len() == old(nodes).len(),
            m <= positions.len(),
            forall|i: int| 0 <= i < positions.len() ==> #[trigger] positions@[i] < old(nodes).len(),
            forall|q: int|
                0 <= q < old(nodes).len() ==> #[trigger] nodes@[q]@ == if positions@.subrange(
                    0,
                    m as int,
                ).contains(q as usize) {
                    node@
                } else {
                    old(nodes)@[q]@
                },
        decreases positions.len() - m,
    {
        let var_id = positions[m];
        let copy = node.duplicate();
        let ghost prev = nodes@;
        nodes.set(var_id, copy);
        assert forall|q: int| 0 <= q < old(nodes).len() implies #[trigger] nodes@[q]@ == if positions@.subrange(
            0,
            m + 1,
        ).contains(q as usize) {
            node@
        } else {
            old(nodes)@[q]@
        } by {
            let pre = positions@.subrange(0, m as int);
            let post = positions@.subrange(0, m + 1);
            assert(post == pre.push(var_id));
            assert(post[m as int] == var_id);
            if q != var_id {
                assert(nodes@[q] == prev[q]);
            }
            if pre.contains(q as usize) {
                let i = choose|i: int| 0 <= i < pre.len() && pre[i] == q as usize;
                assert(post[i] == q as usize);
            }
            if post.contains(q as usize) && q != var_id {
                let i = choose|i: int| 0 <= i < post.len() && post[i] == q as usize;
                assert(pre[i] == q as usize);
            }
        }
        m = m + 1;
    }
    assert(positions@.subrange(0, m as int) =~= positions@);
}

/// The children of the node at `q` come after it and are in range.
pub open spec fn children_after_at(nodes: Seq<SpecNode>, q: int) -> bool {
    forall|s: int| 0 <= s < nodes[q].children.len() ==> q < #[trigger] nodes[q].children[s] < nodes.len()
}

/// A pattern whose variable `t` has been replaced by concrete nodes is well
/// formed: it keeps the other variables' lists, renames their leaves down
/// past `t`, and everything written in place of `t` or appended holds no
/// variable and keeps children after parents.
proof fn lemma_concretized_wf(p: PatternView, t: int, r: PatternView)
    requires
        p.wf(),
        0 <= t < p.vars.len(),
        r.vars == p.vars.remove(t),
        r.var_depth == p.var_depth.remove(t),
        r.var_occurrences == p.var_occurrences.remove(t),
        r.var_reusable == p.var_reusable.remove(t),
        p.nodes.len() <= r.nodes.len() <= usize::MAX,
        forall|q: int|
            0 <= q < p.nodes.len() && var_of(p.nodes[q]) != Some(t as u32) ==> #[trigger] r.nodes[q]
                == relabel_node(p.nodes[q], t as u32, 0, t as u32),
        forall|q: int|
            0 <= q < r.nodes.len() && (q >= p.nodes.len() || var_of(p.nodes[q]) == Some(t as u32))
                ==> var_of(#[trigger] r.nodes[q]) is None && children_after_at(r.nodes, q),
    ensures
        r.wf(),
{
    lemma_positions(p, t);
    assert forall|i: int, j: int|
        0 <= i < r.nodes.len() && 0 <= j < r.nodes[i].children.len() implies i
            < #[trigger] r.nodes[i].children[j] < r.nodes.len() by {
        if i < p.nodes.len() && var_of(p.nodes[i]) != Some(t as u32) {
            assert(r.nodes[i] == relabel_node(p.nodes[i], t as u32, 0, t as u32));
            assert(i < p.nodes[i].children[j]);
        } else {
            assert(children_after_at(r.nodes, i));
        }
    }
    assert forall|k: int| 0 <= k < r.vars.len() implies (#[trigger] r.vars[k]).len() > 0
        && r.vars[k].no_duplicates() by {
        if k < t {
            assert(r.vars[k] == p.vars[k]);
        } else {
            assert(r.vars[k] == p.vars[k + 1]);
        }
    }
    assert forall|k: int, m: int| 0 <= k < r.vars.len() && 0 <= m < r.vars[k].len() implies {
        &&& 0 <= #[trigger] r.vars[k][m] < r.nodes.len()
        &&& r.nodes[r.vars[k][m] as int] == var_leaf(k as u32)
    } by {
        let k0 = if k < t {
            k
        } else {
            k + 1
        };
        assert(r.vars[k] == p.vars[k0]);
        let q = p.vars[k0][m] as int;
        assert(p.nodes[q] == var_leaf(k0 as u32));
        assert(r.nodes[q] == relabel_node(p.nodes[q], t as u32, 0, t as u32));
    }
    assert forall|q: int| 0 <= q < r.nodes.len() && (#[trigger] var_of(r.nodes[q])) is Some implies {
        let k = var_of(r.nodes[q])->0 as int;
        &&& k < r.vars.len()
        &&& r.vars[k].contains(q as usize)
    } by {
        if q < p.nodes.len() && var_of(p.nodes[q]) != Some(t as u32) {
            assert(r.nodes[q] == relabel_node(p.nodes[q], t as u32, 0, t as u32));
            assert(var_of(p.nodes[q]) is Some);
            let k = var_of(p.nodes[q])->0 as int;
            assert(p.vars[k].contains(q as usize));
            let m = choose|m: int| 0 <= m < p.vars[k].len() && p.vars[k][m] == q as usize;
            if k < t {
                assert(r.vars[k][m] == q as usize);
            } else {
                assert(r.vars[k - 1][m] == q as usize);
            }
        }
    }
}

/// A spliced region stays in place when nodes outside it change or more
/// are appended.
proof fn lemma_region_frame(old_nodes: Seq<SpecNode>, new_nodes: Seq<SpecNode>, ext: Seq<SpecNode>, base: int)
    requires
        region_holds(old_nodes, ext, base),
        new_nodes.len() >= old_nodes.len(),
        forall|x: int| base <= x < base + ext.len() - 1 ==> #[trigger] new_nodes[x] == old_nodes[x],
    ensures
        region_holds(new_nodes, ext, base),
{
    let n = ext.len() as int;
    assert forall|i: int| 0 <= i < n - 1 implies new_nodes[base + n - 2 - i] == #[trigger] spliced_node(
        ext[i],
        base,
        n,
    ) by {
        assert(new_nodes[base + n - 2 - i] == old_nodes[base + n - 2 - i]);
    }
}

/// The nodes of a spliced region, and a spliced root written before it,
/// hold no variable and keep their children after them.
proof fn lemma_region_facts(nodes: Seq<SpecNode>, ext: Seq<SpecNode>, base: int)
    requires
        region_holds(nodes, ext, base),
        children_before(ext),
        crate::shift::no_var_nodes(ext),
        ext.len() >= 1,
        nodes.len() <= usize::MAX,
    ensures
        forall|x: int|
            base <= x < base + ext.len() - 1 ==> var_of(#[trigger] nodes[x]) is None && children_after_at(
                nodes,
                x,
            ),
        forall|at: int|
            0 <= at < base && nodes[at] == spliced_node(ext[ext.len() - 1], base, ext.len() as int)
                ==> var_of(#[trigger] nodes[at]) is None && children_after_at(nodes, at) && forall|s: int|
                0 <= s < nodes[at].children.len() ==> nodes[at].children[s] >= base,
{
    let n = ext.len() as int;
    assert forall|x: int| base <= x < base + n - 1 implies var_of(#[trigger] nodes[x]) is None
        && children_after_at(nodes, x) by {
        let i = base + n - 2 - x;
        assert(nodes[base + n - 2 - i] == spliced_node(ext[i], base, n));
        assert(!(ext[i].op is Var));
        assert forall|s: int| 0 <= s < nodes[x].children.len() implies x < #[trigger] nodes[x].children[s]
            < nodes.len() by {
            assert(ext[i].children[s] < i);
        }
    }
    assert forall|at: int|
        0 <= at < base && nodes[at] == spliced_node(ext[n - 1], base, n) implies var_of(
        #[trigger] nodes[at],
    ) is None && children_after_at(nodes, at) && forall|s: int|
        0 <= s < nodes[at].children.len() ==> nodes[at].children[s] >= base by {
        assert forall|s: int| 0 <= s < nodes[at].children.len() implies nodes[at].children[s] >= base by {
            assert(ext[n - 1].children[s] < n - 1);
        }
        assert(!(ext[n - 1].op is Var));
        assert forall|s: int| 0 <= s < nodes[at].children.len() implies at < #[trigger] nodes[at].children[s]
            < nodes.len() by {
            assert(ext[n - 1].children[s] < n - 1);
        }
    }
}

/// The nodes `lo .. hi` reference only nodes among themselves.
pub open spec fn region_closed(nodes: Seq<SpecNode>, lo: int, hi: int) -> bool {
    forall|x: int, s: int|
        lo <= x < hi && 0 <= s < nodes[x].children.len() ==> lo <= #[trigger] nodes[x].children[s] < hi
}

/// Every child of node `q` lies among the nodes `lo .. hi`.
pub open spec fn kids_within(nodes: Seq<SpecNode>, q: int, lo: int, hi: int) -> bool {
    forall|s: int| 0 <= s < nodes[q].children.len() ==> lo <= #[trigger] nodes[q].children[s] < hi
}

/// Each position `pos[m]` has its own copy: its children lie in the closed
/// region `lo[m] .. hi[m]` of appended nodes, and the regions of different
/// positions follow one another without overlap.
pub open spec fn copies_apart(nodes: Seq<SpecNode>, pos: Seq<usize>, base: int, lo: Seq<int>, hi: Seq<int>) -> bool {
    &&& lo.len() == pos.len()
    &&& hi.len() == pos.len()
    &&& forall|m: int|
        0 <= m < pos.len() ==> {
            &&& base <= #[trigger] lo[m] <= hi[m] <= nodes.len()
            &&& region_closed(nodes, lo[m], hi[m])
            &&& kids_within(nodes, pos[m] as int, lo[m], hi[m])
        }
    &&& forall|m1: int, m2: int| 0 <= m1 < m2 < pos.len() ==> #[trigger] hi[m1] <= #[trigger] lo[m2]
}

/// A spliced region is closed, and the spliced root references only it.
proof fn lemma_region_closed(nodes: Seq<SpecNode>, ext: Seq<SpecNode>, base: int, at: int)
    requires
        region_holds(nodes, ext, base),
        children_before(ext),
        ext.len() >= 1,
        nodes.len() <= usize::MAX,
        0 <= at < nodes.len(),
        nodes[at] == spliced_node(ext[ext.len() - 1], base, ext.len() as int),
    ensures
        region_closed(nodes, base, base + ext.len() - 1),
        kids_within(nodes, at, base, base + ext.len() - 1),
{
    let n = ext.len() as int;
    assert forall|x: int, s: int| base <= x < base + n - 1 && 0 <= s < nodes[x].children.len() implies base
        <= #[trigger] nodes[x].children[s] < base + n - 1 by {
        let i = base + n - 2 - x;
        assert(nodes[base + n - 2 - i] == spliced_node(ext[i], base, n));
        let c = ext[i].children[s];
        assert(0 <= c < i);
        assert(nodes[x].children[s] == spliced_id(c, base, n));
        assert(nodes[x].children[s] == base + n - 2 - c);
    }
    assert forall|s: int| 0 <= s < nodes[at].children.len() implies base <= #[trigger] nodes[at].children[s]
        < base + n - 1 by {
        let c = ext[n - 1].children[s];
        assert(0 <= c < n - 1);
        assert(nodes[at].children[s] == spliced_id(c, base, n));
        assert(nodes[at].children[s] == base + n - 2 - c);
    }
}

/// The tree that ends up at the `m`-th position of variable `t` when it is
/// replaced by the tree `ext_tree`: the tree itself when all positions sit
/// at one depth, else the tree with its free indices shifted by the
/// position's depth below the variable's.
pub open spec fn concretized_tree(p: PatternView, t: int, ext_tree: Tree, m: int) -> Tree {
    if same_depth(p, t) {
        ext_tree
    } else {
        shift_tree(
            ext_tree,
            0,
            occurrence_depth(p.nodes)[p.vars[t][m] as int] - p.var_depth[t],
        )
    }
}

/// Appends the ids of `b` to `a`.
fn append_ids(a: &mut Vec<usize>, b: &Vec<usize>)
    ensures
        final(a)@ == old(a)@ + b@,
{
    let mut i: usize = 0;
    while i < b.len()
        invariant
            i <= b.len(),
            a@ == old(a)@ + b@.subrange(0, i as int),
        decreases b.len() - i,
    {
        a.push(b[i]);
        assert(a@ =~= old(a)@ + b@.subrange(0, i + 1));
        i = i + 1;
    }
    assert(b@.subrange(0, i as int) =~= b@);
}

/// Sets the first `upto` flags to false.
fn clear_prefix(v: &mut Vec<bool>, upto: usize)
    requires
        upto <= old(v).len(),
    ensures
        final(v)@ == Seq::new(old(v)@.len(), |k: int| if k < upto { false } else { old(v)@[k] }),
{
    let mut i: usize = 0;
    while i < upto
        invariant
            upto <= v.len(),
            v.len() == old(v).len(),
            i <= upto,
            forall|k: int|
                0 <= k < v.len() ==> #[trigger] v@[k] == if k < i {
                    false
                } else {
                    old(v)@[k]
                },
        decreases upto - i,
    {
        v.set(i, false);
        i = i + 1;
    }
    assert(v@ =~= Seq::new(old(v)@.len(), |k: int| if k < upto { false } else { old(v)@[k] }));
}

impl Pattern {
    /// The initial pattern `?#0`: one variable at depth 0, met once,
    /// reusable.
    pub fn single_var() -> (p: Self)
        ensures
            p@.wf(),
            p@.nodes == seq![var_leaf(0)],
            p@.vars == seq![seq![0usize]],
            p@.var_depth == seq![0u32],
            p@.var_occurrences == seq![1usize],
            p@.var_reusable == seq![true],
            p@.occurrences_exact(),
            p@.depths_exact(),
            p@.depths_consistent(),
            p@.names_canonical(),
    {
        let mut nodes: Vec<PatternNode> = Vec::new();
        nodes.push(PatternNode::var_node(0));
        let mut first: Vec<usize> = Vec::new();
        first.push(0);
        let mut vars: Vec<Vec<usize>> = Vec::new();
        vars.push(first);
        let mut var_depth: Vec<u32> = Vec::new();
        var_depth.push(0);
        let mut var_occurrences: Vec<usize> = Vec::new();
        var_occurrences.push(1);
        let mut var_reusable: Vec<bool> = Vec::new();
        var_reusable.push(true);
        let p = Pattern {
            pattern: RevExpr::new(nodes),
            vars,
            var_depth,
            var_occurrences,
            var_reusable,
        };
        assert(p@.nodes =~= seq![var_leaf(0)]);
        assert(p@.vars =~= seq![seq![0usize]]);
        assert(p@.vars[0] =~= seq![0usize]);
        assert(p@.var_depth =~= seq![0u32]);
        assert(p@.var_occurrences =~= seq![1usize]);
        assert(p@.var_reusable =~= seq![true]);
        assert(p@.nodes[0].children.len() == 0);
        assert(p@.vars[0][0] == 0usize);
        assert(p@.vars[0].contains(0usize));
        proof {
            crate::laws::lemma_single_var_occurrences(p@);
            crate::depths::lemma_single_var_depths(p@);
            crate::canon::lemma_single_var_names(p@);
        }
        p
    }

    /// The pattern as an s-expression, variables written `?#k`.
    pub fn to_string(&self) -> (s: String)
        requires
            1 <= self@.nodes.len(),
            children_after(self@.nodes),
        ensures
            s@ == render_after(self@.nodes, 0),
    {
        let mut out = String::new();
        push_render_after(&mut out, &self.pattern.nodes, 0);
        out
    }

    /// The binder depth of every node.
    fn occurrence_depths(&self) -> (depth: Vec<u32>)
        requires
            self@.wf(),
            self@.nodes.len() <= u32::MAX,
        ensures
            as_ints(depth@) == occurrence_depth(self@.nodes),
    {
        let nodes = &self.pattern.nodes;
        let ghost v = self@.nodes;
        let len = nodes.len();
        let mut depth: Vec<u32> = Vec::new();
        let mut i: usize = 0;
        while i < len
            invariant
                len == nodes.len(),
                i <= len,
                depth@.len() == i,
                forall|x: int| 0 <= x < i ==> depth@[x] == 0,
            decreases len - i,
        {
            depth.push(0);
            i = i + 1;
        }
        assert(as_ints(depth@) =~= depths_upto(v, 0));
        let mut i: usize = 0;
        while i < len
            invariant
                len == nodes.len(),
                v == nodes_view(nodes@),
                children_after(v),
                len <= u32::MAX,
                i <= len,
                as_ints(depth@) == depths_upto(v, i as int),
            decreases len - i,
        {
            proof {
                lemma_depths_upto(v, i as int);
            }
            let ghost d0 = depths_upto(v, i as int);
            let d = depth[i];
            let node = &nodes[i];
            assert(node@ == v[i as int]);
            let k = node.children.len();
            let mut j: usize = 0;
            while j < k
                invariant
                    len == nodes.len(),
                    v == nodes_view(nodes@),
                    children_after(v),
                    len <= u32::MAX,
                    i < len,
                    node@ == v[i as int],
                    k == node.children.len(),
                    j <= k,
                    d as int == d0[i as int],
                    d0 == depths_upto(v, i as int),
                    d0.len() == len,
                    forall|x: int| 0 <= x < len ==> 0 <= #[trigger] d0[x] <= x,
                    as_ints(depth@) == depth_step(d0, v[i as int], d as int, j as int),
                decreases k - j,
            {
                let c = node.children[j];
                assert(v[i as int].children[j as int] == c);
                let b: u32 = if node.op.binds_child(j) {
                    1
                } else {
                    0
                };
                proof {
                    lemma_depth_step(d0, v[i as int], d as int, j as int, i as int);
                }
                depth.set(c, d + b);
                assert(as_ints(depth@) =~= depth_step(d0, v[i as int], d as int, j + 1));
                j = j + 1;
            }
            i = i + 1;
        }
        depth
    }

    /// Unifies two variables. The lower-indexed one is kept; every position
    /// of the higher one is renamed to it, and the variables after the
    /// higher one move down by one. The arguments may come in either order.
    pub fn reuse(&mut self, var_idx: usize, second_var_idx: usize)
        requires
            old(self)@.wf(),
            var_idx < old(self).vars.len(),
            second_var_idx < old(self).vars.len(),
            var_idx != second_var_idx,
            old(self).var_occurrences@[var_idx as int] + old(self).var_occurrences@[second_var_idx as int]
                <= usize::MAX,
        ensures
            final(self)@ == reused(old(self)@, var_idx as int, second_var_idx as int),
            final(self)@.wf(),
            old(self)@.occurrences_exact() ==> final(self)@.occurrences_exact(),
            old(self)@.depths_exact() ==> final(self)@.depths_exact(),
            old(self)@.depths_consistent() ==> final(self)@.depths_consistent(),
            old(self)@.names_canonical() ==> final(self)@.names_canonical(),
    {
        let ghost p = self@;
        let (keep_idx, drop_idx) = if var_idx < second_var_idx {
            (var_idx, second_var_idx)
        } else {
            (second_var_idx, var_idx)
        };
        let merged_depth = if self.var_depth[keep_idx] <= self.var_depth[drop_idx] {
            self.var_depth[keep_idx]
        } else {
            self.var_depth[drop_idx]
        };
        relabel_vars(&mut self.pattern.nodes, drop_idx as u32, 0, keep_idx as u32);
        let drop_ids = self.vars.remove(drop_idx);
        let mut keep_ids = crate::lang::copy_ids(&self.vars[keep_idx]);
        append_ids(&mut keep_ids, &drop_ids);
        self.vars.set(keep_idx, keep_ids);
        self.var_depth.remove(drop_idx);
        self.var_depth.set(keep_idx, merged_depth);
        let dropped_occ = self.var_occurrences.remove(drop_idx);
        let kept_occ = self.var_occurrences[keep_idx];
        self.var_occurrences.set(keep_idx, kept_occ + dropped_occ);
        clear_prefix(&mut self.var_reusable, drop_idx);
        self.var_reusable.remove(drop_idx);
        proof {
            let r = reused(p, var_idx as int, second_var_idx as int);
            assert(self@.nodes =~= r.nodes);
            assert(self@.vars =~= r.vars);
            assert(self@.var_depth =~= r.var_depth);
            assert(self@.var_occurrences =~= r.var_occurrences);
            assert(self@.var_reusable =~= r.var_reusable);
            lemma_reused_wf(p, var_idx as int, second_var_idx as int);
            if p.occurrences_exact() {
                crate::laws::lemma_reused_occurrences(p, var_idx as int, second_var_idx as int);
            }
            if p.depths_exact() {
                crate::depths::lemma_reused_depths(p, var_idx as int, second_var_idx as int);
            }
            if p.depths_consistent() {
                crate::depths::lemma_reused_consistent(p, var_idx as int, second_var_idx as int);
            }
            if p.names_canonical() {
                crate::canon::lemma_reused_names(p, var_idx as int, second_var_idx as int);
            }
        }
    }

    /// Appends `num_children` fresh leaves `?#var_idx .. ?#var_idx+num_children-1`
    /// and returns their ids.
    fn push_var_row(&mut self, var_idx: usize, num_children: usize) -> (ids: Vec<usize>)
        requires
            old(self).pattern.nodes.len() + num_children <= u32::MAX,
            var_idx + num_children <= u32::MAX,
        ensures
            nodes_view(final(self).pattern.nodes@) == nodes_view(old(self).pattern.nodes@) + Seq::new(
                num_children as nat,
                |j: int| var_leaf((var_idx + j) as u32),
            ),
            ids@ == Seq::new(num_children as nat, |j: int| (old(self).pattern.nodes.len() + j) as usize),
            final(self).pattern.nodes.len() == old(self).pattern.nodes.len() + num_children,
            final(self).vars == old(self).vars,
            final(self).var_depth == old(self).var_depth,
            final(self).var_occurrences == old(self).var_occurrences,
            final(self).var_reusable == old(self).var_reusable,
    {
        let ghost start = nodes_view(self.pattern.nodes@);
        let base = self.pattern.nodes.len();
        let mut ids: Vec<usize> = Vec::new();
        let mut j: usize = 0;
        while j < num_children
            invariant
                base == start.len(),
                base + num_children <= u32::MAX,
                var_idx + num_children <= u32::MAX,
                j <= num_children,
                nodes_view(self.pattern.nodes@) == start + Seq::new(
                    j as nat,
                    |i: int| var_leaf((var_idx + i) as u32),
                ),
                ids@ == Seq::new(j as nat, |i: int| (base + i) as usize),
                self.vars == old(self).vars,
                self.var_depth == old(self).var_depth,
                self.var_occurrences == old(self).var_occurrences,
                self.var_reusable == old(self).var_reusable,
            decreases num_children - j,
        {
            let ghost prev = self.pattern.nodes@;
            let leaf = PatternNode::var_node((var_idx + j) as u32);
            self.pattern.nodes.push(leaf);
            assert(nodes_view(self.pattern.nodes@) =~= nodes_view(prev).push(leaf@));
            ids.push(self.pattern.nodes.len() - 1);
            assert(nodes_view(self.pattern.nodes@) =~= start + Seq::new(
                (j + 1) as nat,
                |i: int| var_leaf((var_idx + i) as u32),
            ));
            assert(ids@ =~= Seq::new((j + 1) as nat, |i: int| (base + i) as usize));
            j = j + 1;
        }
        ids
    }

    /// Gives each position its own row of fresh leaves and writes there a
    /// node with `op` over that row; returns, per child slot, the fresh ids
    /// of that slot, one per position.
    fn expand_each(&mut self, positions: &Vec<usize>, var_idx: usize, op: &Op, num_children: usize) -> (rows: Vec<Vec<usize>>)
        requires
            num_children > 0,
            positions@.no_duplicates(),
            forall|m: int| 0 <= m < positions.len() ==> #[trigger] positions@[m] < old(self).pattern.nodes.len(),
            old(self).pattern.nodes.len() + positions.len() * num_children <= u32::MAX,
            var_idx + num_children <= u32::MAX,
        ensures
            final(self).pattern.nodes.len() == old(self).pattern.nodes.len() + positions.len() * num_children,
            forall|m: int|
                0 <= m < positions.len() ==> #[trigger] final(self).pattern.nodes@[positions@[m] as int]@
                    == (SpecNode {
                    op: SpecPatternOp::Node(op@),
                    children: Seq::new(
                        num_children as nat,
                        |j: int| (old(self).pattern.nodes.len() + m * num_children + j) as usize,
                    ),
                }),
            forall|q: int|
                0 <= q < old(self).pattern.nodes.len() && !positions@.contains(q as usize)
                    ==> #[trigger] final(self).pattern.nodes@[q]@ == old(self).pattern.nodes@[q]@,
            forall|q: int|
                old(self).pattern.nodes.len() <= q < final(self).pattern.nodes.len() ==> #[trigger] final(self).pattern.nodes@[q]@ == var_leaf(
                    (var_idx + (q - old(self).pattern.nodes.len()) % (num_children as int)) as u32,
                ),
            lists_view(rows@) == Seq::new(
                num_children as nat,
                |j: int|
                    Seq::new(
                        positions.len() as nat,
                        |m: int| (old(self).pattern.nodes.len() + m * num_children + j) as usize,
                    ),
            ),
            final(self).vars == old(self).vars,
            final(self).var_depth == old(self).var_depth,
            final(self).var_occurrences == old(self).var_occurrences,
            final(self).var_reusable == old(self).var_reusable,
    {
        let n = num_children;
        let base = self.pattern.nodes.len();
        let ghost start = self.pattern.nodes@;
        let mut rows: Vec<Vec<usize>> = Vec::new();
        let mut j: usize = 0;
        while j < n
            invariant
                j <= n,
                rows.len() == j,
                forall|i: int| 0 <= i < j ==> (#[trigger] rows@[i])@ == Seq::<usize>::empty(),
            decreases n - j,
        {
            rows.push(Vec::new());
            j = j + 1;
        }
        assert forall|j: int| 0 <= j < n implies #[trigger] lists_view(rows@)[j] =~= Seq::new(
            0nat,
            |i: int| (base + i * n + j) as usize,
        ) by {
            assert(rows@[j]@ == Seq::<usize>::empty());
        }
        assert(lists_view(rows@) =~= Seq::new(
            n as nat,
            |j: int| Seq::new(0nat, |i: int| (base + i * n + j) as usize),
        ));
        let mut m: usize = 0;
        while m < positions.len()
            invariant
                n == num_children,
                n > 0,
                base == start.len(),
                positions@.no_duplicates(),
                forall|i: int| 0 <= i < positions.len() ==> #[trigger] positions@[i] < base,
                base + positions.len() * n <= u32::MAX,
                var_idx + n <= u32::MAX,
                m <= positions.len(),
                self.pattern.nodes.len() == base + m * n,
                forall|i: int|
                    0 <= i < m ==> #[trigger] self.pattern.nodes@[positions@[i] as int]@ == (SpecNode {
                        op: SpecPatternOp::Node(op@),
                        children: Seq::new(n as nat, |j: int| (base + i * n + j) as usize),
                    }),
                forall|q: int|
                    0 <= q < base && !positions@.subrange(0, m as int).contains(q as usize)
                        ==> #[trigger] self.pattern.nodes@[q]@ == start[q]@,
                forall|q: int|
                    base <= q < self.pattern.nodes.len() ==> #[trigger] self.pattern.nodes@[q]@
                        == var_leaf((var_idx + (q - base) % (n as int)) as u32),
                rows.len() == n,
                lists_view(rows@) == Seq::new(
                    n as nat,
                    |j: int| Seq::new(m as nat, |i: int| (base + i * n + j) as usize),
                ),
                self.vars == old(self).vars,
                self.var_depth == old(self).var_depth,
                self.var_occurrences == old(self).var_occurrences,
                self.var_reusable == old(self).var_reusable,
            decreases positions.len() - m,
        {
            let ghost before = self.pattern.nodes@;
            proof {
                vstd::arithmetic::mul::lemma_mul_inequality((m + 1) as int, positions.len() as int, n as int);
                vstd::arithmetic::mul::lemma_mul_is_distributive_add_other_way(n as int, m as int, 1);
            }
            let kids = self.push_var_row(var_idx, n);
            assert((m + 1) * n == m * n + n) by (nonlinear_arith);
            assert(nodes_view(self.pattern.nodes@).len() == self.pattern.nodes@.len());
            assert(nodes_view(before).len() == before.len());
            assert(self.pattern.nodes.len() == base + (m + 1) * n);
            let ghost mid = self.pattern.nodes@;
            assert forall|x: int| 0 <= x < before.len() implies #[trigger] mid[x]@ == before[x]@ by {
                assert(nodes_view(mid)[x] == nodes_view(before)[x]);
            }
            assert forall|x: int| before.len() <= x < mid.len() implies #[trigger] mid[x]@ == var_leaf((var_idx + (x - before.len())) as u32) by {
                assert(nodes_view(mid)[x] == mid[x]@);
            }
            let var_id = positions[m];
            let node = PatternNode { op: PatternOp::Node(op.duplicate()), children: crate::lang::copy_ids(&kids) };
            self.pattern.nodes.set(var_id, node);
            let ghost rows_before = lists_view(rows@);
            push_each(&mut rows, &kids);
            proof {
                assert forall|i: int| 0 <= i < m + 1 implies #[trigger] self.pattern.nodes@[positions@[i] as int]@
                    == (SpecNode {
                    op: SpecPatternOp::Node(op@),
                    children: Seq::new(n as nat, |j: int| (base + i * n + j) as usize),
                }) by {
                    if i < m {
                        assert(positions@[i] != positions@[m as int]);
                        assert(positions@[i] < base);
                        assert(self.pattern.nodes@[positions@[i] as int] == mid[positions@[i] as int]);
                        assert(mid[positions@[i] as int]@ == before[positions@[i] as int]@);
                    } else {
                        assert(kids@ =~= Seq::new(n as nat, |j: int| (base + i * n + j) as usize));
                    }
                }
                assert forall|q: int|
                    0 <= q < base && !positions@.subrange(0, m + 1).contains(q as usize) implies #[trigger] self.pattern.nodes@[q]@
                    == start[q]@ by {
                    assert(positions@.subrange(0, m + 1)[m as int] == var_id);
                    if positions@.subrange(0, m as int).contains(q as usize) {
                        let i = choose|i: int| 0 <= i < m && positions@.subrange(0, m as int)[i] == q as usize;
                        assert(positions@.subrange(0, m + 1)[i] == q as usize);
                    }
                    assert(self.pattern.nodes@[q] == mid[q]);
                    assert(mid[q]@ == before[q]@);
                }
                assert forall|q: int| base <= q < self.pattern.nodes.len() implies #[trigger] self.pattern.nodes@[q]@
                    == var_leaf((var_idx + (q - base) % (n as int)) as u32) by {
                    assert(q != var_id);
                    assert(self.pattern.nodes@[q] == mid[q]);
                    if q < base + m * n {
                        assert(mid[q]@ == before[q]@);
                    }
                    if q >= base + m * n {
                        let j = q - (base + m * n);
                        lemma_slot(m as int, n as int, j, (m + 1) as int);
                    }
                }
                assert forall|j: int| 0 <= j < n implies #[trigger] lists_view(rows@)[j] =~= Seq::new(
                    (m + 1) as nat,
                    |i: int| (base + i * n + j) as usize,
                ) by {
                    assert(rows_before[j] == Seq::new(m as nat, |i: int| (base + i * n + j) as usize));
                    assert(lists_view(rows@)[j] == rows_before[j].push(kids@[j]));
                    assert(kids@[j] == (base + m * n + j) as usize);
                }
                assert(lists_view(rows@) =~= Seq::new(
                    n as nat,
                    |j: int| Seq::new((m + 1) as nat, |i: int| (base + i * n + j) as usize),
                ));
            }
            m = m + 1;
        }
        assert(positions@.subrange(0, m as int) =~= positions@);
        rows
    }

    /// Inserts one new variable per row at `var_idx ..`: its positions, its
    /// depth (`pd`, plus one under a binder of `op`), `po` occurrences, and
    /// reusable.
    fn insert_rows(&mut self, var_idx: usize, rows: &Vec<Vec<usize>>, pd: u32, po: usize, op: &PatternOp)
        requires
            var_idx <= old(self).vars.len(),
            old(self).var_depth.len() == old(self).vars.len(),
            old(self).var_occurrences.len() == old(self).vars.len(),
            old(self).var_reusable.len() == old(self).vars.len(),
            forall|j: int| 0 <= j < rows.len() ==> pd + binder_step(op@, j) <= u32::MAX,
        ensures
            final(self).pattern == old(self).pattern,
            lists_view(final(self).vars@) == lists_view(old(self).vars@).subrange(0, var_idx as int)
                + lists_view(rows@) + lists_view(old(self).vars@).subrange(
                var_idx as int,
                old(self).vars.len() as int,
            ),
            final(self).var_depth@ == old(self).var_depth@.subrange(0, var_idx as int) + Seq::new(
                rows.len() as nat,
                |j: int| (pd + binder_step(op@, j)) as u32,
            ) + old(self).var_depth@.subrange(var_idx as int, old(self).vars.len() as int),
            final(self).var_occurrences@ == old(self).var_occurrences@.subrange(0, var_idx as int)
                + Seq::new(rows.len() as nat, |j: int| po) + old(self).var_occurrences@.subrange(
                var_idx as int,
                old(self).vars.len() as int,
            ),
            final(self).var_reusable@ == old(self).var_reusable@.subrange(0, var_idx as int)
                + Seq::new(rows.len() as nat, |j: int| true) + old(self).var_reusable@.subrange(
                var_idx as int,
                old(self).vars.len() as int,
            ),
    {
        let ghost v0 = lists_view(self.vars@);
        let ghost d0 = self.var_depth@;
        let ghost o0 = self.var_occurrences@;
        let ghost r0 = self.var_reusable@;
        let ghost len0 = self.vars.len() as int;
        assert(lists_view(rows@).subrange(0, 0) =~= Seq::<Seq<usize>>::empty());
        assert(self.var_depth@ =~= d0.subrange(0, var_idx as int) + Seq::new(0nat, |i: int| (pd + binder_step(op@, i)) as u32) + d0.subrange(var_idx as int, len0));
        assert(self.var_occurrences@ =~= o0.subrange(0, var_idx as int) + Seq::new(0nat, |i: int| po) + o0.subrange(var_idx as int, len0));
        assert(self.var_reusable@ =~= r0.subrange(0, var_idx as int) + Seq::new(0nat, |i: int| true) + r0.subrange(var_idx as int, len0));
        assert(lists_view(self.vars@) =~= v0.subrange(0, var_idx as int) + lists_view(rows@).subrange(0, 0) + v0.subrange(var_idx as int, len0));
        let mut j: usize = 0;
        while j < rows.len()
            invariant
                self.pattern == old(self).pattern,
                var_idx <= len0,
                v0.len() == len0 && d0.len() == len0 && o0.len() == len0 && r0.len() == len0,
                forall|i: int| 0 <= i < rows.len() ==> pd + binder_step(op@, i) <= u32::MAX,
                j <= rows.len(),
                self.vars.len() == len0 + j,
                self.var_depth.len() == len0 + j,
                self.var_occurrences.len() == len0 + j,
                self.var_reusable.len() == len0 + j,
                lists_view(self.vars@) == v0.subrange(0, var_idx as int) + lists_view(rows@).subrange(
                    0,
                    j as int,
                ) + v0.subrange(var_idx as int, len0),
                self.var_depth@ == d0.subrange(0, var_idx as int) + Seq::new(
                    j as nat,
                    |i: int| (pd + binder_step(op@, i)) as u32,
                ) + d0.subrange(var_idx as int, len0),
                self.var_occurrences@ == o0.subrange(0, var_idx as int) + Seq::new(
                    j as nat,
                    |i: int| po,
                ) + o0.subrange(var_idx as int, len0),
                self.var_reusable@ == r0.subrange(0, var_idx as int) + Seq::new(
                    j as nat,
                    |i: int| true,
                ) + r0.subrange(var_idx as int, len0),
            decreases rows.len() - j,
        {
            let row = crate::lang::copy_ids(&rows[j]);
            let ghost pre = self.vars@;
            self.vars.insert(var_idx + j, row);
            assert(lists_view(self.vars@) =~= lists_view(pre).insert((var_idx + j) as int, lists_view(rows@)[j as int]));
            assert(lists_view(rows@).subrange(0, j + 1) =~= lists_view(rows@).subrange(0, j as int).push(lists_view(rows@)[j as int]));
            assert(pd + binder_step(op@, j as int) <= u32::MAX);
            let b: u32 = if op.binds_child(j) {
                1
            } else {
                0
            };
            self.var_depth.insert(var_idx + j, pd + b);
            self.var_occurrences.insert(var_idx + j, po);
            self.var_reusable.insert(var_idx + j, true);
            assert(lists_view(self.vars@) =~= v0.subrange(0, var_idx as int) + lists_view(
                rows@,
            ).subrange(0, j + 1) + v0.subrange(var_idx as int, len0));
            assert(self.var_depth@ =~= d0.subrange(0, var_idx as int) + Seq::new(
                (j + 1) as nat,
                |i: int| (pd + binder_step(op@, i)) as u32,
            ) + d0.subrange(var_idx as int, len0));
            assert(self.var_occurrences@ =~= o0.subrange(0, var_idx as int) + Seq::new(
                (j + 1) as nat,
                |i: int| po,
            ) + o0.subrange(var_idx as int, len0));
            assert(self.var_reusable@ =~= r0.subrange(0, var_idx as int) + Seq::new(
                (j + 1) as nat,
                |i: int| true,
            ) + r0.subrange(var_idx as int, len0));
            j = j + 1;
        }
        assert(lists_view(rows@).subrange(0, j as int) =~= lists_view(rows@));
    }

    /// Expands the variable at `var_idx` with `target`: every position of the
    /// variable gets a node with the target's op whose children are fresh
    /// variables, named `var_idx ..` so that the variables after it move
    /// up. When all positions sit at one binder depth they share one row of
    /// children; otherwise each gets its own. A leaf target writes the leaf
    /// at each position, a de Bruijn index shifted to the position's depth.
    #[verifier::spinoff_prover]
    #[verifier::rlimit(40)]
    pub fn expand(&mut self, var_idx: usize, target: &ProgramNode)
        requires
            old(self)@.wf(),
            var_idx < old(self).vars.len(),
            expansion_fits(old(self)@, var_idx as int, target.op@, target.children.len() as int),
        ensures
            final(self)@ == expanded(
                old(self)@,
                var_idx as int,
                target.op@,
                target.children.len() as int,
            ),
            final(self)@.wf(),
            old(self)@.occurrences_exact() ==> final(self)@.occurrences_exact(),
            old(self)@.depths_exact() ==> final(self)@.depths_exact(),
            old(self)@.depths_consistent() ==> final(self)@.depths_consistent(),
            old(self)@.names_canonical() ==> final(self)@.names_canonical(),
    {
        let ghost p = self@;
        let ghost t = var_idx as int;
        let ghost n = target.children.len() as int;
        let ghost d = occurrence_depth(p.nodes);
        proof {
            lemma_positions(p, t);
        }
        let depths = self.occurrence_depths();
        assert(depths@.len() == p.nodes.len()) by {
            assert(as_ints(depths@).len() == depths@.len());
            lemma_depths_upto(p.nodes, p.nodes.len() as int);
        }
        let var_positions = self.vars.remove(var_idx);
        let parent_depth = self.var_depth.remove(var_idx);
        let parent_occ = self.var_occurrences.remove(var_idx);
        self.var_reusable.remove(var_idx);
        let len_r = self.var_reusable.len();
        clear_prefix(&mut self.var_reusable, len_r);
        let num_children = target.children.len();
        assert(var_positions@ == p.vars[t]);
        assert forall|m: int| 0 <= m < var_positions.len() implies #[trigger] var_positions@[m]
            < self.pattern.nodes.len() && depths@[var_positions@[m] as int] as int == d[var_positions@[m] as int] by {
            assert(p.vars[t][m] < p.nodes.len());
            assert(as_ints(depths@)[var_positions@[m] as int] == depths@[var_positions@[m] as int] as int);
        }
        if num_children != 1 {
            proof {
                assert forall|q: int| 0 <= q < self.pattern.nodes.len() implies match #[trigger] self.pattern.nodes@[q]@.op {
                    SpecPatternOp::Var(k) => k > var_idx ==> k + num_children - 1 <= u32::MAX,
                    _ => true,
                } by {
                    assert(self.pattern.nodes@[q]@ == p.nodes[q]);
                }
            }
            relabel_vars(&mut self.pattern.nodes, var_idx as u32, num_children as u32, var_idx as u32);
        }
        let ghost n1 = self@.nodes;
        let ghost raw1 = self.pattern.nodes@;
        assert forall|q: int| 0 <= q < p.nodes.len() implies #[trigger] raw1[q]@ == relabel_node(
            p.nodes[q],
            t as u32,
            n,
            t as u32,
        ) by {
            assert(n1[q] == raw1[q]@);
            if num_children == 1 {
                assert(n1[q] == p.nodes[q]);
            }
        }
        let op_node = PatternOp::Node(target.op.duplicate());
        if num_children == 0 {
            write_leaves(&mut self.pattern.nodes, &var_positions, &depths, parent_depth, &target.op);
            proof {
                let r = expanded(p, t, target.op@, n);
                lemma_expanded_basics(p, t, target.op@, n);
                assert(self@.vars =~= r.vars);
                assert(self@.var_depth =~= r.var_depth);
                assert(self@.var_occurrences =~= r.var_occurrences);
                assert(self@.var_reusable =~= r.var_reusable);
                assert forall|q: int| 0 <= q < r.nodes.len() implies #[trigger] self@.nodes[q] == r.nodes[q] by {
                    assert(self@.nodes[q] == self.pattern.nodes@[q]@);
                    assert(as_ints(depths@)[q] == depths@[q] as int);
                    if var_of(p.nodes[q]) == Some(t as u32) {
                        assert(var_positions@.contains(q as usize));
                    } else {
                        assert(!var_positions@.contains(q as usize));
                    }
                }
                assert(self@.nodes =~= r.nodes);
                lemma_expanded_wf(p, t, target.op@, n);
                if p.occurrences_exact() {
                    crate::laws::lemma_expanded_occurrences(p, t, target.op@, n);
                }
                if p.depths_exact() {
                    crate::depths::lemma_expanded_depths(p, t, target.op@, n);
                }
                if p.depths_consistent() {
                    crate::depths::lemma_expanded_consistent(p, t, target.op@, n);
                }
                if p.names_canonical() {
                    crate::canon::lemma_expanded_names(p, t, target.op@, n);
                }
            }
            return ;
        }
        let same = all_same_depth(&var_positions, &depths);
        assert(same == same_depth(p, t));
        let rows: Vec<Vec<usize>>;
        if same {
            let new_children = self.push_var_row(var_idx, num_children);
            let ghost raw2 = self.pattern.nodes@;
            write_shared(&mut self.pattern.nodes, &var_positions, &target.op, &new_children);
            rows = singleton_rows(&new_children);
            proof {
                let base = p.nodes.len() as int;
                let r = expanded(p, t, target.op@, n);
                lemma_expanded_basics(p, t, target.op@, n);
                assert(lists_view(rows@) =~= Seq::new(n as nat, |j: int| fresh_row(p, t, n, j)));
                assert forall|q: int| 0 <= q < r.nodes.len() implies #[trigger] self@.nodes[q] == r.nodes[q] by {
                    assert(self@.nodes[q] == self.pattern.nodes@[q]@);
                    if q >= base {
                        vstd::arithmetic::div_mod::lemma_small_mod((q - base) as nat, n as nat);
                        if var_positions@.contains(q as usize) {
                            let m = choose|m: int| 0 <= m < var_positions.len() && var_positions@[m] == q as usize;
                            assert(var_positions@[m] < base);
                        }
                        assert(nodes_view(raw2)[q] == raw2[q]@);
                    } else if var_of(p.nodes[q]) == Some(t as u32) {
                        assert(var_positions@.contains(q as usize));
                        assert(new_children@ =~= Seq::new(
                            n as nat,
                            |j: int| fresh_id(base, p.vars[t].index_of(q as usize), n, j, true) as usize,
                        ));
                    } else {
                        assert(!var_positions@.contains(q as usize));
                        assert(nodes_view(raw2)[q] == raw2[q]@);
                        assert(nodes_view(raw2)[q] == nodes_view(raw1)[q]);
                        assert(nodes_view(raw1)[q] == raw1[q]@);
                    }
                }
                assert(self@.nodes =~= r.nodes);
            }
        } else {
            rows = self.expand_each(&var_positions, var_idx, &target.op, num_children);
            proof {
                let base = p.nodes.len() as int;
                let r = expanded(p, t, target.op@, n);
                lemma_expanded_basics(p, t, target.op@, n);
                assert(lists_view(rows@) =~= Seq::new(n as nat, |j: int| fresh_row(p, t, n, j)));
                assert forall|q: int| 0 <= q < r.nodes.len() implies #[trigger] self@.nodes[q] == r.nodes[q] by {
                    assert(self@.nodes[q] == self.pattern.nodes@[q]@);
                    if q < base && var_of(p.nodes[q]) == Some(t as u32) {
                        let m = p.vars[t].index_of(q as usize);
                        assert(p.vars[t].contains(q as usize));
                        assert(var_positions@[m] == q);
                        assert(self.pattern.nodes@[var_positions@[m] as int]@.children =~= Seq::new(
                            n as nat,
                            |j: int| fresh_id(base, m, n, j, false) as usize,
                        ));
                    } else if q < base {
                        assert(!var_positions@.contains(q as usize));
                    }
                }
                assert(self@.nodes =~= r.nodes);
            }
        }
        self.insert_rows(var_idx, &rows, parent_depth, parent_occ, &op_node);
        proof {
            let r = expanded(p, t, target.op@, n);
            assert(self@.nodes == r.nodes);
            assert(lists_view(rows@) == Seq::new(n as nat, |j: int| fresh_row(p, t, n, j)));
            assert(self@.vars =~= r.vars);
            assert(self@.var_depth =~= r.var_depth);
            assert(self@.var_occurrences =~= r.var_occurrences);
            assert(self@.var_reusable =~= r.var_reusable);
            lemma_expanded_wf(p, t, target.op@, n);
            if p.occurrences_exact() {
                crate::laws::lemma_expanded_occurrences(p, t, target.op@, n);
            }
            if p.depths_exact() {
                crate::depths::lemma_expanded_depths(p, t, target.op@, n);
            }
            if p.depths_consistent() {
                crate::depths::lemma_expanded_consistent(p, t, target.op@, n);
            }
            if p.names_canonical() {
                crate::canon::lemma_expanded_names(p, t, target.op@, n);
            }
        }
    }

    /// Appends the non-root nodes of `extraction` (term order, root last),
    /// last first, with child ids moved to match, and returns the root moved
    /// the same way.
    fn append_extraction(&mut self, extraction: &[PatternNode]) -> (root: PatternNode)
        requires
            1 <= extraction.len(),
            1 <= old(self).pattern.nodes.len(),
            children_before(nodes_view(extraction@)),
        ensures
            final(self).pattern.nodes.len() == old(self).pattern.nodes.len() + extraction.len() - 1,
            region_holds(
                nodes_view(final(self).pattern.nodes@),
                nodes_view(extraction@),
                old(self).pattern.nodes.len() as int,
            ),
            forall|q: int|
                0 <= q < old(self).pattern.nodes.len() ==> #[trigger] final(self).pattern.nodes@[q]@
                    == old(self).pattern.nodes@[q]@,
            root@ == spliced_node(
                nodes_view(extraction@)[extraction.len() - 1],
                old(self).pattern.nodes.len() as int,
                extraction.len() as int,
            ),
            final(self).vars == old(self).vars,
            final(self).var_depth == old(self).var_depth,
            final(self).var_occurrences == old(self).var_occurrences,
            final(self).var_reusable == old(self).var_reusable,
    {
        let ghost ev = nodes_view(extraction@);
        let ghost start = self.pattern.nodes@;
        let base = self.pattern.nodes.len();
        let n = extraction.len();
        let mut i: usize = n - 1;
        while i > 0
            invariant
                ev == nodes_view(extraction@),
                n == extraction.len(),
                base == start.len(),
                i <= n - 1,
                self.pattern.nodes.len() == base + (n - 1 - i),
                forall|q: int| 0 <= q < base ==> #[trigger] self.pattern.nodes@[q] == start[q],
                forall|x: int|
                    0 <= x < n - 1 - i ==> #[trigger] self.pattern.nodes@[base + x]@ == ev[n - 2 - x],
                self.vars == old(self).vars,
                self.var_depth == old(self).var_depth,
                self.var_occurrences == old(self).var_occurrences,
                self.var_reusable == old(self).var_reusable,
            decreases i,
        {
            i = i - 1;
            let copy = extraction[i].duplicate();
            assert(copy@ == ev[i as int]);
            self.pattern.nodes.push(copy);
        }
        let len = self.pattern.nodes.len();
        let top = len - 1;
        assert forall|x: int| base <= x < len implies #[trigger] self.pattern.nodes@[x]@ == ev[n - 2 - (x - base)] by {
            assert(self.pattern.nodes@[base + (x - base)]@ == ev[n - 2 - (x - base)]);
        }
        let mut q: usize = base;
        while q < len
            invariant
                ev == nodes_view(extraction@),
                children_before(ev),
                n == extraction.len(),
                base == start.len(),
                base >= 0,
                len == base + n - 1,
                top == len - 1,
                base <= q <= len,
                self.pattern.nodes.len() == len,
                forall|x: int| 0 <= x < base ==> #[trigger] self.pattern.nodes@[x] == start[x],
                forall|x: int|
                    base <= x < len ==> #[trigger] self.pattern.nodes@[x]@ == if x < q {
                        spliced_node(ev[n - 2 - (x - base)], base as int, n as int)
                    } else {
                        ev[n - 2 - (x - base)]
                    },
                self.vars == old(self).vars,
                self.var_depth == old(self).var_depth,
                self.var_occurrences == old(self).var_occurrences,
                self.var_reusable == old(self).var_reusable,
            decreases len - q,
        {
            let ghost e = n - 2 - (q - base);
            assert(self.pattern.nodes@[q as int]@ == ev[e]);
            assert forall|s: int| 0 <= s < self.pattern.nodes@[q as int].children.len() implies #[trigger] self.pattern.nodes@[q as int].children@[s]
                <= top by {
                assert(self.pattern.nodes@[q as int].children@[s] == ev[e].children[s]);
                assert(ev[e].children[s] < e);
            }
            let node = remap_children(&self.pattern.nodes[q], top);
            assert(node@ == spliced_node(ev[e], base as int, n as int)) by {
                assert(node@.children =~= spliced_node(ev[e], base as int, n as int).children);
            }
            self.pattern.nodes.set(q, node);
            q = q + 1;
        }
        assert forall|s: int| 0 <= s < extraction@[n - 1].children.len() implies #[trigger] extraction@[n - 1].children@[s]
            <= top by {
            assert(ev[n - 1].children[s] < n - 1);
        }
        let root = remap_children(&extraction[n - 1], top);
        proof {
            let fv = nodes_view(self.pattern.nodes@);
            assert(root@.children =~= spliced_node(ev[n - 1], base as int, n as int).children);
            assert forall|x: int| 0 <= x < n - 1 implies fv[base + n - 2 - x] == #[trigger] spliced_node(
                ev[x],
                base as int,
                n as int,
            ) by {
                assert(fv[base + n - 2 - x] == self.pattern.nodes@[base + n - 2 - x]@);
            }
            assert forall|x: int| 0 <= x < base implies #[trigger] self.pattern.nodes@[x]@ == start[x]@ by {
            }
        }
        root
    }

    /// Appends one copy of the extraction (term order, root at `root`, the
    /// last) and writes its moved root at `var_id`.
    fn splice_extraction_at(&mut self, var_id: usize, extraction: &[PatternNode], root: usize)
        requires
            1 <= extraction.len(),
            root == extraction.len() - 1,
            children_before(nodes_view(extraction@)),
            var_id < old(self).pattern.nodes.len(),
        ensures
            final(self).pattern.nodes.len() == old(self).pattern.nodes.len() + extraction.len() - 1,
            region_holds(
                nodes_view(final(self).pattern.nodes@),
                nodes_view(extraction@),
                old(self).pattern.nodes.len() as int,
            ),
            forall|q: int|
                0 <= q < old(self).pattern.nodes.len() && q != var_id ==> #[trigger] final(self).pattern.nodes@[q]@ == old(self).pattern.nodes@[q]@,
            final(self).pattern.nodes@[var_id as int]@ == spliced_node(
                nodes_view(extraction@)[root as int],
                old(self).pattern.nodes.len() as int,
                extraction.len() as int,
            ),
            final(self).vars == old(self).vars,
            final(self).var_depth == old(self).var_depth,
            final(self).var_occurrences == old(self).var_occurrences,
            final(self).var_reusable == old(self).var_reusable,
    {
        let root_node = self.append_extraction(extraction);
        let ghost mid = nodes_view(self.pattern.nodes@);
        self.pattern.nodes.set(var_id, root_node);
        proof {
            let fv = nodes_view(self.pattern.nodes@);
            let n = extraction.len() as int;
            let base = old(self).pattern.nodes.len() as int;
            assert forall|x: int| 0 <= x < n - 1 implies fv[base + n - 2 - x] == #[trigger] spliced_node(
                nodes_view(extraction@)[x],
                base,
                n,
            ) by {
                assert(fv[base + n - 2 - x] == mid[base + n - 2 - x]);
            }
        }
    }

    /// Splices a fully concrete term in for every occurrence of the
    /// variable at `var_idx` and removes the variable; the variables after it
    /// move down by one. The term is `extraction` in term order with `root`
    /// last. When all occurrences sit at one binder depth, the term's inner
    /// nodes are appended once and shared; otherwise each occurrence gets its
    /// own copy with its free de Bruijn indices shifted to its depth.
    #[verifier::spinoff_prover]
    #[verifier::rlimit(40)]
    pub fn concretize(&mut self, var_idx: usize, extraction: &[PatternNode], root: usize)
        requires
            old(self)@.wf(),
            old(self)@.nodes.len() <= u32::MAX,
            var_idx < old(self).vars.len(),
            1 <= extraction.len() <= u32::MAX,
            root == extraction.len() - 1,
            children_before(nodes_view(extraction@)),
            no_var_nodes(nodes_view(extraction@)),
            !same_depth(old(self)@, var_idx as int) ==> forall|m: int|
                0 <= m < old(self)@.vars[var_idx as int].len() ==> shift_ok(
                    tree_before(nodes_view(extraction@), root as int),
                    0,
                    occurrence_depth(old(self)@.nodes)[#[trigger] old(self)@.vars[var_idx as int][m] as int]
                        - old(self)@.var_depth[var_idx as int],
                ),
        ensures
            final(self)@.wf(),
            final(self)@.vars == old(self)@.vars.remove(var_idx as int),
            final(self)@.var_depth == old(self)@.var_depth.remove(var_idx as int),
            final(self)@.var_occurrences == old(self)@.var_occurrences.remove(var_idx as int),
            final(self)@.var_reusable == old(self)@.var_reusable.remove(var_idx as int),
            final(self)@.nodes.len() >= old(self)@.nodes.len(),
            same_depth(old(self)@, var_idx as int) ==> final(self)@.nodes.len() == old(self)@.nodes.len()
                + extraction.len() - 1,
            same_depth(old(self)@, var_idx as int) ==> region_closed(
                final(self)@.nodes,
                old(self)@.nodes.len() as int,
                final(self)@.nodes.len() as int,
            ) && forall|m: int|
                0 <= m < old(self)@.vars[var_idx as int].len() ==> kids_within(
                    final(self)@.nodes,
                    #[trigger] old(self)@.vars[var_idx as int][m] as int,
                    old(self)@.nodes.len() as int,
                    final(self)@.nodes.len() as int,
                ),
            !same_depth(old(self)@, var_idx as int) ==> exists|lo: Seq<int>, hi: Seq<int>|
                copies_apart(
                    final(self)@.nodes,
                    old(self)@.vars[var_idx as int],
                    old(self)@.nodes.len() as int,
                    lo,
                    hi,
                ),
            forall|q: int|
                0 <= q < old(self)@.nodes.len() && var_of(old(self)@.nodes[q]) != Some(var_idx as u32)
                    ==> #[trigger] final(self)@.nodes[q] == relabel_node(
                    old(self)@.nodes[q],
                    var_idx as u32,
                    0,
                    var_idx as u32,
                ),
            forall|m: int|
                0 <= m < old(self)@.vars[var_idx as int].len() ==> tree_after(
                    final(self)@.nodes,
                    #[trigger] old(self)@.vars[var_idx as int][m] as int,
                ) == concretized_tree(
                    old(self)@,
                    var_idx as int,
                    tree_before(nodes_view(extraction@), root as int),
                    m,
                ),
            old(self)@.occurrences_exact() ==> final(self)@.occurrences_exact(),
            old(self)@.depths_exact() ==> final(self)@.depths_exact(),
            old(self)@.names_canonical() ==> final(self)@.names_canonical(),
    {
        let ghost p = self@;
        let ghost t = var_idx as int;
        let ghost ev = nodes_view(extraction@);
        let ghost ext_tree = tree_before(ev, root as int);
        let ghost d = occurrence_depth(p.nodes);
        proof {
            lemma_positions(p, t);
        }
        let depths = self.occurrence_depths();
        assert(depths@.len() == p.nodes.len()) by {
            assert(as_ints(depths@).len() == depths@.len());
            lemma_depths_upto(p.nodes, p.nodes.len() as int);
        }
        let ref_depth = self.var_depth[var_idx];
        let var_positions = self.vars.remove(var_idx);
        self.var_depth.remove(var_idx);
        self.var_occurrences.remove(var_idx);
        self.var_reusable.remove(var_idx);
        assert(var_positions@ == p.vars[t]);
        assert(lists_view(self.vars@) =~= p.vars.remove(t));
        assert(self.var_depth@ =~= p.var_depth.remove(t));
        assert(self.var_occurrences@ =~= p.var_occurrences.remove(t));
        assert(self.var_reusable@ =~= p.var_reusable.remove(t));
        assert forall|m: int| 0 <= m < var_positions.len() implies #[trigger] var_positions@[m]
            < self.pattern.nodes.len() && depths@[var_positions@[m] as int] as int == d[var_positions@[m] as int] by {
            assert(p.vars[t][m] < p.nodes.len());
            assert(as_ints(depths@)[var_positions@[m] as int] == depths@[var_positions@[m] as int] as int);
        }
        proof {
            assert forall|q: int| 0 <= q < self.pattern.nodes.len() implies match #[trigger] self.pattern.nodes@[q]@.op {
                SpecPatternOp::Var(k) => k > var_idx ==> k + 0 - 1 <= u32::MAX,
                _ => true,
            } by {
            }
        }
        relabel_vars(&mut self.pattern.nodes, var_idx as u32, 0, var_idx as u32);
        let ghost n1 = self@.nodes;
        let ghost raw1 = self.pattern.nodes@;
        let ghost base = p.nodes.len() as int;
        assert forall|q: int| 0 <= q < base implies #[trigger] raw1[q]@ == relabel_node(
            p.nodes[q],
            t as u32,
            0,
            t as u32,
        ) by {
            assert(n1[q] == raw1[q]@);
        }
        let same = all_same_depth(&var_positions, &depths);
        assert(same == same_depth(p, t));
        if same {
            let root_node = self.append_extraction(extraction);
            let ghost mid = nodes_view(self.pattern.nodes@);
            write_node_all(&mut self.pattern.nodes, &var_positions, &root_node);
            proof {
                let fv = self@.nodes;
                let n = extraction.len() as int;
                assert(fv == nodes_view(self.pattern.nodes@));
                assert forall|x: int| base <= x < base + n - 1 implies #[trigger] fv[x] == mid[x] by {
                    if var_positions@.contains(x as usize) {
                        let m = choose|m: int| 0 <= m < var_positions.len() && var_positions@[m] == x as usize;
                        assert(var_positions@[m] < base);
                    }
                    assert(fv[x] == self.pattern.nodes@[x]@);
                }
                lemma_region_frame(mid, fv, ev, base);
                lemma_region_facts(fv, ev, base);
                assert forall|m: int| 0 <= m < p.vars[t].len() implies kids_within(
                    fv,
                    #[trigger] p.vars[t][m] as int,
                    base,
                    fv.len() as int,
                ) by {
                    let q = p.vars[t][m] as int;
                    assert(var_positions@[m] == q);
                    assert(fv[q] == self.pattern.nodes@[q]@);
                    lemma_region_closed(fv, ev, base, q);
                }
                if p.vars[t].len() > 0 {
                    let q = p.vars[t][0] as int;
                    assert(var_positions@[0] == q);
                    assert(fv[q] == self.pattern.nodes@[q]@);
                    lemma_region_closed(fv, ev, base, q);
                }
                assert forall|m: int| 0 <= m < p.vars[t].len() implies tree_after(
                    fv,
                    #[trigger] p.vars[t][m] as int,
                ) == concretized_tree(p, t, ext_tree, m) by {
                    let q = p.vars[t][m] as int;
                    assert(var_positions@[m] == q);
                    assert(fv[q] == self.pattern.nodes@[q]@);
                    lemma_root_tree(fv, ev, base, q);
                }
                assert forall|q: int|
                    0 <= q < base && var_of(p.nodes[q]) != Some(t as u32) implies #[trigger] fv[q]
                    == relabel_node(p.nodes[q], t as u32, 0, t as u32) by {
                    assert(!var_positions@.contains(q as usize));
                    assert(fv[q] == self.pattern.nodes@[q]@);
                    assert(mid[q] == raw1[q]@);
                }
                assert forall|q: int|
                    0 <= q < fv.len() && (q >= base || var_of(p.nodes[q]) == Some(t as u32)) implies var_of(
                    #[trigger] fv[q],
                ) is None && children_after_at(fv, q) by {
                    if q < base {
                        assert(var_positions@.contains(q as usize));
                        assert(fv[q] == self.pattern.nodes@[q]@);
                    }
                }
                lemma_concretized_wf(p, t, self@);
                assert forall|q: int| 0 <= q < base && var_of(p.nodes[q]) == Some(t as u32) implies forall|s: int|
                    0 <= s < (#[trigger] fv[q]).children.len() ==> fv[q].children[s] >= base by {
                    assert(var_positions@.contains(q as usize));
                    assert(fv[q] == self.pattern.nodes@[q]@);
                }
                if p.occurrences_exact() {
                    crate::laws::lemma_concretized_occurrences(p, t, self@);
                }
                if p.depths_exact() {
                    crate::depths::lemma_concretized_depths(p, t, self@);
                }
                if p.names_canonical() {
                    crate::canon::lemma_concretized_names(p, t, self@);
                }
            }
        } else {
            let ghost mut bases: Seq<int> = Seq::empty();
            let ghost mut exts: Seq<Seq<SpecNode>> = Seq::empty();
            let mut m: usize = 0;
            while m < var_positions.len()
                invariant
                    p.wf(),
                    ev == nodes_view(extraction@),
                    ext_tree == tree_before(ev, root as int),
                    children_before(ev),
                    no_var_nodes(ev),
                    1 <= extraction.len() <= u32::MAX,
                    root == extraction.len() - 1,
                    d == occurrence_depth(p.nodes),
                    !same_depth(p, t),
                    var_positions@ == p.vars[t],
                    var_positions@.no_duplicates(),
                    ref_depth == p.var_depth[t],
                    base == p.nodes.len(),
                    depths@.len() == base,
                    forall|i: int|
                        0 <= i < var_positions.len() ==> #[trigger] var_positions@[i] < base && depths@[var_positions@[i] as int] as int
                            == d[var_positions@[i] as int],
                    forall|i: int|
                        0 <= i < var_positions.len() ==> shift_ok(
                            ext_tree,
                            0,
                            d[#[trigger] p.vars[t][i] as int] - p.var_depth[t],
                        ),
                    m <= var_positions.len(),
                    self.pattern.nodes.len() >= base,
                    bases.len() == m,
                    exts.len() == m,
                    forall|i: int| 0 <= i < m ==> #[trigger] bases[i] + exts[i].len() - 1 <= self.pattern.nodes.len(),
                    forall|i: int, j: int| 0 <= i < j < m ==> #[trigger] bases[i] + exts[i].len() - 1 <= #[trigger] bases[j],
                    forall|q: int|
                        0 <= q < base && !var_positions@.subrange(0, m as int).contains(q as usize)
                            ==> #[trigger] self.pattern.nodes@[q]@ == raw1[q]@,
                    forall|i: int|
                        0 <= i < m ==> {
                            &&& #[trigger] bases[i] >= base
                            &&& exts[i].len() >= 1
                            &&& children_before(exts[i])
                            &&& no_var_nodes(exts[i])
                            &&& region_holds(nodes_view(self.pattern.nodes@), exts[i], bases[i])
                            &&& nodes_view(self.pattern.nodes@)[var_positions@[i] as int] == spliced_node(
                                exts[i][exts[i].len() - 1],
                                bases[i],
                                exts[i].len() as int,
                            )
                            &&& tree_before(exts[i], exts[i].len() - 1) == shift_tree(
                                ext_tree,
                                0,
                                d[var_positions@[i] as int] - p.var_depth[t],
                            )
                        },
                    forall|x: int|
                        base <= x < self.pattern.nodes.len() ==> var_of(
                            #[trigger] nodes_view(self.pattern.nodes@)[x],
                        ) is None && children_after_at(nodes_view(self.pattern.nodes@), x),
                    self.vars@.len() == p.vars.len() - 1,
                    lists_view(self.vars@) == p.vars.remove(t),
                    self.var_depth@ == p.var_depth.remove(t),
                    self.var_occurrences@ == p.var_occurrences.remove(t),
                    self.var_reusable@ == p.var_reusable.remove(t),
                decreases var_positions.len() - m,
            {
                let var_id = var_positions[m];
                let delta: i64 = depths[var_id] as i64 - ref_depth as i64;
                assert(var_positions@[m as int] == p.vars[t][m as int]);
                let (shifted, shifted_root) = shift_extraction(extraction, root, delta);
                let ghost before = nodes_view(self.pattern.nodes@);
                let ghost raw_before = self.pattern.nodes@;
                let ghost new_base = self.pattern.nodes.len() as int;
                let ghost old_bases = bases;
                let ghost sv = nodes_view(shifted@);
                self.splice_extraction_at(var_id, &shifted, shifted_root);
                proof {
                    let fv = nodes_view(self.pattern.nodes@);
                    assert forall|x: int| 0 <= x < before.len() && x != var_id implies #[trigger] fv[x] == before[x] by {
                        assert(fv[x] == self.pattern.nodes@[x]@);
                        assert(before[x] == raw_before[x]@);
                    }
                    assert(fv[var_id as int] == self.pattern.nodes@[var_id as int]@);
                    lemma_region_facts(fv, sv, new_base);
                    assert forall|i: int| 0 <= i < m implies {
                        &&& #[trigger] bases[i] >= base
                        &&& exts[i].len() >= 1
                        &&& children_before(exts[i])
                        &&& no_var_nodes(exts[i])
                        &&& region_holds(fv, exts[i], bases[i])
                        &&& fv[var_positions@[i] as int] == spliced_node(
                            exts[i][exts[i].len() - 1],
                            bases[i],
                            exts[i].len() as int,
                        )
                        &&& tree_before(exts[i], exts[i].len() - 1) == shift_tree(
                            ext_tree,
                            0,
                            d[var_positions@[i] as int] - p.var_depth[t],
                        )
                    } by {
                        assert(var_positions@[i] != var_id);
                        assert forall|x: int| bases[i] <= x < bases[i] + exts[i].len() - 1 implies #[trigger] fv[x]
                            == before[x] by {
                        }
                        lemma_region_frame(before, fv, exts[i], bases[i]);
                    }
                    assert forall|q: int|
                        0 <= q < base && !var_positions@.subrange(0, m + 1).contains(q as usize) implies #[trigger] self.pattern.nodes@[q]@
                        == raw1[q]@ by {
                        assert(var_positions@.subrange(0, m + 1)[m as int] == var_id);
                        if var_positions@.subrange(0, m as int).contains(q as usize) {
                            let i = choose|i: int| 0 <= i < m && var_positions@.subrange(0, m as int)[i] == q as usize;
                            assert(var_positions@.subrange(0, m + 1)[i] == q as usize);
                        }
                        assert(fv[q] == self.pattern.nodes@[q]@);
                        assert(before[q] == raw_before[q]@);
                    }
                    assert forall|x: int| base <= x < self.pattern.nodes.len() implies var_of(
                        #[trigger] nodes_view(self.pattern.nodes@)[x],
                    ) is None && children_after_at(nodes_view(self.pattern.nodes@), x) by {
                        if x < new_base {
                            assert(fv[x] == before[x]);
                        }
                    }
                }
                proof {
                    bases = bases.push(new_base);
                    exts = exts.push(sv);
                    assert forall|i: int| 0 <= i < m + 1 implies #[trigger] bases[i] + exts[i].len() - 1
                        <= self.pattern.nodes.len() by {
                        if i < m {
                            assert(bases[i] == old_bases[i]);
                        }
                    }
                    assert forall|i: int, j: int| 0 <= i < j < m + 1 implies #[trigger] bases[i] + exts[i].len() - 1
                        <= #[trigger] bases[j] by {
                        assert(bases[i] == old_bases[i]);
                        if j < m {
                            assert(bases[j] == old_bases[j]);
                        }
                    }
                }
                m = m + 1;
            }
            proof {
                let fv = self@.nodes;
                assert(var_positions@.subrange(0, m as int) =~= var_positions@);
                assert forall|mm: int| 0 <= mm < p.vars[t].len() implies tree_after(
                    fv,
                    #[trigger] p.vars[t][mm] as int,
                ) == concretized_tree(p, t, ext_tree, mm) by {
                    let q = p.vars[t][mm] as int;
                    assert(var_positions@[mm] == q);
                    lemma_root_tree(fv, exts[mm], bases[mm], q);
                }
                assert forall|q: int|
                    0 <= q < base && var_of(p.nodes[q]) != Some(t as u32) implies #[trigger] fv[q]
                    == relabel_node(p.nodes[q], t as u32, 0, t as u32) by {
                    assert(!var_positions@.contains(q as usize));
                    assert(fv[q] == self.pattern.nodes@[q]@);
                }
                assert forall|q: int|
                    0 <= q < fv.len() && (q >= base || var_of(p.nodes[q]) == Some(t as u32)) implies var_of(
                    #[trigger] fv[q],
                ) is None && children_after_at(fv, q) by {
                    if q < base {
                        assert(var_positions@.contains(q as usize));
                        let mm = choose|mm: int| 0 <= mm < var_positions.len() && var_positions@[mm] == q as usize;
                        lemma_region_facts(fv, exts[mm], bases[mm]);
                    }
                }
                lemma_concretized_wf(p, t, self@);
                let lo = Seq::new(m as nat, |i: int| bases[i]);
                let hi = Seq::new(m as nat, |i: int| bases[i] + exts[i].len() - 1);
                assert forall|mm: int| 0 <= mm < p.vars[t].len() implies {
                    &&& base <= #[trigger] lo[mm] <= hi[mm] <= fv.len()
                    &&& region_closed(fv, lo[mm], hi[mm])
                    &&& kids_within(fv, p.vars[t][mm] as int, lo[mm], hi[mm])
                } by {
                    assert(var_positions@[mm] == p.vars[t][mm]);
                    lemma_region_closed(fv, exts[mm], bases[mm], p.vars[t][mm] as int);
                }
                assert forall|m1: int, m2: int| 0 <= m1 < m2 < p.vars[t].len() implies #[trigger] hi[m1]
                    <= #[trigger] lo[m2] by {
                    assert(bases[m1] + exts[m1].len() - 1 <= bases[m2]);
                }
                assert(copies_apart(fv, p.vars[t], base, lo, hi));
                assert forall|q: int| 0 <= q < base && var_of(p.nodes[q]) == Some(t as u32) implies forall|s: int|
                    0 <= s < (#[trigger] fv[q]).children.len() ==> fv[q].children[s] >= base by {
                    assert(var_positions@.contains(q as usize));
                    let mm = choose|mm: int| 0 <= mm < var_positions.len() && var_positions@[mm] == q as usize;
                    lemma_region_facts(fv, exts[mm], bases[mm]);
                }
                if p.occurrences_exact() {
                    crate::laws::lemma_concretized_occurrences(p, t, self@);
                }
                if p.depths_exact() {
                    crate::depths::lemma_concretized_depths(p, t, self@);
                }
                if p.names_canonical() {
                    crate::canon::lemma_concretized_names(p, t, self@);
                }
            }
        }
    }
}

} // verus!
