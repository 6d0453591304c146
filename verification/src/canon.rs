//! Canonical variable names: a pattern names its variables in the order in
//! which a walk from the root first meets them, each node before its
//! children, children left to right. Expansions, reuses and concretizations
//! keep that naming, so two patterns that differ only by a renaming of
//! their variables are the same pattern and render identically.
use vstd::prelude::*;
use crate::lang::{children_after, var_leaf, SpecNode, SpecOp, SpecPatternOp};
use crate::pattern::{
    expanded, expansion_fits, lemma_expanded_facts, lemma_expanded_wf, lemma_reused_wf, lemma_slot,
    max_index, min_index, relabel_node, reused, same_depth, var_of, PatternView,
};
use crate::render::{lemma_render_after_tree, render_after};
use crate::tree::{lemma_tree_after_kids, tree_after, tree_after_kids, Tree};

verus! {

/// The largest entry of `s`, or `m` when it is larger.
pub open spec fn max_from(s: Seq<u32>, m: int) -> int
    decreases s.len(),
{
    if s.len() == 0 {
        m
    } else {
        let prev = max_from(s.drop_last(), m);
        if s.last() > prev {
            s.last() as int
        } else {
            prev
        }
    }
}

/// Every entry of `s` is either one already met, after the names up to `m`,
/// or the next one: one past the largest met so far.
pub open spec fn named_from(s: Seq<u32>, m: int) -> bool
    decreases s.len(),
{
    if s.len() == 0 {
        true
    } else {
        named_from(s.drop_last(), m) && s.last() <= max_from(s.drop_last(), m) + 1
    }
}

/// The names of `s` are numbered by first appearance: `0` first, then each
/// new name one past the largest before it.
pub open spec fn named_in_order(s: Seq<u32>) -> bool {
    named_from(s, -1)
}

proof fn lemma_max_from_concat(a: Seq<u32>, b: Seq<u32>, m: int)
    ensures
        max_from(a + b, m) == max_from(b, max_from(a, m)),
        named_from(a + b, m) == (named_from(a, m) && named_from(b, max_from(a, m))),
    decreases b.len(),
{
    if b.len() == 0 {
        assert(a + b =~= a);
    } else {
        lemma_max_from_concat(a, b.drop_last(), m);
        assert((a + b).drop_last() =~= a + b.drop_last());
        assert((a + b).last() == b.last());
    }
}

proof fn lemma_max_from_bounds(s: Seq<u32>, m: int)
    ensures
        max_from(s, m) >= m,
        forall|i: int| 0 <= i < s.len() ==> s[i] <= max_from(s, m),
    decreases s.len(),
{
    if s.len() > 0 {
        lemma_max_from_bounds(s.drop_last(), m);
        assert forall|i: int| 0 <= i < s.len() implies s[i] <= max_from(s, m) by {
            if i < s.len() - 1 {
                assert(s[i] == s.drop_last()[i]);
            }
        }
    }
}

/// In a sequence named in order, every name up to the largest one occurs.
proof fn lemma_names_occur(s: Seq<u32>, x: int)
    requires
        named_in_order(s),
        0 <= x <= max_from(s, -1),
    ensures
        s.contains(x as u32),
    decreases s.len(),
{
    let p = s.drop_last();
    if x <= max_from(p, -1) {
        lemma_names_occur(p, x);
        let i = choose|i: int| 0 <= i < p.len() && p[i] == x as u32;
        assert(s[i] == x as u32);
    } else {
        assert(s[s.len() - 1] == x as u32);
    }
}

/// The names that replace `v` when variable `t` is expanded into `n`
/// variables: `t .. t+n-1` for `t`, and later names moved up by `n - 1`.
pub open spec fn expand_block(v: u32, t: u32, n: nat) -> Seq<u32> {
    if v == t {
        Seq::new(n, |j: int| (t + j) as u32)
    } else if v > t {
        seq![(v + n - 1) as u32]
    } else {
        seq![v]
    }
}

/// The name that replaces `v` when variable `drop` is unified with the
/// lower `keep`: `keep` for `drop`, and later names moved down by one.
pub open spec fn reuse_name(v: u32, keep: u32, drop: u32) -> u32 {
    if v == drop {
        keep
    } else if v > drop {
        (v - 1) as u32
    } else {
        v
    }
}

/// Each entry replaced by its block under `g`, blocks one after another.
pub open spec fn flat_names(s: Seq<u32>, g: spec_fn(u32) -> Seq<u32>) -> Seq<u32>
    decreases s.len(),
{
    if s.len() == 0 {
        Seq::empty()
    } else {
        flat_names(s.drop_last(), g) + g(s.last())
    }
}

/// Replacing entries by blocks distributes over concatenation.
pub proof fn lemma_flat_names_concat(a: Seq<u32>, b: Seq<u32>, g: spec_fn(u32) -> Seq<u32>)
    ensures
        flat_names(a + b, g) == flat_names(a, g) + flat_names(b, g),
    decreases b.len(),
{
    if b.len() == 0 {
        assert(a + b =~= a);
        assert(flat_names(a, g) + flat_names(b, g) =~= flat_names(a, g));
    } else {
        lemma_flat_names_concat(a, b.drop_last(), g);
        assert((a + b).drop_last() =~= a + b.drop_last());
        assert(flat_names(a + b, g) =~= flat_names(a, g) + flat_names(b, g));
    }
}

/// The blocks of an expansion of variable `t` into `n` variables.
pub open spec fn expand_blocks(t: u32, n: nat) -> spec_fn(u32) -> Seq<u32> {
    |v: u32| expand_block(v, t, n)
}

/// The names after an expansion of variable `t` into `n` variables.
pub open spec fn expand_names(s: Seq<u32>, t: u32, n: nat) -> Seq<u32> {
    flat_names(s, expand_blocks(t, n))
}

/// The largest name after an expansion, given the largest before.
pub open spec fn expanded_max(m: int, t: u32, n: nat) -> int {
    if m < t {
        m
    } else {
        m + n - 1
    }
}

proof fn lemma_expand_block_named(v: u32, t: u32, n: nat, m: int)
    requires
        -1 <= m,
        v <= m + 1,
        t + n <= u32::MAX + 1,
        v > t ==> v + n - 1 <= u32::MAX,
    ensures
        named_from(expand_block(v, t, n), expanded_max(m, t, n)),
        max_from(expand_block(v, t, n), expanded_max(m, t, n)) == expanded_max(
            if v > m {
                v as int
            } else {
                m
            },
            t,
            n,
        ),
{
    let b = expand_block(v, t, n);
    let g = expanded_max(m, t, n);
    if v == t {
        assert(g >= t - 1);
        assert forall|j: int| 0 <= j <= n implies named_from(#[trigger] b.subrange(0, j), g) && max_from(
            b.subrange(0, j),
            g,
        ) == if j == 0 {
            g
        } else if g > t + j - 1 {
            g
        } else {
            t + j - 1
        } by {
            lemma_block_prefix(t, n, g, j);
        }
        assert(b.subrange(0, n as int) =~= b);
        assert(named_from(b.subrange(0, n as int), g));
    } else {
        let x: u32 = if v > t {
            (v + n - 1) as u32
        } else {
            v
        };
        assert(b =~= seq![x]);
        assert(b.drop_last() =~= Seq::<u32>::empty());
        assert(b.last() == x);
        assert(max_from(b.drop_last(), g) == g);
        assert(named_from(b.drop_last(), g));
        assert(x <= g + 1);
    }
}

proof fn lemma_block_prefix(t: u32, n: nat, g: int, j: int)
    requires
        0 <= j <= n,
        t + n <= u32::MAX + 1,
        g >= t - 1,
    ensures
        named_from(Seq::new(n, |i: int| (t + i) as u32).subrange(0, j), g),
        max_from(Seq::new(n, |i: int| (t + i) as u32).subrange(0, j), g) == if j == 0 {
            g
        } else if g > t + j - 1 {
            g
        } else {
            t + j - 1
        },
    decreases j,
{
    let b = Seq::new(n, |i: int| (t + i) as u32);
    if j > 0 {
        lemma_block_prefix(t, n, g, j - 1);
        assert(b.subrange(0, j).drop_last() =~= b.subrange(0, j - 1));
    }
}

/// Expanding a variable keeps the names in order.
pub proof fn lemma_expand_names_in_order(s: Seq<u32>, t: u32, n: nat, m: int)
    requires
        named_from(s, m),
        -1 <= m,
        t + n <= u32::MAX + 1,
        max_from(s, m) + n <= u32::MAX + 1,
    ensures
        named_from(expand_names(s, t, n), expanded_max(m, t, n)),
        max_from(expand_names(s, t, n), expanded_max(m, t, n)) == expanded_max(max_from(s, m), t, n),
    decreases s.len(),
{
    if s.len() > 0 {
        let p = s.drop_last();
        let v = s.last();
        lemma_expand_names_in_order(p, t, n, m);
        let pm = max_from(p, m);
        lemma_max_from_bounds(p, m);
        lemma_expand_block_named(v, t, n, pm);
        assert(expand_names(s, t, n) == expand_names(p, t, n) + expand_block(v, t, n));
        lemma_max_from_concat(expand_names(p, t, n), expand_block(v, t, n), expanded_max(m, t, n));
    }
}

/// Each entry renamed by [`reuse_name`].
pub open spec fn reuse_names(s: Seq<u32>, keep: u32, drop: u32) -> Seq<u32> {
    s.map_values(|v: u32| reuse_name(v, keep, drop))
}

/// The blocks of a reuse: one name each.
pub open spec fn reuse_blocks(keep: u32, drop: u32) -> spec_fn(u32) -> Seq<u32> {
    |v: u32| seq![reuse_name(v, keep, drop)]
}

/// The blocks of a reuse rename each entry by [`reuse_name`].
pub proof fn lemma_reuse_flat(s: Seq<u32>, keep: u32, drop: u32)
    ensures
        flat_names(s, reuse_blocks(keep, drop)) == reuse_names(s, keep, drop),
    decreases s.len(),
{
    if s.len() > 0 {
        lemma_reuse_flat(s.drop_last(), keep, drop);
        assert(reuse_names(s, keep, drop) =~= reuse_names(s.drop_last(), keep, drop) + seq![
            reuse_name(s.last(), keep, drop),
        ]);
    } else {
        assert(reuse_names(s, keep, drop) =~= Seq::<u32>::empty());
    }
}

/// The largest name after a reuse, given the largest before.
pub open spec fn reused_max(m: int, drop: u32) -> int {
    if m < drop {
        m
    } else {
        m - 1
    }
}

/// Unifying a variable with a lower one keeps the names in order.
pub proof fn lemma_reuse_names_in_order(s: Seq<u32>, keep: u32, drop: u32)
    requires
        named_in_order(s),
        keep < drop,
    ensures
        named_in_order(reuse_names(s, keep, drop)),
        max_from(reuse_names(s, keep, drop), -1) == reused_max(max_from(s, -1), drop),
    decreases s.len(),
{
    let r = reuse_names(s, keep, drop);
    if s.len() > 0 {
        let p = s.drop_last();
        let v = s.last();
        lemma_reuse_names_in_order(p, keep, drop);
        assert(r.drop_last() =~= reuse_names(p, keep, drop));
        assert(r.last() == reuse_name(v, keep, drop));
        let pm = max_from(p, -1);
        lemma_max_from_bounds(p, -1);
    }
}

/// A sequence named in order stays the same under any injective renaming
/// that keeps it named in order: the renaming fixes every name it meets.
pub proof fn lemma_renaming_in_order(s: Seq<u32>, f: spec_fn(u32) -> u32)
    requires
        named_in_order(s),
        named_in_order(s.map_values(f)),
        forall|a: u32, b: u32| #[trigger] f(a) == #[trigger] f(b) ==> a == b,
    ensures
        s.map_values(f) == s,
    decreases s.len(),
{
    if s.len() > 0 {
        let p = s.drop_last();
        let v = s.last();
        assert(s.map_values(f).drop_last() =~= p.map_values(f));
        lemma_renaming_in_order(p, f);
        let m = max_from(p, -1);
        lemma_max_from_bounds(p, -1);
        assert(s.map_values(f).last() == f(v));
        let fs = s.map_values(f);
        let fp = p.map_values(f);
        assert(f(v) <= m + 1) by {
            assert(fs.drop_last() == p);
        }
        if v <= m {
            lemma_names_occur(p, v as int);
            let i = choose|i: int| 0 <= i < p.len() && p[i] == v;
            assert(fp[i] == f(p[i]));
            assert(fp[i] == p[i]);
        } else {
            if f(v) <= m {
                lemma_names_occur(p, f(v) as int);
                let i = choose|i: int| 0 <= i < p.len() && p[i] == f(v);
                assert(fp[i] == f(p[i]));
                assert(fp[i] == p[i]);
                assert(f(p[i]) == f(v));
            }
        }
        assert(f(v) == v);
        assert forall|i: int| 0 <= i < s.len() implies fs[i] == s[i] by {
            if i < s.len() - 1 {
                assert(fs[i] == fp[i]);
                assert(fp[i] == p[i]);
            }
        }
        assert(fs =~= s);
    }
}

/// The name a variable op carries, as a sequence of at most one name.
pub open spec fn own_name(op: SpecPatternOp) -> Seq<u32> {
    match op {
        SpecPatternOp::Var(k) => seq![k],
        _ => Seq::empty(),
    }
}

/// The variables of a tree in the order a walk from the root meets them,
/// each node before its children, children left to right.
pub open spec fn var_order(t: Tree) -> Seq<u32>
    decreases t, 0int,
{
    own_name(t.op) + var_order_kids(t.kids, t.kids.len() as int)
}

/// The variables of the first `j` trees of a list, one tree after another.
pub open spec fn var_order_kids(kids: Seq<Tree>, j: int) -> Seq<u32>
    decreases kids, j,
{
    if 0 < j <= kids.len() {
        var_order_kids(kids, j - 1) + var_order(kids[j - 1])
    } else {
        Seq::empty()
    }
}

/// An op with its variable renamed by `f`; other ops unchanged.
pub open spec fn rename_op(op: SpecPatternOp, f: spec_fn(u32) -> u32) -> SpecPatternOp {
    match op {
        SpecPatternOp::Var(k) => SpecPatternOp::Var(f(k)),
        _ => op,
    }
}

/// A tree with every variable renamed by `f`.
pub open spec fn rename(t: Tree, f: spec_fn(u32) -> u32) -> Tree
    decreases t, 0int,
{
    Tree { op: rename_op(t.op, f), kids: rename_kids(t.kids, t.kids.len() as int, f) }
}

/// The first `j` trees of a list, each renamed by `f`.
pub open spec fn rename_kids(kids: Seq<Tree>, j: int, f: spec_fn(u32) -> u32) -> Seq<Tree>
    decreases kids, j,
{
    if 0 < j <= kids.len() {
        rename_kids(kids, j - 1, f).push(rename(kids[j - 1], f))
    } else {
        Seq::empty()
    }
}

proof fn lemma_rename_kids_at(kids: Seq<Tree>, j: int, f: spec_fn(u32) -> u32)
    requires
        0 <= j <= kids.len(),
    ensures
        rename_kids(kids, j, f).len() == j,
        forall|i: int| 0 <= i < j ==> #[trigger] rename_kids(kids, j, f)[i] == rename(kids[i], f),
    decreases j,
{
    if j > 0 {
        lemma_rename_kids_at(kids, j - 1, f);
    }
}

/// The variables of a list's first `j` trees depend on those trees alone.
proof fn lemma_order_kids_prefix(a: Seq<Tree>, b: Seq<Tree>, j: int)
    requires
        0 <= j <= a.len(),
        j <= b.len(),
        forall|i: int| 0 <= i < j ==> a[i] == b[i],
    ensures
        var_order_kids(a, j) == var_order_kids(b, j),
    decreases j,
{
    if j > 0 {
        lemma_order_kids_prefix(a, b, j - 1);
    }
}

/// Renaming the variables of a tree renames its sequence of variables.
pub proof fn lemma_rename_order(t: Tree, f: spec_fn(u32) -> u32)
    ensures
        var_order(rename(t, f)) == var_order(t).map_values(f),
    decreases t, 0int,
{
    let n = t.kids.len() as int;
    lemma_rename_kids_at(t.kids, n, f);
    lemma_rename_order_kids(t.kids, n, f);
    assert(own_name(rename_op(t.op, f)) =~= own_name(t.op).map_values(f));
    assert((own_name(t.op) + var_order_kids(t.kids, n)).map_values(f) =~= own_name(t.op).map_values(f)
        + var_order_kids(t.kids, n).map_values(f));
}

proof fn lemma_rename_order_kids(kids: Seq<Tree>, j: int, f: spec_fn(u32) -> u32)
    requires
        0 <= j <= kids.len(),
    ensures
        var_order_kids(rename_kids(kids, j, f), j) == var_order_kids(kids, j).map_values(f),
    decreases kids, j,
{
    if j > 0 {
        lemma_rename_order_kids(kids, j - 1, f);
        lemma_rename_order(kids[j - 1], f);
        lemma_rename_kids_at(kids, j, f);
        lemma_rename_kids_at(kids, j - 1, f);
        lemma_order_kids_prefix(rename_kids(kids, j, f), rename_kids(kids, j - 1, f), j - 1);
        assert((var_order_kids(kids, j - 1) + var_order(kids[j - 1])).map_values(f) =~= var_order_kids(
            kids,
            j - 1,
        ).map_values(f) + var_order(kids[j - 1]).map_values(f));
    } else {
        assert(var_order_kids(kids, j).map_values(f) =~= Seq::<u32>::empty());
    }
}

/// Every variable of one of the first `j` trees is a variable of the list.
proof fn lemma_order_kids_contains(kids: Seq<Tree>, j: int, i: int, x: u32)
    requires
        0 <= i < j <= kids.len(),
        var_order(kids[i]).contains(x),
    ensures
        var_order_kids(kids, j).contains(x),
    decreases j,
{
    let prev = var_order_kids(kids, j - 1);
    let last = var_order(kids[j - 1]);
    if i < j - 1 {
        lemma_order_kids_contains(kids, j - 1, i, x);
        let a = choose|a: int| 0 <= a < prev.len() && prev[a] == x;
        assert((prev + last)[a] == x);
    } else {
        let a = choose|a: int| 0 <= a < last.len() && last[a] == x;
        assert((prev + last)[prev.len() + a] == x);
    }
}

/// A renaming that fixes every variable of a tree leaves the tree as it is.
pub proof fn lemma_rename_fixed(t: Tree, f: spec_fn(u32) -> u32)
    requires
        forall|x: u32| var_order(t).contains(x) ==> f(x) == x,
    ensures
        rename(t, f) == t,
    decreases t, 0int,
{
    let n = t.kids.len() as int;
    lemma_rename_kids_at(t.kids, n, f);
    assert forall|i: int| 0 <= i < n implies #[trigger] rename(t.kids[i], f) == t.kids[i] by {
        assert forall|x: u32| var_order(t.kids[i]).contains(x) implies f(x) == x by {
            lemma_order_kids_contains(t.kids, n, i, x);
            let kv = var_order_kids(t.kids, n);
            let a = choose|a: int| 0 <= a < kv.len() && kv[a] == x;
            assert(var_order(t) == own_name(t.op) + kv);
            assert(var_order(t)[own_name(t.op).len() + a] == x);
            assert(var_order(t).contains(x));
        }
        lemma_rename_fixed(t.kids[i], f);
    }
    assert(rename_kids(t.kids, n, f) =~= t.kids);
    match t.op {
        SpecPatternOp::Var(k) => {
            assert(var_order(t) == own_name(t.op) + var_order_kids(t.kids, n));
            assert(var_order(t)[0] == k);
            assert(var_order(t).contains(k));
            assert(rename_op(t.op, f) == t.op);
        },
        _ => {},
    }
    assert(rename(t, f) == Tree { op: rename_op(t.op, f), kids: rename_kids(t.kids, n, f) });
}

impl PatternView {
    /// The variables are named by first appearance: a walk from the root
    /// meets `?#0` first, and each variable it has not met before is one
    /// past the largest it has met.
    pub open spec fn names_canonical(self) -> bool {
        named_in_order(var_order(tree_after(self.nodes, 0)))
    }
}

/// Alpha-equivalent patterns are equal and render identically: when
/// renaming the variables of one pattern by an injective map gives the
/// term of another, and both name their variables by first appearance, the
/// renaming changes nothing.
pub proof fn lemma_alpha_equivalent_patterns(p: PatternView, q: PatternView, f: spec_fn(u32) -> u32)
    requires
        p.wf(),
        q.wf(),
        p.names_canonical(),
        q.names_canonical(),
        forall|a: u32, b: u32| #[trigger] f(a) == #[trigger] f(b) ==> a == b,
        rename(tree_after(p.nodes, 0), f) == tree_after(q.nodes, 0),
    ensures
        tree_after(p.nodes, 0) == tree_after(q.nodes, 0),
        render_after(p.nodes, 0) == render_after(q.nodes, 0),
{
    let tp = tree_after(p.nodes, 0);
    let s = var_order(tp);
    lemma_rename_order(tp, f);
    lemma_renaming_in_order(s, f);
    assert forall|x: u32| s.contains(x) implies f(x) == x by {
        let i = choose|i: int| 0 <= i < s.len() && s[i] == x;
        assert(s.map_values(f)[i] == f(s[i]));
    }
    lemma_rename_fixed(tp, f);
    lemma_render_after_tree(p.nodes, 0);
    lemma_render_after_tree(q.nodes, 0);
}

/// How the nodes of `b` stand to the first nodes of `a` under the blocks
/// `g`: each keeps its children and its name turns into its block, or, a
/// leaf in `a`, its whole subterm in `b` names the leaf's block.
pub open spec fn names_follow(a: Seq<SpecNode>, b: Seq<SpecNode>, g: spec_fn(u32) -> Seq<u32>) -> bool {
    forall|y: int|
        0 <= y < a.len() ==> ((#[trigger] b[y]).children == a[y].children && own_name(b[y].op) == flat_names(
            own_name(a[y].op),
            g,
        )) || (a[y].children.len() == 0 && var_order(tree_after(b, y)) == flat_names(own_name(a[y].op), g))
}

proof fn lemma_kids_transform(
    a: Seq<SpecNode>,
    b: Seq<SpecNode>,
    g: spec_fn(u32) -> Seq<u32>,
    y: int,
    j: int,
)
    requires
        children_after(a),
        children_after(b),
        0 <= y < a.len(),
        y < b.len(),
        b[y].children == a[y].children,
        0 <= j <= a[y].children.len(),
        forall|s: int|
            0 <= s < a[y].children.len() ==> var_order(tree_after(b, #[trigger] a[y].children[s] as int))
                == flat_names(var_order(tree_after(a, a[y].children[s] as int)), g),
    ensures
        var_order_kids(tree_after_kids(b, y, b[y].children.len() as int), j) == flat_names(
            var_order_kids(tree_after_kids(a, y, a[y].children.len() as int), j),
            g,
        ),
    decreases j,
{
    let n = a[y].children.len() as int;
    let ka = tree_after_kids(a, y, n);
    let kb = tree_after_kids(b, y, n);
    lemma_tree_after_kids(a, y, n);
    lemma_tree_after_kids(b, y, n);
    if j > 0 {
        lemma_kids_transform(a, b, g, y, j - 1);
        let c = a[y].children[j - 1] as int;
        assert(ka[j - 1] == tree_after(a, c));
        assert(kb[j - 1] == tree_after(b, c));
        lemma_flat_names_concat(var_order_kids(ka, j - 1), var_order(ka[j - 1]), g);
    }
}

/// Under [`names_follow`], the variables under each first node of `b` are
/// those under the same node of `a`, each replaced by its block.
pub proof fn lemma_names_transform(a: Seq<SpecNode>, b: Seq<SpecNode>, g: spec_fn(u32) -> Seq<u32>, y: int)
    requires
        children_after(a),
        children_after(b),
        a.len() <= b.len(),
        0 <= y < a.len(),
        names_follow(a, b, g),
    ensures
        var_order(tree_after(b, y)) == flat_names(var_order(tree_after(a, y)), g),
    decreases a.len() - y,
{
    let n = a[y].children.len() as int;
    lemma_tree_after_kids(a, y, n);
    if b[y].children == a[y].children && own_name(b[y].op) == flat_names(own_name(a[y].op), g) {
        assert forall|s: int| 0 <= s < n implies var_order(tree_after(b, #[trigger] a[y].children[s] as int))
            == flat_names(var_order(tree_after(a, a[y].children[s] as int)), g) by {
            assert(y < a[y].children[s] < a.len());
            lemma_names_transform(a, b, g, a[y].children[s] as int);
        }
        lemma_kids_transform(a, b, g, y, n);
        lemma_tree_after_kids(b, y, n);
        let ka = tree_after_kids(a, y, n);
        let kb = tree_after_kids(b, y, n);
        assert(tree_after(a, y).kids == ka);
        assert(tree_after(b, y).kids == kb);
        assert(var_order(tree_after(a, y)) == own_name(a[y].op) + var_order_kids(ka, n));
        assert(var_order(tree_after(b, y)) == own_name(b[y].op) + var_order_kids(kb, n));
        lemma_flat_names_concat(own_name(a[y].op), var_order_kids(ka, n), g);
    } else {
        assert(var_order_kids(tree_after_kids(a, y, n), n) =~= Seq::<u32>::empty());
        assert(var_order(tree_after(a, y)) =~= own_name(a[y].op));
    }
}

/// Whether every entry of `s` lies below `bound`.
pub open spec fn names_below(s: Seq<u32>, bound: int) -> bool {
    forall|i: int| 0 <= i < s.len() ==> s[i] < bound
}

proof fn lemma_names_below_concat(a: Seq<u32>, b: Seq<u32>, bound: int)
    requires
        names_below(a, bound),
        names_below(b, bound),
    ensures
        names_below(a + b, bound),
{
    assert forall|i: int| 0 <= i < (a + b).len() implies (a + b)[i] < bound by {
        if i < a.len() {
            assert((a + b)[i] == a[i]);
        } else {
            assert((a + b)[i] == b[i - a.len()]);
        }
    }
}

proof fn lemma_kids_below(nodes: Seq<SpecNode>, y: int, j: int, bound: int)
    requires
        children_after(nodes),
        0 <= y < nodes.len(),
        0 <= j <= nodes[y].children.len(),
        forall|s: int|
            0 <= s < nodes[y].children.len() ==> names_below(
                var_order(tree_after(nodes, #[trigger] nodes[y].children[s] as int)),
                bound,
            ),
    ensures
        names_below(var_order_kids(tree_after_kids(nodes, y, nodes[y].children.len() as int), j), bound),
    decreases j,
{
    let n = nodes[y].children.len() as int;
    let k = tree_after_kids(nodes, y, n);
    lemma_tree_after_kids(nodes, y, n);
    if j > 0 {
        lemma_kids_below(nodes, y, j - 1, bound);
        assert(k[j - 1] == tree_after(nodes, nodes[y].children[j - 1] as int));
        lemma_names_below_concat(var_order_kids(k, j - 1), var_order(k[j - 1]), bound);
    }
}

/// The variables under node `y` lie below `bound` when every variable
/// node from `y` on does.
pub proof fn lemma_names_below(nodes: Seq<SpecNode>, y: int, bound: int)
    requires
        children_after(nodes),
        0 <= y < nodes.len(),
        forall|q: int|
            y <= q < nodes.len() ==> match (#[trigger] nodes[q]).op {
                SpecPatternOp::Var(k) => k < bound,
                _ => true,
            },
    ensures
        names_below(var_order(tree_after(nodes, y)), bound),
    decreases nodes.len() - y,
{
    let n = nodes[y].children.len() as int;
    lemma_tree_after_kids(nodes, y, n);
    assert forall|s: int| 0 <= s < n implies names_below(
        var_order(tree_after(nodes, #[trigger] nodes[y].children[s] as int)),
        bound,
    ) by {
        assert(y < nodes[y].children[s] < nodes.len());
        lemma_names_below(nodes, nodes[y].children[s] as int, bound);
    }
    lemma_kids_below(nodes, y, n, bound);
    let own = own_name(nodes[y].op);
    assert(names_below(own, bound)) by {
        assert(nodes[y] == nodes[y]);
    }
    assert(var_order(tree_after(nodes, y)) == own + var_order_kids(tree_after_kids(nodes, y, n), n));
    lemma_names_below_concat(own, var_order_kids(tree_after_kids(nodes, y, n), n), bound);
}

/// A sequence of names below `bound` has its largest below `bound`.
proof fn lemma_max_below(s: Seq<u32>, bound: int)
    requires
        names_below(s, bound),
        bound >= 0,
    ensures
        max_from(s, -1) < bound,
    decreases s.len(),
{
    if s.len() > 0 {
        lemma_max_below(s.drop_last(), bound);
        assert(s.last() == s[s.len() - 1]);
    }
}

proof fn lemma_flat_single(k: u32, g: spec_fn(u32) -> Seq<u32>)
    ensures
        flat_names(seq![k], g) == g(k),
{
    assert(seq![k].drop_last() =~= Seq::<u32>::empty());
    assert(flat_names(Seq::<u32>::empty(), g) + g(k) =~= g(k));
}

proof fn lemma_flat_empty(g: spec_fn(u32) -> Seq<u32>)
    ensures
        flat_names(Seq::<u32>::empty(), g) == Seq::<u32>::empty(),
{
}

/// The pattern `?#0` names its one variable first.
pub proof fn lemma_single_var_names(p: PatternView)
    requires
        p.nodes == seq![var_leaf(0)],
    ensures
        p.names_canonical(),
{
    let t = tree_after(p.nodes, 0);
    assert(p.nodes[0].children.len() == 0);
    assert(t.kids =~= Seq::<Tree>::empty());
    assert(var_order(t) =~= seq![0u32]);
    assert(seq![0u32].drop_last() =~= Seq::<u32>::empty());
    assert(max_from(Seq::<u32>::empty(), -1) == -1);
    assert(named_from(Seq::<u32>::empty(), -1));
    assert(named_from(seq![0u32], -1));
}

/// Unifying two variables keeps the names in order: the dropped name joins
/// the lower kept one, which the walk meets first.
pub proof fn lemma_reused_names(p: PatternView, a: int, b: int)
    requires
        p.wf(),
        p.names_canonical(),
        0 <= a < p.vars.len(),
        0 <= b < p.vars.len(),
        a != b,
    ensures
        reused(p, a, b).names_canonical(),
{
    let r = reused(p, a, b);
    let keep = min_index(a, b) as u32;
    let drop = max_index(a, b) as u32;
    let g = reuse_blocks(keep, drop);
    lemma_reused_wf(p, a, b);
    assert forall|y: int| 0 <= y < p.nodes.len() implies ((#[trigger] r.nodes[y]).children == p.nodes[y].children
        && own_name(r.nodes[y].op) == flat_names(own_name(p.nodes[y].op), g)) || (p.nodes[y].children.len()
        == 0 && var_order(tree_after(r.nodes, y)) == flat_names(own_name(p.nodes[y].op), g)) by {
        assert(r.nodes[y] == relabel_node(p.nodes[y], drop, 0, keep));
        match p.nodes[y].op {
            SpecPatternOp::Var(k) => {
                lemma_flat_single(k, g);
                assert(own_name(r.nodes[y].op) =~= seq![reuse_name(k, keep, drop)]);
            },
            _ => {
                lemma_flat_empty(g);
            },
        }
    }
    lemma_names_transform(p.nodes, r.nodes, g, 0);
    let s = var_order(tree_after(p.nodes, 0));
    lemma_reuse_flat(s, keep, drop);
    lemma_reuse_names_in_order(s, keep, drop);
}

proof fn lemma_fresh_leaves_names(r: Seq<SpecNode>, y: int, t: u32, n: nat, j: int)
    requires
        children_after(r),
        0 <= y < r.len(),
        r[y].children.len() == n,
        0 <= j <= n,
        forall|s: int|
            0 <= s < n ==> #[trigger] r[r[y].children[s] as int] == var_leaf((t + s) as u32),
    ensures
        var_order_kids(tree_after_kids(r, y, n as int), j) == Seq::new(j as nat, |i: int| (t + i) as u32),
    decreases j,
{
    let k = tree_after_kids(r, y, n as int);
    lemma_tree_after_kids(r, y, n as int);
    if j > 0 {
        lemma_fresh_leaves_names(r, y, t, n, j - 1);
        let c = r[y].children[j - 1] as int;
        assert(y < c < r.len());
        assert(k[j - 1] == tree_after(r, c));
        assert(r[c] == var_leaf((t + j - 1) as u32));
        assert(tree_after(r, c).kids =~= Seq::<Tree>::empty());
        assert(var_order(tree_after(r, c)) =~= seq![(t + j - 1) as u32]);
        assert(var_order_kids(k, j) =~= Seq::new(j as nat, |i: int| (t + i) as u32));
    }
}

/// Expanding a variable keeps the names in order: the new variables take
/// its name and the next ones, in slot order, and later names move up.
pub proof fn lemma_expanded_names(p: PatternView, t: int, op: SpecOp, n: int)
    requires
        p.wf(),
        p.names_canonical(),
        0 <= t < p.vars.len(),
        0 <= n,
        expansion_fits(p, t, op, n),
    ensures
        expanded(p, t, op, n).names_canonical(),
{
    let r = expanded(p, t, op, n);
    let pos = p.vars[t];
    let base = p.nodes.len() as int;
    let same = same_depth(p, t);
    let g = expand_blocks(t as u32, n as nat);
    lemma_expanded_wf(p, t, op, n);
    lemma_expanded_facts(p, t, op, n);
    assert forall|y: int| 0 <= y < base implies ((#[trigger] r.nodes[y]).children == p.nodes[y].children
        && own_name(r.nodes[y].op) == flat_names(own_name(p.nodes[y].op), g)) || (p.nodes[y].children.len()
        == 0 && var_order(tree_after(r.nodes, y)) == flat_names(own_name(p.nodes[y].op), g)) by {
        if var_of(p.nodes[y]) == Some(t as u32) {
            assert(pos.contains(y as usize));
            let m = pos.index_of(y as usize);
            assert(pos[m] == y as usize);
            assert(p.nodes[y] == var_leaf(t as u32));
            lemma_flat_single(t as u32, g);
            let ry = r.nodes[y];
            if n == 0 {
                assert(tree_after(r.nodes, y).kids =~= Seq::<Tree>::empty());
                assert(var_order(tree_after(r.nodes, y)) =~= Seq::<u32>::empty());
                assert(expand_block(t as u32, t as u32, 0) =~= Seq::<u32>::empty());
            } else {
                assert forall|s: int| 0 <= s < n implies #[trigger] r.nodes[ry.children[s] as int] == var_leaf(
                    (t + s) as u32,
                ) by {
                    if same {
                        assert(ry.children[s] == base + s);
                        vstd::arithmetic::div_mod::lemma_small_mod(s as nat, n as nat);
                    } else {
                        lemma_slot(m, n, s, pos.len() as int);
                        assert(ry.children[s] == base + m * n + s);
                    }
                }
                lemma_fresh_leaves_names(r.nodes, y, t as u32, n as nat, n);
                lemma_tree_after_kids(r.nodes, y, n);
                assert(var_order(tree_after(r.nodes, y)) =~= own_name(ry.op) + var_order_kids(
                    tree_after_kids(r.nodes, y, n),
                    n,
                ));
                assert(var_order(tree_after(r.nodes, y)) =~= expand_block(t as u32, t as u32, n as nat));
            }
        } else {
            assert(r.nodes[y] == relabel_node(p.nodes[y], t as u32, n, t as u32));
            match p.nodes[y].op {
                SpecPatternOp::Var(k) => {
                    lemma_flat_single(k, g);
                    assert(own_name(r.nodes[y].op) =~= expand_block(k, t as u32, n as nat));
                },
                _ => {
                    lemma_flat_empty(g);
                },
            }
        }
    }
    lemma_names_transform(p.nodes, r.nodes, g, 0);
    let s = var_order(tree_after(p.nodes, 0));
    assert forall|q: int| 0 <= q < base implies match (#[trigger] p.nodes[q]).op {
        SpecPatternOp::Var(k) => k < p.vars.len(),
        _ => true,
    } by {
        crate::pattern::lemma_positions(p, t);
        assert(var_of(p.nodes[q]) == var_of(p.nodes[q]));
    }
    lemma_names_below(p.nodes, 0, p.vars.len() as int);
    lemma_max_below(s, p.vars.len() as int);
    lemma_expand_names_in_order(s, t as u32, n as nat, -1);
}

/// Replacing a variable by a concrete subtree keeps the names in order:
/// the subtree has no variables, and later names move down by one.
pub proof fn lemma_concretized_names(p: PatternView, t: int, r: PatternView)
    requires
        p.wf(),
        p.names_canonical(),
        r.wf(),
        0 <= t < p.vars.len(),
        p.nodes.len() <= r.nodes.len(),
        forall|q: int|
            0 <= q < p.nodes.len() && var_of(p.nodes[q]) != Some(t as u32) ==> #[trigger] r.nodes[q]
                == relabel_node(p.nodes[q], t as u32, 0, t as u32),
        forall|q: int|
            0 <= q < r.nodes.len() && (q >= p.nodes.len() || var_of(p.nodes[q]) == Some(t as u32)) ==> var_of(
                #[trigger] r.nodes[q],
            ) is None,
        forall|q: int|
            0 <= q < p.nodes.len() && var_of(p.nodes[q]) == Some(t as u32) ==> forall|s: int|
                0 <= s < (#[trigger] r.nodes[q]).children.len() ==> r.nodes[q].children[s] >= p.nodes.len(),
    ensures
        r.names_canonical(),
{
    let base = p.nodes.len() as int;
    let g = expand_blocks(t as u32, 0);
    crate::pattern::lemma_positions(p, t);
    assert forall|y: int| 0 <= y < base implies ((#[trigger] r.nodes[y]).children == p.nodes[y].children
        && own_name(r.nodes[y].op) == flat_names(own_name(p.nodes[y].op), g)) || (p.nodes[y].children.len()
        == 0 && var_order(tree_after(r.nodes, y)) == flat_names(own_name(p.nodes[y].op), g)) by {
        if var_of(p.nodes[y]) == Some(t as u32) {
            assert(p.vars[t].contains(y as usize));
            let m = choose|m: int| 0 <= m < p.vars[t].len() && p.vars[t][m] == y as usize;
            assert(p.nodes[y] == var_leaf(t as u32));
            lemma_flat_single(t as u32, g);
            let ry = r.nodes[y];
            let n = ry.children.len() as int;
            assert forall|s: int| 0 <= s < n implies names_below(
                var_order(tree_after(r.nodes, #[trigger] ry.children[s] as int)),
                0,
            ) by {
                let c = ry.children[s] as int;
                assert(c >= base);
                assert(y < c < r.nodes.len());
                assert forall|q: int| c <= q < r.nodes.len() implies match (#[trigger] r.nodes[q]).op {
                    SpecPatternOp::Var(k) => k < 0,
                    _ => true,
                } by {
                    assert(var_of(r.nodes[q]) is None);
                }
                lemma_names_below(r.nodes, c, 0);
            }
            lemma_kids_below(r.nodes, y, n, 0);
            lemma_tree_after_kids(r.nodes, y, n);
            assert(var_of(ry) is None);
            let whole = var_order(tree_after(r.nodes, y));
            assert(whole == own_name(ry.op) + var_order_kids(tree_after_kids(r.nodes, y, n), n));
            assert(own_name(ry.op) =~= Seq::<u32>::empty());
            let kc = var_order_kids(tree_after_kids(r.nodes, y, n), n);
            assert(kc.len() == 0) by {
                if kc.len() > 0 {
                    assert(kc[0] < 0);
                }
            }
            assert(whole =~= Seq::<u32>::empty());
            assert(expand_block(t as u32, t as u32, 0) =~= Seq::<u32>::empty());
        } else {
            assert(r.nodes[y] == relabel_node(p.nodes[y], t as u32, 0, t as u32));
            match p.nodes[y].op {
                SpecPatternOp::Var(k) => {
                    lemma_flat_single(k, g);
                    assert(own_name(r.nodes[y].op) =~= expand_block(k, t as u32, 0));
                },
                _ => {
                    lemma_flat_empty(g);
                },
            }
        }
    }
    lemma_names_transform(p.nodes, r.nodes, g, 0);
    let s = var_order(tree_after(p.nodes, 0));
    assert(names_below(s, u32::MAX + 1));
    lemma_max_below(s, u32::MAX + 1);
    lemma_expand_names_in_order(s, t as u32, 0, -1);
}

} // verus!
