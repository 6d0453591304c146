//! The bookkeeping that expansions and reuses keep exact: each variable's
//! occurrence count is the number of times a walk from the root meets it.
use vstd::prelude::*;
use crate::counts::{
    hits, incoming, lemma_occ_sum_concat, lemma_occ_sum_frame, lemma_occ_sum_pointwise,
    lemma_range_sum, lemma_visits_frame, occ_sum, range_sum, visits,
};
use crate::lang::{var_leaf, SpecNode, SpecOp};
use crate::pattern::{
    expanded, expansion_fits, fresh_row, max_index, min_index, relabel_node, reused, same_depth,
    var_of, PatternView,
};

verus! {

impl PatternView {
    /// Every variable's occurrence count is the number of times a walk from
    /// the root arrives at its positions.
    pub open spec fn occurrences_exact(self) -> bool {
        forall|k: int|
            0 <= k < self.vars.len() ==> self.var_occurrences[k] == occ_sum(self.nodes, #[trigger] self.vars[k])
    }
}

/// Renaming variables keeps every node's children, so every arrival count.
proof fn lemma_same_children_visits(a: Seq<SpecNode>, b: Seq<SpecNode>)
    requires
        a.len() == b.len(),
        forall|i: int| 0 <= i < a.len() ==> (#[trigger] b[i]).children == a[i].children,
    ensures
        forall|q: int| 0 <= q < a.len() ==> visits(b, q) == visits(a, q),
{
    assert forall|q: int| 0 <= q < a.len() implies visits(b, q) == visits(a, q) by {
        lemma_visits_frame(a, b, q);
    }
}

/// Unifying two variables keeps the counts exact: the kept variable is met
/// as often as both were.
pub proof fn lemma_reused_occurrences(p: PatternView, a: int, b: int)
    requires
        p.wf(),
        p.occurrences_exact(),
        0 <= a < p.vars.len(),
        0 <= b < p.vars.len(),
        a != b,
        p.var_occurrences[a] + p.var_occurrences[b] <= usize::MAX,
    ensures
        reused(p, a, b).occurrences_exact(),
{
    let r = reused(p, a, b);
    let keep = min_index(a, b);
    let drop = max_index(a, b);
    assert forall|i: int| 0 <= i < p.nodes.len() implies (#[trigger] r.nodes[i]).children == p.nodes[i].children by {
        assert(r.nodes[i] == relabel_node(p.nodes[i], drop as u32, 0, keep as u32));
    }
    lemma_same_children_visits(p.nodes, r.nodes);
    assert forall|k: int| 0 <= k < r.vars.len() implies r.var_occurrences[k] == occ_sum(
        r.nodes,
        #[trigger] r.vars[k],
    ) by {
        let k0 = if k < drop {
            k
        } else {
            k + 1
        };
        assert forall|m: int| 0 <= m < p.vars[k0].len() implies visits(r.nodes, #[trigger] p.vars[k0][m] as int)
            == visits(p.nodes, p.vars[k0][m] as int) by {
            assert(p.vars[k0][m] < p.nodes.len());
        }
        lemma_occ_sum_frame(p.nodes, r.nodes, p.vars[k0]);
        if k == keep {
            assert forall|m: int| 0 <= m < p.vars[drop].len() implies visits(r.nodes, #[trigger] p.vars[drop][m] as int)
                == visits(p.nodes, p.vars[drop][m] as int) by {
                assert(p.vars[drop][m] < p.nodes.len());
            }
            lemma_occ_sum_frame(p.nodes, r.nodes, p.vars[drop]);
            lemma_occ_sum_concat(r.nodes, p.vars[keep], p.vars[drop]);
        }
    }
}

/// Arrivals at a node that only the listed parents reference, once each.
proof fn lemma_incoming_from(
    r: Seq<SpecNode>,
    x: int,
    parents: Seq<usize>,
    pn: Seq<SpecNode>,
    i: int,
)
    requires
        0 <= i <= x < r.len(),
        x <= usize::MAX,
        forall|y: int| 0 <= y < i ==> #[trigger] hits(r[y].children, x) == if parents.contains(y as usize) {
            1int
        } else {
            0int
        },
        forall|m: int| 0 <= m < parents.len() ==> visits(r, #[trigger] parents[m] as int) == visits(pn, parents[m] as int),
        forall|m: int| 0 <= m < parents.len() ==> #[trigger] parents[m] < x,
    ensures
        incoming(r, x, i) == range_sum(pn, parents, i),
    decreases i,
{
    if i > 0 {
        lemma_incoming_from(r, x, parents, pn, i - 1);
        let y = i - 1;
        let h = hits(r[y].children, x);
        assert(incoming(r, x, i) == incoming(r, x, i - 1) + h * visits(r, y));
        assert(range_sum(pn, parents, i) == range_sum(pn, parents, i - 1) + if parents.contains(y as usize) {
            visits(pn, y)
        } else {
            0
        });
        if parents.contains(y as usize) {
            let m = choose|m: int| 0 <= m < parents.len() && parents[m] == y as usize;
            assert(visits(r, parents[m] as int) == visits(pn, parents[m] as int));
            assert(h == 1);
            assert(h * visits(r, y) == visits(r, y));
        } else {
            assert(h == 0);
            assert(h * visits(r, y) == 0);
        }
    }
}

/// Expanding a variable keeps the counts exact: each new variable is met
/// as often as the expanded one was.
pub proof fn lemma_expanded_occurrences(p: PatternView, t: int, op: SpecOp, n: int)
    requires
        p.wf(),
        p.occurrences_exact(),
        0 <= t < p.vars.len(),
        0 <= n,
        expansion_fits(p, t, op, n),
    ensures
        expanded(p, t, op, n).occurrences_exact(),
{
    let r = expanded(p, t, op, n);
    let pos = p.vars[t];
    let base = p.nodes.len() as int;
    let same = same_depth(p, t);
    crate::pattern::lemma_expanded_facts(p, t, op, n);
    // the old nodes keep their arrival counts
    assert forall|i: int| 0 <= i < base implies (#[trigger] r.nodes[i]).children == p.nodes[i].children
        || (p.nodes[i].children.len() == 0 && forall|s: int| 0 <= s < r.nodes[i].children.len() ==> r.nodes[i].children[s]
        >= base) by {
        if var_of(p.nodes[i]) == Some(t as u32) {
            let m = pos.index_of(i as usize);
            assert(pos.contains(i as usize));
            assert(p.nodes[i] == var_leaf(t as u32));
            if n > 0 && !same {
                assert forall|s: int| 0 <= s < r.nodes[i].children.len() implies r.nodes[i].children[s] >= base by {
                    crate::pattern::lemma_slot(m, n, s, pos.len() as int);
                    assert(r.nodes[i].children[s] == (base + m * n + s) as usize);
                }
            }
        } else {
            assert(r.nodes[i] == relabel_node(p.nodes[i], t as u32, n, t as u32));
        }
    }
    assert forall|q: int| 0 <= q < base implies visits(r.nodes, q) == visits(p.nodes, q) by {
        lemma_visits_frame(p.nodes, r.nodes, q);
    }
    assert forall|k: int| 0 <= k < r.vars.len() implies r.var_occurrences[k] == occ_sum(
        r.nodes,
        #[trigger] r.vars[k],
    ) by {
        if k < t || k >= t + n {
            let k0 = if k < t {
                k
            } else {
                k - n + 1
            };
            assert(r.vars[k] == p.vars[k0]);
            assert(r.var_occurrences[k] == p.var_occurrences[k0]);
            assert forall|m: int| 0 <= m < p.vars[k0].len() implies visits(r.nodes, #[trigger] p.vars[k0][m] as int)
                == visits(p.nodes, p.vars[k0][m] as int) by {
                assert(p.vars[k0][m] < base);
            }
            lemma_occ_sum_frame(p.nodes, r.nodes, p.vars[k0]);
        } else {
            let j = k - t;
            assert(r.vars[k] == fresh_row(p, t, n, j));
            assert(r.var_occurrences[k] == p.var_occurrences[t]);
            assert forall|m: int| 0 <= m < pos.len() implies visits(r.nodes, #[trigger] pos[m] as int) == visits(
                p.nodes,
                pos[m] as int,
            ) by {
                assert(pos[m] < base);
            }
            if same {
                let x = base + j;
                assert forall|y: int| 0 <= y < x implies #[trigger] hits(r.nodes[y].children, x) == if pos.contains(
                    y as usize,
                ) {
                    1int
                } else {
                    0int
                } by {
                    crate::pattern::lemma_expanded_hits_same(p, t, op, n, j, y);
                }
                assert forall|m: int| 0 <= m < pos.len() implies #[trigger] pos[m] < x by {
                    assert(pos[m] < base);
                }
                lemma_incoming_from(r.nodes, x, pos, p.nodes, x);
                lemma_range_sum(p.nodes, pos, x);
                assert(visits(r.nodes, x) == occ_sum(p.nodes, pos));
                assert(fresh_row(p, t, n, j) == seq![x as usize]);
                assert(seq![x as usize].drop_last() =~= Seq::<usize>::empty());
                assert(occ_sum(r.nodes, Seq::<usize>::empty()) == 0);
                assert(occ_sum(r.nodes, seq![x as usize]) == visits(r.nodes, x));
            } else {
                let row = fresh_row(p, t, n, j);
                assert forall|m: int| 0 <= m < pos.len() implies visits(r.nodes, #[trigger] row[m] as int) == visits(
                    p.nodes,
                    pos[m] as int,
                ) by {
                    let x = base + m * n + j;
                    crate::pattern::lemma_slot(m, n, j, pos.len() as int);
                    assert(row[m] == x);
                    let parents = seq![pos[m]];
                    assert forall|y: int| 0 <= y < x implies #[trigger] hits(r.nodes[y].children, x) == if parents.contains(
                        y as usize,
                    ) {
                        1int
                    } else {
                        0int
                    } by {
                        crate::pattern::lemma_expanded_hits_cross(p, t, op, n, m, j, y);
                        if y == pos[m] {
                            assert(parents[0] == y as usize);
                        } else if parents.contains(y as usize) {
                            let i = choose|i: int| 0 <= i < parents.len() && parents[i] == y as usize;
                            assert(i == 0);
                        }
                    }
                    assert(pos[m] < base);
                    lemma_incoming_from(r.nodes, x, parents, p.nodes, x);
                    lemma_range_sum(p.nodes, parents, x);
                    assert(parents.drop_last() =~= Seq::<usize>::empty());
                    assert(occ_sum(p.nodes, Seq::<usize>::empty()) == 0);
                    assert(occ_sum(p.nodes, parents) == visits(p.nodes, pos[m] as int));
                }
                lemma_occ_sum_pointwise(r.nodes, row, p.nodes, pos);
            }
        }
    }
}


/// Replacing a variable by concrete nodes keeps the other variables' counts
/// exact: what is written in its place refers only to new nodes.
pub proof fn lemma_concretized_occurrences(p: PatternView, t: int, r: PatternView)
    requires
        p.wf(),
        p.occurrences_exact(),
        0 <= t < p.vars.len(),
        r.vars == p.vars.remove(t),
        r.var_occurrences == p.var_occurrences.remove(t),
        p.nodes.len() <= r.nodes.len(),
        forall|q: int|
            0 <= q < p.nodes.len() && var_of(p.nodes[q]) != Some(t as u32) ==> #[trigger] r.nodes[q]
                == relabel_node(p.nodes[q], t as u32, 0, t as u32),
        forall|q: int|
            0 <= q < p.nodes.len() && var_of(p.nodes[q]) == Some(t as u32) ==> forall|s: int|
                0 <= s < (#[trigger] r.nodes[q]).children.len() ==> r.nodes[q].children[s] >= p.nodes.len(),
    ensures
        r.occurrences_exact(),
{
    let base = p.nodes.len() as int;
    crate::pattern::lemma_positions(p, t);
    assert forall|i: int| 0 <= i < base implies (#[trigger] r.nodes[i]).children == p.nodes[i].children || (
    p.nodes[i].children.len() == 0 && forall|s: int| 0 <= s < r.nodes[i].children.len() ==> r.nodes[i].children[s]
        >= base) by {
        if var_of(p.nodes[i]) == Some(t as u32) {
            assert(p.vars[t].contains(i as usize));
            let m = choose|m: int| 0 <= m < p.vars[t].len() && p.vars[t][m] == i as usize;
            assert(p.nodes[i] == var_leaf(t as u32));
        }
    }
    assert forall|q: int| 0 <= q < base implies visits(r.nodes, q) == visits(p.nodes, q) by {
        lemma_visits_frame(p.nodes, r.nodes, q);
    }
    assert forall|k: int| 0 <= k < r.vars.len() implies r.var_occurrences[k] == occ_sum(
        r.nodes,
        #[trigger] r.vars[k],
    ) by {
        let k0 = if k < t {
            k
        } else {
            k + 1
        };
        assert(r.vars[k] == p.vars[k0]);
        assert forall|m: int| 0 <= m < p.vars[k0].len() implies visits(r.nodes, #[trigger] p.vars[k0][m] as int)
            == visits(p.nodes, p.vars[k0][m] as int) by {
            assert(p.vars[k0][m] < base);
        }
        lemma_occ_sum_frame(p.nodes, r.nodes, p.vars[k0]);
    }
}

/// The initial pattern `?#0` is met once.
pub proof fn lemma_single_var_occurrences(p: PatternView)
    requires
        p.nodes == seq![var_leaf(0)],
        p.vars == seq![seq![0usize]],
        p.var_occurrences == seq![1usize],
    ensures
        p.occurrences_exact(),
{
    let l = seq![0usize];
    assert(l.drop_last() =~= Seq::<usize>::empty());
    assert(occ_sum(p.nodes, Seq::<usize>::empty()) == 0);
    assert(occ_sum(p.nodes, l) == visits(p.nodes, 0));
    assert(p.vars[0] == l);
}

} // verus!
