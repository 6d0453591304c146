//! How many times a walk from the root of a pattern arrives at each node:
//! a node shared by several parents, or listed in several child slots, is
//! met once per reference.
use vstd::prelude::*;
use crate::lang::SpecNode;

verus! {

/// The number of the first `j` slots of `children` that hold `q`.
pub open spec fn slot_hits(children: Seq<usize>, q: int, j: int) -> int
    decreases j,
{
    if j <= 0 || j > children.len() {
        0
    } else {
        slot_hits(children, q, j - 1) + if children[j - 1] == q {
            1int
        } else {
            0int
        }
    }
}

/// The number of slots of `children` that hold `q`.
pub open spec fn hits(children: Seq<usize>, q: int) -> int {
    slot_hits(children, q, children.len() as int)
}

/// How many times a walk from the root (node 0) arrives at node `q`, nodes
/// in pattern order.
pub open spec fn visits(nodes: Seq<SpecNode>, q: int) -> int
    decreases q, q + 1,
{
    if q <= 0 {
        1
    } else {
        incoming(nodes, q, q)
    }
}

/// The arrivals at node `q` through the references of nodes `0 .. i`.
pub open spec fn incoming(nodes: Seq<SpecNode>, q: int, i: int) -> int
    decreases q, i,
{
    if i <= 0 || i > q || i > nodes.len() {
        0
    } else {
        incoming(nodes, q, i - 1) + hits(nodes[i - 1].children, q) * visits(nodes, i - 1)
    }
}

/// The arrivals at all the nodes of a list, summed.
pub open spec fn occ_sum(nodes: Seq<SpecNode>, list: Seq<usize>) -> int
    decreases list.len(),
{
    if list.len() == 0 {
        0
    } else {
        occ_sum(nodes, list.drop_last()) + visits(nodes, list.last() as int)
    }
}

/// The arrivals at the nodes below `n` that a list holds, summed in index
/// order.
pub open spec fn range_sum(nodes: Seq<SpecNode>, list: Seq<usize>, n: int) -> int
    decreases n,
{
    if n <= 0 {
        0
    } else {
        range_sum(nodes, list, n - 1) + if list.contains((n - 1) as usize) {
            visits(nodes, n - 1)
        } else {
            0
        }
    }
}

/// The first `j` slots, none of which holds `q`, reference it no time.
pub proof fn lemma_hits_zero(children: Seq<usize>, q: int, j: int)
    requires
        0 <= j <= children.len(),
        forall|s: int| 0 <= s < j ==> children[s] != q,
    ensures
        slot_hits(children, q, j) == 0,
    decreases j,
{
    if j > 0 {
        lemma_hits_zero(children, q, j - 1);
    }
}

/// The first `j` slots, of which `s0` alone holds `q`, reference it once.
pub proof fn lemma_hits_one(children: Seq<usize>, q: int, s0: int, j: int)
    requires
        0 <= s0 < j <= children.len(),
        children[s0] == q,
        forall|s: int| 0 <= s < j && s != s0 ==> children[s] != q,
    ensures
        slot_hits(children, q, j) == 1,
    decreases j,
{
    if j - 1 > s0 {
        lemma_hits_one(children, q, s0, j - 1);
    } else {
        lemma_hits_zero(children, q, j - 1);
    }
}

/// Arrival counts at the first nodes stay when later nodes change or are
/// added, as long as each first node keeps its children or, having had
/// none, gains only children beyond them.
pub proof fn lemma_visits_frame(a: Seq<SpecNode>, b: Seq<SpecNode>, q: int)
    requires
        0 <= q < a.len() <= b.len(),
        forall|i: int|
            0 <= i < a.len() ==> (#[trigger] b[i]).children == a[i].children || (a[i].children.len()
                == 0 && forall|s: int| 0 <= s < b[i].children.len() ==> b[i].children[s] >= a.len()),
    ensures
        visits(b, q) == visits(a, q),
    decreases q, q + 1,
{
    if q > 0 {
        lemma_incoming_frame(a, b, q, q);
    }
}

proof fn lemma_incoming_frame(a: Seq<SpecNode>, b: Seq<SpecNode>, q: int, i: int)
    requires
        0 < q < a.len() <= b.len(),
        0 <= i <= q,
        forall|x: int|
            0 <= x < a.len() ==> (#[trigger] b[x]).children == a[x].children || (a[x].children.len()
                == 0 && forall|s: int| 0 <= s < b[x].children.len() ==> b[x].children[s] >= a.len()),
    ensures
        incoming(b, q, i) == incoming(a, q, i),
    decreases q, i,
{
    if i > 0 {
        lemma_incoming_frame(a, b, q, i - 1);
        lemma_visits_frame(a, b, i - 1);
        let x = i - 1;
        if b[x].children != a[x].children {
            lemma_hits_zero(b[x].children, q, b[x].children.len() as int);
            lemma_hits_zero(a[x].children, q, 0);
        }
    }
}

/// Summing over a list, or over the indices it holds in order, is the same
/// when the list holds each index below `n` once.
pub proof fn lemma_range_sum(nodes: Seq<SpecNode>, list: Seq<usize>, n: int)
    requires
        0 <= n <= usize::MAX,
        list.no_duplicates(),
        forall|m: int| 0 <= m < list.len() ==> #[trigger] list[m] < n,
    ensures
        range_sum(nodes, list, n) == occ_sum(nodes, list),
    decreases n, list.len(),
{
    if n == 0 {
        if list.len() > 0 {
            assert(list[0] < 0);
        }
    } else if list.contains((n - 1) as usize) {
        let m0 = choose|m: int| 0 <= m < list.len() && list[m] == (n - 1) as usize;
        let rest = list.remove(m0);
        assert forall|m: int| 0 <= m < rest.len() implies #[trigger] rest[m] < n - 1 by {
            if m < m0 {
                assert(rest[m] == list[m]);
            } else {
                assert(rest[m] == list[m + 1]);
            }
        }
        assert(rest.no_duplicates()) by {
            assert forall|x: int, y: int| 0 <= x < rest.len() && 0 <= y < rest.len() && x != y implies rest[x]
                != rest[y] by {
                let ox = if x < m0 { x } else { x + 1 };
                let oy = if y < m0 { y } else { y + 1 };
                assert(rest[x] == list[ox]);
                assert(rest[y] == list[oy]);
            }
        }
        lemma_range_sum(nodes, rest, n - 1);
        assert forall|x: int| 0 <= x < n - 1 implies (#[trigger] list.contains(x as usize) <==> rest.contains(
            x as usize,
        )) by {
            if list.contains(x as usize) {
                let i = choose|i: int| 0 <= i < list.len() && list[i] == x as usize;
                assert(i != m0);
                if i < m0 {
                    assert(rest[i] == x as usize);
                } else {
                    assert(rest[i - 1] == x as usize);
                }
            }
            if rest.contains(x as usize) {
                let i = choose|i: int| 0 <= i < rest.len() && rest[i] == x as usize;
                if i < m0 {
                    assert(list[i] == x as usize);
                } else {
                    assert(list[i + 1] == x as usize);
                }
            }
        }
        lemma_range_sum_same(nodes, list, rest, n - 1);
        lemma_occ_sum_remove(nodes, list, m0);
    } else {
        assert forall|m: int| 0 <= m < list.len() implies #[trigger] list[m] < n - 1 by {
            if list[m] == n - 1 {
                assert(list.contains(list[m]));
            }
        }
        lemma_range_sum(nodes, list, n - 1);
    }
}

/// Two lists that hold the same indices below `n` give the same range sum.
proof fn lemma_range_sum_same(nodes: Seq<SpecNode>, a: Seq<usize>, b: Seq<usize>, n: int)
    requires
        0 <= n,
        forall|x: int| 0 <= x < n ==> (#[trigger] a.contains(x as usize) <==> b.contains(x as usize)),
    ensures
        range_sum(nodes, a, n) == range_sum(nodes, b, n),
    decreases n,
{
    if n > 0 {
        lemma_range_sum_same(nodes, a, b, n - 1);
    }
}

/// Removing one entry of a list removes its arrivals from the sum.
pub proof fn lemma_occ_sum_remove(nodes: Seq<SpecNode>, list: Seq<usize>, m0: int)
    requires
        0 <= m0 < list.len(),
    ensures
        occ_sum(nodes, list) == occ_sum(nodes, list.remove(m0)) + visits(nodes, list[m0] as int),
    decreases list.len(),
{
    if m0 == list.len() - 1 {
        assert(list.remove(m0) =~= list.drop_last());
    } else {
        let shorter = list.drop_last();
        lemma_occ_sum_remove(nodes, shorter, m0);
        assert(list.remove(m0).drop_last() =~= shorter.remove(m0));
        assert(list.remove(m0).last() == list.last());
    }
}

/// The sum over two lists joined is the sum of their sums.
pub proof fn lemma_occ_sum_concat(nodes: Seq<SpecNode>, a: Seq<usize>, b: Seq<usize>)
    ensures
        occ_sum(nodes, a + b) == occ_sum(nodes, a) + occ_sum(nodes, b),
    decreases b.len(),
{
    if b.len() == 0 {
        assert(a + b =~= a);
    } else {
        lemma_occ_sum_concat(nodes, a, b.drop_last());
        assert((a + b).drop_last() =~= a + b.drop_last());
    }
}

/// Two lists whose entries are visited equally often, entry by entry, give
/// the same sum, each over its own nodes.
pub proof fn lemma_occ_sum_pointwise(na: Seq<SpecNode>, a: Seq<usize>, nb: Seq<SpecNode>, b: Seq<usize>)
    requires
        a.len() == b.len(),
        forall|m: int| 0 <= m < a.len() ==> visits(na, #[trigger] a[m] as int) == visits(nb, b[m] as int),
    ensures
        occ_sum(na, a) == occ_sum(nb, b),
    decreases a.len(),
{
    if a.len() > 0 {
        lemma_occ_sum_pointwise(na, a.drop_last(), nb, b.drop_last());
        assert(visits(na, a[a.len() - 1] as int) == visits(nb, b[b.len() - 1] as int));
    }
}

/// A list of nodes below `n` whose arrivals agree between two node
/// sequences has the same sum over both.
pub proof fn lemma_occ_sum_frame(a: Seq<SpecNode>, b: Seq<SpecNode>, list: Seq<usize>)
    requires
        forall|m: int| 0 <= m < list.len() ==> visits(b, #[trigger] list[m] as int) == visits(a, list[m] as int),
    ensures
        occ_sum(b, list) == occ_sum(a, list),
{
    lemma_occ_sum_pointwise(b, list, a, list);
}

} // verus!
