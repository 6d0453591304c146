//! The decisions of the e-graph analysis that prices programs, and the
//! nodes that a search state adds to the e-graph to use its pattern.
use vstd::prelude::*;
use crate::search::{MatchAtEClass, SearchState, Subst};

verus! {

/// The e-class analysis whose datum is the size of the smallest term of
/// the class.
#[derive(Debug, Clone)]
pub struct StitchAnalysis;

/// Whether a cost beats the best one found so far; any cost does when none
/// was found yet.
pub fn improves_best(best: Option<usize>, cost: usize) -> (r: bool)
    ensures
        r == match best {
            Some(b) => cost < b,
            None => true,
        },
{
    match best {
        Some(b) => cost < b,
        None => true,
    }
}

/// The sum of a sequence of sizes.
pub open spec fn sum_sizes(s: Seq<u32>) -> int
    decreases s.len(),
{
    if s.len() == 0 {
        0
    } else {
        sum_sizes(s.drop_last()) + s.last()
    }
}

impl StitchAnalysis {
    /// The datum of a new node: one plus the data of its children.
    pub fn make(children_data: &Vec<u32>) -> (r: u32)
        requires
            1 + sum_sizes(children_data@) <= u32::MAX,
        ensures
            r == 1 + sum_sizes(children_data@),
    {
        let mut total: u32 = 0;
        let mut i: usize = 0;
        while i < children_data.len()
            invariant
                i <= children_data.len(),
                1 + sum_sizes(children_data@) <= u32::MAX,
                total == sum_sizes(children_data@.subrange(0, i as int)),
            decreases children_data.len() - i,
        {
            proof {
                lemma_sum_prefix(children_data@, i as int + 1);
                assert(children_data@.subrange(0, i + 1).drop_last() =~= children_data@.subrange(0, i as int));
            }
            total = total + children_data[i];
            i = i + 1;
        }
        assert(children_data@.subrange(0, i as int) =~= children_data@);
        1 + total
    }

    /// Merges the datum `from` of a class into `to`: the smaller stays.
    /// Returns whether `to` changed and whether `from` differs from the
    /// result.
    pub fn merge(to: &mut u32, from: u32) -> (r: (bool, bool))
        ensures
            *final(to) == if from < *old(to) {
                from
            } else {
                *old(to)
            },
            r == (from < *old(to), from > *old(to)),
    {
        if from < *to {
            *to = from;
            (true, false)
        } else if from == *to {
            (false, false)
        } else {
            (false, true)
        }
    }
}

/// The sizes of no children sum to 0, and one more child of size `x` adds
/// exactly `x`, however many children there are: the datum of a node counts
/// every child.
pub proof fn lemma_sum_sizes_push(s: Seq<u32>, x: u32)
    ensures
        sum_sizes(Seq::<u32>::empty()) == 0,
        sum_sizes(s.push(x)) == sum_sizes(s) + x,
{
    assert(s.push(x).drop_last() =~= s);
}

/// The sum over two lists joined is the sum over each.
pub proof fn lemma_sum_sizes_concat(a: Seq<u32>, b: Seq<u32>)
    ensures
        sum_sizes(a + b) == sum_sizes(a) + sum_sizes(b),
    decreases b.len(),
{
    if b.len() == 0 {
        assert(a + b =~= a);
    } else {
        lemma_sum_sizes_concat(a, b.drop_last());
        assert((a + b).drop_last() =~= a + b.drop_last());
        assert((a + b).last() == b.last());
    }
}

/// The sum of a prefix is at most the sum of the whole.
proof fn lemma_sum_prefix(s: Seq<u32>, i: int)
    requires
        0 <= i <= s.len(),
    ensures
        sum_sizes(s.subrange(0, i)) <= sum_sizes(s),
        sum_sizes(s.subrange(0, i)) >= 0,
    decreases s.len() - i,
{
    if i < s.len() {
        lemma_sum_prefix(s, i + 1);
        assert(s.subrange(0, i + 1).drop_last() =~= s.subrange(0, i));
    } else {
        assert(s.subrange(0, i) =~= s);
    }
    lemma_sum_nonneg(s.subrange(0, i));
}

proof fn lemma_sum_nonneg(s: Seq<u32>)
    ensures
        sum_sizes(s) >= 0,
    decreases s.len(),
{
    if s.len() > 0 {
        lemma_sum_nonneg(s.drop_last());
    }
}

/// The e-classes bound by one substitution, in order.
pub open spec fn subst_classes(vars: Seq<(u32, usize)>) -> Seq<usize> {
    vars.map_values(|p: (u32, usize)| p.1)
}

/// The uses of a pattern at one e-class: per way it matches, the e-classes
/// its variables bind and the e-class itself.
pub open spec fn uses_at(m: MatchAtEClass) -> Seq<(Seq<usize>, usize)> {
    m.variables@.map_values(|sub: Subst| (subst_classes(sub.vars@), m.root_eclass))
}

/// The uses of a pattern over all its matches, in order.
pub open spec fn all_uses(matches: Seq<MatchAtEClass>) -> Seq<(Seq<usize>, usize)>
    decreases matches.len(),
{
    if matches.len() == 0 {
        Seq::empty()
    } else {
        all_uses(matches.drop_last()) + uses_at(matches.last())
    }
}

/// The plain values of a list of uses.
pub open spec fn uses_view(v: Seq<(Vec<usize>, usize)>) -> Seq<(Seq<usize>, usize)> {
    v.map_values(|u: (Vec<usize>, usize)| (u.0@, u.1))
}

/// Every use of the search state's pattern: for each way it matches at an
/// e-class, the e-classes bound to its variables (the children of the node
/// that invokes the abstraction there) and that e-class (which the node
/// joins).
pub fn abstraction_uses(state: &SearchState) -> (r: Vec<(Vec<usize>, usize)>)
    ensures
        uses_view(r@) == all_uses(state.matches@),
{
    let mut r: Vec<(Vec<usize>, usize)> = Vec::new();
    let mut i: usize = 0;
    while i < state.matches.len()
        invariant
            i <= state.matches.len(),
            uses_view(r@) == all_uses(state.matches@.subrange(0, i as int)),
        decreases state.matches.len() - i,
    {
        let m = &state.matches[i];
        let ghost before = uses_view(r@);
        let mut j: usize = 0;
        while j < m.variables.len()
            invariant
                i < state.matches.len(),
                m == &state.matches@[i as int],
                j <= m.variables.len(),
                uses_view(r@) == before + uses_at(*m).subrange(0, j as int),
            decreases m.variables.len() - j,
        {
            let sub = &m.variables[j];
            let mut classes: Vec<usize> = Vec::new();
            let mut x: usize = 0;
            while x < sub.vars.len()
                invariant
                    x <= sub.vars.len(),
                    classes@ == subst_classes(sub.vars@.subrange(0, x as int)),
                decreases sub.vars.len() - x,
            {
                classes.push(sub.vars[x].1);
                assert(classes@ =~= subst_classes(sub.vars@.subrange(0, x + 1)));
                x = x + 1;
            }
            assert(sub.vars@.subrange(0, x as int) =~= sub.vars@);
            let ghost prev = r@;
            r.push((classes, m.root_eclass));
            assert(uses_view(r@) =~= uses_view(prev).push((classes@, m.root_eclass)));
            assert(uses_at(*m).subrange(0, j + 1) =~= uses_at(*m).subrange(0, j as int).push(
                (subst_classes(sub.vars@), m.root_eclass),
            ));
            assert(uses_view(r@) =~= before + uses_at(*m).subrange(0, j + 1));
            j = j + 1;
        }
        assert(uses_at(*m).subrange(0, j as int) =~= uses_at(*m));
        assert(state.matches@.subrange(0, i + 1).drop_last() =~= state.matches@.subrange(0, i as int));
        i = i + 1;
    }
    assert(state.matches@.subrange(0, i as int) =~= state.matches@);
    r
}

} // verus!
