//! The state of a search over patterns: the pattern built so far and, for
//! every e-class where it can be rooted, the ways it matches there.
use vstd::prelude::*;
use crate::pattern::Pattern;
use crate::lang::var_leaf;

verus! {

/// A substitution: the e-class bound to each pattern variable, as pairs of
/// a variable index and an e-class id.
#[derive(Debug, Clone)]
pub struct Subst {
    pub vars: Vec<(u32, usize)>,
}

/// The matches of a pattern rooted at one e-class.
#[derive(Debug, Clone)]
pub struct MatchAtEClass {
    pub root_eclass: usize,
    /// `variables[i]`: the `i`-th way to match the pattern there.
    pub variables: Vec<Subst>,
}

/// A pattern under construction and where it matches.
#[derive(Debug, Clone)]
pub struct SearchState {
    pub pattern: Pattern,
    /// One entry per e-class at which the pattern can be rooted.
    pub matches: Vec<MatchAtEClass>,
}

impl SearchState {
    /// The search state before any step: the pattern `?#0`, which matches
    /// once, with nothing bound, at every e-class.
    pub fn empty(class_ids: &Vec<usize>) -> (s: Self)
        ensures
            s.pattern@.wf(),
            s.pattern@.nodes == seq![var_leaf(0)],
            s.pattern@.vars == seq![seq![0usize]],
            s.pattern@.var_depth == seq![0u32],
            s.pattern@.var_occurrences == seq![1usize],
            s.pattern@.var_reusable == seq![true],
            s.matches.len() == class_ids.len(),
            forall|i: int|
                0 <= i < class_ids.len() ==> {
                    &&& (#[trigger] s.matches@[i]).root_eclass == class_ids@[i]
                    &&& s.matches@[i].variables.len() == 1
                    &&& s.matches@[i].variables@[0].vars@.len() == 0
                },
    {
        let mut matches: Vec<MatchAtEClass> = Vec::new();
        let mut i: usize = 0;
        while i < class_ids.len()
            invariant
                i <= class_ids.len(),
                matches.len() == i,
                forall|j: int|
                    0 <= j < i ==> {
                        &&& (#[trigger] matches@[j]).root_eclass == class_ids@[j]
                        &&& matches@[j].variables.len() == 1
                        &&& matches@[j].variables@[0].vars@.len() == 0
                    },
            decreases class_ids.len() - i,
        {
            let mut variables: Vec<Subst> = Vec::new();
            variables.push(Subst { vars: Vec::new() });
            matches.push(MatchAtEClass { root_eclass: class_ids[i], variables });
            i = i + 1;
        }
        SearchState { pattern: Pattern::single_var(), matches }
    }
}

} // verus!
