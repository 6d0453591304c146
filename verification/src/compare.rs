//! Structural equality of patterns: two patterns are equal when the terms
//! reached from their roots are equal, whatever the layout of their node
//! vectors.
use vstd::prelude::*;
use crate::lang::{nodes_view, Op, PatternNode, PatternOp};
use crate::pattern::Pattern;
use crate::revexpr::RevExpr;
use crate::tree::{no_tree, tree_after, tree_after_kids};

verus! {

/// Whether two ops are the same.
pub fn op_eq(a: &PatternOp, b: &PatternOp) -> (r: bool)
    ensures
        r == (a@ == b@),
{
    match (a, b) {
        (PatternOp::Var(x), PatternOp::Var(y)) => *x == *y,
        (PatternOp::Node(o1), PatternOp::Node(o2)) => match (o1, o2) {
            (Op::Sym(s1), Op::Sym(s2)) => *s1 == *s2,
            (Op::Lam, Op::Lam) => true,
            (Op::App, Op::App) => true,
            (Op::DbVar(i), Op::DbVar(j)) => *i == *j,
            _ => false,
        },
        _ => false,
    }
}

/// Whether the node at `c` stands, as a child, for the same tree as an id
/// out of range: a leaf `?#0`.
fn is_placeholder(nodes: &Vec<PatternNode>, c: usize) -> (r: bool)
    requires
        c < nodes.len(),
    ensures
        r == (tree_after(nodes_view(nodes@), c as int) == no_tree()),
{
    let ghost v = nodes_view(nodes@);
    let node = &nodes[c];
    assert(v[c as int] == node@);
    let r = match node.op {
        PatternOp::Var(k) => k == 0 && node.children.len() == 0,
        _ => false,
    };
    proof {
        let t = tree_after(v, c as int);
        if r {
            assert(tree_after_kids(v, c as int, 0) =~= Seq::empty());
            assert(t.kids =~= no_tree().kids);
        } else if t == no_tree() {
            if node.children.len() > 0 {
                assert(tree_after_kids(v, c as int, node.children.len() as int).len() > 0);
            }
        }
    }
    r
}

/// The tree of child slot `j` of node `id`.
spec fn kid_tree(v: Seq<crate::lang::SpecNode>, id: int, j: int) -> crate::tree::Tree {
    let c = v[id].children[j] as int;
    if id < c < v.len() {
        tree_after(v, c)
    } else {
        no_tree()
    }
}

proof fn lemma_kids_at(v: Seq<crate::lang::SpecNode>, id: int, j: int)
    requires
        0 <= id < v.len(),
        0 <= j <= v[id].children.len(),
    ensures
        tree_after_kids(v, id, j).len() == j,
        forall|i: int| 0 <= i < j ==> #[trigger] tree_after_kids(v, id, j)[i] == kid_tree(v, id, i),
    decreases j,
{
    if j > 0 {
        lemma_kids_at(v, id, j - 1);
    }
}

/// Whether the terms rooted at `ai` in `a` and at `bi` in `b` are equal.
/// Walks from the roots rather than comparing the vectors, whose layout
/// depends on the order of construction.
pub(crate) fn nodes_eq(a: &RevExpr<PatternNode>, b: &RevExpr<PatternNode>, ai: usize, bi: usize) -> (r: bool)
    requires
        ai < a.nodes.len(),
        bi < b.nodes.len(),
    ensures
        r == (tree_after(nodes_view(a.nodes@), ai as int) == tree_after(nodes_view(b.nodes@), bi as int)),
    decreases a.nodes.len() - ai,
{
    let ghost av = nodes_view(a.nodes@);
    let ghost bv = nodes_view(b.nodes@);
    let na = &a.nodes[ai];
    let nb = &b.nodes[bi];
    assert(av[ai as int] == na@);
    assert(bv[bi as int] == nb@);
    let ghost ta = tree_after(av, ai as int);
    let ghost tb = tree_after(bv, bi as int);
    proof {
        lemma_kids_at(av, ai as int, na.children.len() as int);
        lemma_kids_at(bv, bi as int, nb.children.len() as int);
    }
    if !op_eq(&na.op, &nb.op) {
        return false;
    }
    let k = na.children.len();
    if k != nb.children.len() {
        assert(ta.kids.len() != tb.kids.len());
        return false;
    }
    let mut j: usize = 0;
    while j < k
        invariant
            av == nodes_view(a.nodes@),
            bv == nodes_view(b.nodes@),
            ai < a.nodes.len(),
            bi < b.nodes.len(),
            na@ == av[ai as int],
            nb@ == bv[bi as int],
            k == na.children.len(),
            k == nb.children.len(),
            ta == tree_after(av, ai as int),
            tb == tree_after(bv, bi as int),
            ta.kids.len() == k,
            tb.kids.len() == k,
            forall|i: int| 0 <= i < k ==> #[trigger] ta.kids[i] == kid_tree(av, ai as int, i),
            forall|i: int| 0 <= i < k ==> #[trigger] tb.kids[i] == kid_tree(bv, bi as int, i),
            j <= k,
            forall|i: int| 0 <= i < j ==> ta.kids[i] == tb.kids[i],
        decreases k - j,
    {
        let ca = na.children[j];
        let cb = nb.children[j];
        let valid_a = ai < ca && ca < a.nodes.len();
        let valid_b = bi < cb && cb < b.nodes.len();
        let same = if valid_a && valid_b {
            nodes_eq(a, b, ca, cb)
        } else if valid_a {
            is_placeholder(&a.nodes, ca)
        } else if valid_b {
            is_placeholder(&b.nodes, cb)
        } else {
            true
        };
        assert(same == (ta.kids[j as int] == tb.kids[j as int]));
        if !same {
            return false;
        }
        j = j + 1;
    }
    assert(ta.kids =~= tb.kids);
    true
}

impl PartialEq for Pattern {
    fn eq(&self, other: &Self) -> (r: bool) {
        if self.pattern.nodes.len() == 0 || other.pattern.nodes.len() == 0 {
            let a_empty = self.pattern.nodes.len() == 0;
            let b_empty = other.pattern.nodes.len() == 0;
            if a_empty && b_empty {
                true
            } else if a_empty {
                is_placeholder(&other.pattern.nodes, 0)
            } else {
                is_placeholder(&self.pattern.nodes, 0)
            }
        } else {
            nodes_eq(&self.pattern, &other.pattern, 0, 0)
        }
    }
}

impl Eq for Pattern {
}

impl vstd::std_specs::cmp::PartialEqSpecImpl for Pattern {
    open spec fn obeys_eq_spec() -> bool {
        true
    }

    open spec fn eq_spec(&self, other: &Self) -> bool {
        tree_after(self@.nodes, 0) == tree_after(other@.nodes, 0)
    }
}

} // verus!
