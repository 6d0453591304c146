//! The node language shared by programs and patterns.
//!
//! A program node carries an [`Op`] and the ids of its children. A pattern
//! node carries a [`PatternOp`]: either a program op or a pattern variable
//! `?#k`. Ids are indices into the vector of nodes that holds the node.
use vstd::prelude::*;

verus! {

/// The operator of a program node.
#[derive(Debug, Clone, PartialEq, Eq, Hash)]
pub enum Op {
    /// A named operator or constant, such as `+` or `x`.
    Sym(String),
    /// A lambda binder; its first child lies one binder deeper.
    Lam,
    /// Application of its first child to its second.
    App,
    /// A de Bruijn variable `$i`.
    DbVar(i32),
}

/// The mathematical value of an [`Op`].
pub enum SpecOp {
    Sym(Seq<char>),
    Lam,
    App,
    DbVar(i32),
}

impl View for Op {
    type V = SpecOp;

    open spec fn view(&self) -> SpecOp {
        match self {
            Op::Sym(s) => SpecOp::Sym(s@),
            Op::Lam => SpecOp::Lam,
            Op::App => SpecOp::App,
            Op::DbVar(i) => SpecOp::DbVar(*i),
        }
    }
}

/// The operator of a pattern node: a pattern variable or a program op.
#[derive(Debug, Clone, PartialEq, Eq, Hash)]
pub enum PatternOp {
    /// The pattern variable `?#k`.
    Var(u32),
    /// A program operator.
    Node(Op),
}

/// The mathematical value of a [`PatternOp`].
pub enum SpecPatternOp {
    Var(u32),
    Node(SpecOp),
}

impl View for PatternOp {
    type V = SpecPatternOp;

    open spec fn view(&self) -> SpecPatternOp {
        match self {
            PatternOp::Var(k) => SpecPatternOp::Var(*k),
            PatternOp::Node(o) => SpecPatternOp::Node(o@),
        }
    }
}

/// A node of a program term.
#[derive(Debug, Clone)]
pub struct ProgramNode {
    pub op: Op,
    pub children: Vec<usize>,
}

/// A node of a pattern.
#[derive(Debug, Clone)]
pub struct PatternNode {
    pub op: PatternOp,
    pub children: Vec<usize>,
}

/// The mathematical value of a node: its op and its children's ids.
pub struct SpecNode {
    pub op: SpecPatternOp,
    pub children: Seq<usize>,
}

impl View for PatternNode {
    type V = SpecNode;

    open spec fn view(&self) -> SpecNode {
        SpecNode { op: self.op@, children: self.children@ }
    }
}

impl View for ProgramNode {
    type V = SpecNode;

    open spec fn view(&self) -> SpecNode {
        SpecNode { op: SpecPatternOp::Node(self.op@), children: self.children@ }
    }
}

/// The nodes of a vector, each by its value.
pub open spec fn nodes_view(nodes: Seq<PatternNode>) -> Seq<SpecNode> {
    nodes.map_values(|n: PatternNode| n@)
}

/// Nodes in pattern order: every child id lies after its parent and in range.
pub open spec fn children_after(nodes: Seq<SpecNode>) -> bool {
    forall|i: int, j: int|
        0 <= i < nodes.len() && 0 <= j < nodes[i].children.len() ==> i
            < #[trigger] nodes[i].children[j] < nodes.len()
}

/// Nodes in term order: every child id lies before its parent.
pub open spec fn children_before(nodes: Seq<SpecNode>) -> bool {
    forall|i: int, j: int|
        0 <= i < nodes.len() && 0 <= j < nodes[i].children.len() ==> 0
            <= #[trigger] nodes[i].children[j] < i
}

/// A leaf holding the pattern variable `?#k`.
pub open spec fn var_leaf(k: u32) -> SpecNode {
    SpecNode { op: SpecPatternOp::Var(k), children: Seq::empty() }
}

/// Whether child slot `j` of a node with op `op` lies under one more binder.
pub open spec fn spec_binds_child(op: SpecPatternOp, j: int) -> bool {
    op == SpecPatternOp::Node(SpecOp::Lam) && j == 0
}

/// The number of binders that child slot `j` adds: one or zero.
pub open spec fn binder_step(op: SpecPatternOp, j: int) -> int {
    if spec_binds_child(op, j) {
        1
    } else {
        0
    }
}

/// The op with a free de Bruijn index shifted by `delta`; other ops unchanged.
pub open spec fn shifted_op(op: SpecOp, delta: int) -> SpecOp {
    match op {
        SpecOp::DbVar(i) => SpecOp::DbVar((i + delta) as i32),
        _ => op,
    }
}

/// Whether shifting `op` by `delta` yields a valid de Bruijn index.
pub open spec fn shift_in_range(op: SpecOp, delta: int) -> bool {
    match op {
        SpecOp::DbVar(i) => 0 <= i + delta <= i32::MAX,
        _ => true,
    }
}

impl Op {
    /// A copy of this op.
    pub fn duplicate(&self) -> (r: Op)
        ensures
            r@ == self@,
    {
        match self {
            Op::Sym(s) => Op::Sym(s.clone()),
            Op::Lam => Op::Lam,
            Op::App => Op::App,
            Op::DbVar(i) => Op::DbVar(*i),
        }
    }

    /// The de Bruijn index this op carries, if it is a de Bruijn variable.
    pub fn de_bruijn_index(&self) -> (r: Option<i32>)
        ensures
            r == (match self@ {
                SpecOp::DbVar(i) => Some(i),
                _ => None,
            }),
    {
        match self {
            Op::DbVar(i) => Some(*i),
            _ => None,
        }
    }

    /// The de Bruijn variable with index `i`; none for a negative index.
    pub fn make_db_var(i: i32) -> (r: Option<Op>)
        ensures
            i >= 0 ==> (r matches Some(o) && o@ == SpecOp::DbVar(i)),
            i < 0 ==> r is None,
    {
        if i >= 0 {
            Some(Op::DbVar(i))
        } else {
            None
        }
    }
}

impl PatternOp {
    /// A copy of this op.
    pub fn duplicate(&self) -> (r: PatternOp)
        ensures
            r@ == self@,
    {
        match self {
            PatternOp::Var(k) => PatternOp::Var(*k),
            PatternOp::Node(o) => PatternOp::Node(o.duplicate()),
        }
    }

    /// The pattern variable this op holds, if it is one.
    pub fn as_var(&self) -> (r: Option<u32>)
        ensures
            r == (match self@ {
                SpecPatternOp::Var(k) => Some(k),
                _ => None,
            }),
    {
        match self {
            PatternOp::Var(k) => Some(*k),
            _ => None,
        }
    }

    /// Whether child slot `j` of a node with this op lies under one more binder.
    pub fn binds_child(&self, j: usize) -> (r: bool)
        ensures
            r == spec_binds_child(self@, j as int),
    {
        match self {
            PatternOp::Node(Op::Lam) => j == 0,
            _ => false,
        }
    }
}

/// A copy of a vector of ids.
pub fn copy_ids(v: &Vec<usize>) -> (r: Vec<usize>)
    ensures
        r@ == v@,
{
    let mut r: Vec<usize> = Vec::new();
    let mut i: usize = 0;
    while i < v.len()
        invariant
            i <= v.len(),
            r@ == v@.subrange(0, i as int),
        decreases v.len() - i,
    {
        r.push(v[i]);
        i = i + 1;
    }
    assert(r@ =~= v@);
    r
}

impl PatternNode {
    /// A copy of this node.
    pub fn duplicate(&self) -> (r: PatternNode)
        ensures
            r@ == self@,
    {
        PatternNode { op: self.op.duplicate(), children: copy_ids(&self.children) }
    }

    /// A leaf holding the pattern variable `?#k`.
    pub fn var_node(k: u32) -> (r: PatternNode)
        ensures
            r@ == var_leaf(k),
    {
        let r = PatternNode { op: PatternOp::Var(k), children: Vec::new() };
        assert(r@.children =~= Seq::<usize>::empty());
        r
    }
}

} // verus!
