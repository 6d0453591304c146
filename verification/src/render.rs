//! Rendering of terms and patterns as s-expressions: a leaf is its op, an
//! inner node is `(op child ...)`, a pattern variable is `?#k`, a de Bruijn
//! variable is `$i`.
use vstd::prelude::*;
use crate::tree::{lemma_tree_after_kids, lemma_tree_before_kids, tree_after, tree_before, Tree};
use crate::lang::{
    children_after, children_before, nodes_view, Op, PatternNode, PatternOp, SpecNode, SpecOp,
    SpecPatternOp,
};

verus! {

/// The character of a decimal digit.
pub open spec fn digit_char(d: int) -> char {
    if d == 0 {
        '0'
    } else if d == 1 {
        '1'
    } else if d == 2 {
        '2'
    } else if d == 3 {
        '3'
    } else if d == 4 {
        '4'
    } else if d == 5 {
        '5'
    } else if d == 6 {
        '6'
    } else if d == 7 {
        '7'
    } else if d == 8 {
        '8'
    } else {
        '9'
    }
}

/// The decimal notation of a natural number.
pub open spec fn decimal(n: nat) -> Seq<char>
    decreases n,
{
    if n < 10 {
        seq![digit_char(n as int)]
    } else {
        decimal(n / 10) + seq![digit_char((n % 10) as int)]
    }
}

/// The number that a string of decimal digits denotes, most significant
/// digit first.
pub open spec fn digits_value(s: Seq<char>) -> int
    decreases s.len(),
{
    if s.len() == 0 {
        0
    } else {
        digits_value(s.drop_last()) * 10 + (s.last() as int - '0' as int)
    }
}

/// Whether every character is one of `0` to `9`.
pub open spec fn all_digits(s: Seq<char>) -> bool {
    forall|i: int| 0 <= i < s.len() ==> '0' as int <= #[trigger] s[i] as int <= '9' as int
}

/// The notation of `n` is its ordinary decimal numeral: digits only, most
/// significant first, reading back as `n`, with no leading zero; so `?#k`
/// and `$i` show their numbers as written, `10` as `10`.
pub proof fn lemma_decimal_reads_back(n: nat)
    ensures
        decimal(n).len() >= 1,
        all_digits(decimal(n)),
        digits_value(decimal(n)) == n,
        decimal(n).len() > 1 ==> decimal(n)[0] != '0',
    decreases n,
{
    assert forall|d: int| 0 <= d <= 9 implies #[trigger] digit_char(d) as int == '0' as int + d by {
        if d == 0 {} else if d == 1 {} else if d == 2 {} else if d == 3 {} else if d == 4 {}
        else if d == 5 {} else if d == 6 {} else if d == 7 {} else if d == 8 {} else {}
    }
    if n < 10 {
        assert(decimal(n).drop_last() =~= Seq::<char>::empty());
        assert(digits_value(Seq::<char>::empty()) == 0);
        assert(decimal(n).last() == digit_char(n as int));
        assert(digit_char(n as int) as int == '0' as int + n);
    } else {
        let q = (n / 10) as nat;
        let r = (n % 10) as int;
        lemma_decimal_reads_back(q);
        let d = decimal(n);
        assert(d == decimal(q) + seq![digit_char(r)]);
        assert(d.drop_last() =~= decimal(q));
        assert(digit_char(r) as int == '0' as int + r);
        assert(d.last() == digit_char(r));
        assert(digits_value(d) == digits_value(decimal(q)) * 10 + r);
        assert(q * 10 + r == n) by (nonlinear_arith)
            requires
                q == n / 10,
                r == n % 10,
        ;
        assert forall|i: int| 0 <= i < d.len() implies '0' as int <= #[trigger] d[i] as int <= '9' as int by {
            if i < decimal(q).len() {
                assert(d[i] == decimal(q)[i]);
            }
        }
        assert(d[0] == decimal(q)[0]);
        if decimal(q).len() == 1 {
            assert(q >= 1);
            assert(decimal(q)[0] as int == digits_value(decimal(q)) + '0' as int) by {
                assert(decimal(q).drop_last() =~= Seq::<char>::empty());
                assert(digits_value(Seq::<char>::empty()) == 0);
                assert(decimal(q).last() == decimal(q)[0]);
            }
        }
    }
}

/// The decimal notation of an integer, with a minus sign when negative.
pub open spec fn signed_decimal(i: int) -> Seq<char> {
    if i < 0 {
        seq!['-'] + decimal((-i) as nat)
    } else {
        decimal(i as nat)
    }
}

/// The notation of an integer is its decimal numeral, after a minus sign
/// when it is negative: the digits read back as its magnitude.
pub proof fn lemma_signed_decimal_reads_back(i: int)
    ensures
        i >= 0 ==> all_digits(signed_decimal(i)) && digits_value(signed_decimal(i)) == i,
        i < 0 ==> signed_decimal(i).len() >= 2 && signed_decimal(i)[0] == '-' && all_digits(
            signed_decimal(i).drop_first(),
        ) && digits_value(signed_decimal(i).drop_first()) == -i,
{
    if i >= 0 {
        lemma_decimal_reads_back(i as nat);
    } else {
        lemma_decimal_reads_back((-i) as nat);
        assert(signed_decimal(i).drop_first() =~= decimal((-i) as nat));
    }
}

/// The text of a program op.
pub open spec fn op_text(op: SpecOp) -> Seq<char> {
    match op {
        SpecOp::Sym(s) => s,
        SpecOp::Lam => seq!['l', 'a', 'm'],
        SpecOp::App => seq!['@'],
        SpecOp::DbVar(i) => seq!['$'] + signed_decimal(i as int),
    }
}

/// The text of a pattern op: `?#k` for a pattern variable.
pub open spec fn pattern_op_text(op: SpecPatternOp) -> Seq<char> {
    match op {
        SpecPatternOp::Var(k) => seq!['?', '#'] + decimal(k as nat),
        SpecPatternOp::Node(o) => op_text(o),
    }
}

/// The s-expression of the node at `id` of nodes in pattern order (children
/// after their parent).
pub open spec fn render_after(nodes: Seq<SpecNode>, id: int) -> Seq<char>
    decreases nodes.len() - id, nodes[id].children.len() + 1,
{
    if 0 <= id < nodes.len() {
        let node = nodes[id];
        if node.children.len() == 0 {
            pattern_op_text(node.op)
        } else {
            seq!['('] + pattern_op_text(node.op) + render_after_kids(nodes, id, node.children.len() as int)
                + seq![')']
        }
    } else {
        Seq::empty()
    }
}

/// The first `j` children of the node at `id`, each after a space.
pub open spec fn render_after_kids(nodes: Seq<SpecNode>, id: int, j: int) -> Seq<char>
    decreases nodes.len() - id, j,
{
    if 0 <= id < nodes.len() && 0 < j <= nodes[id].children.len() {
        let c = nodes[id].children[j - 1] as int;
        let rest = render_after_kids(nodes, id, j - 1);
        if id < c < nodes.len() {
            rest + seq![' '] + render_after(nodes, c)
        } else {
            rest + seq![' ']
        }
    } else {
        Seq::empty()
    }
}

/// The s-expression of the node at `id` of nodes in term order (children
/// before their parent).
pub open spec fn render_before(nodes: Seq<SpecNode>, id: int) -> Seq<char>
    decreases id, nodes[id].children.len() + 1,
{
    if 0 <= id < nodes.len() {
        let node = nodes[id];
        if node.children.len() == 0 {
            pattern_op_text(node.op)
        } else {
            seq!['('] + pattern_op_text(node.op) + render_before_kids(nodes, id, node.children.len() as int)
                + seq![')']
        }
    } else {
        Seq::empty()
    }
}

/// The first `j` children of the node at `id`, each after a space.
pub open spec fn render_before_kids(nodes: Seq<SpecNode>, id: int, j: int) -> Seq<char>
    decreases id, j,
{
    if 0 <= id < nodes.len() && 0 < j <= nodes[id].children.len() {
        let c = nodes[id].children[j - 1] as int;
        let rest = render_before_kids(nodes, id, j - 1);
        if 0 <= c < id {
            rest + seq![' '] + render_before(nodes, c)
        } else {
            rest + seq![' ']
        }
    } else {
        Seq::empty()
    }
}

/// Appends one character to a string: `String::push`.
#[verifier::external_body]
pub(crate) fn push_char(s: &mut String, c: char)
    ensures
        final(s)@ == old(s)@.push(c),
{
    s.push(c);
}

fn digit(d: u64) -> (c: char)
    requires
        d < 10,
    ensures
        c == digit_char(d as int),
{
    if d == 0 {
        '0'
    } else if d == 1 {
        '1'
    } else if d == 2 {
        '2'
    } else if d == 3 {
        '3'
    } else if d == 4 {
        '4'
    } else if d == 5 {
        '5'
    } else if d == 6 {
        '6'
    } else if d == 7 {
        '7'
    } else if d == 8 {
        '8'
    } else {
        '9'
    }
}

/// Appends the decimal notation of `n`.
pub fn push_decimal(out: &mut String, n: u64)
    ensures
        final(out)@ == old(out)@ + decimal(n as nat),
    decreases n,
{
    if n < 10 {
        push_char(out, digit(n));
        assert(out@ =~= old(out)@ + decimal(n as nat));
    } else {
        push_decimal(out, n / 10);
        push_char(out, digit(n % 10));
        assert(out@ =~= old(out)@ + decimal(n as nat));
    }
}

/// Appends the text of a program op.
pub fn push_op_text(out: &mut String, op: &Op)
    ensures
        final(out)@ == old(out)@ + op_text(op@),
{
    match op {
        Op::Sym(s) => {
            out.append(s.as_str());
        },
        Op::Lam => {
            push_char(out, 'l');
            push_char(out, 'a');
            push_char(out, 'm');
            assert(out@ =~= old(out)@ + op_text(op@));
        },
        Op::App => {
            push_char(out, '@');
            assert(out@ =~= old(out)@ + op_text(op@));
        },
        Op::DbVar(i) => {
            push_char(out, '$');
            if *i < 0 {
                push_char(out, '-');
                let m: i64 = -(*i as i64);
                push_decimal(out, m as u64);
            } else {
                push_decimal(out, *i as u64);
            }
            assert(out@ =~= old(out)@ + op_text(op@));
        },
    }
}

/// Appends the text of a pattern op.
pub fn push_pattern_op_text(out: &mut String, op: &PatternOp)
    ensures
        final(out)@ == old(out)@ + pattern_op_text(op@),
{
    match op {
        PatternOp::Var(k) => {
            push_char(out, '?');
            push_char(out, '#');
            push_decimal(out, *k as u64);
            assert(out@ =~= old(out)@ + pattern_op_text(op@));
        },
        PatternOp::Node(o) => {
            push_op_text(out, o);
        },
    }
}

/// Appends the s-expression of the node at `id` of nodes in pattern order.
pub fn push_render_after(out: &mut String, nodes: &Vec<PatternNode>, id: usize)
    requires
        children_after(nodes_view(nodes@)),
        id < nodes.len(),
    ensures
        final(out)@ == old(out)@ + render_after(nodes_view(nodes@), id as int),
    decreases nodes.len() - id,
{
    let ghost v = nodes_view(nodes@);
    let node = &nodes[id];
    assert(v[id as int] == node@);
    let k = node.children.len();
    if k == 0 {
        push_pattern_op_text(out, &node.op);
        return ;
    }
    push_char(out, '(');
    push_pattern_op_text(out, &node.op);
    let ghost start = out@;
    assert(render_after_kids(v, id as int, 0) =~= Seq::<char>::empty());
    let mut j: usize = 0;
    while j < k
        invariant
            v == nodes_view(nodes@),
            children_after(v),
            id < nodes.len(),
            node@ == v[id as int],
            k == node.children.len(),
            j <= k,
            out@ == start + render_after_kids(v, id as int, j as int),
        decreases k - j,
    {
        let c = node.children[j];
        assert(v[id as int].children[j as int] == c);
        push_char(out, ' ');
        push_render_after(out, nodes, c);
        assert(out@ =~= start + render_after_kids(v, id as int, j + 1));
        j = j + 1;
    }
    push_char(out, ')');
    assert(out@ =~= old(out)@ + render_after(v, id as int));
}

/// Appends the s-expression of the node at `id` of nodes in term order.
pub fn push_render_before(out: &mut String, nodes: &Vec<PatternNode>, id: usize)
    requires
        children_before(nodes_view(nodes@)),
        id < nodes.len(),
    ensures
        final(out)@ == old(out)@ + render_before(nodes_view(nodes@), id as int),
    decreases id,
{
    let ghost v = nodes_view(nodes@);
    let node = &nodes[id];
    assert(v[id as int] == node@);
    let k = node.children.len();
    if k == 0 {
        push_pattern_op_text(out, &node.op);
        return ;
    }
    push_char(out, '(');
    push_pattern_op_text(out, &node.op);
    let ghost start = out@;
    assert(render_before_kids(v, id as int, 0) =~= Seq::<char>::empty());
    let mut j: usize = 0;
    while j < k
        invariant
            v == nodes_view(nodes@),
            children_before(v),
            id < nodes.len(),
            node@ == v[id as int],
            k == node.children.len(),
            j <= k,
            out@ == start + render_before_kids(v, id as int, j as int),
        decreases k - j,
    {
        let c = node.children[j];
        assert(v[id as int].children[j as int] == c);
        push_char(out, ' ');
        push_render_before(out, nodes, c);
        assert(out@ =~= start + render_before_kids(v, id as int, j + 1));
        j = j + 1;
    }
    push_char(out, ')');
    assert(out@ =~= old(out)@ + render_before(v, id as int));
}


/// The s-expression of a tree.
pub open spec fn render_tree(t: Tree) -> Seq<char>
    decreases t, t.kids.len() + 1,
{
    if t.kids.len() == 0 {
        pattern_op_text(t.op)
    } else {
        seq!['('] + pattern_op_text(t.op) + render_tree_kids(t, t.kids.len() as int) + seq![')']
    }
}

/// The first `j` children of a tree, each after a space.
pub open spec fn render_tree_kids(t: Tree, j: int) -> Seq<char>
    decreases t, j,
{
    if 0 < j <= t.kids.len() {
        render_tree_kids(t, j - 1) + seq![' '] + render_tree(t.kids[j - 1])
    } else {
        Seq::empty()
    }
}

/// Rendering the nodes of a pattern renders the tree they denote.
pub proof fn lemma_render_after_tree(nodes: Seq<SpecNode>, id: int)
    requires
        children_after(nodes),
        0 <= id < nodes.len(),
    ensures
        render_after(nodes, id) == render_tree(tree_after(nodes, id)),
    decreases nodes.len() - id, nodes[id].children.len() + 1,
{
    let k = nodes[id].children.len() as int;
    lemma_tree_after_kids(nodes, id, k);
    lemma_render_after_kids_tree(nodes, id, k);
}

proof fn lemma_render_after_kids_tree(nodes: Seq<SpecNode>, id: int, j: int)
    requires
        children_after(nodes),
        0 <= id < nodes.len(),
        0 <= j <= nodes[id].children.len(),
    ensures
        render_after_kids(nodes, id, j) == render_tree_kids(tree_after(nodes, id), j),
    decreases nodes.len() - id, j,
{
    let t = tree_after(nodes, id);
    lemma_tree_after_kids(nodes, id, nodes[id].children.len() as int);
    if j > 0 {
        lemma_render_after_kids_tree(nodes, id, j - 1);
        let c = nodes[id].children[j - 1] as int;
        assert(id < c < nodes.len());
        lemma_render_after_tree(nodes, c);
    }
}

/// Rendering nodes in term order renders the tree they denote.
pub proof fn lemma_render_before_tree(nodes: Seq<SpecNode>, id: int)
    requires
        children_before(nodes),
        0 <= id < nodes.len(),
    ensures
        render_before(nodes, id) == render_tree(tree_before(nodes, id)),
    decreases id, nodes[id].children.len() + 1,
{
    let k = nodes[id].children.len() as int;
    lemma_tree_before_kids(nodes, id, k);
    lemma_render_before_kids_tree(nodes, id, k);
}

proof fn lemma_render_before_kids_tree(nodes: Seq<SpecNode>, id: int, j: int)
    requires
        children_before(nodes),
        0 <= id < nodes.len(),
        0 <= j <= nodes[id].children.len(),
    ensures
        render_before_kids(nodes, id, j) == render_tree_kids(tree_before(nodes, id), j),
    decreases id, j,
{
    lemma_tree_before_kids(nodes, id, nodes[id].children.len() as int);
    if j > 0 {
        lemma_render_before_kids_tree(nodes, id, j - 1);
        let c = nodes[id].children[j - 1] as int;
        assert(0 <= c < id);
        lemma_render_before_tree(nodes, c);
    }
}

} // verus!
