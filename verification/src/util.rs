//! Text of a program term for display: a term rooted at `programs` shows
//! one program per line; and the list of programs that a programs file
//! holds.
use vstd::prelude::*;
use crate::lang::{
    children_before, nodes_view, Op, PatternNode, PatternOp, SpecNode, SpecOp, SpecPatternOp,
};
use crate::render::{push_char, push_render_before, render_before};

verus! {

/// The name of the node that gathers all programs.
pub open spec fn programs_name() -> Seq<char> {
    seq!['p', 'r', 'o', 'g', 'r', 'a', 'm', 's']
}

/// The lines of the first `j` children of the root, each indented by two
/// spaces.
pub open spec fn program_lines(nodes: Seq<SpecNode>, root: int, j: int) -> Seq<char>
    decreases j,
{
    if 0 < j <= nodes[root].children.len() {
        program_lines(nodes, root, j - 1) + seq![' ', ' '] + render_before(
            nodes,
            nodes[root].children[j - 1] as int,
        ) + seq!['\n']
    } else {
        Seq::empty()
    }
}

/// The text of a term in term order: when its root is `programs`, the line
/// `(programs`, one indented line per child, and `)`; otherwise the term
/// on one line.
pub open spec fn programs_text(nodes: Seq<SpecNode>) -> Seq<char> {
    let root = nodes.len() - 1;
    if nodes[root].op == SpecPatternOp::Node(SpecOp::Sym(programs_name())) {
        seq!['('] + programs_name() + seq!['\n'] + program_lines(
            nodes,
            root,
            nodes[root].children.len() as int,
        ) + seq![')', '\n']
    } else {
        render_before(nodes, root) + seq!['\n']
    }
}

/// Whether a name is `programs`.
fn is_programs(s: &String) -> (r: bool)
    ensures
        r == (s@ == programs_name()),
{
    let name = String::from_str("programs");
    proof {
        reveal_strlit("programs");
        assert(name@ =~= programs_name());
    }
    *s == name
}

/// The text that shows a program term, one program per line when its root
/// is `programs`.
pub fn format_programs(term: &Vec<PatternNode>) -> (s: String)
    requires
        term.len() >= 1,
        children_before(nodes_view(term@)),
    ensures
        s@ == programs_text(nodes_view(term@)),
{
    let ghost v = nodes_view(term@);
    let root = term.len() - 1;
    let node = &term[root];
    assert(v[root as int] == node@);
    let named = match &node.op {
        PatternOp::Node(Op::Sym(name)) => is_programs(name),
        _ => false,
    };
    let mut s = String::new();
    if named {
        push_char(&mut s, '(');
        s.append(String::from_str("programs").as_str());
        proof {
            reveal_strlit("programs");
        }
        push_char(&mut s, '\n');
        let ghost start = s@;
        assert(program_lines(v, root as int, 0) =~= Seq::<char>::empty());
        let mut j: usize = 0;
        while j < node.children.len()
            invariant
                v == nodes_view(term@),
                children_before(v),
                root < term.len(),
                node@ == v[root as int],
                j <= node.children.len(),
                s@ == start + program_lines(v, root as int, j as int),
            decreases node.children.len() - j,
        {
            let c = node.children[j];
            assert(v[root as int].children[j as int] == c);
            push_char(&mut s, ' ');
            push_char(&mut s, ' ');
            push_render_before(&mut s, term, c);
            push_char(&mut s, '\n');
            assert(s@ =~= start + program_lines(v, root as int, j + 1));
            j = j + 1;
        }
        push_char(&mut s, ')');
        push_char(&mut s, '\n');
        assert(s@ =~= programs_text(v));
    } else {
        push_render_before(&mut s, term, root);
        push_char(&mut s, '\n');
        assert(s@ =~= programs_text(v));
    }
    s
}

/// The strings that serde_json reads from `text` as a JSON array of
/// strings, or none where it reads no such array.
pub uninterp spec fn json_string_list(text: Seq<char>) -> Option<Seq<Seq<char>>>;

/// serde_json's `from_str::<Vec<String>>`, its error dropped. The contract
/// claims only that the call succeeds exactly when serde_json reads an array
/// of strings from `text`, and then returns those strings; what it reads is
/// left to serde_json's grammar, named by [`json_string_list`].
#[verifier::external_body]
fn parse_string_list(text: &str) -> (r: Option<Vec<String>>)
    ensures
        r is Some <==> json_string_list(text@) is Some,
        r matches Some(v) ==> v@.map_values(|s: String| s@) == json_string_list(text@)->0,
{
    serde_json::from_str::<Vec<String>>(text).ok()
}

/// The programs that the contents of a programs file list: a JSON array of
/// s-expression strings; none where the contents are no such array.
pub fn parse_programs(contents: &str) -> (r: Option<Vec<String>>)
    ensures
        r is Some <==> json_string_list(contents@) is Some,
        r matches Some(v) ==> v@.map_values(|s: String| s@) == json_string_list(contents@)->0,
{
    parse_string_list(contents)
}

} // verus!
