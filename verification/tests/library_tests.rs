use stitch::key::hash_node;
use stitch::lang::{Op, PatternNode, PatternOp, ProgramNode};
use stitch::pattern::{shift_db_disc, Pattern};
use stitch::revexpr::RevExpr;
use stitch::search::{MatchAtEClass, SearchState, Subst};
use stitch::shift::shift_extraction;
use stitch::smc::{abstraction_uses, improves_best, StitchAnalysis};
use stitch::util::{format_programs, parse_programs};

fn op(name: &str, arity: usize) -> ProgramNode {
    ProgramNode { op: Op::Sym(name.to_string()), children: vec![0; arity] }
}

fn lam() -> ProgramNode {
    ProgramNode { op: Op::Lam, children: vec![0] }
}

fn leaf(o: Op) -> PatternNode {
    PatternNode { op: PatternOp::Node(o), children: vec![] }
}

fn node(o: Op, children: Vec<usize>) -> PatternNode {
    PatternNode { op: PatternOp::Node(o), children }
}

fn sym(s: &str) -> Op {
    Op::Sym(s.to_string())
}

#[test]
fn expand_under_lambda_deepens_child() {
    let mut p = Pattern::single_var();
    p.expand(0, &lam());
    assert_eq!(p.to_string(), "(lam ?#0)");
    assert_eq!(p.var_depth, vec![1]);
    p.expand(0, &op("+", 2));
    assert_eq!(p.to_string(), "(lam (+ ?#0 ?#1))");
    assert_eq!(p.var_depth, vec![1, 1]);
}

#[test]
fn expand_flips_reusable_flags() {
    let mut p = Pattern::single_var();
    p.expand(0, &op("f", 3));
    assert_eq!(p.var_reusable, vec![true, true, true]);
    p.expand(1, &op("g", 2));
    assert_eq!(p.var_reusable, vec![false, true, true, false]);
    assert_eq!(p.to_string(), "(f ?#0 (g ?#1 ?#2) ?#3)");
}

#[test]
fn reuse_merges_counts_and_depths() {
    let mut p = Pattern::single_var();
    p.expand(0, &op("f", 3));
    p.expand(0, &lam()); // (f (lam ?#0) ?#1 ?#2)
    assert_eq!(p.var_depth, vec![1, 0, 0]);
    p.reuse(2, 0); // (f (lam ?#0) ?#1 ?#0)
    assert_eq!(p.to_string(), "(f (lam ?#0) ?#1 ?#0)");
    assert_eq!(p.var_depth, vec![0, 0]);
    assert_eq!(p.var_occurrences, vec![2, 1]);
    assert_eq!(p.var_reusable, vec![false, false]);
}

#[test]
fn expand_with_leaf_removes_variable() {
    let mut p = Pattern::single_var();
    p.expand(0, &op("+", 2));
    p.expand(0, &op("x", 0));
    assert_eq!(p.to_string(), "(+ x ?#0)");
    assert_eq!(p.vars.len(), 1);
    assert_eq!(p.vars[0], vec![2]);
}

#[test]
fn expand_db_leaf_shifts_cross_depth_occurrences() {
    // (f (lam ?#0) ?#0): the merged variable sits at depths 1 and 0.
    let mut p = Pattern::single_var();
    p.expand(0, &op("f", 2));
    p.expand(0, &lam());
    p.reuse(0, 1);
    assert_eq!(p.to_string(), "(f (lam ?#0) ?#0)");
    assert_eq!(p.var_depth, vec![0]);
    p.expand(0, &ProgramNode { op: Op::DbVar(0), children: vec![] });
    assert_eq!(p.to_string(), "(f (lam $1) $0)");
    assert!(p.vars.is_empty());
}

#[test]
fn expand_cross_depth_unshares_children() {
    let mut p = Pattern::single_var();
    p.expand(0, &op("f", 2));
    p.expand(0, &lam());
    p.reuse(0, 1); // (f (lam ?#0) ?#0)
    p.expand(0, &op("g", 1));
    assert_eq!(p.to_string(), "(f (lam (g ?#0)) (g ?#0))");
    assert_eq!(p.vars[0].len(), 2);
    assert_eq!(p.var_occurrences, vec![2]);
}

#[test]
fn concretize_shared_same_depth() {
    let mut p = Pattern::single_var();
    p.expand(0, &op("+", 2));
    p.reuse(0, 1); // (+ ?#0 ?#0)
    // (* x y) in term order
    let ext = vec![leaf(sym("x")), leaf(sym("y")), node(sym("*"), vec![0, 1])];
    p.concretize(0, &ext, 2);
    assert_eq!(p.to_string(), "(+ (* x y) (* x y))");
    assert!(p.vars.is_empty());
    assert_eq!(p.pattern.nodes.len(), 3 + 2);
}

#[test]
fn concretize_renames_later_vars() {
    let mut p = Pattern::single_var();
    p.expand(0, &op("f", 3)); // (f ?#0 ?#1 ?#2)
    p.concretize(1, &[leaf(sym("c"))], 0);
    assert_eq!(p.to_string(), "(f ?#0 c ?#1)");
    assert_eq!(p.vars.len(), 2);
}

#[test]
fn concretize_cross_depth_shifts_free_indices() {
    let mut p = Pattern::single_var();
    p.expand(0, &op("f", 2));
    p.expand(0, &lam());
    p.reuse(0, 1); // (f (lam ?#0) ?#0), var depth 0
    // (g $0 (lam $0)): $0 free, the second $0 bound
    let ext = vec![
        leaf(Op::DbVar(0)),
        node(Op::Lam, vec![0]),
        node(sym("g"), vec![0, 1]),
    ];
    p.concretize(0, &ext, 2);
    assert_eq!(p.to_string(), "(f (lam (g $1 (lam $0))) (g $0 (lam $0)))");
}

#[test]
fn shift_extraction_shifts_only_free_indices() {
    let ext = vec![leaf(Op::DbVar(0)), node(Op::Lam, vec![0]), node(sym("g"), vec![0, 1])];
    let (out, root) = shift_extraction(&ext, 2, 2);
    assert_eq!(root, out.len() - 1);
    let rev = RevExpr::from_rec_order(out);
    assert_eq!(rev.to_string(), "(g $2 (lam $0))");
}

#[test]
fn shift_db_disc_moves_index() {
    match shift_db_disc(Op::DbVar(3), -2) {
        Op::DbVar(i) => assert_eq!(i, 1),
        _ => panic!("expected a de Bruijn variable"),
    }
    match shift_db_disc(sym("x"), 5) {
        Op::Sym(s) => assert_eq!(s, "x"),
        _ => panic!("expected a symbol"),
    }
}

#[test]
fn make_db_var_rejects_negative() {
    assert!(Op::make_db_var(-1).is_none());
    assert!(matches!(Op::make_db_var(4), Some(Op::DbVar(4))));
}

#[test]
fn equality_ignores_layout() {
    let mut a = Pattern::single_var();
    a.expand(0, &op("+", 2));
    a.expand(1, &op("*", 2));
    a.reuse(0, 2);
    let mut b = Pattern::single_var();
    b.expand(0, &op("+", 2));
    b.expand(1, &op("*", 2));
    b.reuse(2, 0);
    assert!(a == b);
    // same term, different layout
    let c = Pattern {
        pattern: RevExpr::new(vec![
            node(sym("+"), vec![2, 1]),
            PatternNode { op: PatternOp::Var(0), children: vec![] },
            PatternNode { op: PatternOp::Var(0), children: vec![] },
        ]),
        vars: vec![vec![1, 2]],
        var_depth: vec![0],
        var_occurrences: vec![2],
        var_reusable: vec![true],
    };
    let mut d = Pattern::single_var();
    d.expand(0, &op("+", 2));
    d.reuse(0, 1);
    assert!(c == d);
    assert!(!(a == d));
}

#[test]
fn build_with_ho_wraps_occurrences() {
    let mut p = Pattern::single_var();
    p.expand(0, &op("+", 2)); // (+ ?#0 ?#1)
    let vis: Vec<Vec<i32>> = vec![vec![0, 1], vec![]];
    let out = p.build_with_ho(&vis);
    assert_eq!(out.len(), 3 + 4);
    assert_eq!(p.display_with_ho(&vis), "(+ (@ (@ ?#0 $1) $0) ?#1)");
    let none: Vec<Vec<i32>> = vec![vec![], vec![]];
    assert_eq!(p.display_with_ho(&none), p.to_string());
}

#[test]
fn rev_expr_round_trip() {
    let nodes = vec![node(sym("+"), vec![1, 2]), leaf(sym("x")), leaf(sym("y"))];
    let rev = RevExpr::new(nodes);
    assert_eq!(rev.to_string(), "(+ x y)");
    let rec = rev.to_rec_order();
    assert_eq!(rec[2].children, vec![1, 0]);
    let back = RevExpr::from_rec_order(rec);
    assert_eq!(back.nodes[0].children, vec![1, 2]);
    assert_eq!(back.to_string(), "(+ x y)");
}

#[test]
fn format_programs_one_per_line() {
    let term = vec![
        leaf(sym("a")),
        leaf(sym("b")),
        node(sym("+"), vec![0, 1]),
        node(sym("programs"), vec![2, 0]),
    ];
    assert_eq!(format_programs(&term), "(programs\n  (+ a b)\n  a\n)\n");
    let single = vec![leaf(sym("a")), node(sym("f"), vec![0])];
    assert_eq!(format_programs(&single), "(f a)\n");
}

#[test]
fn analysis_make_and_merge() {
    assert_eq!(StitchAnalysis::make(&vec![]), 1);
    assert_eq!(StitchAnalysis::make(&vec![2, 3]), 6);
    let mut to = 5;
    assert_eq!(StitchAnalysis::merge(&mut to, 3), (true, false));
    assert_eq!(to, 3);
    assert_eq!(StitchAnalysis::merge(&mut to, 3), (false, false));
    assert_eq!(StitchAnalysis::merge(&mut to, 9), (false, true));
    assert_eq!(to, 3);
}

#[test]
fn search_state_starts_at_every_class() {
    let s = SearchState::empty(&vec![4, 7]);
    assert_eq!(s.pattern.to_string(), "?#0");
    assert_eq!(s.matches.len(), 2);
    assert_eq!(s.matches[1].root_eclass, 7);
    assert_eq!(s.matches[0].variables.len(), 1);
    assert!(s.matches[0].variables[0].vars.is_empty());
}

#[test]
fn abstraction_uses_lists_every_match() {
    let mut s = SearchState::empty(&vec![]);
    s.matches.push(MatchAtEClass {
        root_eclass: 9,
        variables: vec![Subst { vars: vec![(0, 3), (1, 4)] }, Subst { vars: vec![(0, 5), (1, 6)] }],
    });
    s.matches.push(MatchAtEClass { root_eclass: 2, variables: vec![Subst { vars: vec![(0, 1)] }] });
    let uses = abstraction_uses(&s);
    assert_eq!(uses, vec![(vec![3, 4], 9), (vec![5, 6], 9), (vec![1], 2)]);
}

#[test]
fn hash_key_is_preorder_of_term() {
    let mut p = Pattern::single_var();
    p.expand(0, &op("+", 2));
    p.expand(1, &lam()); // (+ ?#0 (lam ?#1))
    assert_eq!(
        p.hash_key(),
        vec![
            PatternOp::Node(sym("+")),
            PatternOp::Var(0),
            PatternOp::Node(Op::Lam),
            PatternOp::Var(1),
        ]
    );
}

#[test]
fn hash_key_ignores_layout() {
    let c = Pattern {
        pattern: RevExpr::new(vec![
            node(sym("+"), vec![2, 1]),
            PatternNode { op: PatternOp::Var(0), children: vec![] },
            PatternNode { op: PatternOp::Var(0), children: vec![] },
        ]),
        vars: vec![vec![1, 2]],
        var_depth: vec![0],
        var_occurrences: vec![2],
        var_reusable: vec![true],
    };
    let mut d = Pattern::single_var();
    d.expand(0, &op("+", 2));
    d.reuse(0, 1);
    assert!(c == d);
    assert_eq!(c.hash_key(), d.hash_key());
    let mut e = Pattern::single_var();
    e.expand(0, &op("+", 2));
    assert_ne!(e.hash_key(), d.hash_key());
}

#[test]
fn hash_node_appends_subterm() {
    let mut p = Pattern::single_var();
    p.expand(0, &op("f", 2));
    p.expand(1, &op("g", 1)); // (f ?#0 (g ?#1))
    let mut state = vec![PatternOp::Var(7)];
    let g_id = p.pattern.nodes[0].children[1];
    hash_node(&p.pattern, g_id, &mut state);
    assert_eq!(state, vec![PatternOp::Var(7), PatternOp::Node(sym("g")), PatternOp::Var(1)]);
}

#[test]
fn construction_order_does_not_change_names() {
    let mut a = Pattern::single_var();
    a.expand(0, &op("+", 2));
    a.expand(1, &op("*", 2));
    a.expand(0, &op("-", 2));
    let mut b = Pattern::single_var();
    b.expand(0, &op("+", 2));
    b.expand(0, &op("-", 2));
    b.expand(2, &op("*", 2));
    assert_eq!(a.to_string(), "(+ (- ?#0 ?#1) (* ?#2 ?#3))");
    assert_eq!(b.to_string(), a.to_string());
    assert!(a == b);
    assert_eq!(a.hash_key(), b.hash_key());
}

#[test]
fn parse_programs_reads_string_array() {
    assert_eq!(
        parse_programs("[\"(+ a b)\", \"c\"]"),
        Some(vec!["(+ a b)".to_string(), "c".to_string()])
    );
    assert_eq!(parse_programs("[]"), Some(vec![]));
    assert_eq!(parse_programs("not json"), None);
    assert_eq!(parse_programs("[1, 2]"), None);
}

#[test]
fn improves_best_compares_costs() {
    assert!(improves_best(None, 7));
    assert!(improves_best(Some(8), 7));
    assert!(!improves_best(Some(7), 7));
    assert!(!improves_best(Some(3), 7));
}

#[test]
fn shift_up_then_down_gives_term_back() {
    // (lam (f $0 $1)): $0 bound, $1 free
    let ext = vec![
        leaf(Op::DbVar(0)),
        leaf(Op::DbVar(1)),
        node(sym("f"), vec![0, 1]),
        node(Op::Lam, vec![2]),
    ];
    let (up, r_up) = shift_extraction(&ext, 3, 2);
    let (down, r_down) = shift_extraction(&up, r_up, -2);
    assert_eq!(RevExpr::from_rec_order(down.clone()).to_string(), "(lam (f $0 $1))");
    assert_eq!(RevExpr::from_rec_order(up).to_string(), "(lam (f $0 $3))");
    assert_eq!(r_down, down.len() - 1);
}

#[test]
fn shift_extraction_shares_per_binder_count() {
    // (g x (lam x)): x is met outside and under a binder, so it is copied once
    // per binder count; (h y y) meets y twice at one count, so it is shared.
    let ext = vec![
        leaf(Op::DbVar(0)),
        node(Op::Lam, vec![0]),
        node(sym("g"), vec![0, 1]),
    ];
    let (out, _) = shift_extraction(&ext, 2, 1);
    assert_eq!(out.len(), 4);
    let ext2 = vec![leaf(sym("y")), node(sym("h"), vec![0, 0])];
    let (out2, _) = shift_extraction(&ext2, 1, 1);
    assert_eq!(out2.len(), 2);
}
