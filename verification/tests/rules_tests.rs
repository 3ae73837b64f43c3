use std::str::FromStr;

use egg::{RecExpr, SymbolLang};
use thesy::expr::{ENode, Expr};
use thesy::lang::{placeholder, DataType, Function};
use thesy::pattern::{PatNode, PatternAst};
use thesy::prover::Prover;
use thesy::rules::{reachable_nodes, safe_pattern_rewrite, vars_reached, ApplierSpec, SearcherSpec};

fn expr(s: &str) -> Expr {
    let e: RecExpr<SymbolLang> = RecExpr::from_str(s).unwrap();
    Expr {
        nodes: e
            .as_ref()
            .iter()
            .map(|n| ENode { op: n.op.to_string(), children: n.children.iter().map(|&c| usize::from(c)).collect() })
            .collect(),
    }
}

fn nat_type() -> DataType {
    DataType::new(
        "nat".to_string(),
        vec![
            Function::new("Z".to_string(), vec![], expr("nat")),
            Function::new("S".to_string(), vec![expr("nat")], expr("nat")),
        ],
    )
}

fn var(s: &str) -> PatNode {
    PatNode::Var(s.to_string())
}

fn node(op: &str, children: Vec<usize>) -> PatNode {
    PatNode::Node(ENode { op: op.to_string(), children })
}

fn same_pattern(p: &PatternAst, expected: &[PatNode]) -> bool {
    p.nodes.len() == expected.len()
        && p.nodes.iter().zip(expected.iter()).all(|(a, b)| match (a, b) {
            (PatNode::Var(x), PatNode::Var(y)) => x == y,
            (PatNode::Node(x), PatNode::Node(y)) => x.op == y.op && x.children == y.children,
            _ => false,
        })
}

#[test]
fn wfo_op_is_ltwf() {
    assert_eq!(Prover::wfo_op(), "ltwf");
}

#[test]
fn wfo_trans_rule_shape() {
    let r = Prover::wfo_trans();
    assert_eq!(r.name, "wfo transitivity");
    assert_eq!(r.long_name, "well founded order transitivity");
    match &r.searcher {
        SearcherSpec::MultiDiff(ps) => {
            assert_eq!(ps.len(), 2);
            assert!(same_pattern(&ps[0], &[var("?x"), var("?y"), node("ltwf", vec![0, 1])]));
            assert!(same_pattern(&ps[1], &[var("?z"), var("?x"), node("ltwf", vec![0, 1])]));
        }
        _ => panic!("transitivity searches two patterns in different classes"),
    }
    match &r.applier {
        ApplierSpec::Pattern(p) => assert!(same_pattern(p, &[var("?z"), var("?y"), node("ltwf", vec![0, 1])])),
        _ => panic!("transitivity merges its result"),
    }
}

#[test]
fn wfo_datatype_nat_rules() {
    let rules = Prover::wfo_datatype(&nat_type());
    assert_eq!(rules.len(), 2);
    assert_eq!(rules[0].name, "S_?param_0");
    assert_eq!(rules[0].long_name, "S_?param_0");
    match &rules[0].searcher {
        SearcherSpec::MultiEq(ps) => {
            assert_eq!(ps.len(), 2);
            assert!(same_pattern(&ps[0], &[var("?param_0"), node("S", vec![0])]));
            assert!(same_pattern(&ps[1], &[var("?root")]));
        }
        _ => panic!("constructor rules search one class"),
    }
    match &rules[0].applier {
        ApplierSpec::Diff(d) => assert_eq!(d.pretty(80), "(ltwf ?param_0 ?root)"),
        _ => panic!("constructor rules keep the order apart"),
    }
    assert_eq!(rules[1].name, "wfo transitivity");
}

#[test]
fn wfo_datatype_only_recursive_params() {
    let list = DataType::new(
        "list".to_string(),
        vec![
            Function::new("Nil".to_string(), vec![], expr("list")),
            Function::new("Cons".to_string(), vec![expr("nat"), expr("list")], expr("list")),
            Function::new("Two".to_string(), vec![expr("list"), expr("list")], expr("list")),
        ],
    );
    let rules = Prover::wfo_datatype(&list);
    let names: Vec<&str> = rules.iter().map(|r| r.name.as_str()).collect();
    assert_eq!(names, vec!["Cons_?param_1", "Two_?param_0", "Two_?param_1", "wfo transitivity"]);
    match &rules[0].searcher {
        SearcherSpec::MultiEq(ps) => {
            assert!(same_pattern(&ps[0], &[var("?param_0"), var("?param_1"), node("Cons", vec![0, 1])]))
        }
        _ => panic!("constructor rules search one class"),
    }
}

#[test]
fn wfo_datatype_without_constructors() {
    let empty = DataType::new("void".to_string(), vec![]);
    let rules = Prover::wfo_datatype(&empty);
    assert_eq!(rules.len(), 1);
    assert_eq!(rules[0].name, "wfo transitivity");
}

#[test]
fn placeholder_names() {
    assert_eq!(placeholder(&"nat".to_string(), 0).name, "ts_ph_nat_0");
    assert_eq!(placeholder(&"nat".to_string(), 12).name, "ts_ph_nat_12");
    assert_eq!(placeholder(&"nat".to_string(), 105).name, "ts_ph_nat_105");
    assert!(placeholder(&"list".to_string(), 3).params.is_empty());
}

#[test]
fn ident_mapper_cases() {
    let ind = "ts_ph_nat_0".to_string();
    let sub = "?somevar".to_string();
    assert_eq!(Prover::ident_mapper(&"ts_ph_nat_0".to_string(), &ind, &sub), "?somevar");
    assert_eq!(Prover::ident_mapper(&"ts_ph_nat_1".to_string(), &ind, &sub), "?ts_ph_nat_1");
    assert_eq!(Prover::ident_mapper(&"plus".to_string(), &ind, &sub), "plus");
    assert_eq!(Prover::ident_mapper(&"ts_p".to_string(), &ind, &sub), "ts_p");
}

#[test]
fn clean_vars_cases() {
    assert_eq!(Prover::clean_vars("?x".to_string()), "x");
    assert_eq!(Prover::clean_vars("x".to_string()), "x");
    assert_eq!(Prover::clean_vars("?".to_string()), "");
    assert_eq!(Prover::clean_vars("??y".to_string()), "?y");
    let renamed = Prover::ident_mapper(&"ts_ph_nat_2".to_string(), &"ts_ph_nat_0".to_string(), &"?v".to_string());
    assert_eq!(Prover::clean_vars(renamed), "ts_ph_nat_2");
}

#[test]
fn pattern_from_exp_renames() {
    let ind = placeholder(&"nat".to_string(), 0);
    let e = expr("(plus ts_ph_nat_0 (S ts_ph_nat_1))");
    let p = Prover::pattern_from_exp(&e, &ind, &"?somevar".to_string());
    assert!(same_pattern(
        &p,
        &[var("?somevar"), var("?ts_ph_nat_1"), node("S", vec![1]), node("plus", vec![0, 2])]
    ));
}

#[test]
fn pattern_from_exp_applies_variable_functions() {
    let ind = placeholder(&"nat".to_string(), 0);
    let e = expr("(ts_ph_f_1 x)");
    let p = Prover::pattern_from_exp(&e, &ind, &"?somevar".to_string());
    assert!(same_pattern(&p, &[node("x", vec![]), node("?ts_ph_f_1", vec![]), node("apply", vec![1, 0])]));
}

#[test]
fn collect_and_replace_placeholders() {
    let prover = Prover::new(nat_type());
    let e = expr("(plus ts_ph_nat_1 (plus ts_ph_nat_1 ts_ph_nat_0))");
    let positions = prover.collect_ph1s(&e);
    assert_eq!(positions, vec![0, 1]);
    let replaced = Prover::replace_at_indexes(&e, vec![(0, "a".to_string()), (1, "b".to_string()), (0, "c".to_string())]);
    let ops: Vec<&str> = replaced.nodes.iter().map(|n| n.op.as_str()).collect();
    assert_eq!(ops, vec!["c", "b", "ts_ph_nat_0", "plus", "plus"]);
    assert_eq!(replaced.nodes[4].children, e.nodes[4].children);
}

#[test]
fn not_containing_ind_var_cases() {
    let prover = Prover::new(nat_type());
    assert!(prover.not_containing_ind_var(&expr("(plus x y)")));
    assert!(!prover.not_containing_ind_var(&expr("(plus x ts_ph_nat_0)")));
    assert!(prover.not_containing_ind_var(&expr("(plus x ts_ph_nat_1)")));
}

#[test]
fn create_hypothesis_rules() {
    let ind = placeholder(&"nat".to_string(), 0);
    let hyps = Prover::create_hypothesis(&ind, &expr("(plus ts_ph_nat_0 Z)"), &expr("ts_ph_nat_0"));
    assert_eq!(hyps.len(), 1);
    assert_eq!(hyps[0].name, "IH1");
    match &hyps[0].searcher {
        SearcherSpec::MultiDiff(ps) => {
            assert!(same_pattern(&ps[0], &[var("?somevar"), node("Z", vec![]), node("plus", vec![0, 1])]));
            assert!(same_pattern(&ps[1], &[var("?somevar"), node("ts_ph_nat_0", vec![]), node("ltwf", vec![0, 1])]));
        }
        _ => panic!("the hypothesis is guarded by the order"),
    }
    match &hyps[0].applier {
        ApplierSpec::Pattern(p) => assert!(same_pattern(p, &[var("?somevar")])),
        _ => panic!("the hypothesis merges"),
    }
    let both = Prover::create_hypothesis(&ind, &expr("(S ts_ph_nat_0)"), &expr("(plus ts_ph_nat_0 Z)"));
    let names: Vec<&str> = both.iter().map(|r| r.name.as_str()).collect();
    assert_eq!(names, vec!["IH1", "IH2"]);
}

#[test]
fn push_rw_cases() {
    let mut rules = Vec::new();
    let f1 = PatternAst { nodes: vec![var("?x"), node("S", vec![0])] };
    let f2 = PatternAst { nodes: vec![var("?x")] };
    Prover::push_rw(&f1, &f2, "(S ?x) => ?x".to_string(), &mut rules);
    assert_eq!(rules.len(), 1);
    assert_eq!(rules[0].2.name(), "(S ?x) => ?x");
    // a leaf left-hand side gives no rule
    Prover::push_rw(&f2, &f1, "?x => (S ?x)".to_string(), &mut rules);
    assert_eq!(rules.len(), 1);
    // a right-hand side with a variable the left lacks gives no rule
    let f3 = PatternAst { nodes: vec![var("?y"), node("S", vec![0])] };
    Prover::push_rw(&f1, &f3, "(S ?x) => (S ?y)".to_string(), &mut rules);
    assert_eq!(rules.len(), 1);
}

#[test]
fn create_hypothesis_drops_unbound_side() {
    let ind = placeholder(&"nat".to_string(), 0);
    let hyps = Prover::create_hypothesis(&ind, &expr("(f ts_ph_nat_0)"), &expr("(g ts_ph_nat_0 ts_ph_nat_q)"));
    let names: Vec<&str> = hyps.iter().map(|r| r.name.as_str()).collect();
    assert_eq!(names, vec!["IH2"]);
}

#[test]
fn safe_rewrites_need_reachable_variables() {
    // `?y` sits at a node that no path from the root reaches
    let searcher = PatternAst { nodes: vec![var("?y"), var("?x"), node("f", vec![1])] };
    assert_eq!(reachable_nodes(&searcher), vec![false, true, true]);
    let uses_x = PatternAst { nodes: vec![var("?x"), node("g", vec![0])] };
    let uses_y = PatternAst { nodes: vec![var("?y")] };
    assert!(vars_reached(&uses_x, &searcher));
    assert!(!vars_reached(&uses_y, &searcher));
    let name = "f-g".to_string();
    let rw = safe_pattern_rewrite(&name, &name, &searcher, &uses_x).unwrap();
    assert_eq!(rw.name(), "f-g");
    assert!(safe_pattern_rewrite(&name, &name, &searcher, &uses_y).is_none());
}
