use std::str::FromStr;

use egg::{EGraph, Id, Pattern, RecExpr, Rewrite, Searcher, SymbolLang};
use thesy::appliers::{CompApplier, DiffApplier, MatchSet, UnionApplier};
use thesy::egraph::ProofGraph;
use thesy::expr::{ENode, Expr};
use thesy::lang::{DataType, Function};
use thesy::pattern::{PatNode, PatternAst};
use thesy::permute::heap_permutations;
use thesy::prover::Prover;

fn expr(s: &str) -> Expr {
    let e: RecExpr<SymbolLang> = RecExpr::from_str(s).unwrap();
    Expr {
        nodes: e
            .as_ref()
            .iter()
            .map(|n| ENode { op: n.op.to_string(), children: n.children.iter().map(|&c| usize::from(c)).collect() })
            .collect(),
    }
}

fn pattern(s: &str) -> PatternAst {
    let p: Pattern<SymbolLang> = Pattern::from_str(s).unwrap();
    PatternAst {
        nodes: p
            .ast
            .as_ref()
            .iter()
            .map(|n| match n {
                egg::ENodeOrVar::ENode(e) => PatNode::Node(ENode {
                    op: e.op.to_string(),
                    children: e.children.iter().map(|&c| usize::from(c)).collect(),
                }),
                egg::ENodeOrVar::Var(v) => PatNode::Var(v.to_string()),
            })
            .collect(),
    }
}

fn matches_of(p: &str, g: &EGraph<SymbolLang, ()>) -> Vec<MatchSet> {
    let pat: Pattern<SymbolLang> = Pattern::from_str(p).unwrap();
    pat.search(g)
        .into_iter()
        .map(|m| MatchSet { eclass: usize::from(m.eclass), substs: m.substs })
        .collect()
}

fn nat_type() -> DataType {
    DataType::new(
        "nat".to_string(),
        vec![
            Function::new("Z".to_string(), vec![], expr("nat")),
            Function::new("S".to_string(), vec![expr("nat")], expr("nat")),
        ],
    )
}

fn plus_rules() -> Vec<Rewrite<SymbolLang, ()>> {
    vec![
        Rewrite::new("plus-z", "plus-z", Pattern::from_str("(plus Z ?x)").unwrap(), Pattern::from_str("?x").unwrap())
            .unwrap(),
        Rewrite::new(
            "plus-s",
            "plus-s",
            Pattern::from_str("(plus (S ?x) ?y)").unwrap(),
            Pattern::from_str("(S (plus ?x ?y))").unwrap(),
        )
        .unwrap(),
    ]
}

#[test]
fn union_applier_merges_variables() {
    let mut g: EGraph<SymbolLang, ()> = EGraph::default();
    let x = g.add(SymbolLang::leaf("x"));
    let y = g.add(SymbolLang::leaf("y"));
    let z = g.add(SymbolLang::leaf("z"));
    g.add(SymbolLang::new("f", vec![x, y]));
    g.rebuild();
    let ms = matches_of("(f ?a ?b)", &g);
    let applier = UnionApplier::new(vec!["?a".to_string(), "?b".to_string()]);
    assert_eq!(applier.vars(), vec!["?a".to_string(), "?b".to_string()]);
    let mut pg = ProofGraph { graph: g };
    let added = applier.apply_matches(&mut pg, &ms);
    assert_eq!(added, vec![usize::from(x)]);
    let g = pg.graph;
    assert_eq!(g.find(x), g.find(y));
    assert_ne!(g.find(x), g.find(z));
    // applying again merges nothing new
    let mut pg = ProofGraph { graph: g };
    let again = applier.apply_matches(&mut pg, &ms);
    assert!(again.is_empty());
}

#[test]
fn diff_applier_keeps_classes_apart() {
    let mut g: EGraph<SymbolLang, ()> = EGraph::default();
    let y = g.add(SymbolLang::leaf("y"));
    let sy = g.add(SymbolLang::new("S", vec![y]));
    g.rebuild();
    let ms = matches_of("(S ?p)", &g);
    let applier = DiffApplier::new(pattern("(g ?p)"));
    assert_eq!(applier.pretty(80), "(g ?p)");
    let mut pg = ProofGraph { graph: g };
    let added = applier.apply_matches(&mut pg, &ms);
    assert!(added.is_empty());
    let g = pg.graph;
    let gy = g.lookup(SymbolLang::new("g", vec![y])).unwrap();
    assert_ne!(g.find(gy), g.find(sy));
}

#[test]
fn diff_applier_apply_one_adds() {
    let mut g: EGraph<SymbolLang, ()> = EGraph::default();
    let y = g.add(SymbolLang::leaf("y"));
    g.add(SymbolLang::new("S", vec![y]));
    g.rebuild();
    let ms = matches_of("(S ?p)", &g);
    let applier = DiffApplier::new(pattern("(h ?p ?p)"));
    let mut pg = ProofGraph { graph: g };
    let ids = applier.apply_one(&mut pg, &ms[0].substs[0]);
    assert_eq!(ids.len(), 1);
    let g = pg.graph;
    assert_eq!(g.lookup(SymbolLang::new("h", vec![y, y])), Some(Id::from(ids[0])));
}

#[test]
fn comp_applier_merges_all_results() {
    let mut g: EGraph<SymbolLang, ()> = EGraph::default();
    let y = g.add(SymbolLang::leaf("y"));
    g.add(SymbolLang::new("S", vec![y]));
    g.rebuild();
    let ms = matches_of("(S ?p)", &g);
    let applier = CompApplier::new(vec![pattern("(g ?p)"), pattern("(h ?p)")]);
    let mut pg = ProofGraph { graph: g };
    let added = applier.apply_matches(&mut pg, &ms);
    assert_eq!(added.len(), 1);
    let g = pg.graph;
    let gy = g.lookup(SymbolLang::new("g", vec![y])).unwrap();
    let hy = g.lookup(SymbolLang::new("h", vec![y])).unwrap();
    assert_eq!(g.find(gy), g.find(hy));
}

#[test]
fn heap_permutation_order() {
    let mut xs = vec![1usize, 2, 3];
    let perms = heap_permutations(&mut xs);
    assert_eq!(perms, vec![vec![1, 2, 3], vec![2, 1, 3], vec![3, 1, 2], vec![1, 3, 2], vec![2, 3, 1], vec![3, 2, 1]]);
    assert_eq!(xs, vec![3, 2, 1]);
    let mut none: Vec<usize> = vec![];
    assert_eq!(heap_permutations(&mut none), vec![Vec::<usize>::new()]);
}

#[test]
fn prove_base_holds() {
    let prover = Prover::new(nat_type());
    let rules = plus_rules();
    assert!(prover.prove_base(&rules, &expr("(plus Z ts_ph_nat_0)"), &expr("ts_ph_nat_0")));
}

#[test]
fn prove_base_fails() {
    let prover = Prover::new(nat_type());
    let rules = plus_rules();
    assert!(!prover.prove_base(&rules, &expr("(S ts_ph_nat_0)"), &expr("ts_ph_nat_0")));
}

#[test]
fn prove_base_needs_induction_variable() {
    let prover = Prover::new(nat_type());
    let rules = plus_rules();
    assert!(!prover.prove_base(&rules, &expr("(plus Z Z)"), &expr("Z")));
    assert!(prover.prove_ind(&rules, &expr("(plus Z Z)"), &expr("Z")).is_none());
    assert!(prover.prove_all(&rules, &expr("(plus Z Z)"), &expr("Z")).is_none());
}

#[test]
fn prove_ind_gives_rule() {
    let prover = Prover::new(nat_type());
    let rules = plus_rules();
    let res = prover.prove_ind(&rules, &expr("(plus Z ts_ph_nat_0)"), &expr("ts_ph_nat_0"));
    let res = res.unwrap();
    assert_eq!(res.len(), 1);
    assert_eq!(res[0].2.name(), "(plus Z ?ts_ph_nat_0) => ?ts_ph_nat_0");
    let all = prover.prove_all(&rules, &expr("(plus Z ts_ph_nat_0)"), &expr("ts_ph_nat_0"));
    assert_eq!(all.unwrap().len(), 1);
}

#[test]
fn prove_ind_fails_without_hypothesis() {
    let prover = Prover::new(nat_type());
    let rules = plus_rules();
    // the step case needs the induction hypothesis, which is not among the rules run
    let res = prover.prove_ind(&rules, &expr("(plus ts_ph_nat_0 Z)"), &expr("ts_ph_nat_0"));
    assert!(res.is_none());
}

#[test]
fn generalize_prove_cases() {
    let prover = Prover::new(nat_type());
    let rules = plus_rules();
    let none = prover.generalize_prove(&rules, &expr("(plus Z ts_ph_nat_0)"), &expr("ts_ph_nat_0"));
    assert!(none.is_none());
    let res = prover.generalize_prove(
        &rules,
        &expr("(pair ts_ph_nat_0 (plus Z ts_ph_nat_1) ts_ph_nat_1)"),
        &expr("(pair ts_ph_nat_0 ts_ph_nat_1 ts_ph_nat_1)"),
    );
    let res = res.unwrap();
    assert_eq!(res.len(), 2);
    assert_eq!(
        res[0].2.name(),
        "(pair ?ts_ph_nat_0 (plus Z ?ts_ph_nat_1) ?ts_ph_nat_2) => (pair ?ts_ph_nat_0 ?ts_ph_nat_1 ?ts_ph_nat_2)"
    );
}

#[test]
fn proof_graph_basics() {
    let mut g = ProofGraph::new();
    let a = g.add_expr(&expr("(f a b)"));
    let again = g.add_expr(&expr("(f a b)"));
    assert_eq!(a, again);
    let leaf = g.lookup_leaf(&"a".to_string()).unwrap();
    assert_eq!(g.lookup_leaf(&"c".to_string()), None);
    let (root, merged) = g.union(a, leaf);
    assert!(merged);
    assert_eq!(root, if a < leaf { a } else { leaf });
    let (_, merged_again) = g.union(leaf, a);
    assert!(!merged_again);
    let copy = g.copy();
    // a run rebuilds the e-graph, after which the merge is seen
    let rebuilt = copy.run(&[], 1);
    assert!(rebuilt.equivalent(&expr("(f a b)"), &expr("a")));
    assert!(!rebuilt.equivalent(&expr("(f a b)"), &expr("b")));
}

#[test]
fn empty_datatype_proves_without_cases() {
    let prover = Prover::new(DataType::new("void".to_string(), vec![]));
    let rules = plus_rules();
    let all = prover.prove_all(&rules, &expr("(f ts_ph_void_0)"), &expr("(g ts_ph_void_0)"));
    let all = all.unwrap();
    assert_eq!(all.len(), 2);
    assert_eq!(all[0].2.name(), "(f ?ts_ph_void_0) => (g ?ts_ph_void_0)");
    let gen = prover.generalize_prove(
        &rules,
        &expr("(f ts_ph_void_0 ts_ph_void_1 ts_ph_void_1)"),
        &expr("(g ts_ph_void_0)"),
    );
    let gen = gen.unwrap();
    assert_eq!(gen.len(), 1);
    assert_eq!(gen[0].2.name(), "(f ?ts_ph_void_0 ?ts_ph_void_1 ?ts_ph_void_2) => (g ?ts_ph_void_0)");
}

#[test]
fn appliers_add_pattern_leaves() {
    let mut g: EGraph<SymbolLang, ()> = EGraph::default();
    let y = g.add(SymbolLang::leaf("y"));
    g.add(SymbolLang::new("S", vec![y]));
    g.rebuild();
    let ms = matches_of("(S ?p)", &g);
    let diff = DiffApplier::new(pattern("(h ?p zero)"));
    let mut pg = ProofGraph { graph: g };
    assert!(diff.apply_matches(&mut pg, &ms).is_empty());
    assert!(pg.graph.lookup(SymbolLang::leaf("zero")).is_some());
    let comp = CompApplier::new(vec![pattern("?p"), pattern("one")]);
    let added = comp.apply_matches(&mut pg, &ms);
    assert_eq!(added.len(), 1);
    let g = pg.graph;
    let one = g.lookup(SymbolLang::leaf("one")).unwrap();
    assert_eq!(g.find(one), g.find(y));
}

#[test]
fn union_applier_single_variable_merges_nothing() {
    let mut g: EGraph<SymbolLang, ()> = EGraph::default();
    let y = g.add(SymbolLang::leaf("y"));
    g.add(SymbolLang::new("S", vec![y]));
    g.rebuild();
    let ms = matches_of("(S ?p)", &g);
    let applier = UnionApplier::new(vec!["?unbound".to_string()]);
    let mut pg = ProofGraph { graph: g };
    assert!(applier.apply_matches(&mut pg, &ms).is_empty());
}

#[test]
fn identical_sides_are_proved() {
    let prover = Prover::new(nat_type());
    let rules = plus_rules();
    assert!(prover.prove_base(&rules, &expr("(plus ts_ph_nat_0 Z)"), &expr("(plus ts_ph_nat_0 Z)")));
    let all = prover.prove_all(&rules, &expr("(plus ts_ph_nat_0 Z)"), &expr("(plus ts_ph_nat_0 Z)"));
    let all = all.unwrap();
    assert_eq!(all.len(), 2);
    assert_eq!(all[0].2.name(), "(plus ?ts_ph_nat_0 Z) => (plus ?ts_ph_nat_0 Z)");
}

#[test]
fn diff_applier_pretty_prints_a_list() {
    let applier = DiffApplier::new(pattern("(h ?p zero)"));
    let text = applier.pretty(80);
    assert_eq!(text, "(h ?p zero)");
    assert!(DiffApplier::new(pattern("?p")).pretty(80).starts_with('?'));
}

#[test]
fn proved_rules_can_be_run_again() {
    let prover = Prover::new(nat_type());
    let rules = plus_rules();
    let lemma = prover.prove_all(&rules, &expr("(plus Z ts_ph_nat_0)"), &expr("ts_ph_nat_0")).unwrap();
    let mut more = plus_rules();
    more.extend(lemma.into_iter().map(|t| t.2));
    assert!(prover.prove_base(&more, &expr("(plus Z (plus Z ts_ph_nat_0))"), &expr("ts_ph_nat_0")));
}
