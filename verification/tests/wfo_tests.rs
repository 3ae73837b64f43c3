use std::str::FromStr;

use egg::{EGraph, ENodeOrVar, Id, Pattern, RecExpr, Searcher, Subst, SymbolLang, Var};
use thesy::appliers::MatchSet;
use thesy::egraph::ProofGraph;
use thesy::expr::{ENode, Expr};
use thesy::lang::{DataType, Function};
use thesy::pattern::{PatNode, PatternAst};
use thesy::prover::Prover;
use thesy::rules::{ApplierSpec, RuleSpec, SearcherSpec};

fn expr(s: &str) -> Expr {
    let e: RecExpr<SymbolLang> = RecExpr::from_str(s).unwrap();
    Expr {
        nodes: e
            .as_ref()
            .iter()
            .map(|n| ENode { op: n.op.to_string(), children: n.children.iter().map(|&c| usize::from(c)).collect() })
            .collect(),
    }
}

fn to_egg(p: &PatternAst) -> Pattern<SymbolLang> {
    let nodes: Vec<ENodeOrVar<SymbolLang>> = p
        .nodes
        .iter()
        .map(|n| match n {
            PatNode::Node(e) => {
                ENodeOrVar::ENode(SymbolLang::new(e.op.as_str(), e.children.iter().map(|&c| Id::from(c)).collect()))
            }
            PatNode::Var(v) => ENodeOrVar::Var(Var::from_str(v).unwrap()),
        })
        .collect();
    Pattern::from(RecExpr::from(nodes))
}

/// Joins two substitutions that agree on their shared variables.
fn join(a: &Subst, b: &Subst, vars_b: &[Var]) -> Option<Subst> {
    let mut res = a.clone();
    for v in vars_b {
        let id = *b.get(*v).unwrap();
        match a.get(*v) {
            Some(old) if *old != id => return None,
            Some(_) => {}
            None => {
                res.insert(*v, id);
            }
        }
    }
    Some(res)
}

/// The matches of several patterns at once, joined on shared variables;
/// with `same_class`, all in the class of the first pattern's match.
fn multi_search(patterns: &[PatternAst], same_class: bool, g: &EGraph<SymbolLang, ()>) -> Vec<(Id, Subst)> {
    let mut acc: Vec<(Id, Subst)> = vec![];
    for (i, p) in patterns.iter().enumerate() {
        let pat = to_egg(p);
        let vars = pat.vars();
        let found: Vec<(Id, Subst)> =
            pat.search(g).into_iter().flat_map(|m| m.substs.into_iter().map(move |s| (m.eclass, s))).collect();
        if i == 0 {
            acc = found;
            continue;
        }
        let mut next = vec![];
        for (c, s) in &acc {
            for (c2, s2) in &found {
                if same_class && g.find(*c) != g.find(*c2) {
                    continue;
                }
                if let Some(j) = join(s, s2, &vars) {
                    next.push((*c, j));
                }
            }
        }
        acc = next;
    }
    acc
}

/// Runs the rules for a few rounds, searching all rules, then applying them.
fn run(rules: &[RuleSpec], mut g: EGraph<SymbolLang, ()>) -> EGraph<SymbolLang, ()> {
    for _ in 0..5 {
        let found: Vec<Vec<(Id, Subst)>> = rules
            .iter()
            .map(|r| match &r.searcher {
                SearcherSpec::MultiDiff(ps) => multi_search(ps, false, &g),
                SearcherSpec::MultiEq(ps) => multi_search(ps, true, &g),
                SearcherSpec::Pattern(p) => multi_search(std::slice::from_ref(p), false, &g),
            })
            .collect();
        for (r, ms) in rules.iter().zip(found) {
            match &r.applier {
                ApplierSpec::Pattern(p) => {
                    let pat = to_egg(p);
                    for (c, s) in ms {
                        let id = egg::Applier::apply_one(&pat, &mut g, c, &s)[0];
                        g.union(id, c);
                    }
                }
                ApplierSpec::Diff(d) => {
                    let sets: Vec<MatchSet> =
                        ms.into_iter().map(|(c, s)| MatchSet { eclass: usize::from(c), substs: vec![s] }).collect();
                    let mut pg = ProofGraph { graph: g };
                    d.apply_matches(&mut pg, &sets);
                    g = pg.graph;
                }
            }
        }
        g.rebuild();
    }
    g
}

fn create_nat_type() -> DataType {
    DataType::new(
        "nat".to_string(),
        vec![
            Function::new("Z".to_string(), vec![], expr("nat")),
            Function::new("S".to_string(), vec![expr("nat")], expr("nat")),
        ],
    )
}

#[test]
fn wfo_trans_ok() {
    let mut egraph = EGraph::default();
    egraph.add_expr(&"(ltwf x y)".parse().unwrap());
    egraph.add_expr(&"(ltwf y z)".parse().unwrap());
    egraph = run(&[Prover::wfo_trans()], egraph);
    let pat: Pattern<SymbolLang> = "(ltwf x z)".parse().unwrap();
    assert!(pat.search(&egraph).iter().all(|s| !s.substs.is_empty()));
    assert!(!pat.search(&egraph).is_empty());
}

#[test]
fn wfo_nat_ok() {
    let mut egraph = EGraph::default();
    egraph.add_expr(&"(S y)".parse().unwrap());
    egraph = run(&Prover::wfo_datatype(&create_nat_type()), egraph);
    let pat: Pattern<SymbolLang> = "(ltwf y (S y))".parse().unwrap();
    assert!(pat.search(&egraph).iter().all(|s| !s.substs.is_empty()));
    assert!(!pat.search(&egraph).is_empty());
}
