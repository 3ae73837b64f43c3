use vstd::prelude::*;
use egg::{EGraph, ENodeOrVar, Id, Pattern, RecExpr, Rewrite, Runner, Subst, SymbolLang, Var};
use crate::expr::{Expr, NodeV, expr_wf};
use crate::pattern::{PatNode, PatNodeV, PatternAst, pattern_wf, pattern_vars, pat_children};

verus! {

/// An e-graph over symbol expressions with no analysis, held opaquely.
/// Code that holds an `egg::EGraph` wraps it here, and takes it back out.
#[verifier::external_body]
pub struct ProofGraph {
    pub graph: EGraph<SymbolLang, ()>,
}

#[verifier::external_type_specification]
#[verifier::external_body]
pub struct ExSubst(Subst);

#[verifier::external_type_specification]
#[verifier::external_body]
pub struct ExSymbolLang(SymbolLang);

#[verifier::external_type_specification]
#[verifier::external_body]
#[verifier::reject_recursive_types(L)]
#[verifier::reject_recursive_types(N)]
pub struct ExRewrite<L, N>(Rewrite<L, N>);

/// For each e-class id of the e-graph, in order, the canonical id that the
/// e-graph's union-find gives it.
pub uninterp spec fn graph_roots(g: ProofGraph) -> Seq<usize>;

/// The operators of the childless nodes that the e-graph holds.
pub uninterp spec fn graph_leaves(g: ProofGraph) -> Set<Seq<char>>;

/// The operators of the childless nodes that can be reached from the root of `e`.
pub open spec fn reachable_leaf_ops(e: Seq<crate::expr::NodeV>) -> Set<Seq<char>> {
    Set::new(|op: Seq<char>| crate::expr::has_reachable_leaf(e, op))
}

/// Node `k` of the pattern can be reached from its root (the last node) by
/// following children.
pub open spec fn pat_reachable(p: Seq<PatNodeV>, k: int) -> bool
    decreases p.len() - k,
{
    if k < 0 || k >= p.len() {
        false
    } else if k == p.len() - 1 {
        true
    } else {
        exists|q: int|
            k < q < p.len() && #[trigger] pat_children(p[q]).contains(k as usize) && pat_reachable(p, q)
    }
}

/// The operators of the childless operator nodes that can be reached from
/// the root of the pattern.
pub open spec fn pattern_leaf_ops(p: Seq<PatNodeV>) -> Set<Seq<char>> {
    Set::new(
        |op: Seq<char>|
            exists|k: int| #[trigger] pat_reachable(p, k) && p[k] == PatNodeV::Node(op, Seq::empty()),
    )
}

/// What looking `e` up in the e-graph gives: the canonical id of the class
/// that holds the root of `e`, its children looked up in turn, or `None`
/// where the e-graph does not hold `e`.
pub uninterp spec fn expr_class(g: ProofGraph, e: Seq<NodeV>) -> Option<usize>;

/// The expressions (as node lists) that the e-graph represents: those
/// whose every node has a matching node in the e-graph, in the class of
/// that node's children.
pub uninterp spec fn graph_terms(g: ProofGraph) -> Set<Seq<NodeV>>;

/// The e-graph has been rebuilt since it last changed, so that searching it
/// finds every expression it represents.
pub uninterp spec fn graph_clean(g: ProofGraph) -> bool;

/// What looking up the instance of pattern `p` under the bindings `b`
/// gives in the e-graph, as `expr_class` does for an expression.
pub uninterp spec fn instance_class(g: ProofGraph, p: Seq<PatNodeV>, b: Map<Seq<char>, usize>) -> Option<usize>;

/// The class ids that `EGraph::equivs` gives for two expressions: one for
/// each pair of classes, one holding each expression, that are one class.
pub uninterp spec fn equiv_classes(g: ProofGraph, e1: Seq<NodeV>, e2: Seq<NodeV>) -> Seq<usize>;

/// Some class of the e-graph holds both expressions.
pub open spec fn graph_equiv(g: ProofGraph, e1: Seq<NodeV>, e2: Seq<NodeV>) -> bool {
    equiv_classes(g, e1, e2).len() > 0
}

/// `out` is an e-graph that egg's `Runner` can leave when it runs the
/// rewrites `rules` on `g` for at most `limit` iterations, under its other
/// limits (among them a time limit).
pub uninterp spec fn run_result(
    g: ProofGraph,
    rules: Seq<Rewrite<SymbolLang, ()>>,
    limit: usize,
    out: ProofGraph,
) -> bool;

/// `out` is the e-graph that applying the pattern `p` under the bindings
/// `b` (`Applier::apply_one` of a pattern) leaves of `g`.
pub uninterp spec fn pattern_applied(
    g: ProofGraph,
    p: Seq<PatNodeV>,
    b: Map<Seq<char>, usize>,
    out: ProofGraph,
) -> bool;

/// The rewrite was made by `Rewrite::new` from a searcher pattern and an
/// applier pattern.
pub uninterp spec fn from_patterns(r: Rewrite<SymbolLang, ()>) -> bool;

/// The variables of the pattern that occur at a node reachable from its
/// root: those that searching with it binds.
pub open spec fn reach_vars(p: Seq<PatNodeV>) -> Set<Seq<char>> {
    Set::new(|v: Seq<char>| exists|k: int| #[trigger] pat_reachable(p, k) && p[k] == PatNodeV::Var(v))
}

/// A rewrite that egg can run without failing: made from two usable
/// patterns, each variable of the applied pattern bound by searching with
/// the searched one. Such a rewrite only adds nodes and merges classes.
pub open spec fn safe_rule(r: Rewrite<SymbolLang, ()>) -> bool {
    &&& from_patterns(r)
    &&& pattern_wf(rewrite_rule(r).1)
    &&& pattern_wf(rewrite_rule(r).2)
    &&& pattern_vars(rewrite_rule(r).2).subset_of(reach_vars(rewrite_rule(r).1))
}

/// The name, searched pattern and applied pattern of a rewrite made by
/// `Rewrite::new` from two patterns.
pub uninterp spec fn rewrite_rule(r: Rewrite<SymbolLang, ()>) -> (Seq<char>, Seq<PatNodeV>, Seq<PatNodeV>);

/// The variables that a substitution binds, with the e-class ids they are bound to.
pub uninterp spec fn subst_bindings(s: Subst) -> Map<Seq<char>, usize>;

/// The text that egg's pretty printer gives a pattern at the given line width.
pub uninterp spec fn egg_pretty(p: Seq<PatNodeV>, width: usize) -> Seq<char>;

/// The e-graph's ids all fit in egg's 32-bit ids.
pub open spec fn graph_size_ok(r: Seq<usize>) -> bool {
    r.len() <= 0x1_0000_0000
}

/// `new` keeps every id of `old` with its canonical id, and each id added
/// after them is its own canonical id.
pub open spec fn roots_extend(old: Seq<usize>, new: Seq<usize>) -> bool {
    &&& old.len() <= new.len()
    &&& forall|i: int| 0 <= i < old.len() ==> #[trigger] new[i] == old[i]
    &&& forall|i: int| old.len() <= i < new.len() ==> #[trigger] new[i] == i
}

/// Every two ids that share a canonical id in `old` still share one in `new`,
/// and `new` has at least the ids of `old`.
pub open spec fn classes_kept(old: Seq<usize>, new: Seq<usize>) -> bool {
    &&& old.len() <= new.len()
    &&& forall|i: int, j: int|
        0 <= i < old.len() && 0 <= j < old.len() && #[trigger] old[i] == #[trigger] old[j] ==> new[i] == new[j]
}

/// The canonical ids after the classes of `a` and `b` are merged: the
/// smaller of their two canonical ids becomes that of both classes.
pub open spec fn union_roots(r: Seq<usize>, a: int, b: int) -> Seq<usize> {
    if r[a] == r[b] {
        r
    } else {
        let m = if r[a] < r[b] { r[a] } else { r[b] };
        Seq::new(r.len(), |i: int| if r[i] == r[a] || r[i] == r[b] { m } else { r[i] })
    }
}

/// What `union` of `a` and `b` reports: the canonical id of the merged
/// class, and whether the two were in different classes.
pub open spec fn union_result(r: Seq<usize>, a: int, b: int) -> (usize, bool) {
    if r[a] == r[b] {
        (r[a], false)
    } else if r[a] < r[b] {
        (r[a], true)
    } else {
        (r[b], true)
    }
}

impl ProofGraph {
    /// Calls `EGraph::default`: an empty e-graph.
    #[verifier::external_body]
    pub fn new() -> (g: ProofGraph)
        ensures
            graph_roots(g) == Seq::<usize>::empty(),
            graph_leaves(g) == Set::<Seq<char>>::empty(),
            forall|e: Seq<NodeV>| #[trigger] expr_class(g, e) is None,
    {
        ProofGraph { graph: EGraph::default() }
    }

    /// Calls `EGraph::clone`: the copy has the same classes and lookups.
    #[verifier::external_body]
    pub fn copy(&self) -> (g: ProofGraph)
        ensures
            graph_roots(g) == graph_roots(*self),
            graph_leaves(g) == graph_leaves(*self),
            forall|e: Seq<NodeV>| #[trigger] expr_class(g, e) == expr_class(*self, e),
            graph_terms(g) == graph_terms(*self),
            graph_clean(g) == graph_clean(*self),
            forall|p: Seq<PatNodeV>, b: Map<Seq<char>, usize>|
                #[trigger] instance_class(g, p, b) == instance_class(*self, p, b),
    {
        ProofGraph { graph: self.graph.clone() }
    }

    /// Calls `EGraph::add_expr`. The nodes reachable from the root are
    /// added; adding only creates classes (one per node at most) and never
    /// merges; the returned id is canonical and is what looking `e` up
    /// gives. What could be looked up before still gives the same.
    #[verifier::external_body]
    pub fn add_expr(&mut self, e: &Expr) -> (id: usize)
        requires
            expr_wf(e@),
            graph_roots(*old(self)).len() + e@.len() <= 0x1_0000_0000,
        ensures
            roots_extend(graph_roots(*old(self)), graph_roots(*final(self))),
            graph_roots(*final(self)).len() <= graph_roots(*old(self)).len() + e@.len(),
            id < graph_roots(*final(self)).len(),
            graph_roots(*final(self))[id as int] == id,
            graph_leaves(*final(self)) == graph_leaves(*old(self)).union(reachable_leaf_ops(e@)),
            expr_class(*final(self), e@) == Some(id),
            graph_terms(*old(self)).subset_of(graph_terms(*final(self))),
            graph_terms(*final(self)).contains(e@),
            forall|e2: Seq<NodeV>|
                #[trigger] expr_class(*old(self), e2) is Some ==> expr_class(*final(self), e2) == expr_class(
                    *old(self),
                    e2,
                ),
            forall|p: Seq<PatNodeV>, b: Map<Seq<char>, usize>|
                #[trigger] instance_class(*old(self), p, b) is Some ==> instance_class(*final(self), p, b)
                    == instance_class(*old(self), p, b),
    {
        let nodes: Vec<SymbolLang> = e.nodes.iter().map(|n| SymbolLang::new(n.op.as_str(),
            n.children.iter().map(|&c| Id::from(c)).collect())).collect();
        usize::from(self.graph.add_expr(&RecExpr::from(nodes)))
    }

    /// Calls `EGraph::lookup` on the childless node `op`; a found id is canonical.
    #[verifier::external_body]
    pub fn lookup_leaf(&self, op: &String) -> (res: Option<usize>)
        ensures
            res is Some <==> graph_leaves(*self).contains(op@),
            res matches Some(id) ==> id < graph_roots(*self).len() && graph_roots(*self)[id as int] == id,
            res == expr_class(*self, crate::lang::leaf_expr(op@)),
    {
        self.graph.lookup(SymbolLang::leaf(op.as_str())).map(|id| usize::from(id))
    }

    /// Calls `EGraph::union`.
    #[verifier::external_body]
    pub fn union(&mut self, a: usize, b: usize) -> (res: (usize, bool))
        requires
            a < graph_roots(*old(self)).len(),
            b < graph_roots(*old(self)).len(),
            graph_size_ok(graph_roots(*old(self))),
        ensures
            graph_roots(*final(self)) == union_roots(graph_roots(*old(self)), a as int, b as int),
            res == union_result(graph_roots(*old(self)), a as int, b as int),
            graph_leaves(*final(self)) == graph_leaves(*old(self)),
            graph_terms(*old(self)).subset_of(graph_terms(*final(self))),
    {
        let (to, did) = self.graph.union(Id::from(a), Id::from(b));
        (usize::from(to), did)
    }

    /// Calls `Runner::run` with the given rules on this e-graph, with
    /// `iter_limit` iterations at most and the runner's other limits left
    /// as they are (among them a time limit). The rules are rewrites between
    /// patterns whose applied variables the search binds, so applying them
    /// cannot fail, and they only add and merge: classes are kept and what
    /// the e-graph represents stays; the runner rebuilds the e-graph before
    /// it returns. Which merges happen is not stated.
    #[verifier::external_body]
    pub fn run(self, rules: &[Rewrite<SymbolLang, ()>], iter_limit: usize) -> (g: ProofGraph)
        requires
            forall|i: int| 0 <= i < rules@.len() ==> safe_rule(#[trigger] rules@[i]),
        ensures
            run_result(self, rules@, iter_limit, g),
            classes_kept(graph_roots(self), graph_roots(g)),
            graph_terms(self).subset_of(graph_terms(g)),
            graph_clean(g),
    {
        let runner: Runner<SymbolLang, ()> = Runner::new(()).with_egraph(self.graph);
        ProofGraph { graph: runner.with_iter_limit(iter_limit).run(rules.iter()).egraph }
    }

    /// Calls `EGraph::equivs`: the ids of the classes found to hold both
    /// expressions. In a rebuilt e-graph an expression it represents is
    /// found, so it is found in a class with itself.
    #[verifier::external_body]
    pub fn equiv_ids(&self, e1: &Expr, e2: &Expr) -> (res: Vec<usize>)
        requires
            expr_wf(e1@),
            expr_wf(e2@),
        ensures
            res@ == equiv_classes(*self, e1@, e2@),
            graph_clean(*self) && graph_terms(*self).contains(e1@) && e1@ == e2@ ==> res@.len() > 0,
    {
        let a: Vec<SymbolLang> = e1.nodes.iter().map(|n| SymbolLang::new(n.op.as_str(),
            n.children.iter().map(|&c| Id::from(c)).collect())).collect();
        let b: Vec<SymbolLang> = e2.nodes.iter().map(|n| SymbolLang::new(n.op.as_str(),
            n.children.iter().map(|&c| Id::from(c)).collect())).collect();
        self.graph.equivs(&RecExpr::from(a), &RecExpr::from(b)).into_iter().map(usize::from).collect()
    }

    /// Whether some class holds both expressions.
    pub fn equivalent(&self, e1: &Expr, e2: &Expr) -> (res: bool)
        requires
            expr_wf(e1@),
            expr_wf(e2@),
        ensures
            res == graph_equiv(*self, e1@, e2@),
            graph_clean(*self) && graph_terms(*self).contains(e1@) && e1@ == e2@ ==> res,
    {
        let ids = self.equiv_ids(e1, e2);
        ids.len() > 0
    }

    /// Calls `Applier::apply_one` of the pattern: adds the nodes reachable
    /// from the pattern's root, with its variables read from the
    /// substitution, and returns the id of its root (canonical where the
    /// root is an operator node, as `EGraph::add` returns one, and then what
    /// looking up the instance gives). Adding never merges classes, and what
    /// could be looked up before still gives the same.
    #[verifier::external_body]
    pub fn apply_pattern(&mut self, p: &PatternAst, s: &Subst) -> (id: usize)
        requires
            pattern_wf(p@),
            forall|v: Seq<char>|
                #[trigger] pattern_vars(p@).contains(v) ==> subst_bindings(*s).dom().contains(v)
                    && subst_bindings(*s)[v] < graph_roots(*old(self)).len(),
            graph_roots(*old(self)).len() + p@.len() <= 0x1_0000_0000,
        ensures
            roots_extend(graph_roots(*old(self)), graph_roots(*final(self))),
            graph_roots(*final(self)).len() <= graph_roots(*old(self)).len() + p@.len(),
            id < graph_roots(*final(self)).len(),
            p@.last() matches PatNodeV::Var(v) ==> id == subst_bindings(*s)[v],
            pattern_applied(*old(self), p@, subst_bindings(*s), *final(self)),
            p@.last() is Node ==> graph_roots(*final(self))[id as int] == id,
            p@.last() is Node ==> instance_class(*final(self), p@, subst_bindings(*s)) == Some(id),
            graph_leaves(*final(self)) == graph_leaves(*old(self)).union(pattern_leaf_ops(p@)),
            graph_terms(*old(self)).subset_of(graph_terms(*final(self))),
            forall|e2: Seq<NodeV>|
                #[trigger] expr_class(*old(self), e2) is Some ==> expr_class(*final(self), e2) == expr_class(
                    *old(self),
                    e2,
                ),
            forall|q: Seq<PatNodeV>, b: Map<Seq<char>, usize>|
                #[trigger] instance_class(*old(self), q, b) is Some ==> instance_class(*final(self), q, b)
                    == instance_class(*old(self), q, b),
    {
        let nodes: Vec<ENodeOrVar<SymbolLang>> = p.nodes.iter().map(|n| match n {
            PatNode::Node(e) => ENodeOrVar::ENode(SymbolLang::new(e.op.as_str(),
                e.children.iter().map(|&c| Id::from(c)).collect())),
            PatNode::Var(v) => ENodeOrVar::Var(v.parse().unwrap()),
        }).collect();
        let pat = Pattern::from(RecExpr::from(nodes));
        usize::from(egg::Applier::apply_one(&pat, &mut self.graph, Id::from(0usize), s)[0])
    }
}

/// Calls `Subst::get` for the variable named `var`.
#[verifier::external_body]
pub fn subst_lookup(s: &Subst, var: &String) -> (res: Option<usize>)
    requires
        crate::pattern::valid_var_name(var@),
    ensures
        res == (if subst_bindings(*s).dom().contains(var@) {
            Some(subst_bindings(*s)[var@])
        } else {
            None
        }),
{
    let v: Var = var.parse().unwrap();
    s.get(v).map(|id| usize::from(*id))
}

/// Calls `RecExpr::pretty` on the pattern. A root with children prints as
/// a parenthesized list; a variable root prints as its name, which begins
/// with `?`; a childless operator root prints as its operator with any
/// surrounding quotes trimmed.
#[verifier::external_body]
pub fn pattern_pretty(p: &PatternAst, width: usize) -> (res: String)
    requires
        pattern_wf(p@),
    ensures
        res@ == egg_pretty(p@, width),
        pat_children(p@.last()).len() > 0 ==> res@.len() > 0 && res@[0] == '(',
        p@.last() is Var ==> !(res@.len() > 0 && res@[0] == '('),
        p@.last() matches PatNodeV::Node(op, c) && c.len() == 0 && op.len() > 0 && op[0] != '(' && op[0] != '"'
            ==> !(res@.len() > 0 && res@[0] == '('),
{
    let nodes: Vec<ENodeOrVar<SymbolLang>> = p.nodes.iter().map(|n| match n {
        PatNode::Node(e) => ENodeOrVar::ENode(SymbolLang::new(e.op.as_str(),
            e.children.iter().map(|&c| Id::from(c)).collect())),
        PatNode::Var(v) => ENodeOrVar::Var(v.parse().unwrap()),
    }).collect();
    RecExpr::from(nodes).pretty(width)
}

/// Calls `Rewrite::new` with the two names and the two patterns as searcher
/// and applier. It fails exactly when the applier has a variable that the
/// searcher lacks; the rewrite made has that name and patterns.
#[verifier::external_body]
pub fn pattern_rewrite(
    name: &String,
    long_name: &String,
    searcher: &PatternAst,
    applier: &PatternAst,
) -> (res: Option<Rewrite<SymbolLang, ()>>)
    requires
        pattern_wf(searcher@),
        pattern_wf(applier@),
    ensures
        res is Some <==> pattern_vars(applier@).subset_of(pattern_vars(searcher@)),
        res matches Some(r) ==> from_patterns(r) && rewrite_rule(r) == (name@, searcher@, applier@),
{
    let pats: Vec<Pattern<SymbolLang>> = [searcher, applier].iter().map(|p| Pattern::from(RecExpr::from(
        p.nodes.iter().map(|n| match n {
            PatNode::Node(e) => ENodeOrVar::ENode(SymbolLang::new(e.op.as_str(),
                e.children.iter().map(|&c| Id::from(c)).collect())),
            PatNode::Var(v) => ENodeOrVar::Var(v.parse().unwrap()),
        }).collect::<Vec<_>>()))).collect();
    Rewrite::new(name.as_str(), long_name.as_str(), pats[0].clone(), pats[1].clone()).ok()
}

} // verus!

verus! {

/// The canonical ids, and the merges reported, after the class of `a` is
/// merged with the class of each id of `bs` in turn.
pub open spec fn union_chain(r: Seq<usize>, a: int, bs: Seq<usize>) -> (Seq<usize>, Seq<usize>)
    decreases bs.len(),
{
    if bs.len() == 0 {
        (r, Seq::empty())
    } else {
        let (r1, added) = union_chain(r, a, bs.drop_last());
        let b = bs.last() as int;
        let (to, did) = union_result(r1, a, b);
        (union_roots(r1, a, b), if did { added.push(to) } else { added })
    }
}

/// Merging is symmetric.
pub proof fn lemma_union_symmetric(r: Seq<usize>, a: int, b: int)
    requires
        0 <= a < r.len(),
        0 <= b < r.len(),
    ensures
        union_roots(r, a, b) == union_roots(r, b, a),
        union_result(r, a, b) == union_result(r, b, a),
{
    assert(union_roots(r, a, b) =~= union_roots(r, b, a));
}

/// Merging keeps every class together and keeps the number of ids.
pub proof fn lemma_union_keeps_classes(r: Seq<usize>, a: int, b: int)
    requires
        0 <= a < r.len(),
        0 <= b < r.len(),
    ensures
        classes_kept(r, union_roots(r, a, b)),
        union_roots(r, a, b).len() == r.len(),
{
}

/// Keeping classes is transitive.
pub proof fn lemma_classes_kept_trans(r1: Seq<usize>, r2: Seq<usize>, r3: Seq<usize>)
    requires
        classes_kept(r1, r2),
        classes_kept(r2, r3),
    ensures
        classes_kept(r1, r3),
{
    assert forall|i: int, j: int|
        0 <= i < r1.len() && 0 <= j < r1.len() && #[trigger] r1[i] == #[trigger] r1[j] implies r3[i] == r3[j] by {
        assert(r2[i] == r2[j]);
    }
}

/// Extending the e-graph keeps its classes.
pub proof fn lemma_extend_keeps_classes(r1: Seq<usize>, r2: Seq<usize>)
    requires
        roots_extend(r1, r2),
    ensures
        classes_kept(r1, r2),
{
    assert forall|i: int, j: int|
        0 <= i < r1.len() && 0 <= j < r1.len() && #[trigger] r1[i] == #[trigger] r1[j] implies r2[i] == r2[j] by {
        assert(r2[i] == r1[i]);
        assert(r2[j] == r1[j]);
    }
}

/// Extending is transitive.
pub proof fn lemma_extend_trans(r1: Seq<usize>, r2: Seq<usize>, r3: Seq<usize>)
    requires
        roots_extend(r1, r2),
        roots_extend(r2, r3),
    ensures
        roots_extend(r1, r3),
{
    assert forall|i: int| 0 <= i < r1.len() implies #[trigger] r3[i] == r1[i] by {
        assert(r2[i] == r1[i]);
    }
    assert forall|i: int| r1.len() <= i < r3.len() implies #[trigger] r3[i] == i by {
        if i < r2.len() {
            assert(r2[i] == i);
        }
    }
}

impl ProofGraph {
    /// Merges the class of `a` with the class of each id of `bs` in turn,
    /// and returns the canonical ids that the merges which did something
    /// reported.
    pub fn union_each(&mut self, a: usize, bs: &Vec<usize>) -> (added: Vec<usize>)
        requires
            a < graph_roots(*old(self)).len(),
            forall|k: int| 0 <= k < bs@.len() ==> #[trigger] bs@[k] < graph_roots(*old(self)).len(),
            graph_size_ok(graph_roots(*old(self))),
        ensures
            (graph_roots(*final(self)), added@) == union_chain(graph_roots(*old(self)), a as int, bs@),
            graph_leaves(*final(self)) == graph_leaves(*old(self)),
    {
        let ghost r0 = graph_roots(*self);
        let mut added: Vec<usize> = Vec::new();
        let mut k: usize = 0;
        while k < bs.len()
            invariant
                k <= bs.len(),
                a < r0.len(),
                forall|m: int| 0 <= m < bs@.len() ==> #[trigger] bs@[m] < r0.len(),
                graph_size_ok(r0),
                (graph_roots(*self), added@) == union_chain(r0, a as int, bs@.subrange(0, k as int)),
                graph_roots(*self).len() == r0.len(),
                graph_leaves(*self) == graph_leaves(*old(self)),
            decreases bs.len() - k,
        {
            let ghost r1 = graph_roots(*self);
            let b = bs[k];
            let (to, did) = self.union(b, a);
            proof {
                lemma_union_symmetric(r1, a as int, b as int);
                assert(bs@.subrange(0, k + 1).drop_last() =~= bs@.subrange(0, k as int));
            }
            if did {
                added.push(to);
            }
            k += 1;
        }
        assert(bs@.subrange(0, bs.len() as int) =~= bs@);
        added
    }
}

/// Merging along a chain keeps every class together and keeps the number of ids.
pub proof fn lemma_union_chain_keeps_classes(r: Seq<usize>, a: int, bs: Seq<usize>)
    requires
        0 <= a < r.len(),
        forall|k: int| 0 <= k < bs.len() ==> #[trigger] bs[k] < r.len(),
    ensures
        classes_kept(r, union_chain(r, a, bs).0),
        union_chain(r, a, bs).0.len() == r.len(),
    decreases bs.len(),
{
    if bs.len() > 0 {
        lemma_union_chain_keeps_classes(r, a, bs.drop_last());
        let r1 = union_chain(r, a, bs.drop_last()).0;
        lemma_union_keeps_classes(r1, a, bs.last() as int);
        lemma_classes_kept_trans(r, r1, union_roots(r1, a, bs.last() as int));
    }
}

} // verus!
