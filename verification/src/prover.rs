use vstd::prelude::*;
use vstd::string::*;
use egg::{Rewrite, SymbolLang};
use crate::appliers::DiffApplier;
use crate::egraph::{
    egg_pretty, pattern_pretty, pattern_rewrite, ProofGraph, graph_roots, graph_leaves,
    reachable_leaf_ops, expr_class, graph_equiv, rewrite_rule, roots_extend, classes_kept, union_roots,
    graph_terms, run_result, safe_rule, from_patterns, reach_vars,
};
use crate::expr::{
    ENode, Expr, NodeV, expr_wf, has_reachable_leaf, lemma_op_positions, mentions_op, op_positions, replace_ops,
    subs_view,
};
use crate::generalize::{lemma_inputs_renamed, lemma_renamed_tree, lemma_replace_renames};
use crate::lang::{
    DataType, DataTypeV, Function, FunctionV, induction_var, leaf_expr, placeholder, placeholder_name,
    placeholder_prefix,
};
use crate::pattern::{
    PatNode, PatNodeV, PatternAst, add_node, map_ident, no_bare_var, pattern_of, pattern_vars, pattern_wf,
    root_is_leaf,
};
use crate::permute::{heap_permutations, heap_order};
use crate::laws::{law_tree_pattern_vars_reached, no_var_application, postorder_tree};
use crate::rules::{
    ApplierSpec, ApplierV, RuleSpec, RuleV, SearcherSpec, SearcherV, patterns_view, rules_view,
};
use crate::text::{concat, decimal, push_decimal, starts_with, starts_with_char};
use crate::wfo::{
    ctor_pattern, ctor_rule, ctor_rules_upto, ltwf, ltwf_pattern, param_var, root_var, wfo_rules, wfo_rules_upto,
    wfo_trans_rule,
};

verus! {

/// The number of rewriting iterations run on each proof case.
pub const RUN_DEPTH: usize = 8;

/// Proves equalities over one datatype by induction on a placeholder of
/// that type, using e-graph rewriting to check the base and step cases.
pub struct Prover {
    datatype: DataType,
    wfo_rules: Vec<RuleSpec>,
    ind_var: Function,
}

/// The name of the variable for the `i`-th constructor parameter.
fn param_var_name(i: usize) -> (res: String)
    ensures
        res@ == param_var(i as nat),
{
    proof {
        reveal_strlit("?param_");
    }
    let mut s = String::from_str("?param_");
    push_decimal(&mut s, i);
    s
}

/// The name of the variable for the class of a constructor term.
fn root_var_name() -> (res: String)
    ensures
        res@ == root_var(),
{
    proof {
        reveal_strlit("?root");
    }
    String::from_str("?root")
}

/// The identifier without its leading `?`, if it has one.
pub open spec fn cleaned(i: Seq<char>) -> Seq<char> {
    if i.len() > 0 && i[0] == '?' {
        i.drop_first()
    } else {
        i
    }
}

/// The variable that stands for smaller values in the induction hypothesis.
pub open spec fn somevar() -> Seq<char> {
    seq!['?', 's', 'o', 'm', 'e', 'v', 'a', 'r']
}

/// The text begins with an opening parenthesis.
pub open spec fn starts_paren(s: Seq<char>) -> bool {
    s.len() > 0 && s[0] == '('
}

/// The induction hypothesis rules for the equation `e1 = e2` over the
/// induction variable `ind`: with `?somevar` in place of the variable and
/// under the side condition `(ltwf ?somevar ind)`, each side that prints as
/// an application may be rewritten to the other, where the other side has
/// no variable that the searched side and the side condition lack.
pub open spec fn hypothesis_rules(ind: Seq<char>, e1: Seq<NodeV>, e2: Seq<NodeV>) -> Seq<RuleV> {
    let t1 = pattern_of(e1, ind, somevar());
    let t2 = pattern_of(e2, ind, somevar());
    let pre = ltwf_pattern(PatNodeV::Var(somevar()), PatNodeV::Node(ind, Seq::empty()));
    let ih1 = RuleV {
        name: seq!['I', 'H', '1'],
        long_name: seq!['I', 'H', '1'],
        searcher: SearcherV::MultiDiff(seq![t1, pre]),
        applier: ApplierV::Pattern(t2),
    };
    let ih2 = RuleV {
        name: seq!['I', 'H', '2'],
        long_name: seq!['I', 'H', '2'],
        searcher: SearcherV::MultiDiff(seq![t2, pre]),
        applier: ApplierV::Pattern(t1),
    };
    (if starts_paren(egg_pretty(t1, 500)) && pattern_vars(t2).subset_of(pattern_vars(t1).union(pattern_vars(pre))) {
        seq![ih1]
    } else {
        Seq::empty()
    }) + (if starts_paren(egg_pretty(t2, 500)) && pattern_vars(t1).subset_of(
        pattern_vars(t2).union(pattern_vars(pre)),
    ) {
        seq![ih2]
    } else {
        Seq::empty()
    })
}

/// The rewrite from `a` to `b`, if `a` is not a leaf and `b` has no
/// variable that `a` lacks.
pub open spec fn rewrite_if(a: Seq<PatNodeV>, b: Seq<PatNodeV>) -> Seq<(Seq<PatNodeV>, Seq<PatNodeV>)> {
    if !root_is_leaf(a) && pattern_vars(b).subset_of(pattern_vars(a)) {
        seq![(a, b)]
    } else {
        Seq::empty()
    }
}

/// The rules that a proof of `e1 = e2` by induction on `ind` yields: the
/// two sides with the induction variable made a pattern variable, as a
/// rewrite in each direction that can be one.
pub open spec fn induction_rules(ind: Seq<char>, e1: Seq<NodeV>, e2: Seq<NodeV>) -> Seq<(Seq<PatNodeV>, Seq<PatNodeV>)> {
    let sub = seq!['?'] + ind;
    let f1 = pattern_of(e1, ind, sub);
    let f2 = pattern_of(e2, ind, sub);
    rewrite_if(f1, f2) + rewrite_if(f2, f1)
}

/// The two patterns of each proved rule.
pub open spec fn rule_pairs(v: Seq<(PatternAst, PatternAst, Rewrite<SymbolLang, ()>)>) -> Seq<(Seq<PatNodeV>, Seq<PatNodeV>)> {
    v.map_values(|t: (PatternAst, PatternAst, Rewrite<SymbolLang, ()>)| (t.0@, t.1@))
}

/// The name of the `i`-th constructor parameter in a step case.
pub open spec fn param_leaf(i: nat) -> Seq<char> {
    seq!['p', 'a', 'r', 'a', 'm', '_'] + decimal(i)
}

/// The step-case term of a constructor: `(c param_0 param_1 ...)`.
pub open spec fn ctor_expr(c: FunctionV) -> Seq<NodeV> {
    Seq::new(c.params.len(), |i: int| (param_leaf(i as nat), Seq::<usize>::empty())).push(
        (c.name, Seq::new(c.params.len(), |i: int| i as usize)),
    )
}

/// The patterns that a proof by induction builds from `e` are usable.
pub open spec fn patterns_ok(e: Seq<NodeV>, ind: Seq<char>) -> bool {
    &&& no_bare_var(e, ind, somevar())
    &&& pattern_wf(pattern_of(e, ind, somevar()))
    &&& no_bare_var(e, ind, seq!['?'] + ind)
    &&& pattern_wf(pattern_of(e, ind, seq!['?'] + ind))
}

/// The assignment of placeholders to the nodes at `idx`: the `j`-th node
/// gets placeholder `j % c + 1` of the type `t`.
pub open spec fn ph_subs(idx: Seq<usize>, t: Seq<char>, c: nat) -> Seq<(usize, Seq<char>)> {
    Seq::new(idx.len(), |j: int| (idx[j], placeholder_name(t, (j % (c as int)) as nat + 1)))
}

/// The name of the rewrite from `p` to `q`: both patterns printed at width
/// 80, joined by ` => `.
pub open spec fn rw_text(p: Seq<PatNodeV>, q: Seq<PatNodeV>) -> Seq<char> {
    egg_pretty(p, 80) + seq![' ', '=', '>', ' '] + egg_pretty(q, 80)
}

/// Each proved rule's rewrite is the one made from its first pattern to its
/// second, named by `rw_text`; where searching with the first pattern
/// binds every variable of the second, egg can run it.
pub open spec fn rules_named(v: Seq<(PatternAst, PatternAst, Rewrite<SymbolLang, ()>)>) -> bool {
    forall|i: int|
        0 <= i < v.len() ==> rewrite_rule(#[trigger] v[i].2) == (rw_text(v[i].0@, v[i].1@), v[i].0@, v[i].1@)
            && from_patterns(v[i].2) && pattern_wf(v[i].0@) && pattern_wf(v[i].1@) && (pattern_vars(
            v[i].1@,
        ).subset_of(reach_vars(v[i].0@)) ==> safe_rule(v[i].2))
}

/// Egg can run each proved rule's rewrite.
pub open spec fn rules_safe(v: Seq<(PatternAst, PatternAst, Rewrite<SymbolLang, ()>)>) -> bool {
    forall|i: int| 0 <= i < v.len() ==> safe_rule(#[trigger] v[i].2)
}

/// Both sides are parsed expressions (post-order trees) and no node with
/// children is renamed to a variable when the induction variable becomes
/// the pattern variable `sub`.
pub open spec fn tree_sides(e1: Seq<NodeV>, e2: Seq<NodeV>, ind: Seq<char>, sub: Seq<char>) -> bool {
    &&& postorder_tree(e1)
    &&& postorder_tree(e2)
    &&& no_var_application(e1, ind, sub)
    &&& no_var_application(e2, ind, sub)
}

/// An e-graph that holds the two sides of an equation and nothing else:
/// no two classes merged, both sides there, and exactly their leaves.
pub open spec fn sides_graph(g: ProofGraph, e1: Seq<NodeV>, e2: Seq<NodeV>) -> bool {
    &&& forall|i: int| 0 <= i < graph_roots(g).len() ==> #[trigger] graph_roots(g)[i] == i
    &&& expr_class(g, e1) is Some
    &&& expr_class(g, e2) is Some
    &&& graph_terms(g).contains(e1)
    &&& graph_terms(g).contains(e2)
    &&& graph_leaves(g) == reachable_leaf_ops(e1).union(reachable_leaf_ops(e2))
}

/// `gr` is what running the rewrites `rs` for `RUN_DEPTH` iterations may
/// leave of the e-graph `g0` with the term `c` added (giving `g1`) and its
/// class merged with class `ind` (giving `gc`): adding keeps what `g0` holds
/// and adds the leaves of `c`, merging changes only the canonical ids, and
/// the run keeps every class and what the e-graph represents.
pub open spec fn case_run(
    g0: ProofGraph,
    ind: usize,
    c: Seq<NodeV>,
    rs: Seq<Rewrite<SymbolLang, ()>>,
    gr: ProofGraph,
) -> bool {
    exists|g1: ProofGraph, gc: ProofGraph|
        #![trigger expr_class(g1, c), run_result(gc, rs, RUN_DEPTH, gr)]
        {
            &&& roots_extend(graph_roots(g0), graph_roots(g1))
            &&& graph_leaves(g1) == graph_leaves(g0).union(reachable_leaf_ops(c))
            &&& forall|e: Seq<NodeV>|
                #[trigger] expr_class(g0, e) is Some ==> expr_class(g1, e) == expr_class(g0, e)
            &&& expr_class(g1, c) is Some
            &&& graph_terms(g0).subset_of(graph_terms(g1))
            &&& graph_roots(gc) == union_roots(graph_roots(g1), expr_class(g1, c)->0 as int, ind as int)
            &&& graph_leaves(gc) == graph_leaves(g1)
            &&& graph_terms(g1).subset_of(graph_terms(gc))
            &&& run_result(gc, rs, RUN_DEPTH, gr)
            &&& classes_kept(graph_roots(gc), graph_roots(gr))
            &&& graph_terms(gc).subset_of(graph_terms(gr))
        }
}

/// Every rewrite can be run by egg without failing (see `safe_rule`).
pub open spec fn safe_rules(rs: Seq<Rewrite<SymbolLang, ()>>) -> bool {
    forall|i: int| 0 <= i < rs.len() ==> safe_rule(#[trigger] rs[i])
}

/// The order in which round `r` of generalization starts taking the nodes
/// `xs`: each round starts from the order the previous round's visits left.
pub open spec fn round_start(xs: Seq<usize>, r: nat) -> Seq<usize>
    decreases r,
{
    if r == 0 {
        xs
    } else {
        heap_order(round_start(xs, (r - 1) as nat)).last()
    }
}

/// Giving nodes the operators they already have changes nothing.
proof fn lemma_replace_same(e: Seq<NodeV>, subs: Seq<(usize, Seq<char>)>)
    requires
        forall|j: int| 0 <= j < subs.len() ==> #[trigger] subs[j].0 < e.len() && e[subs[j].0 as int].0 == subs[j].1,
    ensures
        replace_ops(e, subs) == e,
    decreases subs.len(),
{
    if subs.len() > 0 {
        assert forall|j: int| 0 <= j < subs.drop_last().len() implies #[trigger] subs.drop_last()[j].0 < e.len()
            && e[subs.drop_last()[j].0 as int].0 == subs.drop_last()[j].1 by {
            assert(subs.drop_last()[j] == subs[j]);
        }
        lemma_replace_same(e, subs.drop_last());
        let s = subs.last();
        assert(subs[subs.len() - 1] == s);
        assert(e.update(s.0 as int, (s.1, e[s.0 as int].1)) =~= e);
    }
}

/// With one placeholder, every placeholder-1 node keeps its operator.
proof fn lemma_one_placeholder_same(e: Seq<NodeV>, idx: Seq<usize>, t: Seq<char>)
    requires
        forall|j: int| 0 <= j < idx.len() ==> #[trigger] idx[j] < e.len() && e[idx[j] as int].0 == placeholder_name(t, 1),
    ensures
        replace_ops(e, ph_subs(idx, t, 1)) == e,
{
    let subs = ph_subs(idx, t, 1);
    assert forall|j: int| 0 <= j < subs.len() implies #[trigger] subs[j].0 < e.len() && e[subs[j].0 as int].0
        == subs[j].1 by {
        assert(j % 1 == 0);
        assert(subs[j] == (idx[j], placeholder_name(t, 1)));
    }
    lemma_replace_same(e, subs);
}

/// No child index occurs twice among the nodes' children: the expression
/// is a tree, with no shared subterm.
pub open spec fn children_unique(e: Seq<NodeV>) -> bool {
    forall|i1: int, j1: int, i2: int, j2: int|
        #![trigger e[i1].1[j1], e[i2].1[j2]]
        0 <= i1 < e.len() && 0 <= j1 < e[i1].1.len() && 0 <= i2 < e.len() && 0 <= j2 < e[i2].1.len()
            && e[i1].1[j1] == e[i2].1[j2] ==> i1 == i2 && j1 == j2
}

impl Prover {
    #[verifier::type_invariant]
    closed spec fn inv(self) -> bool {
        &&& self.ind_var@.name == placeholder_name(self.datatype@.name, 0)
        &&& rules_view(self.wfo_rules@) == wfo_rules(self.datatype@)
    }

    /// The datatype the prover does induction over.
    pub closed spec fn datatype(&self) -> DataTypeV {
        self.datatype@
    }

    /// The rules of the well-founded order that the prover holds.
    pub closed spec fn order_rules(&self) -> Seq<RuleV> {
        rules_view(self.wfo_rules@)
    }

    /// The induction variable that the prover holds.
    pub closed spec fn induction_variable(&self) -> FunctionV {
        self.ind_var@
    }

    /// The name of the induction variable: the datatype's placeholder 0.
    pub open spec fn ind_name(&self) -> Seq<char> {
        placeholder_name(self.datatype().name, 0)
    }

    /// The name of the placeholders that generalization introduces first.
    pub open spec fn ph1_name(&self) -> Seq<char> {
        placeholder_name(self.datatype().name, 1)
    }

    /// The well-founded order rules of the prover's datatype.
    pub open spec fn wfo(&self) -> Seq<RuleV> {
        wfo_rules(self.datatype())
    }

    /// The class of the induction variable's leaf in the e-graph.
    pub open spec fn ind_class(&self, g: ProofGraph) -> usize {
        expr_class(g, leaf_expr(self.ind_name()))->0
    }

    /// Some outcome of the base cases proves `e1 = e2` with the rewrites
    /// `rs`: on an e-graph of the two sides, for each constructor without
    /// parameters, some run of `rs` on it with the constructor merged into
    /// the induction variable's class leaves the sides in one class.
    pub open spec fn base_proved(&self, rs: Seq<Rewrite<SymbolLang, ()>>, e1: Seq<NodeV>, e2: Seq<NodeV>) -> bool {
        exists|g0: ProofGraph|
            #[trigger] sides_graph(g0, e1, e2) && forall|k: int|
                0 <= k < self.datatype().constructors.len() && #[trigger] self.datatype().constructors[k].params.len()
                    == 0 ==> exists|gr: ProofGraph|
                    #[trigger] case_run(g0, self.ind_class(g0), leaf_expr(self.datatype().constructors[k].name), rs, gr)
                        && graph_equiv(gr, e1, e2)
    }

    /// Some outcome of a base case refutes `e1 = e2` with the rewrites `rs`:
    /// a run as in `base_proved` that leaves the sides apart.
    pub open spec fn base_refuted(&self, rs: Seq<Rewrite<SymbolLang, ()>>, e1: Seq<NodeV>, e2: Seq<NodeV>) -> bool {
        exists|g0: ProofGraph, k: int, gr: ProofGraph|
            #[trigger] sides_graph(g0, e1, e2) && 0 <= k < self.datatype().constructors.len()
                && self.datatype().constructors[k].params.len() == 0 && #[trigger] case_run(
                g0,
                self.ind_class(g0),
                leaf_expr(self.datatype().constructors[k].name),
                rs,
                gr,
            ) && !graph_equiv(gr, e1, e2)
    }

    /// Some outcome of the step cases proves `e1 = e2` with the rewrites
    /// `rs`: on an e-graph of the two sides, for each constructor with
    /// parameters, some run of `rs` on it with the constructor term merged
    /// into the induction variable's class leaves the sides in one class.
    pub open spec fn step_proved(&self, rs: Seq<Rewrite<SymbolLang, ()>>, e1: Seq<NodeV>, e2: Seq<NodeV>) -> bool {
        exists|g0: ProofGraph|
            #[trigger] sides_graph(g0, e1, e2) && forall|k: int|
                0 <= k < self.datatype().constructors.len() && #[trigger] self.datatype().constructors[k].params.len()
                    > 0 ==> exists|gr: ProofGraph|
                    #[trigger] case_run(g0, self.ind_class(g0), ctor_expr(self.datatype().constructors[k]), rs, gr)
                        && graph_equiv(gr, e1, e2)
    }

    /// Some outcome of a step case refutes `e1 = e2` with the rewrites `rs`:
    /// a run as in `step_proved` that leaves the sides apart.
    pub open spec fn step_refuted(&self, rs: Seq<Rewrite<SymbolLang, ()>>, e1: Seq<NodeV>, e2: Seq<NodeV>) -> bool {
        exists|g0: ProofGraph, k: int, gr: ProofGraph|
            #[trigger] sides_graph(g0, e1, e2) && 0 <= k < self.datatype().constructors.len()
                && self.datatype().constructors[k].params.len() > 0 && #[trigger] case_run(
                g0,
                self.ind_class(g0),
                ctor_expr(self.datatype().constructors[k]),
                rs,
                gr,
            ) && !graph_equiv(gr, e1, e2)
    }

    /// A proof of `e1 = e2` by induction with the rewrites `rs` is refuted:
    /// the equation does not mention the induction variable, or some
    /// outcome of a case leaves its sides apart.
    pub open spec fn refuted(&self, rs: Seq<Rewrite<SymbolLang, ()>>, e1: Seq<NodeV>, e2: Seq<NodeV>) -> bool {
        !(mentions_op(e1, self.ind_name()) || mentions_op(e2, self.ind_name())) || self.base_refuted(rs, e1, e2)
            || self.step_refuted(rs, e1, e2)
    }

    /// The equation `e1 = e2` can be put in an e-graph: both sides are
    /// usable, the induction variable, where it occurs, occurs as a leaf, and
    /// the e-graph with a constructor term added stays within egg's ids.
    pub open spec fn graph_inputs_ok(&self, e1: Seq<NodeV>, e2: Seq<NodeV>) -> bool {
        &&& expr_wf(e1)
        &&& expr_wf(e2)
        &&& (mentions_op(e1, self.ind_name()) || mentions_op(e2, self.ind_name())) ==> (has_reachable_leaf(
            e1,
            self.ind_name(),
        ) || has_reachable_leaf(e2, self.ind_name()))
        &&& e1.len() + e2.len() <= 0x1_0000_0000
        &&& forall|k: int|
            0 <= k < self.datatype().constructors.len() ==> e1.len() + e2.len()
                + #[trigger] self.datatype().constructors[k].params.len() + 1 <= 0x1_0000_0000
    }

    /// The equation `e1 = e2` can be proved by induction: it can be put in
    /// an e-graph, and the patterns built from its sides are usable.
    pub open spec fn inputs_ok(&self, e1: Seq<NodeV>, e2: Seq<NodeV>) -> bool {
        &&& self.graph_inputs_ok(e1, e2)
        &&& patterns_ok(e1, self.ind_name())
        &&& patterns_ok(e2, self.ind_name())
    }

    /// A prover for `datatype`, with its well-founded order rules and its
    /// induction variable.
    pub fn new(datatype: DataType) -> (res: Prover)
        ensures
            res.datatype() == datatype@,
            res.order_rules() == wfo_rules(datatype@),
            res.induction_variable().name == placeholder_name(datatype@.name, 0),
            res.induction_variable().params.len() == 0,
            res.induction_variable().ret_type == leaf_expr(datatype@.name),
    {
        let wfo_rules = Self::wfo_datatype(&datatype);
        let ind_var = induction_var(&datatype);
        Prover { datatype, wfo_rules, ind_var }
    }

    /// The operator of the well-founded order.
    pub fn wfo_op() -> (s: &'static str)
        ensures
            s@ == ltwf(),
    {
        proof {
            reveal_strlit("ltwf");
        }
        "ltwf"
    }

    /// The transitivity rule of the well-founded order.
    pub fn wfo_trans() -> (res: RuleSpec)
        ensures
            res@ == wfo_trans_rule(),
    {
        proof {
            reveal_strlit("?x");
            reveal_strlit("?y");
            reveal_strlit("?z");
            assert("?x"@ =~= seq!['?', 'x']);
            assert("?y"@ =~= seq!['?', 'y']);
            assert("?z"@ =~= seq!['?', 'z']);
        }
        let op = String::from_str(Self::wfo_op());
        let p1 = PatternAst::binary(op.clone(), PatNode::Var(String::from_str("?x")), PatNode::Var(String::from_str("?y")));
        let p2 = PatternAst::binary(op.clone(), PatNode::Var(String::from_str("?z")), PatNode::Var(String::from_str("?x")));
        let ap = PatternAst::binary(op, PatNode::Var(String::from_str("?z")), PatNode::Var(String::from_str("?y")));
        let mut ps: Vec<PatternAst> = Vec::new();
        ps.push(p1);
        ps.push(p2);
        assert(patterns_view(ps@) =~= wfo_trans_rule().searcher->MultiDiff_0);
        let res = RuleSpec {
            name: String::from_str("wfo transitivity"),
            long_name: String::from_str("well founded order transitivity"),
            searcher: SearcherSpec::MultiDiff(ps),
            applier: ApplierSpec::Pattern(ap),
        };
        res
    }

    /// The well-founded order rules of a datatype: for each constructor and
    /// each parameter of the datatype's own type, a rule that puts the
    /// parameter below the constructor term; then transitivity.
    pub fn wfo_datatype(datatype: &DataType) -> (res: Vec<RuleSpec>)
        ensures
            rules_view(res@) == wfo_rules(datatype@),
    {
        let ghost dt = datatype@;
        let ty = datatype.as_exp();
        let root = root_var_name();
        let mut res: Vec<RuleSpec> = Vec::new();
        let mut ci: usize = 0;
        assert(rules_view(res@) =~= wfo_rules_upto(dt, 0));
        while ci < datatype.constructors.len()
            invariant
                ci <= datatype.constructors.len(),
                dt == datatype@,
                ty@ == leaf_expr(dt.name),
                root@ == root_var(),
                rules_view(res@) == wfo_rules_upto(dt, ci as int),
            decreases datatype.constructors.len() - ci,
        {
            let c = &datatype.constructors[ci];
            let ghost cv = c@;
            assert(cv == dt.constructors[ci as int]);
            let ghost base = rules_view(res@);
            if c.params.len() > 0 {
                let mut names: Vec<String> = Vec::new();
                let mut i: usize = 0;
                while i < c.params.len()
                    invariant
                        i <= c.params.len(),
                        names@.len() == i,
                        forall|k: int| 0 <= k < i ==> #[trigger] names@[k]@ == param_var(k as nat),
                    decreases c.params.len() - i,
                {
                    names.push(param_var_name(i));
                    i += 1;
                }
                let ghost names_v = names@.map_values(|v: String| v@);
                assert(names_v =~= Seq::new(cv.params.len(), |k: int| param_var(k as nat)));
                let contr = PatternAst::apply_vars(c.name.clone(), names);
                assert(contr@ == ctor_pattern(cv));
                let mut i: usize = 0;
                assert(rules_view(res@) =~= base + ctor_rules_upto(cv, ty@, 0));
                while i < c.params.len()
                    invariant
                        i <= c.params.len(),
                        cv == c@,
                        ty@ == leaf_expr(dt.name),
                        root@ == root_var(),
                        contr@ == ctor_pattern(cv),
                        rules_view(res@) == base + ctor_rules_upto(cv, ty@, i as int),
                    decreases c.params.len() - i,
                {
                    assert(c.params@[i as int]@ == cv.params[i as int]);
                    if c.params[i].same_as(&ty) {
                        let pv = param_var_name(i);
                        let mut name = c.name.clone();
                        proof {
                            reveal_strlit("_");
                        }
                        name.append("_");
                        name.append(pv.as_str());
                        let mut ps: Vec<PatternAst> = Vec::new();
                        ps.push(contr.duplicate());
                        ps.push(PatternAst::var(root.clone()));
                        let applier = DiffApplier::new(
                            PatternAst::binary(String::from_str(Self::wfo_op()), PatNode::Var(pv), PatNode::Var(root.clone())),
                        );
                        assert(patterns_view(ps@) =~= seq![ctor_pattern(cv), seq![PatNodeV::Var(root_var())]]);
                        assert(name@ == cv.name + seq!['_'] + param_var(i as nat));
                        assert(applier.pattern() == crate::wfo::ltwf_pattern(PatNodeV::Var(param_var(i as nat)), PatNodeV::Var(root_var())));
                        let rule = RuleSpec {
                            name: name.clone(),
                            long_name: name,
                            searcher: SearcherSpec::MultiEq(ps),
                            applier: ApplierSpec::Diff(applier),
                        };
                        assert(rule@ == ctor_rule(cv, i as nat));
                        let ghost before = rules_view(res@);
                        res.push(rule);
                        assert(rules_view(res@) =~= before.push(ctor_rule(cv, i as nat)));
                    }
                    i += 1;
                }
            } else {
                assert(ctor_rules_upto(cv, ty@, 0) =~= Seq::<crate::rules::RuleV>::empty());
                assert(rules_view(res@) =~= base + ctor_rules_upto(cv, ty@, 0));
            }
            assert(rules_view(res@) == wfo_rules_upto(dt, ci + 1));
            ci += 1;
        }
        let ghost before = rules_view(res@);
        res.push(Self::wfo_trans());
        assert(rules_view(res@) =~= before.push(wfo_trans_rule()));
        res
    }

    /// Whether no node of `ex` is the induction variable.
    pub fn not_containing_ind_var(&self, ex: &Expr) -> (res: bool)
        ensures
            res == !mentions_op(ex@, self.ind_name()),
    {
        proof {
            use_type_invariant(self);
        }
        !ex.contains_op(&self.ind_var.name)
    }

    /// The indices of the nodes of `ex` that are the datatype's placeholder 1.
    pub fn collect_ph1s(&self, ex: &Expr) -> (res: Vec<usize>)
        ensures
            res@ == op_positions(ex@, self.ph1_name()),
    {
        let ph1 = placeholder(&self.datatype.name, 1);
        ex.positions_of(&ph1.name)
    }

    /// `ex` with the operator of node `i` replaced by `name` for each
    /// `(i, name)` of `ph_indices`, in order.
    pub fn replace_at_indexes(ex: &Expr, ph_indices: Vec<(usize, String)>) -> (res: Expr)
        requires
            forall|k: int| 0 <= k < ph_indices@.len() ==> #[trigger] ph_indices@[k].0 < ex@.len(),
        ensures
            res@ == replace_ops(ex@, subs_view(ph_indices@)),
    {
        ex.replace_ops_at(&ph_indices)
    }

    /// The pattern that `exp` stands for: each node in turn, children first,
    /// with its identifier renamed by `ident_mapper`. A renamed identifier
    /// that is a variable becomes a pattern variable, or, where the node has
    /// children, the operator `apply` applied to it and the children.
    pub fn pattern_from_exp(exp: &Expr, induction_ph: &Function, sub_ind: &String) -> (res: PatternAst)
        requires
            expr_wf(exp@),
            no_bare_var(exp@, induction_ph@.name, sub_ind@),
        ensures
            res@ == pattern_of(exp@, induction_ph@.name, sub_ind@),
    {
        let mut nodes: Vec<PatNode> = Vec::new();
        assert(nodes@.map_values(|n: PatNode| n@) =~= Seq::<PatNodeV>::empty());
        let _root = add_node(&mut nodes, &exp.nodes, exp.nodes.len() - 1, &induction_ph.name, sub_ind);
        PatternAst { nodes }
    }

    /// The identifier without its leading `?`, if it has one.
    pub fn clean_vars(i: String) -> (res: String)
        ensures
            res@ == cleaned(i@),
    {
        if starts_with_char(i.as_str(), '?') {
            let n = i.as_str().unicode_len();
            let rest = i.as_str().substring_char(1, n);
            assert(rest@ =~= i@.drop_first());
            String::from_str(rest)
        } else {
            i
        }
    }

    /// The induction hypothesis of the equation `ex1 = ex2` as rules, for
    /// the induction variable `induction_ph`.
    pub fn create_hypothesis(induction_ph: &Function, ex1: &Expr, ex2: &Expr) -> (res: Vec<RuleSpec>)
        requires
            !(induction_ph@.name.len() > 0 && induction_ph@.name[0] == '?'),
            expr_wf(ex1@),
            expr_wf(ex2@),
            no_bare_var(ex1@, induction_ph@.name, somevar()),
            no_bare_var(ex2@, induction_ph@.name, somevar()),
            pattern_wf(pattern_of(ex1@, induction_ph@.name, somevar())),
            pattern_wf(pattern_of(ex2@, induction_ph@.name, somevar())),
        ensures
            rules_view(res@) == hypothesis_rules(induction_ph@.name, ex1@, ex2@),
    {
        proof {
            reveal_strlit("?somevar");
            reveal_strlit("IH1");
            reveal_strlit("IH2");
            assert("?somevar"@ =~= somevar());
            assert("IH1"@ =~= seq!['I', 'H', '1']);
            assert("IH2"@ =~= seq!['I', 'H', '2']);
        }
        let ind_replacer = String::from_str("?somevar");
        let clean_term1 = Self::pattern_from_exp(ex1, induction_ph, &ind_replacer);
        let clean_term2 = Self::pattern_from_exp(ex2, induction_ph, &ind_replacer);
        let pret = pattern_pretty(&clean_term1, 500);
        let pret2 = pattern_pretty(&clean_term2, 500);
        let precondition = PatternAst::binary(
            String::from_str(Self::wfo_op()),
            PatNode::Var(ind_replacer.clone()),
            PatNode::Node(ENode { op: induction_ph.name.clone(), children: Vec::new() }),
        );
        let ghost t1 = clean_term1@;
        let ghost t2 = clean_term2@;
        let ghost pre = precondition@;
        assert(pre == ltwf_pattern(PatNodeV::Var(somevar()), PatNodeV::Node(induction_ph@.name, Seq::empty())));
        let mut res: Vec<RuleSpec> = Vec::new();
        if starts_with_char(pret.as_str(), '(') && clean_term2.vars_within(&clean_term1, &precondition) {
            let mut ps: Vec<PatternAst> = Vec::new();
            ps.push(clean_term1.duplicate());
            ps.push(precondition.duplicate());
            assert(patterns_view(ps@) =~= seq![t1, pre]);
            res.push(RuleSpec {
                name: String::from_str("IH1"),
                long_name: String::from_str("IH1"),
                searcher: SearcherSpec::MultiDiff(ps),
                applier: ApplierSpec::Pattern(clean_term2.duplicate()),
            });
        }
        let ghost mid = rules_view(res@);
        if starts_with_char(pret2.as_str(), '(') && clean_term1.vars_within(&clean_term2, &precondition) {
            let mut ps: Vec<PatternAst> = Vec::new();
            ps.push(clean_term2.duplicate());
            ps.push(precondition.duplicate());
            assert(patterns_view(ps@) =~= seq![t2, pre]);
            res.push(RuleSpec {
                name: String::from_str("IH2"),
                long_name: String::from_str("IH2"),
                searcher: SearcherSpec::MultiDiff(ps),
                applier: ApplierSpec::Pattern(clean_term1.duplicate()),
            });
        }
        assert(rules_view(res@) =~= hypothesis_rules(induction_ph@.name, ex1@, ex2@));
        res
    }

    /// Adds the rewrite from `fixed_ex1` to `fixed_ex2`, named `text1`, with
    /// both patterns (searching the first and applying the second), unless `fixed_ex1` is a leaf or egg refuses the rewrite
    /// because `fixed_ex2` has a variable that `fixed_ex1` lacks.
    pub fn push_rw(
        fixed_ex1: &PatternAst,
        fixed_ex2: &PatternAst,
        text1: String,
        new_rules: &mut Vec<(PatternAst, PatternAst, Rewrite<SymbolLang, ()>)>,
    )
        requires
            pattern_wf(fixed_ex1@),
            pattern_wf(fixed_ex2@),
        ensures
            rule_pairs(final(new_rules)@) == rule_pairs(old(new_rules)@) + rewrite_if(fixed_ex1@, fixed_ex2@),
            final(new_rules)@.subrange(0, old(new_rules)@.len() as int) == old(new_rules)@,
            final(new_rules)@.len() > old(new_rules)@.len() ==> rewrite_rule(final(new_rules)@.last().2) == (
                text1@,
                fixed_ex1@,
                fixed_ex2@,
            ) && from_patterns(final(new_rules)@.last().2),
    {
        let ghost before = rule_pairs(new_rules@);
        let last = fixed_ex1.nodes.len() - 1;
        let is_leaf = match &fixed_ex1.nodes[last] {
            PatNode::Node(n) => n.children.len() == 0,
            PatNode::Var(_) => true,
        };
        if !is_leaf {
            let rw = pattern_rewrite(&text1, &text1, fixed_ex1, fixed_ex2);
            if let Some(rw) = rw {
                let ghost olds = new_rules@;
                new_rules.push((fixed_ex1.duplicate(), fixed_ex2.duplicate(), rw));
                assert(rule_pairs(new_rules@) =~= before + rewrite_if(fixed_ex1@, fixed_ex2@));
                assert(new_rules@.subrange(0, olds.len() as int) =~= olds);
                return;
            }
        }
        assert(rule_pairs(new_rules@) =~= before + rewrite_if(fixed_ex1@, fixed_ex2@));
        assert(new_rules@.subrange(0, new_rules@.len() as int) =~= new_rules@);
    }

    /// An e-graph holding both sides of the equation and nothing else, and
    /// the class of the induction variable's leaf in it.
    pub fn create_proof_graph(&self, ex1: &Expr, ex2: &Expr) -> (res: (ProofGraph, usize))
        requires
            expr_wf(ex1@),
            expr_wf(ex2@),
            ex1@.len() + ex2@.len() <= 0x1_0000_0000,
            has_reachable_leaf(ex1@, self.ind_name()) || has_reachable_leaf(ex2@, self.ind_name()),
        ensures
            graph_roots(res.0).len() <= ex1@.len() + ex2@.len(),
            res.1 < graph_roots(res.0).len(),
            sides_graph(res.0, ex1@, ex2@),
            expr_class(res.0, leaf_expr(self.ind_name())) == Some(res.1),
    {
        proof {
            use_type_invariant(self);
        }
        let mut orig_egraph = ProofGraph::new();
        let _ = orig_egraph.add_expr(ex1);
        let ghost r1 = graph_roots(orig_egraph);
        let _ = orig_egraph.add_expr(ex2);
        proof {
            assert forall|i: int| 0 <= i < graph_roots(orig_egraph).len() implies #[trigger] graph_roots(
                orig_egraph,
            )[i] == i by {
                if i < r1.len() {
                    assert(r1[i] == i);
                }
            }
            assert(graph_terms(orig_egraph).contains(ex1@));
            assert(Set::<Seq<char>>::empty().union(reachable_leaf_ops(ex1@)).union(reachable_leaf_ops(ex2@))
                =~= reachable_leaf_ops(ex1@).union(reachable_leaf_ops(ex2@)));
        }
        proof {
            let ind = self.ind_name();
            if has_reachable_leaf(ex1@, ind) {
                assert(reachable_leaf_ops(ex1@).contains(ind));
            } else {
                assert(reachable_leaf_ops(ex2@).contains(ind));
            }
        }
        match orig_egraph.lookup_leaf(&self.ind_var.name) {
            Some(ind_id) => (orig_egraph, ind_id),
            None => (orig_egraph, 0),
        }
    }

    /// The step-case term of constructor `c`: `c` applied to fresh
    /// constants `param_0`, `param_1`, ...
    pub fn constructor_term(c: &Function) -> (res: Expr)
        ensures
            res@ == ctor_expr(c@),
    {
        proof {
            reveal_strlit("param_");
            assert("param_"@ =~= seq!['p', 'a', 'r', 'a', 'm', '_']);
        }
        let mut nodes: Vec<ENode> = Vec::new();
        let mut children: Vec<usize> = Vec::new();
        let mut i: usize = 0;
        while i < c.params.len()
            invariant
                i <= c.params.len(),
                nodes@.len() == i,
                children@.len() == i,
                forall|k: int| 0 <= k < i ==> #[trigger] nodes@[k]@ == (param_leaf(k as nat), Seq::<usize>::empty()),
                forall|k: int| 0 <= k < i ==> #[trigger] children@[k] == k,
            decreases c.params.len() - i,
        {
            proof {
                reveal_strlit("param_");
                assert("param_"@ =~= seq!['p', 'a', 'r', 'a', 'm', '_']);
            }
            let mut name = String::from_str("param_");
            push_decimal(&mut name, i);
            nodes.push(ENode { op: name, children: Vec::new() });
            children.push(i);
            i += 1;
        }
        assert(children@ =~= Seq::new(c@.params.len(), |k: int| k as usize));
        nodes.push(ENode { op: c.name.clone(), children });
        let res = Expr { nodes };
        assert(res@ =~= ctor_expr(c@));
        res
    }

    /// Checks the base cases of the equation `ex1 = ex2`: for each
    /// constructor without parameters, the e-graph of the equation with the
    /// induction variable merged with that constructor is run with `rules`,
    /// and the two sides must end up in one class. An equation that does
    /// not mention the induction variable is not proved.
    pub fn prove_base(&self, rules: &[Rewrite<SymbolLang, ()>], ex1: &Expr, ex2: &Expr) -> (res: bool)
        requires
            mentions_op(ex1@, self.ind_name()) || mentions_op(ex2@, self.ind_name()) ==> self.graph_inputs_ok(
                ex1@,
                ex2@,
            ) && safe_rules(rules@),
        ensures
            !mentions_op(ex1@, self.ind_name()) && !mentions_op(ex2@, self.ind_name()) ==> !res,
            (mentions_op(ex1@, self.ind_name()) || mentions_op(ex2@, self.ind_name())) && (forall|k: int|
                0 <= k < self.datatype().constructors.len()
                    ==> #[trigger] self.datatype().constructors[k].params.len() > 0) ==> res,
            res ==> self.base_proved(rules@, ex1@, ex2@),
            (mentions_op(ex1@, self.ind_name()) || mentions_op(ex2@, self.ind_name())) && !res
                ==> self.base_refuted(rules@, ex1@, ex2@),
            (mentions_op(ex1@, self.ind_name()) || mentions_op(ex2@, self.ind_name())) && ex1@ == ex2@ ==> res,
    {
        proof {
            use_type_invariant(self);
        }
        if self.not_containing_ind_var(ex1) && self.not_containing_ind_var(ex2) {
            return false;
        }
        let (orig_egraph, ind_id) = self.create_proof_graph(ex1, ex2);
        let ghost g0 = orig_egraph;
        let ghost n0 = graph_roots(orig_egraph).len();
        let mut k: usize = 0;
        while k < self.datatype.constructors.len()
            invariant
                k <= self.datatype.constructors.len(),
                self.graph_inputs_ok(ex1@, ex2@),
                safe_rules(rules@),
                self.datatype() == self.datatype@,
                g0 == orig_egraph,
                n0 == graph_roots(orig_egraph).len(),
                n0 <= ex1@.len() + ex2@.len(),
                ind_id < n0,
                sides_graph(g0, ex1@, ex2@),
                self.ind_class(g0) == ind_id,
                forall|j: int|
                    0 <= j < k && #[trigger] self.datatype().constructors[j].params.len() == 0 ==> exists|
                        gr: ProofGraph,
                    |
                        #[trigger] case_run(g0, ind_id, leaf_expr(self.datatype().constructors[j].name), rules@, gr)
                            && graph_equiv(gr, ex1@, ex2@),
            decreases self.datatype.constructors.len() - k,
        {
            let c = &self.datatype.constructors[k];
            assert(c@ == self.datatype().constructors[k as int]);
            assert(ex1@.len() + ex2@.len() + self.datatype().constructors[k as int].params.len() + 1
                <= 0x1_0000_0000);
            if c.params.len() == 0 {
                let mut egraph = orig_egraph.copy();
                let ghost gcopy = egraph;
                let contr = c.as_exp();
                let contr_id = egraph.add_expr(&contr);
                let ghost g1 = egraph;
                let _ = egraph.union(contr_id, ind_id);
                let ghost gc = egraph;
                let egraph = egraph.run(rules, RUN_DEPTH);
                let same = egraph.equivalent(ex1, ex2);
                proof {
                    let c0 = leaf_expr(self.datatype().constructors[k as int].name);
                    assert(contr@ == c0);
                    assert(expr_class(g1, c0) == Some(contr_id));
                    assert forall|e: Seq<NodeV>| #[trigger] expr_class(g0, e) is Some implies expr_class(g1, e)
                        == expr_class(g0, e) by {
                        assert(expr_class(gcopy, e) == expr_class(g0, e));
                    }
                    assert(case_run(g0, ind_id, c0, rules@, egraph));
                    if !same {
                        assert(self.base_refuted(rules@, ex1@, ex2@)) by {
                            assert(sides_graph(g0, ex1@, ex2@));
                        }
                    }
                }
                if !same {
                    return false;
                }
            }
            k += 1;
        }
        proof {
            assert(self.base_proved(rules@, ex1@, ex2@)) by {
                assert(sides_graph(g0, ex1@, ex2@));
            }
        }
        true
    }

    /// Proves the step cases of the equation `ex1 = ex2` by induction. The
    /// rules given are run, for each constructor with parameters, on the
    /// e-graph of the equation with the induction variable merged with the
    /// constructor term; the two sides must end up in one class in every
    /// case. The induction hypothesis and the well-founded order rules
    /// (`create_hypothesis`, `wfo_datatype`) search several patterns at once
    /// or keep their results apart, and egg cannot be handed such rules
    /// from here, so they are not among those run. On success, returns the
    /// equation as rewrites over a pattern variable for the induction
    /// variable, in each direction that can be one.
    pub fn prove_ind(
        &self,
        rules: &[Rewrite<SymbolLang, ()>],
        ex1: &Expr,
        ex2: &Expr,
    ) -> (res: Option<Vec<(PatternAst, PatternAst, Rewrite<SymbolLang, ()>)>>)
        requires
            mentions_op(ex1@, self.ind_name()) || mentions_op(ex2@, self.ind_name()) ==> self.inputs_ok(
                ex1@,
                ex2@,
            ) && safe_rules(rules@),
        ensures
            !mentions_op(ex1@, self.ind_name()) && !mentions_op(ex2@, self.ind_name()) ==> res is None,
            res matches Some(v) ==> rule_pairs(v@) == induction_rules(self.ind_name(), ex1@, ex2@),
            res matches Some(v) ==> rules_named(v@),
            tree_sides(ex1@, ex2@, self.ind_name(), seq!['?'] + self.ind_name()) ==> (res matches Some(v)
                ==> rules_safe(v@)),
            (mentions_op(ex1@, self.ind_name()) || mentions_op(ex2@, self.ind_name())) && (forall|k: int|
                0 <= k < self.datatype().constructors.len()
                    ==> #[trigger] self.datatype().constructors[k].params.len() == 0) ==> res is Some,
            res is Some ==> self.step_proved(rules@, ex1@, ex2@),
            (mentions_op(ex1@, self.ind_name()) || mentions_op(ex2@, self.ind_name())) && res is None
                ==> self.step_refuted(rules@, ex1@, ex2@),
            (mentions_op(ex1@, self.ind_name()) || mentions_op(ex2@, self.ind_name())) && ex1@ == ex2@ ==> res is Some,
    {
        proof {
            use_type_invariant(self);
        }
        if self.not_containing_ind_var(ex1) && self.not_containing_ind_var(ex2) {
            return None;
        }
        let ghost ind = self.ind_name();
        assert(self.ind_var@.name[0] == 't');
        let (orig_egraph, ind_id) = self.create_proof_graph(ex1, ex2);
        let ghost g0 = orig_egraph;
        let ghost n0 = graph_roots(orig_egraph).len();
        let mut res = true;
        let mut k: usize = 0;
        while k < self.datatype.constructors.len()
            invariant
                k <= self.datatype.constructors.len(),
                self.inputs_ok(ex1@, ex2@),
                safe_rules(rules@),
                self.datatype() == self.datatype@,
                g0 == orig_egraph,
                n0 == graph_roots(orig_egraph).len(),
                n0 <= ex1@.len() + ex2@.len(),
                ind_id < n0,
                sides_graph(g0, ex1@, ex2@),
                self.ind_class(g0) == ind_id,
                !res ==> exists|m: int| 0 <= m < k && #[trigger] self.datatype().constructors[m].params.len() > 0,
                !res ==> self.step_refuted(rules@, ex1@, ex2@),
                ex1@ == ex2@ ==> res,
                res ==> forall|j: int|
                    0 <= j < k && #[trigger] self.datatype().constructors[j].params.len() > 0 ==> exists|
                        gr: ProofGraph,
                    |
                        #[trigger] case_run(g0, ind_id, ctor_expr(self.datatype().constructors[j]), rules@, gr)
                            && graph_equiv(gr, ex1@, ex2@),
            decreases self.datatype.constructors.len() - k,
        {
            let c = &self.datatype.constructors[k];
            assert(c@ == self.datatype().constructors[k as int]);
            assert(ex1@.len() + ex2@.len() + self.datatype().constructors[k as int].params.len() + 1
                <= 0x1_0000_0000);
            if c.params.len() > 0 {
                let mut egraph = orig_egraph.copy();
                let ghost gcopy = egraph;
                let contr_exp = Self::constructor_term(c);
                let contr_id = egraph.add_expr(&contr_exp);
                let ghost g1 = egraph;
                let _ = egraph.union(contr_id, ind_id);
                let egraph = egraph.run(rules, RUN_DEPTH);
                if res {
                    res = egraph.equivalent(ex1, ex2);
                    proof {
                        let c0 = ctor_expr(self.datatype().constructors[k as int]);
                        assert(contr_exp@ == c0);
                        assert(expr_class(g1, c0) == Some(contr_id));
                        assert forall|e: Seq<NodeV>| #[trigger] expr_class(g0, e) is Some implies expr_class(g1, e)
                            == expr_class(g0, e) by {
                            assert(expr_class(gcopy, e) == expr_class(g0, e));
                        }
                        assert(case_run(g0, ind_id, c0, rules@, egraph));
                        if !res {
                            assert(self.step_refuted(rules@, ex1@, ex2@)) by {
                                assert(sides_graph(g0, ex1@, ex2@));
                            }
                        }
                    }
                }
            }
            k += 1;
        }
        proof {
            if res {
                assert(self.step_proved(rules@, ex1@, ex2@)) by {
                    assert(sides_graph(g0, ex1@, ex2@));
                }
            }
        }
        if res {
            proof {
                reveal_strlit("?");
                reveal_strlit(" => ");
            }
            let sub_ind = concat("?", self.ind_var.name.as_str());
            assert(sub_ind@ =~= seq!['?'] + ind);
            let fixed_ex1 = Self::pattern_from_exp(ex1, &self.ind_var, &sub_ind);
            let fixed_ex2 = Self::pattern_from_exp(ex2, &self.ind_var, &sub_ind);
            let p1 = pattern_pretty(&fixed_ex1, 80);
            let p2 = pattern_pretty(&fixed_ex2, 80);
            let mut text1 = concat(p1.as_str(), " => ");
            text1.append(p2.as_str());
            let mut text2 = concat(p2.as_str(), " => ");
            text2.append(p1.as_str());
            let mut new_rules: Vec<(PatternAst, PatternAst, Rewrite<SymbolLang, ()>)> = Vec::new();
            assert(rule_pairs(new_rules@) =~= Seq::<(Seq<PatNodeV>, Seq<PatNodeV>)>::empty());
            assert(text1@ == rw_text(fixed_ex1@, fixed_ex2@));
            assert(text2@ == rw_text(fixed_ex2@, fixed_ex1@));
            let ghost n_a = new_rules@.len();
            Self::push_rw(&fixed_ex1, &fixed_ex2, text1, &mut new_rules);
            let ghost mid = new_rules@;
            proof {
                if mid.len() > 0 {
                    assert(mid[0].0@ == fixed_ex1@ && mid[0].1@ == fixed_ex2@) by {
                        assert(rule_pairs(mid)[0] == rewrite_if(fixed_ex1@, fixed_ex2@)[0]);
                    }
                }
                assert(rules_named(mid));
            }
            Self::push_rw(&fixed_ex2, &fixed_ex1, text2, &mut new_rules);
            assert(rule_pairs(new_rules@) =~= induction_rules(ind, ex1@, ex2@));
            proof {
                let fin = new_rules@;
                assert forall|i: int| 0 <= i < fin.len() implies rewrite_rule(#[trigger] fin[i].2) == (rw_text(
                    fin[i].0@,
                    fin[i].1@,
                ), fin[i].0@, fin[i].1@) by {
                    if i < mid.len() {
                        assert(fin.subrange(0, mid.len() as int)[i] == mid[i]);
                    } else {
                        assert(rule_pairs(fin)[i] == (fin[i].0@, fin[i].1@));
                        assert(rule_pairs(fin) == rule_pairs(mid) + rewrite_if(fixed_ex2@, fixed_ex1@));
                        assert(rule_pairs(fin)[i] == rewrite_if(fixed_ex2@, fixed_ex1@)[i - mid.len()]);
                    }
                }
                if tree_sides(ex1@, ex2@, ind, seq!['?'] + ind) {
                    law_tree_pattern_vars_reached(ex1@, ind, seq!['?'] + ind);
                    law_tree_pattern_vars_reached(ex2@, ind, seq!['?'] + ind);
                    assert forall|i: int| 0 <= i < fin.len() implies safe_rule(#[trigger] fin[i].2) by {
                        let pr = rule_pairs(fin)[i];
                        assert(pr == (fin[i].0@, fin[i].1@));
                        let f1 = pattern_of(ex1@, ind, seq!['?'] + ind);
                        let f2 = pattern_of(ex2@, ind, seq!['?'] + ind);
                        assert(fixed_ex1@ == f1 && fixed_ex2@ == f2);
                        assert(induction_rules(ind, ex1@, ex2@) == rewrite_if(f1, f2) + rewrite_if(f2, f1));
                        if i < rewrite_if(f1, f2).len() {
                            assert(pr == rewrite_if(f1, f2)[i]);
                        } else {
                            assert(pr == rewrite_if(f2, f1)[i - rewrite_if(f1, f2).len()]);
                        }
                        assert(pattern_vars(fin[i].1@).subset_of(reach_vars(fin[i].0@)));
                    }
                }
            }
            Some(new_rules)
        } else {
            None
        }
    }

    /// Proves the equation `ex1 = ex2` by induction: the base cases, then,
    /// if they hold, the step cases (see `prove_base` and `prove_ind`). For
    /// a datatype without constructors there is no case to check, and an
    /// equation over the induction variable is proved.
    pub fn prove_all(
        &self,
        rules: &[Rewrite<SymbolLang, ()>],
        ex1: &Expr,
        ex2: &Expr,
    ) -> (res: Option<Vec<(PatternAst, PatternAst, Rewrite<SymbolLang, ()>)>>)
        requires
            mentions_op(ex1@, self.ind_name()) || mentions_op(ex2@, self.ind_name()) ==> self.inputs_ok(
                ex1@,
                ex2@,
            ) && safe_rules(rules@),
        ensures
            !mentions_op(ex1@, self.ind_name()) && !mentions_op(ex2@, self.ind_name()) ==> res is None,
            res matches Some(v) ==> rule_pairs(v@) == induction_rules(self.ind_name(), ex1@, ex2@),
            res matches Some(v) ==> rules_named(v@),
            tree_sides(ex1@, ex2@, self.ind_name(), seq!['?'] + self.ind_name()) ==> (res matches Some(v)
                ==> rules_safe(v@)),
            (mentions_op(ex1@, self.ind_name()) || mentions_op(ex2@, self.ind_name()))
                && self.datatype().constructors.len() == 0 ==> res is Some,
            res is Some ==> self.base_proved(rules@, ex1@, ex2@) && self.step_proved(rules@, ex1@, ex2@),
            res is None ==> self.refuted(rules@, ex1@, ex2@),
            (mentions_op(ex1@, self.ind_name()) || mentions_op(ex2@, self.ind_name())) && ex1@ == ex2@ ==> res is Some,
    {
        if self.prove_base(rules, ex1, ex2) {
            self.prove_ind(rules, ex1, ex2)
        } else {
            None
        }
    }

    /// `(a, b)` generalizes the equation `x1 = x2`: for some number `c` of
    /// placeholders and some order of the placeholder-1 nodes of `x1`, the
    /// `j`-th of those nodes in that order gets placeholder `j % c + 1`, and
    /// the `j`-th placeholder-1 node of `x2` does too.
    pub open spec fn is_generalization(&self, x1: Seq<NodeV>, x2: Seq<NodeV>, a: Seq<NodeV>, b: Seq<NodeV>) -> bool {
        exists|c: nat, perm: Seq<usize>|
            #![trigger ph_subs(perm, self.datatype().name, c)]
            c >= 1 && perm.to_multiset() == op_positions(x1, self.ph1_name()).to_multiset() && a == replace_ops(
                x1,
                ph_subs(perm, self.datatype().name, c),
            ) && b == replace_ops(x2, ph_subs(op_positions(x2, self.ph1_name()), self.datatype().name, c))
    }

    /// The two sides of an equation as generalization takes them: the side
    /// with fewer placeholder-1 nodes first (the first side on a tie).
    pub open spec fn gen_sides(&self, e1: Seq<NodeV>, e2: Seq<NodeV>) -> (Seq<NodeV>, Seq<NodeV>) {
        if op_positions(e1, self.ph1_name()).len() > op_positions(e2, self.ph1_name()).len() {
            (e2, e1)
        } else {
            (e1, e2)
        }
    }

    /// The generalizations tried in one round, with `c` placeholders and the
    /// first side's nodes taken in each order of `orders`.
    pub open spec fn round_cands(&self, x1: Seq<NodeV>, x2: Seq<NodeV>, orders: Seq<Seq<usize>>, c: nat) -> Seq<
        (Seq<NodeV>, Seq<NodeV>),
    > {
        Seq::new(
            orders.len(),
            |p: int|
                (
                    replace_ops(x1, ph_subs(orders[p], self.datatype().name, c)),
                    replace_ops(x2, ph_subs(op_positions(x2, self.ph1_name()), self.datatype().name, c)),
                ),
        )
    }

    /// The generalizations of `x1 = x2` tried in the first `r` rounds, in
    /// order: round `i` hands out `m - i` placeholders, and takes the first
    /// side's nodes in each order that `heap_recursive` visits, starting
    /// from the order the previous round left.
    pub open spec fn candidates(&self, x1: Seq<NodeV>, x2: Seq<NodeV>, m: nat, r: nat) -> Seq<
        (Seq<NodeV>, Seq<NodeV>),
    >
        decreases r,
    {
        if r == 0 {
            Seq::empty()
        } else {
            self.candidates(x1, x2, m, (r - 1) as nat) + self.round_cands(
                x1,
                x2,
                heap_order(round_start(op_positions(x1, self.ph1_name()), (r - 1) as nat)),
                (m - (r - 1)) as nat,
            )
        }
    }

    /// All generalizations of `e1 = e2` in the order tried.
    pub open spec fn gen_candidates(&self, e1: Seq<NodeV>, e2: Seq<NodeV>) -> Seq<(Seq<NodeV>, Seq<NodeV>)> {
        let (x1, x2) = self.gen_sides(e1, e2);
        let n1 = op_positions(x1, self.ph1_name()).len();
        let n2 = op_positions(x2, self.ph1_name()).len();
        let m = if n2 > n1 { n2 } else { n1 };
        self.candidates(x1, x2, m, m)
    }

    proof fn lemma_candidates_prefix(&self, x1: Seq<NodeV>, x2: Seq<NodeV>, m: nat, r1: nat, r2: nat)
        requires
            r1 <= r2,
        ensures
            self.candidates(x1, x2, m, r1).len() <= self.candidates(x1, x2, m, r2).len(),
            forall|t: int|
                0 <= t < self.candidates(x1, x2, m, r1).len() ==> #[trigger] self.candidates(x1, x2, m, r2)[t]
                    == self.candidates(x1, x2, m, r1)[t],
        decreases r2,
    {
        if r1 < r2 {
            self.lemma_candidates_prefix(x1, x2, m, r1, (r2 - 1) as nat);
        }
    }

    /// The placeholders that the nodes at `indices` get when `ph_count`
    /// placeholders are handed out in turn.
    fn ph_assignment(&self, indices: &Vec<usize>, ph_count: usize) -> (res: Vec<(usize, String)>)
        requires
            ph_count >= 1,
        ensures
            subs_view(res@) == ph_subs(indices@, self.datatype().name, ph_count as nat),
    {
        let mut res: Vec<(usize, String)> = Vec::new();
        let mut j: usize = 0;
        while j < indices.len()
            invariant
                j <= indices.len(),
                ph_count >= 1,
                res@.len() == j,
                forall|m: int|
                    0 <= m < j ==> (#[trigger] res@[m]).0 == indices@[m] && res@[m].1@ == placeholder_name(
                        self.datatype().name,
                        (m % (ph_count as int)) as nat + 1,
                    ),
            decreases indices.len() - j,
        {
            let ph = placeholder(&self.datatype.name, j % ph_count + 1);
            res.push((indices[j], ph.name));
            j += 1;
        }
        assert(subs_view(res@) =~= ph_subs(indices@, self.datatype().name, ph_count as nat));
        res
    }

    /// A generalization of an equation fit for induction is fit too, and
    /// each of its sides mentions the induction variable exactly where the
    /// equation's side does.
    pub proof fn law_generalization_stays_fit(&self, x1: Seq<NodeV>, x2: Seq<NodeV>, perm: Seq<usize>, c: nat)
        requires
            self.inputs_ok(x1, x2),
            c >= 1,
            perm.to_multiset() == op_positions(x1, self.ph1_name()).to_multiset(),
        ensures
            self.inputs_ok(
                replace_ops(x1, ph_subs(perm, self.datatype().name, c)),
                replace_ops(x2, ph_subs(op_positions(x2, self.ph1_name()), self.datatype().name, c)),
            ),
            mentions_op(replace_ops(x1, ph_subs(perm, self.datatype().name, c)), self.ind_name()) == mentions_op(
                x1,
                self.ind_name(),
            ),
            mentions_op(
                replace_ops(x2, ph_subs(op_positions(x2, self.ph1_name()), self.datatype().name, c)),
                self.ind_name(),
            ) == mentions_op(x2, self.ind_name()),
            tree_sides(x1, x2, self.ind_name(), seq!['?'] + self.ind_name()) ==> tree_sides(
                replace_ops(x1, ph_subs(perm, self.datatype().name, c)),
                replace_ops(x2, ph_subs(op_positions(x2, self.ph1_name()), self.datatype().name, c)),
                self.ind_name(),
                seq!['?'] + self.ind_name(),
            ),
    {
        broadcast use vstd::seq_lib::group_to_multiset_ensures;

        let t = self.datatype().name;
        let pos1 = op_positions(x1, self.ph1_name());
        let pos2 = op_positions(x2, self.ph1_name());
        let s1 = ph_subs(perm, t, c);
        let s2 = ph_subs(pos2, t, c);
        lemma_op_positions(x1, self.ph1_name(), x1.len() as int);
        lemma_op_positions(x2, self.ph1_name(), x2.len() as int);
        assert forall|j: int| 0 <= j < s1.len() implies #[trigger] s1[j].0 < x1.len() && x1[s1[j].0 as int].0
            == placeholder_name(t, 1) && exists|k: nat| k >= 1 && s1[j].1 == placeholder_name(t, k) by {
            assert(perm.to_multiset().count(perm[j]) > 0);
            assert(pos1.contains(perm[j]));
            let m = choose|m: int| 0 <= m < pos1.len() && pos1[m] == perm[j];
            assert(pos1[m] < x1.len());
            let k = (j % (c as int)) as nat + 1;
            assert(s1[j].1 == placeholder_name(t, k));
        }
        assert forall|j: int| 0 <= j < s2.len() implies #[trigger] s2[j].0 < x2.len() && x2[s2[j].0 as int].0
            == placeholder_name(t, 1) && exists|k: nat| k >= 1 && s2[j].1 == placeholder_name(t, k) by {
            assert(pos2[j] < x2.len());
            let k = (j % (c as int)) as nat + 1;
            assert(s2[j].1 == placeholder_name(t, k));
        }
        let r1 = replace_ops(x1, s1);
        let r2 = replace_ops(x2, s2);
        lemma_replace_renames(x1, s1, t);
        lemma_replace_renames(x2, s2, t);
        lemma_inputs_renamed(x1, x2, r1, r2, t, somevar());
        lemma_inputs_renamed(x1, x2, r1, r2, t, seq!['?'] + placeholder_name(t, 0));
        lemma_inputs_renamed(x2, x1, r2, r1, t, somevar());
        lemma_inputs_renamed(x2, x1, r2, r1, t, seq!['?'] + placeholder_name(t, 0));
        if tree_sides(x1, x2, self.ind_name(), seq!['?'] + self.ind_name()) {
            lemma_renamed_tree(x1, r1, t, seq!['?'] + placeholder_name(t, 0));
            lemma_renamed_tree(x2, r2, t, seq!['?'] + placeholder_name(t, 0));
        }
    }

    /// Tries to prove a generalization of the equation `orig_ex1 = orig_ex2`
    /// in which its placeholder-1 nodes are told apart. The side with fewer
    /// such nodes is taken as the first (the first side on a tie). For each
    /// number `c` of placeholders from the larger count down to one, the
    /// second side's nodes get placeholders `1..=c` in turn, and for each
    /// order of the first side's nodes (as `heap_recursive` visits them,
    /// starting from where the previous `c` left the order) so do the first
    /// side's; the first generalization that `prove_all` proves gives the
    /// result (see `gen_candidates`). An equation with at most one such node
    /// on each side is not generalized. Both sides must be trees.
    pub fn generalize_prove(
        &self,
        rules: &[Rewrite<SymbolLang, ()>],
        orig_ex1: &Expr,
        orig_ex2: &Expr,
    ) -> (res: Option<Vec<(PatternAst, PatternAst, Rewrite<SymbolLang, ()>)>>)
        requires
            children_unique(orig_ex1@),
            children_unique(orig_ex2@),
            op_positions(orig_ex1@, self.ph1_name()).len() > 1 || op_positions(orig_ex2@, self.ph1_name()).len() > 1
                ==> self.inputs_ok(orig_ex1@, orig_ex2@) && safe_rules(rules@),
        ensures
            op_positions(orig_ex1@, self.ph1_name()).len() <= 1 && op_positions(orig_ex2@, self.ph1_name()).len()
                <= 1 ==> res is None,
            res matches Some(v) ==> exists|a: Seq<NodeV>, b: Seq<NodeV>|
                self.is_generalization(
                    self.gen_sides(orig_ex1@, orig_ex2@).0,
                    self.gen_sides(orig_ex1@, orig_ex2@).1,
                    a,
                    b,
                ) && rule_pairs(v@) == induction_rules(self.ind_name(), a, b),
            res matches Some(v) ==> rules_named(v@),
            tree_sides(orig_ex1@, orig_ex2@, self.ind_name(), seq!['?'] + self.ind_name()) ==> (res matches Some(v)
                ==> rules_safe(v@)),
            res matches Some(v) ==> exists|t: int|
                0 <= t < self.gen_candidates(orig_ex1@, orig_ex2@).len() && (forall|u: int|
                    0 <= u < t ==> self.refuted(
                        rules@,
                        #[trigger] self.gen_candidates(orig_ex1@, orig_ex2@)[u].0,
                        self.gen_candidates(orig_ex1@, orig_ex2@)[u].1,
                    )) && rule_pairs(v@) == induction_rules(
                    self.ind_name(),
                    self.gen_candidates(orig_ex1@, orig_ex2@)[t].0,
                    self.gen_candidates(orig_ex1@, orig_ex2@)[t].1,
                ) && self.base_proved(
                    rules@,
                    self.gen_candidates(orig_ex1@, orig_ex2@)[t].0,
                    self.gen_candidates(orig_ex1@, orig_ex2@)[t].1,
                ) && self.step_proved(
                    rules@,
                    self.gen_candidates(orig_ex1@, orig_ex2@)[t].0,
                    self.gen_candidates(orig_ex1@, orig_ex2@)[t].1,
                ),
            !(op_positions(orig_ex1@, self.ph1_name()).len() <= 1 && op_positions(orig_ex2@, self.ph1_name()).len()
                <= 1) && res is None ==> forall|u: int|
                0 <= u < self.gen_candidates(orig_ex1@, orig_ex2@).len() ==> self.refuted(
                        rules@,
                    #[trigger] self.gen_candidates(orig_ex1@, orig_ex2@)[u].0,
                    self.gen_candidates(orig_ex1@, orig_ex2@)[u].1,
                ),
            !(op_positions(orig_ex1@, self.ph1_name()).len() <= 1 && op_positions(orig_ex2@, self.ph1_name()).len()
                <= 1) && (mentions_op(orig_ex1@, self.ind_name()) || mentions_op(orig_ex2@, self.ind_name()))
                && self.datatype().constructors.len() == 0 ==> res is Some,
            !(op_positions(orig_ex1@, self.ph1_name()).len() <= 1 && op_positions(orig_ex2@, self.ph1_name()).len()
                <= 1) && res is None ==> self.refuted(
                rules@,
                self.gen_sides(orig_ex1@, orig_ex2@).0,
                self.gen_sides(orig_ex1@, orig_ex2@).1,
            ),
    {
        let mut ex1_ph1_indices = self.collect_ph1s(orig_ex1);
        let mut ex2_ph1_indices = self.collect_ph1s(orig_ex2);
        if ex1_ph1_indices.len() <= 1 && ex2_ph1_indices.len() <= 1 {
            return None;
        }
        let mut ex1 = orig_ex1.duplicate();
        let mut ex2 = orig_ex2.duplicate();
        let swapped = ex1_ph1_indices.len() > ex2_ph1_indices.len();
        if swapped {
            std::mem::swap(&mut ex1_ph1_indices, &mut ex2_ph1_indices);
            std::mem::swap(&mut ex1, &mut ex2);
        }
        let ghost x1 = ex1@;
        let ghost x2 = ex2@;
        assert(self.inputs_ok(x1, x2));
        assert((x1, x2) == self.gen_sides(orig_ex1@, orig_ex2@));
        let max_phs = if ex2_ph1_indices.len() > ex1_ph1_indices.len() {
            ex2_ph1_indices.len()
        } else {
            ex1_ph1_indices.len()
        };
        let ghost m = max_phs as nat;
        let ghost pos1 = op_positions(x1, self.ph1_name());
        assert(self.gen_candidates(orig_ex1@, orig_ex2@) == self.candidates(x1, x2, m, m));
        let ghost owed = self.datatype().constructors.len() == 0 && (mentions_op(x1, self.ind_name()) || mentions_op(
            x2,
            self.ind_name(),
        ));
        assert(max_phs >= 1);
        let mut ph_count = max_phs;
        while ph_count >= 1
            invariant
                max_phs >= 1,
                m == max_phs,
                ph_count <= max_phs,
                ph_count == 0 ==> self.refuted(rules@, x1, x2),
                ph_count < max_phs ==> !owed,
                owed == (self.datatype().constructors.len() == 0 && (mentions_op(x1, self.ind_name()) || mentions_op(
                    x2,
                    self.ind_name(),
                ))),
                ex1@ == x1,
                ex2@ == x2,
                self.inputs_ok(x1, x2),
                safe_rules(rules@),
                pos1 == op_positions(x1, self.ph1_name()),
                ex2_ph1_indices@ == op_positions(x2, self.ph1_name()),
                ex1_ph1_indices@.to_multiset() == op_positions(x1, self.ph1_name()).to_multiset(),
                ex1_ph1_indices@ == round_start(pos1, (m - ph_count) as nat),
                (x1, x2) == self.gen_sides(orig_ex1@, orig_ex2@),
                self.gen_candidates(orig_ex1@, orig_ex2@) == self.candidates(x1, x2, m, m),
                !(op_positions(orig_ex1@, self.ph1_name()).len() <= 1 && op_positions(orig_ex2@, self.ph1_name()).len() <= 1),
                forall|u: int|
                    0 <= u < self.candidates(x1, x2, m, (m - ph_count) as nat).len() ==> self.refuted(
                        rules@,
                        #[trigger] self.candidates(x1, x2, m, (m - ph_count) as nat)[u].0,
                        self.candidates(x1, x2, m, (m - ph_count) as nat)[u].1,
                    ),
            decreases ph_count,
        {
            let ghost r = (m - ph_count) as nat;
            let ghost prev = self.candidates(x1, x2, m, r);
            let ghost start = ex1_ph1_indices@;
            let subs2 = self.ph_assignment(&ex2_ph1_indices, ph_count);
            proof {
                lemma_op_positions(x2, self.ph1_name(), x2.len() as int);
                let sv = ph_subs(op_positions(x2, self.ph1_name()), self.datatype().name, ph_count as nat);
                assert(subs_view(subs2@) == sv);
                assert(subs_view(subs2@).len() == subs2@.len());
                assert(sv.len() == op_positions(x2, self.ph1_name()).len());
                assert forall|k: int| 0 <= k < subs2@.len() implies #[trigger] subs2@[k].0 < ex2@.len() by {
                    assert(subs_view(subs2@)[k] == sv[k]);
                }
            }
            let updated_ex2 = Self::replace_at_indexes(&ex2, subs2);
            let perms = heap_permutations(&mut ex1_ph1_indices);
            let ghost orders = heap_order(start);
            let ghost round = self.round_cands(x1, x2, orders, ph_count as nat);
            proof {
                assert(self.candidates(x1, x2, m, r + 1) == prev + round);
                assert(orders.len() == perms@.len());
            }
            let mut p: usize = 0;
            while p < perms.len()
                invariant
                    p <= perms@.len(),
                    ph_count == 1 && p > 0 ==> self.refuted(rules@, x1, x2),
                    ph_count <= max_phs,
                    ph_count < max_phs ==> !owed,
                    p > 0 ==> !owed,
                    owed == (self.datatype().constructors.len() == 0 && (mentions_op(x1, self.ind_name())
                        || mentions_op(x2, self.ind_name()))),
                    ex1@ == x1,
                    ex2@ == x2,
                    ph_count >= 1,
                    m == max_phs,
                    r == (m - ph_count) as nat,
                    self.inputs_ok(x1, x2),
                    safe_rules(rules@),
                    updated_ex2@ == replace_ops(x2, ph_subs(op_positions(x2, self.ph1_name()), self.datatype().name, ph_count as nat)),
                    forall|k: int| 0 <= k < perms@.len() ==> (#[trigger] perms@[k])@.to_multiset()
                        == op_positions(x1, self.ph1_name()).to_multiset(),
                    perms@.map_values(|q: Vec<usize>| q@) == orders,
                    round == self.round_cands(x1, x2, orders, ph_count as nat),
                    prev == self.candidates(x1, x2, m, r),
                    self.candidates(x1, x2, m, r + 1) == prev + round,
                    (x1, x2) == self.gen_sides(orig_ex1@, orig_ex2@),
                    self.gen_candidates(orig_ex1@, orig_ex2@) == self.candidates(x1, x2, m, m),
                    !(op_positions(orig_ex1@, self.ph1_name()).len() <= 1 && op_positions(orig_ex2@, self.ph1_name()).len() <= 1),
                    forall|u: int| 0 <= u < prev.len() ==> self.refuted(rules@, #[trigger] prev[u].0, prev[u].1),
                    forall|u: int| 0 <= u < p ==> self.refuted(rules@, #[trigger] round[u].0, round[u].1),
                decreases perms.len() - p,
            {
                let subs1 = self.ph_assignment(&perms[p], ph_count);
                let ghost perm = perms@[p as int]@;
                proof {
                    broadcast use vstd::seq_lib::group_to_multiset_ensures;

                    assert(perm == orders[p as int]);
                    lemma_op_positions(x1, self.ph1_name(), x1.len() as int);
                    let pos1 = op_positions(x1, self.ph1_name());
                    let sv = ph_subs(perm, self.datatype().name, ph_count as nat);
                    assert(subs_view(subs1@) == sv);
                    assert(subs_view(subs1@).len() == subs1@.len());
                    assert(sv.len() == perm.len());
                    assert(subs1@.len() == perm.len());
                    assert forall|k: int| 0 <= k < subs1@.len() implies #[trigger] subs1@[k].0 < ex1@.len() by {
                        assert(subs_view(subs1@)[k] == sv[k]);
                        assert(sv[k].0 == perm[k]);
                        assert(perm.contains(perm[k]));
                        assert(perm.to_multiset().count(perm[k]) > 0);
                        assert(pos1.contains(perm[k]));
                    }
                    self.law_generalization_stays_fit(x1, x2, perm, ph_count as nat);
                    if ph_count == 1 {
                        let pos2 = op_positions(x2, self.ph1_name());
                        lemma_op_positions(x2, self.ph1_name(), x2.len() as int);
                        assert forall|j: int| 0 <= j < perm.len() implies #[trigger] perm[j] < x1.len()
                            && x1[perm[j] as int].0 == placeholder_name(self.datatype().name, 1) by {
                            assert(perm.contains(perm[j]));
                            assert(perm.to_multiset().count(perm[j]) > 0);
                            assert(pos1.contains(perm[j]));
                        }
                        lemma_one_placeholder_same(x1, perm, self.datatype().name);
                        assert forall|j: int| 0 <= j < pos2.len() implies #[trigger] pos2[j] < x2.len()
                            && x2[pos2[j] as int].0 == placeholder_name(self.datatype().name, 1) by {}
                        lemma_one_placeholder_same(x2, pos2, self.datatype().name);
                    }
                }
                let updated_ex1 = Self::replace_at_indexes(&ex1, subs1);
                proof {
                    assert(round[p as int] == (updated_ex1@, updated_ex2@));
                }
                let r_all = self.prove_all(rules, &updated_ex1, &updated_ex2);
                if r_all.is_some() {
                    proof {
                        assert(self.is_generalization(x1, x2, updated_ex1@, updated_ex2@));
                        let full = self.candidates(x1, x2, m, m);
                        let t = prev.len() + p;
                        self.lemma_candidates_prefix(x1, x2, m, r + 1, m);
                        let next = self.candidates(x1, x2, m, r + 1);
                        assert(next[t] == round[p as int]);
                        assert(full[t] == round[p as int]);
                        assert forall|u: int| 0 <= u < t implies self.refuted(rules@, #[trigger] full[u].0, full[u].1) by {
                            assert(full[u] == next[u]);
                            if u < prev.len() {
                                assert(next[u] == prev[u]);
                            } else {
                                assert(next[u] == round[u - prev.len()]);
                            }
                        }
                        assert(0 <= t < full.len());
                        assert(full[t].0 == updated_ex1@ && full[t].1 == updated_ex2@);
                    }
                    return r_all;
                }
                p += 1;
            }
            proof {
                let next = self.candidates(x1, x2, m, r + 1);
                assert(perms@.map_values(|q: Vec<usize>| q@).len() == perms@.len());
                assert(round.len() == orders.len());
                assert(p == round.len());
                assert forall|u: int| 0 <= u < next.len() implies self.refuted(rules@, #[trigger] next[u].0, next[u].1) by {
                    if u < prev.len() {
                        assert(next[u] == prev[u]);
                    } else {
                        assert(next[u] == round[u - prev.len()]);
                    }
                }
                assert(orders.last() == perms@.last()@);
                assert(round_start(pos1, r + 1) == orders.last());
                assert((m - (ph_count - 1)) as nat == r + 1);
            }
            ph_count -= 1;
        }
        None
    }

    /// How an identifier of an expression is renamed in a pattern: the
    /// induction placeholder becomes `sub_ind`, other placeholders become
    /// pattern variables, and all other names stay.
    pub fn ident_mapper(i: &String, induction_ph: &String, sub_ind: &String) -> (res: String)
        ensures
            res@ == map_ident(i@, induction_ph@, sub_ind@),
    {
        if *i == *induction_ph {
            sub_ind.clone()
        } else if starts_with(i.as_str(), placeholder_prefix()) {
            proof {
                reveal_strlit("?");
            }
            concat("?", i.as_str())
        } else {
            i.clone()
        }
    }
}

} // verus!
