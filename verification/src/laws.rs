use vstd::prelude::*;
use crate::expr::{NodeV, nodes_wf, expr_wf, reachable};
use crate::pattern::{PatNodeV, map_ident, is_var_text, build_node, build_children, pattern_of, pattern_wf, pat_children, valid_var_name, no_bare_var};
use crate::lang::{ph_prefix};
use crate::text::seq_starts_with;
use crate::prover::cleaned;
use crate::egraph::{union_roots, union_chain, classes_kept, lemma_union_keeps_classes, lemma_classes_kept_trans, pat_reachable, reach_vars};
use crate::pattern::pattern_vars;
use crate::appliers::{union_substs, bound_id};
use egg::Subst;
use crate::text::{decimal, digit_char};
use crate::prover::{param_leaf, ctor_expr, hypothesis_rules, somevar, ph_subs, Prover};
use crate::expr::{replace_ops, op_positions, op_positions_upto};
use crate::pattern::apply_op;
use crate::lang::placeholder_name;
use crate::lang::{FunctionV, DataTypeV, leaf_expr};
use crate::wfo::{ctor_rule, ltwf, ltwf_pattern, param_var, wfo_rules, wfo_rules_upto, ctor_rules_upto, wfo_trans_rule};
use crate::rules::{RuleV, SearcherV, ApplierV};

verus! {

/// Renaming a placeholder other than the induction variable into a pattern
/// variable is undone by `clean_vars`.
pub proof fn law_clean_vars_undoes_placeholder_renaming(name: Seq<char>, ind: Seq<char>, sub: Seq<char>)
    requires
        name != ind,
        seq_starts_with(name, ph_prefix()),
    ensures
        cleaned(map_ident(name, ind, sub)) == name,
{
    assert((seq!['?'] + name).drop_first() =~= name);
}

/// After merging `a` and `b`, they share a canonical id.
pub proof fn law_union_merges(r: Seq<usize>, a: int, b: int)
    requires
        0 <= a < r.len(),
        0 <= b < r.len(),
    ensures
        union_roots(r, a, b)[a] == union_roots(r, a, b)[b],
{
}

/// After merging `a` with each id of `bs`, `a` shares a canonical id with
/// each of them.
pub proof fn law_union_chain_merges(r: Seq<usize>, a: int, bs: Seq<usize>)
    requires
        0 <= a < r.len(),
        forall|k: int| 0 <= k < bs.len() ==> #[trigger] bs[k] < r.len(),
    ensures
        forall|k: int|
            0 <= k < bs.len() ==> union_chain(r, a, bs).0[a] == #[trigger] union_chain(r, a, bs).0[bs[k] as int],
    decreases bs.len(),
{
    if bs.len() > 0 {
        let prev = bs.drop_last();
        law_union_chain_merges(r, a, prev);
        crate::egraph::lemma_union_chain_keeps_classes(r, a, prev);
        let r1 = union_chain(r, a, prev).0;
        let b = bs.last() as int;
        lemma_union_keeps_classes(r1, a, b);
        let r2 = union_roots(r1, a, b);
        assert forall|k: int| 0 <= k < bs.len() implies r2[a] == #[trigger] r2[bs[k] as int] by {
            if k < bs.len() - 1 {
                assert(prev[k] == bs[k]);
                assert(r1[a] == r1[bs[k] as int]);
            }
        }
    }
}

/// The ids that the substitutions bind the variables to are ids of the e-graph.
pub open spec fn binds_vars(ss: Seq<Subst>, vars: Seq<Seq<char>>, n: nat) -> bool {
    forall|j: int, k: int|
        #![trigger ss[j], vars[k]]
        0 <= j < ss.len() && 0 <= k < vars.len() ==> crate::egraph::subst_bindings(ss[j]).dom().contains(vars[k])
            && bound_id(ss[j], vars[k]) < n
}

proof fn lemma_union_substs_len(r: Seq<usize>, vars: Seq<Seq<char>>, ss: Seq<Subst>)
    requires
        vars.len() > 0,
        binds_vars(ss, vars, r.len()),
    ensures
        union_substs(r, vars, ss).0.len() == r.len(),
        classes_kept(r, union_substs(r, vars, ss).0),
    decreases ss.len(),
{
    if ss.len() > 0 {
        let prev = ss.drop_last();
        assert forall|j: int, k: int| 0 <= j < prev.len() && 0 <= k < vars.len() implies #[trigger] crate::egraph::subst_bindings(prev[j]).dom().contains(#[trigger] vars[k])
            && bound_id(prev[j], vars[k]) < r.len() by {
            assert(prev[j] == ss[j]);
            assert(bound_id(ss[j], vars[k]) < r.len());
        }
        assert(binds_vars(prev, vars, r.len()));
        lemma_union_substs_len(r, vars, prev);
        let r1 = union_substs(r, vars, prev).0;
        let s = ss.last();
        let bs = vars.drop_first().map_values(|v: Seq<char>| bound_id(s, v));
        assert(bound_id(ss[ss.len() - 1], vars[0]) < r.len());
        assert forall|k: int| 0 <= k < bs.len() implies #[trigger] bs[k] < r1.len() by {
            assert(bound_id(ss[ss.len() - 1], vars[k + 1]) < r.len());
        }
        crate::egraph::lemma_union_chain_keeps_classes(r1, bound_id(s, vars[0]) as int, bs);
        lemma_classes_kept_trans(r, r1, union_substs(r, vars, ss).0);
    }
}

/// After a `UnionApplier` runs, the classes of all its variables are one
/// class, for every substitution it was given.
pub proof fn law_union_applier_merges(r: Seq<usize>, vars: Seq<Seq<char>>, ss: Seq<Subst>)
    requires
        vars.len() > 0,
        binds_vars(ss, vars, r.len()),
    ensures
        forall|j: int, k: int|
            0 <= j < ss.len() && 0 <= k < vars.len() ==> union_substs(r, vars, ss).0[bound_id(ss[j], vars[0]) as int]
                == #[trigger] union_substs(r, vars, ss).0[bound_id(ss[j], vars[k]) as int],
    decreases ss.len(),
{
    if ss.len() > 0 {
        let prev = ss.drop_last();
        assert forall|j: int, k: int| 0 <= j < prev.len() && 0 <= k < vars.len() implies #[trigger] crate::egraph::subst_bindings(prev[j]).dom().contains(#[trigger] vars[k])
            && bound_id(prev[j], vars[k]) < r.len() by {
            assert(prev[j] == ss[j]);
            assert(bound_id(ss[j], vars[k]) < r.len());
        }
        assert(binds_vars(prev, vars, r.len()));
        law_union_applier_merges(r, vars, prev);
        lemma_union_substs_len(r, vars, prev);
        let r1 = union_substs(r, vars, prev).0;
        let s = ss.last();
        let a = bound_id(s, vars[0]) as int;
        let bs = vars.drop_first().map_values(|v: Seq<char>| bound_id(s, v));
        assert(bound_id(ss[ss.len() - 1], vars[0]) < r.len());
        assert forall|k: int| 0 <= k < bs.len() implies #[trigger] bs[k] < r1.len() by {
            assert(bound_id(ss[ss.len() - 1], vars[k + 1]) < r.len());
        }
        crate::egraph::lemma_union_chain_keeps_classes(r1, a, bs);
        law_union_chain_merges(r1, a, bs);
        let r2 = union_substs(r, vars, ss).0;
        assert(r2 == union_chain(r1, a, bs).0);
        assert forall|j: int, k: int| 0 <= j < ss.len() && 0 <= k < vars.len() implies r2[bound_id(ss[j], vars[0]) as int]
            == #[trigger] r2[bound_id(ss[j], vars[k]) as int] by {
            if j < ss.len() - 1 {
                assert(prev[j] == ss[j]);
                assert(bound_id(ss[j], vars[0]) < r.len());
                assert(bound_id(ss[j], vars[k]) < r.len());
                assert(r1[bound_id(ss[j], vars[0]) as int] == r1[bound_id(prev[j], vars[k]) as int]);
            } else if k > 0 {
                assert(bs[k - 1] == bound_id(s, vars[k]));
                assert(union_chain(r1, a, bs).0[a] == union_chain(r1, a, bs).0[bs[k - 1] as int]);
            }
        }
    }
}

/// The first node of the subtree of node `i` in a post-order layout.
pub open spec fn span_start(e: Seq<NodeV>, i: int) -> int
    decreases i,
{
    if 0 <= i < e.len() && e[i].1.len() > 0 && 0 <= e[i].1[0] < i {
        span_start(e, e[i].1[0] as int)
    } else {
        i
    }
}

/// The expression is a tree laid out in post-order, as parsing an
/// s-expression lays it out: each subtree is a contiguous run of nodes
/// ending at its root, the runs of a node's children follow one another
/// and end just before the node, and the root's run is the whole list.
pub open spec fn postorder_tree(e: Seq<NodeV>) -> bool {
    &&& expr_wf(e)
    &&& span_start(e, e.len() - 1) == 0
    &&& forall|i: int|
        0 <= i < e.len() && e[i].1.len() > 0 ==> #[trigger] e[i].1[e[i].1.len() - 1] == i - 1
    &&& forall|i: int, j: int|
        0 <= i < e.len() && 1 <= j < e[i].1.len() ==> span_start(e, #[trigger] e[i].1[j] as int) == e[i].1[j - 1]
            + 1
}

/// A node with its identifier renamed: a pattern variable if the new name
/// is a variable, else an operator node with the same children.
pub open spec fn renamed_node(n: NodeV, ind: Seq<char>, sub: Seq<char>) -> PatNodeV {
    let op = map_ident(n.0, ind, sub);
    if is_var_text(op) {
        PatNodeV::Var(op)
    } else {
        PatNodeV::Node(op, n.1)
    }
}

/// Every node renamed, in place.
pub open spec fn renamed(e: Seq<NodeV>, ind: Seq<char>, sub: Seq<char>) -> Seq<PatNodeV> {
    Seq::new(e.len(), |i: int| renamed_node(e[i], ind, sub))
}

/// No node with children is renamed to a variable.
pub open spec fn no_var_application(e: Seq<NodeV>, ind: Seq<char>, sub: Seq<char>) -> bool {
    forall|i: int| 0 <= i < e.len() && e[i].1.len() > 0 ==> !is_var_text(#[trigger] map_ident(e[i].0, ind, sub))
}

proof fn lemma_span_start_bounds(e: Seq<NodeV>, i: int)
    requires
        nodes_wf(e),
        0 <= i < e.len(),
    ensures
        0 <= span_start(e, i) <= i,
    decreases i,
{
    if e[i].1.len() > 0 {
        assert(e[i].1[0] < i);
        lemma_span_start_bounds(e, e[i].1[0] as int);
    }
}

proof fn lemma_span_start_before_children(e: Seq<NodeV>, i: int, j: int)
    requires
        postorder_tree(e),
        0 <= i < e.len(),
        0 <= j < e[i].1.len(),
    ensures
        span_start(e, i) <= e[i].1[j],
    decreases j,
{
    let c = e[i].1[j] as int;
    assert(c < i);
    lemma_span_start_bounds(e, c);
    if j == 0 {
        assert(span_start(e, i) == span_start(e, c));
    } else {
        lemma_span_start_before_children(e, i, j - 1);
        assert(span_start(e, c) == e[i].1[j - 1] + 1);
    }
}

proof fn lemma_tree_children(
    e: Seq<NodeV>,
    i: int,
    k: int,
    ind: Seq<char>,
    sub: Seq<char>,
    acc: Seq<PatNodeV>,
)
    requires
        postorder_tree(e),
        no_var_application(e, ind, sub),
        0 <= i < e.len(),
        1 <= k <= e[i].1.len(),
        acc.len() == span_start(e, i),
    ensures
        build_children(e, i, k, ind, sub, acc) == (
            acc + renamed(e, ind, sub).subrange(span_start(e, i), e[i].1[k - 1] + 1),
            e[i].1.subrange(0, k),
        ),
    decreases i, k,
{
    let ren = renamed(e, ind, sub);
    let c = e[i].1[k - 1] as int;
    assert(c < i);
    lemma_span_start_bounds(e, i);
    lemma_span_start_bounds(e, c);
    if k == 1 {
        assert(span_start(e, i) == span_start(e, c));
        assert(build_children(e, i, 0, ind, sub, acc) == (acc, Seq::<usize>::empty()));
        lemma_tree_node(e, c, ind, sub, acc);
        assert(e[i].1.subrange(0, 1) =~= Seq::<usize>::empty().push(e[i].1[0]));
    } else {
        lemma_tree_children(e, i, k - 1, ind, sub, acc);
        let p = e[i].1[k - 2] as int;
        assert(p < i);
        lemma_span_start_before_children(e, i, k - 2);
        lemma_span_start_bounds(e, p);
        assert(span_start(e, c) == p + 1);
        let a1 = acc + ren.subrange(span_start(e, i), p + 1);
        assert(a1.len() == span_start(e, c));
        lemma_tree_node(e, c, ind, sub, a1);
        assert(a1 + ren.subrange(span_start(e, c), c + 1) =~= acc + ren.subrange(span_start(e, i), c + 1));
        assert(e[i].1.subrange(0, k - 1).push(e[i].1[k - 1]) =~= e[i].1.subrange(0, k));
    }
}

proof fn lemma_tree_node(e: Seq<NodeV>, i: int, ind: Seq<char>, sub: Seq<char>, acc: Seq<PatNodeV>)
    requires
        postorder_tree(e),
        no_var_application(e, ind, sub),
        0 <= i < e.len(),
        acc.len() == span_start(e, i),
    ensures
        build_node(e, i, ind, sub, acc) == (acc + renamed(e, ind, sub).subrange(span_start(e, i), i + 1), i as usize),
    decreases i, e[i].1.len() + 1,
{
    let ren = renamed(e, ind, sub);
    let n = e[i].1.len();
    if n == 0 {
        assert(span_start(e, i) == i);
        assert(acc + ren.subrange(i, i + 1) =~= acc.push(ren[i]));
    } else {
        lemma_tree_children(e, i, n as int, ind, sub, acc);
        lemma_span_start_bounds(e, i);
        assert(e[i].1[n - 1] == i - 1);
        assert(e[i].1.subrange(0, n as int) =~= e[i].1);
        let a = acc + ren.subrange(span_start(e, i), i);
        assert(!is_var_text(map_ident(e[i].0, ind, sub)));
        assert(a.push(ren[i]) =~= acc + ren.subrange(span_start(e, i), i + 1));
    }
}

/// An expression laid out as a post-order tree, such as a parsed one, in
/// which no node with children is renamed to a variable, becomes the pattern
/// with the same nodes in the same places, each renamed.
pub proof fn law_tree_pattern_is_renaming(e: Seq<NodeV>, ind: Seq<char>, sub: Seq<char>)
    requires
        postorder_tree(e),
        no_var_application(e, ind, sub),
    ensures
        pattern_of(e, ind, sub) == renamed(e, ind, sub),
{
    lemma_tree_node(e, e.len() - 1, ind, sub, Seq::empty());
    assert(Seq::<PatNodeV>::empty() + renamed(e, ind, sub).subrange(0, e.len() as int) =~= renamed(e, ind, sub));
}

/// The pattern of a parsed expression is usable, so long as no node with
/// children is renamed to a variable and no leaf is renamed to a bare `?`.
pub proof fn law_tree_pattern_wf(e: Seq<NodeV>, ind: Seq<char>, sub: Seq<char>)
    requires
        postorder_tree(e),
        no_var_application(e, ind, sub),
        no_bare_var(e, ind, sub),
    ensures
        pattern_wf(pattern_of(e, ind, sub)),
{
    law_tree_pattern_is_renaming(e, ind, sub);
    let p = renamed(e, ind, sub);
    assert forall|i: int, j: int| 0 <= i < p.len() && 0 <= j < pat_children(p[i]).len() implies #[trigger] pat_children(p[i])[j] < i by {
        assert(pat_children(p[i]) == e[i].1);
    }
    assert forall|i: int| 0 <= i < p.len() implies (#[trigger] p[i] matches PatNodeV::Var(v) ==> valid_var_name(v)) by {
        let op = map_ident(e[i].0, ind, sub);
        if is_var_text(op) {
            assert(e[i].1.len() == 0);
            assert(op != seq!['?']);
            if op.len() == 1 {
                assert(op =~= seq!['?']);
            }
        }
    }
}

proof fn lemma_find_child(e: Seq<NodeV>, i: int, k: int, j: int) -> (c: int)
    requires
        postorder_tree(e),
        0 <= i < e.len(),
        0 <= j < e[i].1.len(),
        span_start(e, e[i].1[j] as int) <= k < i,
    ensures
        e[i].1.contains(c as usize),
        0 <= c < i,
        span_start(e, c) <= k <= c,
    decreases e[i].1.len() - j,
{
    let cj = e[i].1[j] as int;
    assert(cj < i);
    if k <= cj {
        cj
    } else {
        let n = e[i].1.len();
        if j == n - 1 {
            assert(e[i].1[n - 1] == i - 1);
            assert(false);
        }
        assert(span_start(e, e[i].1[j + 1] as int) == e[i].1[j] + 1);
        lemma_find_child(e, i, k, j + 1)
    }
}

proof fn lemma_span_reachable(e: Seq<NodeV>, i: int, k: int)
    requires
        postorder_tree(e),
        0 <= i < e.len(),
        reachable(e, i),
        span_start(e, i) <= k <= i,
    ensures
        reachable(e, k),
    decreases i,
{
    if k < i {
        assert(e[i].1.len() > 0);
        assert(span_start(e, i) == span_start(e, e[i].1[0] as int));
        let c = lemma_find_child(e, i, k, 0);
        assert(reachable(e, c)) by {
            assert(c != e.len() - 1);
            assert(c < i < e.len() && e[i].1.contains(c as usize) && reachable(e, i));
        }
        lemma_span_reachable(e, c, k);
    }
}

proof fn lemma_renamed_reachable(e: Seq<NodeV>, ind: Seq<char>, sub: Seq<char>, k: int)
    requires
        no_var_application(e, ind, sub),
    ensures
        pat_reachable(renamed(e, ind, sub), k) == reachable(e, k),
    decreases e.len() - k,
{
    let r = renamed(e, ind, sub);
    assert forall|q: int| 0 <= q < e.len() implies #[trigger] pat_children(r[q]) == e[q].1 by {
        if is_var_text(map_ident(e[q].0, ind, sub)) {
            assert(e[q].1.len() == 0);
            assert(e[q].1 =~= Seq::<usize>::empty());
        }
    }
    if 0 <= k < e.len() - 1 {
        if reachable(e, k) {
            let q = choose|q: int| k < q < e.len() && #[trigger] e[q].1.contains(k as usize) && reachable(e, q);
            lemma_renamed_reachable(e, ind, sub, q);
            assert(pat_children(r[q]) == e[q].1);
        }
        if pat_reachable(r, k) {
            let q = choose|q: int| k < q < r.len() && #[trigger] pat_children(r[q]).contains(k as usize) && pat_reachable(r, q);
            lemma_renamed_reachable(e, ind, sub, q);
            assert(pat_children(r[q]) == e[q].1);
        }
    }
}

/// In the pattern of a parsed expression (a post-order tree) in which no
/// node with children is renamed to a variable, every variable is reached
/// from the root, so searching with the pattern binds all its variables.
pub proof fn law_tree_pattern_vars_reached(e: Seq<NodeV>, ind: Seq<char>, sub: Seq<char>)
    requires
        postorder_tree(e),
        no_var_application(e, ind, sub),
    ensures
        reach_vars(pattern_of(e, ind, sub)) == pattern_vars(pattern_of(e, ind, sub)),
{
    law_tree_pattern_is_renaming(e, ind, sub);
    let p = pattern_of(e, ind, sub);
    let last = e.len() - 1;
    assert(reachable(e, last));
    assert forall|v: Seq<char>| pattern_vars(p).contains(v) implies reach_vars(p).contains(v) by {
        let k = choose|k: int| 0 <= k < p.len() && p[k] == PatNodeV::Var(v);
        lemma_span_reachable(e, last, k);
        lemma_renamed_reachable(e, ind, sub, k);
        assert(pat_reachable(p, k) && p[k] == PatNodeV::Var(v));
    }
    assert forall|v: Seq<char>| reach_vars(p).contains(v) implies pattern_vars(p).contains(v) by {
        let k = choose|k: int| #[trigger] pat_reachable(p, k) && p[k] == PatNodeV::Var(v);
        assert(0 <= k < p.len());
    }
    assert(reach_vars(p) =~= pattern_vars(p));
}

/// Different numbers have different decimal representations.
pub proof fn law_decimal_injective(j: nat, k: nat)
    requires
        j != k,
    ensures
        decimal(j) != decimal(k),
    decreases j + k,
{
    if j < 10 && k < 10 {
        assert(decimal(j)[0] == digit_char(j));
        assert(decimal(k)[0] == digit_char(k));
    } else if j >= 10 && k >= 10 {
        if j / 10 != k / 10 {
            law_decimal_injective(j / 10, k / 10);
            if decimal(j) == decimal(k) {
                assert(decimal(j).drop_last() =~= decimal(j / 10));
                assert(decimal(k).drop_last() =~= decimal(k / 10));
            }
        } else {
            assert(j % 10 != k % 10);
            if decimal(j) == decimal(k) {
                assert(decimal(j).last() == digit_char(j % 10));
                assert(decimal(k).last() == digit_char(k % 10));
            }
        }
    } else {
        let (small, big) = if j < 10 { (j, k) } else { (k, j) };
        assert(decimal(small).len() == 1);
        lemma_decimal_len(big / 10);
        assert(decimal(big).len() >= 2);
    }
}

proof fn lemma_decimal_len(n: nat)
    ensures
        decimal(n).len() >= 1,
    decreases n,
{
    if n >= 10 {
        lemma_decimal_len(n / 10);
    }
}

/// The leaves that stand for a constructor's parameters in a step case
/// are pairwise different.
pub proof fn law_param_leaves_distinct(i: nat, j: nat)
    requires
        i != j,
    ensures
        param_leaf(i) != param_leaf(j),
{
    law_decimal_injective(i, j);
    let pre = seq!['p', 'a', 'r', 'a', 'm', '_'];
    if param_leaf(i) == param_leaf(j) {
        assert(param_leaf(i).subrange(6, param_leaf(i).len() as int) =~= decimal(i));
        assert(param_leaf(j).subrange(6, param_leaf(j).len() as int) =~= decimal(j));
    }
}

/// The step-case term of a constructor with `n` parameters is the
/// constructor applied to `n` leaves, in order, no two of them the same.
pub proof fn law_step_term_fresh_leaves(c: FunctionV)
    ensures
        ctor_expr(c).len() == c.params.len() + 1,
        ctor_expr(c).last() == (c.name, Seq::new(c.params.len(), |k: int| k as usize)),
        forall|i: int| 0 <= i < c.params.len() ==> (#[trigger] ctor_expr(c)[i]).1.len() == 0,
        forall|i: int, j: int|
            0 <= i < j < c.params.len() ==> #[trigger] ctor_expr(c)[i].0 != #[trigger] ctor_expr(c)[j].0,
{
    assert forall|i: int, j: int| 0 <= i < j < c.params.len() implies #[trigger] ctor_expr(c)[i].0
        != #[trigger] ctor_expr(c)[j].0 by {
        law_param_leaves_distinct(i as nat, j as nat);
    }
}

/// Different parameters get different pattern variables.
pub proof fn law_param_vars_distinct(i: nat, j: nat)
    requires
        i != j,
    ensures
        param_var(i) != param_var(j),
{
    law_decimal_injective(i, j);
    if param_var(i) == param_var(j) {
        assert(param_var(i).subrange(7, param_var(i).len() as int) =~= decimal(i));
        assert(param_var(j).subrange(7, param_var(j).len() as int) =~= decimal(j));
    }
}

/// The patterns a rule searches with.
pub open spec fn searched(r: RuleV) -> Seq<Seq<PatNodeV>> {
    match r.searcher {
        SearcherV::Pattern(p) => seq![p],
        SearcherV::MultiDiff(ps) => ps,
        SearcherV::MultiEq(ps) => ps,
    }
}

/// The pattern a rule applies.
pub open spec fn applied(r: RuleV) -> Seq<PatNodeV> {
    match r.applier {
        ApplierV::Pattern(a) => a,
        ApplierV::Diff(a) => a,
    }
}

/// The operator of a pattern node, or the name of a variable.
pub open spec fn node_label(n: PatNodeV) -> Seq<char> {
    match n {
        PatNodeV::Node(op, _) => op,
        PatNodeV::Var(v) => v,
    }
}

/// The order rule made for parameter `i` of a constructor finds the
/// constructor applied to pattern variables, no two the same, in some
/// class, and adds, kept apart, that the `i`-th argument of the match is
/// below the matched class; the rule is named after that argument's
/// variable.
pub proof fn law_order_rule_orders_its_argument(c: FunctionV, i: nat)
    requires
        i < c.params.len(),
        c.params.len() <= usize::MAX,
    ensures
        ctor_rule(c, i).searcher is MultiEq,
        searched(ctor_rule(c, i)).len() == 2,
        searched(ctor_rule(c, i))[0].last() is Node,
        node_label(searched(ctor_rule(c, i))[0].last()) == c.name,
        pat_children(searched(ctor_rule(c, i))[0].last()).len() == c.params.len(),
        forall|a: int, b: int|
            0 <= a < b < c.params.len() ==> #[trigger] searched(ctor_rule(c, i))[0][pat_children(
                searched(ctor_rule(c, i))[0].last(),
            )[a] as int] != #[trigger] searched(ctor_rule(c, i))[0][pat_children(
                searched(ctor_rule(c, i))[0].last(),
            )[b] as int],
        ctor_rule(c, i).applier is Diff,
        applied(ctor_rule(c, i)).len() == 3,
        applied(ctor_rule(c, i))[0] == searched(ctor_rule(c, i))[0][pat_children(
            searched(ctor_rule(c, i))[0].last(),
        )[i as int] as int],
        applied(ctor_rule(c, i))[0] is Var,
        applied(ctor_rule(c, i))[1] == searched(ctor_rule(c, i))[1].last(),
        applied(ctor_rule(c, i))[2] == PatNodeV::Node(ltwf(), seq![0usize, 1usize]),
        ctor_rule(c, i).name == c.name + seq!['_'] + node_label(applied(ctor_rule(c, i))[0]),
{
    let ps0 = crate::wfo::ctor_pattern(c);
    let n = c.params.len();
    let vs = Seq::new(n, |k: int| param_var(k as nat));
    assert(ps0 == crate::pattern::vars_applied(c.name, vs));
    assert(ps0.len() == n + 1);
    assert(ps0.last() == PatNodeV::Node(c.name, Seq::new(n, |k: int| k as usize)));
    let front = Seq::new(vs.len(), |k: int| PatNodeV::Var(vs[k]));
    assert(ps0 == front.push(PatNodeV::Node(c.name, Seq::new(vs.len(), |k: int| k as usize))));
    assert forall|k: int| 0 <= k < n implies #[trigger] ps0[k] == PatNodeV::Var(param_var(k as nat))
        && pat_children(ps0.last())[k] == k by {
        assert(ps0[k] == front[k]);
        assert(front[k] == PatNodeV::Var(vs[k]));
        assert(vs[k] == param_var(k as nat));
        assert(pat_children(ps0.last()) == Seq::new(n, |m: int| m as usize));
    }
    assert(ps0[i as int] == PatNodeV::Var(param_var(i)));
    assert forall|a: int, b: int| 0 <= a < b < n implies #[trigger] ps0[pat_children(ps0.last())[a] as int]
        != #[trigger] ps0[pat_children(ps0.last())[b] as int] by {
        law_param_vars_distinct(a as nat, b as nat);
        assert(ps0[a] == PatNodeV::Var(param_var(a as nat)));
        assert(ps0[b] == PatNodeV::Var(param_var(b as nat)));
    }
}

/// Every induction-hypothesis rule searches one side of the equation, with
/// the induction variable become `?somevar`, together with the guard
/// `(ltwf ?somevar ind)`, and applies the other side: it only fires on
/// values below the induction variable.
pub proof fn law_hypothesis_guarded(ind: Seq<char>, e1: Seq<NodeV>, e2: Seq<NodeV>)
    ensures
        hypothesis_rules(ind, e1, e2).len() <= 2,
        forall|m: int|
            0 <= m < hypothesis_rules(ind, e1, e2).len() ==> {
                let r = #[trigger] hypothesis_rules(ind, e1, e2)[m];
                &&& r.searcher is MultiDiff
                &&& searched(r).len() == 2
                &&& searched(r)[1] == seq![
                    PatNodeV::Var(somevar()),
                    PatNodeV::Node(ind, Seq::empty()),
                    PatNodeV::Node(ltwf(), seq![0usize, 1usize]),
                ]
                &&& r.applier is Pattern
                &&& (searched(r)[0] == pattern_of(e1, ind, somevar()) && applied(r) == pattern_of(e2, ind, somevar()))
                    || (searched(r)[0] == pattern_of(e2, ind, somevar()) && applied(r) == pattern_of(e1, ind, somevar()))
            },
{
}

proof fn lemma_ctor_rules_upto(c: FunctionV, ty: Seq<NodeV>, k: int)
    requires
        k <= c.params.len(),
    ensures
        forall|m: int|
            0 <= m < ctor_rules_upto(c, ty, k).len() ==> exists|i: nat|
                i < k && c.params[i as int] == ty && #[trigger] ctor_rules_upto(c, ty, k)[m] == ctor_rule(c, i),
    decreases k,
{
    if k > 0 {
        lemma_ctor_rules_upto(c, ty, k - 1);
        let prev = ctor_rules_upto(c, ty, k - 1);
        let cur = ctor_rules_upto(c, ty, k);
        assert forall|m: int| 0 <= m < cur.len() implies exists|i: nat|
            i < k && c.params[i as int] == ty && #[trigger] cur[m] == ctor_rule(c, i) by {
            if c.params[k - 1] == ty {
                if m < prev.len() {
                    assert(cur[m] == prev[m]);
                    let i = choose|i: nat| i < k - 1 && c.params[i as int] == ty && prev[m] == ctor_rule(c, i);
                } else {
                    assert(cur[m] == ctor_rule(c, (k - 1) as nat));
                }
            } else {
                assert(cur[m] == prev[m]);
                let i = choose|i: nat| i < k - 1 && c.params[i as int] == ty && prev[m] == ctor_rule(c, i);
            }
        }
    }
}

proof fn lemma_wfo_rules_upto(d: DataTypeV, k: int)
    requires
        k <= d.constructors.len(),
    ensures
        forall|m: int|
            0 <= m < wfo_rules_upto(d, k).len() ==> exists|j: int, i: nat|
                0 <= j < k && i < d.constructors[j].params.len() && d.constructors[j].params[i as int] == leaf_expr(
                    d.name,
                ) && #[trigger] wfo_rules_upto(d, k)[m] == ctor_rule(d.constructors[j], i),
    decreases k,
{
    if k > 0 {
        lemma_wfo_rules_upto(d, k - 1);
        let c = d.constructors[k - 1];
        let prev = wfo_rules_upto(d, k - 1);
        let more = ctor_rules_upto(c, leaf_expr(d.name), c.params.len() as int);
        lemma_ctor_rules_upto(c, leaf_expr(d.name), c.params.len() as int);
        let cur = wfo_rules_upto(d, k);
        assert(cur == prev + more);
        assert forall|m: int| 0 <= m < cur.len() implies exists|j: int, i: nat|
            0 <= j < k && i < d.constructors[j].params.len() && d.constructors[j].params[i as int] == leaf_expr(d.name)
                && #[trigger] cur[m] == ctor_rule(d.constructors[j], i) by {
            if m < prev.len() {
                assert(cur[m] == prev[m]);
                let (j, i) = choose|j: int, i: nat|
                    0 <= j < k - 1 && i < d.constructors[j].params.len() && d.constructors[j].params[i as int]
                        == leaf_expr(d.name) && prev[m] == ctor_rule(d.constructors[j], i);
            } else {
                assert(cur[m] == more[m - prev.len()]);
                let i = choose|i: nat|
                    i < c.params.len() && c.params[i as int] == leaf_expr(d.name) && more[m - prev.len()] == ctor_rule(c, i);
                assert(cur[m] == ctor_rule(d.constructors[k - 1], i));
            }
        }
    }
}

/// The well-founded order rules of a datatype are, before the closing
/// transitivity rule, only order rules for parameters whose type is the
/// datatype itself (recursive parameters): each puts that argument of a
/// matched constructor term below the term (see
/// `law_order_rule_orders_its_argument`).
pub proof fn law_order_rules_recursive(d: DataTypeV)
    ensures
        wfo_rules(d).last() == wfo_trans_rule(),
        forall|m: int|
            0 <= m < wfo_rules(d).len() - 1 ==> exists|j: int, i: nat|
                0 <= j < d.constructors.len() && i < d.constructors[j].params.len()
                    && d.constructors[j].params[i as int] == leaf_expr(d.name) && #[trigger] wfo_rules(d)[m] == ctor_rule(
                    d.constructors[j],
                    i,
                ),
{
    lemma_wfo_rules_upto(d, d.constructors.len() as int);
    let pre = wfo_rules_upto(d, d.constructors.len() as int);
    assert forall|m: int| 0 <= m < wfo_rules(d).len() - 1 implies exists|j: int, i: nat|
        0 <= j < d.constructors.len() && i < d.constructors[j].params.len() && d.constructors[j].params[i as int]
            == leaf_expr(d.name) && #[trigger] wfo_rules(d)[m] == ctor_rule(d.constructors[j], i) by {
        assert(wfo_rules(d)[m] == pre[m]);
    }
}

proof fn lemma_replace_distinct(e: Seq<NodeV>, subs: Seq<(usize, Seq<char>)>)
    requires
        forall|j: int| 0 <= j < subs.len() ==> #[trigger] subs[j].0 < e.len(),
        forall|a: int, b: int| 0 <= a < b < subs.len() ==> #[trigger] subs[a].0 != #[trigger] subs[b].0,
    ensures
        replace_ops(e, subs).len() == e.len(),
        forall|k: int| 0 <= k < e.len() ==> (#[trigger] replace_ops(e, subs)[k]).1 == e[k].1,
        forall|j: int| 0 <= j < subs.len() ==> replace_ops(e, subs)[#[trigger] subs[j].0 as int].0 == subs[j].1,
        forall|k: int|
            0 <= k < e.len() && (forall|j: int| 0 <= j < subs.len() ==> #[trigger] subs[j].0 != k) ==> replace_ops(
                e,
                subs,
            )[k] == e[k],
    decreases subs.len(),
{
    if subs.len() > 0 {
        let init = subs.drop_last();
        assert forall|j: int| 0 <= j < init.len() implies #[trigger] init[j] == subs[j] by {}
        lemma_replace_distinct(e, init);
        let prev = replace_ops(e, init);
        let s = subs.last();
        let r = replace_ops(e, subs);
        assert(subs[subs.len() - 1] == s);
        assert(r == prev.update(s.0 as int, (s.1, prev[s.0 as int].1)));
        assert forall|j: int| 0 <= j < subs.len() implies r[#[trigger] subs[j].0 as int].0 == subs[j].1 by {
            if j < subs.len() - 1 {
                assert(subs[j] == init[j]);
                assert(subs[j].0 != s.0);
            }
        }
        assert forall|k: int|
            0 <= k < e.len() && (forall|j: int| 0 <= j < subs.len() ==> #[trigger] subs[j].0 != k) implies r[k]
            == e[k] by {
            assert(subs[subs.len() - 1].0 != k);
            assert forall|j: int| 0 <= j < init.len() implies #[trigger] init[j].0 != k by {
                assert(init[j] == subs[j]);
            }
        }
    }
}

proof fn lemma_op_positions_increasing(e: Seq<NodeV>, op: Seq<char>, k: int)
    requires
        0 <= k <= e.len(),
        e.len() <= usize::MAX + 1,
    ensures
        forall|a: int, b: int|
            0 <= a < b < op_positions_upto(e, op, k).len() ==> #[trigger] op_positions_upto(e, op, k)[a]
                < #[trigger] op_positions_upto(e, op, k)[b],
    decreases k,
{
    if k > 0 {
        lemma_op_positions_increasing(e, op, k - 1);
        crate::expr::lemma_op_positions(e, op, k - 1);
        let prev = op_positions_upto(e, op, k - 1);
        let cur = op_positions_upto(e, op, k);
        if e[k - 1].0 == op {
            assert forall|a: int, b: int| 0 <= a < b < cur.len() implies #[trigger] cur[a] < #[trigger] cur[b] by {
                if b < prev.len() {
                    assert(cur[a] == prev[a] && cur[b] == prev[b]);
                } else {
                    assert(cur[a] == prev[a]);
                    assert(prev[a] < k - 1);
                }
            }
        }
    }
}

/// In a round of generalization with `c` placeholders, the candidate made
/// from the `p`-th ordering of the first side's placeholder-1 nodes gives
/// the `j`-th node of that ordering placeholder `j % c + 1` and leaves every
/// other node as it was; the second side's placeholder-1 nodes, in order,
/// get placeholders `1, 2, .., c, 1, ..` the same way. So every ordering
/// that `heap_recursive` visits is tried.
pub proof fn law_round_assigns_by_ordering(
    pr: Prover,
    x1: Seq<NodeV>,
    x2: Seq<NodeV>,
    orders: Seq<Seq<usize>>,
    c: nat,
    p: int,
)
    requires
        c >= 1,
        0 <= p < orders.len(),
        orders[p].no_duplicates(),
        forall|j: int| 0 <= j < orders[p].len() ==> #[trigger] orders[p][j] < x1.len(),
        x2.len() <= usize::MAX + 1,
    ensures
        pr.round_cands(x1, x2, orders, c).len() == orders.len(),
        pr.round_cands(x1, x2, orders, c)[p].0.len() == x1.len(),
        forall|j: int|
            0 <= j < orders[p].len() ==> pr.round_cands(x1, x2, orders, c)[p].0[#[trigger] orders[p][j] as int].0
                == placeholder_name(pr.datatype().name, (j % (c as int)) as nat + 1),
        forall|k: int|
            0 <= k < x1.len() && !orders[p].contains(k as usize) ==> #[trigger] pr.round_cands(x1, x2, orders, c)[p].0[k]
                == x1[k],
        forall|k: int| 0 <= k < x1.len() ==> (#[trigger] pr.round_cands(x1, x2, orders, c)[p].0[k]).1 == x1[k].1,
        forall|j: int|
            0 <= j < op_positions(x2, pr.ph1_name()).len() ==> pr.round_cands(x1, x2, orders, c)[p].1[#[trigger] op_positions(
                x2,
                pr.ph1_name(),
            )[j] as int].0 == placeholder_name(pr.datatype().name, (j % (c as int)) as nat + 1),
{
    let t = pr.datatype().name;
    let s1 = ph_subs(orders[p], t, c);
    assert forall|j: int| 0 <= j < s1.len() implies #[trigger] s1[j].0 < x1.len() by {
        assert(s1[j].0 == orders[p][j]);
    }
    assert forall|a: int, b: int| 0 <= a < b < s1.len() implies #[trigger] s1[a].0 != #[trigger] s1[b].0 by {
        assert(s1[a].0 == orders[p][a] && s1[b].0 == orders[p][b]);
    }
    lemma_replace_distinct(x1, s1);
    assert forall|j: int| 0 <= j < orders[p].len() implies replace_ops(x1, s1)[#[trigger] orders[p][j] as int].0
        == placeholder_name(t, (j % (c as int)) as nat + 1) by {
        assert(s1[j].0 == orders[p][j]);
    }
    assert forall|k: int| 0 <= k < x1.len() && !orders[p].contains(k as usize) implies #[trigger] replace_ops(
        x1,
        s1,
    )[k] == x1[k] by {
        assert forall|j: int| 0 <= j < s1.len() implies #[trigger] s1[j].0 != k by {
            assert(s1[j].0 == orders[p][j]);
            if orders[p][j] == k {
                assert(orders[p].contains(k as usize));
            }
        }
    }
    let pos2 = op_positions(x2, pr.ph1_name());
    let s2 = ph_subs(pos2, t, c);
    crate::expr::lemma_op_positions(x2, pr.ph1_name(), x2.len() as int);
    lemma_op_positions_increasing(x2, pr.ph1_name(), x2.len() as int);
    assert forall|j: int| 0 <= j < s2.len() implies #[trigger] s2[j].0 < x2.len() by {
        assert(s2[j].0 == pos2[j]);
    }
    assert forall|a: int, b: int| 0 <= a < b < s2.len() implies #[trigger] s2[a].0 != #[trigger] s2[b].0 by {
        assert(s2[a].0 == pos2[a] && s2[b].0 == pos2[b]);
    }
    lemma_replace_distinct(x2, s2);
    assert forall|j: int| 0 <= j < pos2.len() implies replace_ops(x2, s2)[#[trigger] pos2[j] as int].0
        == placeholder_name(t, (j % (c as int)) as nat + 1) by {
        assert(s2[j].0 == pos2[j]);
    }
}

/// The label that the pattern node standing for node `c` of `e` carries:
/// `apply` for an applied placeholder, else the renamed operator.
pub open spec fn label_for(e: Seq<NodeV>, c: int, ind: Seq<char>, sub: Seq<char>) -> Seq<char> {
    let op = map_ident(e[c].0, ind, sub);
    if is_var_text(op) && e[c].1.len() > 0 {
        apply_op()
    } else {
        op
    }
}

proof fn lemma_build_node_facts(e: Seq<NodeV>, idx: int, ind: Seq<char>, sub: Seq<char>, acc: Seq<PatNodeV>)
    requires
        nodes_wf(e),
        0 <= idx < e.len(),
        build_node(e, idx, ind, sub, acc).0.len() <= usize::MAX,
    ensures
        build_node(e, idx, ind, sub, acc).0.len() > acc.len(),
        build_node(e, idx, ind, sub, acc).1 == build_node(e, idx, ind, sub, acc).0.len() - 1,
        build_node(e, idx, ind, sub, acc).0.subrange(0, acc.len() as int) == acc,
        node_label(build_node(e, idx, ind, sub, acc).0.last()) == label_for(e, idx, ind, sub),
    decreases idx, e[idx].1.len() + 1,
{
    lemma_build_children_facts(e, idx, e[idx].1.len() as int, ind, sub, acc);
    let (a, ids) = build_children(e, idx, e[idx].1.len() as int, ind, sub, acc);
    let r = build_node(e, idx, ind, sub, acc).0;
    let op = map_ident(e[idx].0, ind, sub);
    if is_var_text(op) && ids.len() > 0 {
        assert(r == a.push(PatNodeV::Node(op, Seq::empty())).push(
            PatNodeV::Node(apply_op(), seq![a.len() as usize] + ids),
        ));
        assert(r.subrange(0, acc.len() as int) =~= a.subrange(0, acc.len() as int));
    } else {
        assert(r.subrange(0, acc.len() as int) =~= a.subrange(0, acc.len() as int));
    }
}

proof fn lemma_build_children_facts(
    e: Seq<NodeV>,
    idx: int,
    k: int,
    ind: Seq<char>,
    sub: Seq<char>,
    acc: Seq<PatNodeV>,
)
    requires
        nodes_wf(e),
        0 <= idx < e.len(),
        0 <= k <= e[idx].1.len(),
        build_children(e, idx, k, ind, sub, acc).0.len() <= usize::MAX,
    ensures
        build_children(e, idx, k, ind, sub, acc).1.len() == k,
        build_children(e, idx, k, ind, sub, acc).0.len() >= acc.len(),
        build_children(e, idx, k, ind, sub, acc).0.subrange(0, acc.len() as int) == acc,
        forall|j: int|
            0 <= j < k ==> acc.len() <= #[trigger] build_children(e, idx, k, ind, sub, acc).1[j] < build_children(
                e,
                idx,
                k,
                ind,
                sub,
                acc,
            ).0.len(),
        forall|a: int, b: int|
            0 <= a < b < k ==> #[trigger] build_children(e, idx, k, ind, sub, acc).1[a] < #[trigger] build_children(
                e,
                idx,
                k,
                ind,
                sub,
                acc,
            ).1[b],
        forall|j: int|
            0 <= j < k ==> node_label(
                build_children(e, idx, k, ind, sub, acc).0[#[trigger] build_children(e, idx, k, ind, sub, acc).1[j] as int],
            ) == label_for(e, e[idx].1[j] as int, ind, sub),
    decreases idx, k,
{
    if k > 0 {
        let (a1, ids) = build_children(e, idx, k - 1, ind, sub, acc);
        let c = e[idx].1[k - 1] as int;
        assert(c < idx);
        lemma_build_node_facts(e, c, ind, sub, a1);
        let (a2, id) = build_node(e, c, ind, sub, a1);
        lemma_build_children_facts(e, idx, k - 1, ind, sub, acc);
        let res = build_children(e, idx, k, ind, sub, acc);
        assert(res == (a2, ids.push(id)));
        assert(a2.subrange(0, acc.len() as int) =~= a2.subrange(0, a1.len() as int).subrange(0, acc.len() as int));
        assert forall|j: int| 0 <= j < k implies node_label(res.0[#[trigger] res.1[j] as int]) == label_for(
            e,
            e[idx].1[j] as int,
            ind,
            sub,
        ) by {
            if j < k - 1 {
                assert(res.1[j] == ids[j]);
                assert(a2[ids[j] as int] == a2.subrange(0, a1.len() as int)[ids[j] as int]);
            } else {
                assert(res.1[j] == id);
            }
        }
        assert forall|a: int, b: int| 0 <= a < b < k implies #[trigger] res.1[a] < #[trigger] res.1[b] by {
            if b < k - 1 {
                assert(res.1[a] == ids[a] && res.1[b] == ids[b]);
            } else {
                assert(res.1[a] == ids[a]);
            }
        }
    }
}

/// A placeholder applied to arguments, `(f a1 .. an)`, becomes the pattern
/// node `apply` whose first child is the leaf `?f` and whose other children
/// are the patterns of `a1 .. an`, in that order: the `j`-th argument of
/// `apply` stands for the `j`-th argument of `f`, and the arguments come
/// before `?f` and one after another, as the children were translated.
pub proof fn law_applied_placeholder_args_in_order(
    e: Seq<NodeV>,
    idx: int,
    ind: Seq<char>,
    sub: Seq<char>,
    acc: Seq<PatNodeV>,
)
    requires
        nodes_wf(e),
        0 <= idx < e.len(),
        is_var_text(map_ident(e[idx].0, ind, sub)),
        e[idx].1.len() > 0,
        build_node(e, idx, ind, sub, acc).0.len() <= usize::MAX,
    ensures
        ({
            let r = build_node(e, idx, ind, sub, acc).0;
            let id = build_node(e, idx, ind, sub, acc).1 as int;
            let ch = pat_children(r[id]);
            &&& 0 <= id < r.len()
            &&& r[id] is Node
            &&& node_label(r[id]) == apply_op()
            &&& ch.len() == e[idx].1.len() + 1
            &&& r[ch[0] as int] == PatNodeV::Node(map_ident(e[idx].0, ind, sub), Seq::empty())
            &&& forall|j: int|
                0 <= j < e[idx].1.len() ==> node_label(r[#[trigger] ch[j + 1] as int]) == label_for(
                    e,
                    e[idx].1[j] as int,
                    ind,
                    sub,
                )
            &&& forall|a: int, b: int| 1 <= a < b < ch.len() ==> #[trigger] ch[a] < #[trigger] ch[b]
            &&& forall|a: int| 1 <= a < ch.len() ==> acc.len() <= #[trigger] ch[a] < ch[0]
        }),
{
    let n = e[idx].1.len() as int;
    lemma_build_children_facts(e, idx, n, ind, sub, acc);
    let (a, ids) = build_children(e, idx, n, ind, sub, acc);
    let op = map_ident(e[idx].0, ind, sub);
    let a1 = a.push(PatNodeV::Node(op, Seq::empty()));
    let r = a1.push(PatNodeV::Node(apply_op(), seq![a.len() as usize] + ids));
    assert(build_node(e, idx, ind, sub, acc) == (r, a1.len() as usize));
    let ch = seq![a.len() as usize] + ids;
    assert(pat_children(r[a1.len() as int]) == ch);
    assert forall|j: int| 0 <= j < n implies node_label(r[#[trigger] ch[j + 1] as int]) == label_for(
        e,
        e[idx].1[j] as int,
        ind,
        sub,
    ) by {
        assert(ch[j + 1] == ids[j]);
        assert(r[ids[j] as int] == a[ids[j] as int]);
    }
    assert forall|x: int, y: int| 1 <= x < y < ch.len() implies #[trigger] ch[x] < #[trigger] ch[y] by {
        assert(ch[x] == ids[x - 1] && ch[y] == ids[y - 1]);
    }
    assert forall|x: int| 1 <= x < ch.len() implies acc.len() <= #[trigger] ch[x] < ch[0] by {
        assert(ch[x] == ids[x - 1]);
    }
}

} // verus!
