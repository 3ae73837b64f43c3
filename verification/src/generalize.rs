use vstd::prelude::*;
use crate::expr::{NodeV, nodes_wf, expr_wf, mentions_op, has_reachable_leaf, reachable, replace_ops};
use crate::pattern::{
    PatNodeV, build_node, build_children, pattern_of, pattern_wf, pat_children, valid_var_name,
    is_var_text, map_ident, no_bare_var,
};
use crate::lang::{placeholder_name, ph_prefix};
use crate::text::{decimal, digit_char, seq_starts_with};
use crate::laws::{no_var_application, postorder_tree, span_start};

verus! {

/// A pattern node without its name: its kind and its children.
pub open spec fn node_shape(n: PatNodeV) -> PatNodeV {
    match n {
        PatNodeV::Var(_) => PatNodeV::Var(Seq::empty()),
        PatNodeV::Node(_, c) => PatNodeV::Node(Seq::empty(), c),
    }
}

/// The two patterns differ at most in their names.
pub open spec fn same_shape(p: Seq<PatNodeV>, q: Seq<PatNodeV>) -> bool {
    p.len() == q.len() && forall|i: int| 0 <= i < p.len() ==> #[trigger] node_shape(p[i]) == node_shape(q[i])
}

/// Every variable of the pattern has a valid name.
pub open spec fn vars_valid(p: Seq<PatNodeV>) -> bool {
    forall|i: int| 0 <= i < p.len() ==> (#[trigger] p[i] matches PatNodeV::Var(v) ==> valid_var_name(v))
}

/// The two expressions have the same children everywhere, and each node is
/// renamed to a variable in one exactly when it is in the other.
pub open spec fn compatible(
    e: Seq<NodeV>,
    e2: Seq<NodeV>,
    ind: Seq<char>,
    sub: Seq<char>,
    sub2: Seq<char>,
) -> bool {
    &&& e.len() == e2.len()
    &&& forall|i: int|
        #![trigger e2[i]]
        0 <= i < e.len() ==> e[i].1 == e2[i].1 && is_var_text(map_ident(e[i].0, ind, sub)) == is_var_text(
            map_ident(e2[i].0, ind, sub2),
        )
}

proof fn lemma_build_children_shape(
    e: Seq<NodeV>,
    e2: Seq<NodeV>,
    idx: int,
    k: int,
    ind: Seq<char>,
    sub: Seq<char>,
    sub2: Seq<char>,
    acc: Seq<PatNodeV>,
    acc2: Seq<PatNodeV>,
)
    requires
        compatible(e, e2, ind, sub, sub2),
        same_shape(acc, acc2),
    ensures
        same_shape(
            build_children(e, idx, k, ind, sub, acc).0,
            build_children(e2, idx, k, ind, sub2, acc2).0,
        ),
        build_children(e, idx, k, ind, sub, acc).1 == build_children(e2, idx, k, ind, sub2, acc2).1,
    decreases idx, k,
{
    if k <= 0 || idx < 0 || idx >= e.len() || k > e[idx].1.len() {
        assert(0 <= idx < e.len() ==> e[idx].1 == e2[idx].1);
    } else {
        assert(e[idx].1 == e2[idx].1);
        lemma_build_children_shape(e, e2, idx, k - 1, ind, sub, sub2, acc, acc2);
        let a1 = build_children(e, idx, k - 1, ind, sub, acc).0;
        let b1 = build_children(e2, idx, k - 1, ind, sub2, acc2).0;
        let c = e[idx].1[k - 1] as int;
        if 0 <= c < idx {
            lemma_build_node_shape(e, e2, c, ind, sub, sub2, a1, b1);
        }
    }
}

proof fn lemma_build_node_shape(
    e: Seq<NodeV>,
    e2: Seq<NodeV>,
    idx: int,
    ind: Seq<char>,
    sub: Seq<char>,
    sub2: Seq<char>,
    acc: Seq<PatNodeV>,
    acc2: Seq<PatNodeV>,
)
    requires
        compatible(e, e2, ind, sub, sub2),
        same_shape(acc, acc2),
    ensures
        same_shape(build_node(e, idx, ind, sub, acc).0, build_node(e2, idx, ind, sub2, acc2).0),
        build_node(e, idx, ind, sub, acc).1 == build_node(e2, idx, ind, sub2, acc2).1,
    decreases idx, e[idx].1.len() + 1,
{
    if 0 <= idx < e.len() {
        assert(e[idx].1 == e2[idx].1);
        lemma_build_children_shape(e, e2, idx, e[idx].1.len() as int, ind, sub, sub2, acc, acc2);
        let (a, ids) = build_children(e, idx, e[idx].1.len() as int, ind, sub, acc);
        let (b, ids2) = build_children(e2, idx, e2[idx].1.len() as int, ind, sub2, acc2);
        let op = map_ident(e[idx].0, ind, sub);
        let op2 = map_ident(e2[idx].0, ind, sub2);
        let r = build_node(e, idx, ind, sub, acc).0;
        let r2 = build_node(e2, idx, ind, sub2, acc2).0;
        if is_var_text(op) && ids.len() > 0 {
            assert(node_shape(r[a.len() as int]) == node_shape(r2[a.len() as int]));
            assert(forall|i: int| 0 <= i < a.len() ==> r[i] == a[i] && r2[i] == b[i]);
        } else if is_var_text(op) {
            assert(forall|i: int| 0 <= i < a.len() ==> r[i] == a[i] && r2[i] == b[i]);
        } else {
            assert(forall|i: int| 0 <= i < a.len() ==> r[i] == a[i] && r2[i] == b[i]);
        }
    }
}

proof fn lemma_build_children_vars(e: Seq<NodeV>, idx: int, k: int, ind: Seq<char>, sub: Seq<char>, acc: Seq<PatNodeV>)
    requires
        nodes_wf(e),
        no_bare_var(e, ind, sub),
        vars_valid(acc),
        0 <= idx < e.len(),
        0 <= k <= e[idx].1.len(),
    ensures
        vars_valid(build_children(e, idx, k, ind, sub, acc).0),
        build_children(e, idx, k, ind, sub, acc).1.len() == k,
    decreases idx, k,
{
    if k > 0 {
        lemma_build_children_vars(e, idx, k - 1, ind, sub, acc);
        let a1 = build_children(e, idx, k - 1, ind, sub, acc).0;
        let c = e[idx].1[k - 1] as int;
        assert(c < idx);
        lemma_build_node_vars(e, c, ind, sub, a1);
    }
}

proof fn lemma_build_node_vars(e: Seq<NodeV>, idx: int, ind: Seq<char>, sub: Seq<char>, acc: Seq<PatNodeV>)
    requires
        nodes_wf(e),
        no_bare_var(e, ind, sub),
        vars_valid(acc),
        0 <= idx < e.len(),
    ensures
        vars_valid(build_node(e, idx, ind, sub, acc).0),
    decreases idx, e[idx].1.len() + 1,
{
    lemma_build_children_vars(e, idx, e[idx].1.len() as int, ind, sub, acc);
    let (a, ids) = build_children(e, idx, e[idx].1.len() as int, ind, sub, acc);
    let op = map_ident(e[idx].0, ind, sub);
    let r = build_node(e, idx, ind, sub, acc).0;
    if is_var_text(op) && ids.len() == 0 {
        assert(op != seq!['?']);
        assert(valid_var_name(op)) by {
            if op.len() == 1 {
                assert(op =~= seq!['?']);
            }
        }
    }
    assert(forall|i: int| 0 <= i < a.len() ==> r[i] == a[i]);
}

/// Renaming nodes of an expression so that the same nodes become pattern
/// variables keeps the pattern it stands for usable.
pub proof fn lemma_pattern_wf_transfer(e: Seq<NodeV>, e2: Seq<NodeV>, ind: Seq<char>, sub: Seq<char>, sub2: Seq<char>)
    requires
        compatible(e, e2, ind, sub, sub2),
        expr_wf(e),
        no_bare_var(e2, ind, sub2),
        pattern_wf(pattern_of(e, ind, sub)),
    ensures
        pattern_wf(pattern_of(e2, ind, sub2)),
{
    assert(nodes_wf(e2)) by {
        assert forall|i: int, j: int| 0 <= i < e2.len() && 0 <= j < e2[i].1.len() implies #[trigger] e2[i].1[j] < i by {
            assert(e[i].1 == e2[i].1);
        }
    }
    let p = pattern_of(e, ind, sub);
    let p2 = pattern_of(e2, ind, sub2);
    lemma_build_node_shape(e, e2, e.len() - 1, ind, sub, sub2, Seq::empty(), Seq::empty());
    lemma_build_node_vars(e2, e2.len() - 1, ind, sub2, Seq::empty());
    assert forall|i: int, j: int| 0 <= i < p2.len() && 0 <= j < pat_children(p2[i]).len() implies #[trigger] pat_children(p2[i])[j] < i by {
        assert(node_shape(p[i]) == node_shape(p2[i]));
        assert(pat_children(p[i]) == pat_children(p2[i]));
    }
}

proof fn lemma_decimal_nonempty(n: nat)
    ensures
        decimal(n).len() >= 1,
    decreases n,
{
    if n >= 10 {
        lemma_decimal_nonempty(n / 10);
    }
}

proof fn lemma_decimal_not_zero(k: nat)
    requires
        k >= 1,
    ensures
        decimal(k) != decimal(0),
{
    if k >= 10 {
        lemma_decimal_nonempty(k / 10);
        assert(decimal(k).len() >= 2);
    } else {
        assert(decimal(k)[0] == digit_char(k));
        assert(decimal(0)[0] == digit_char(0));
    }
}

/// Placeholders with different numbers have different names.
proof fn lemma_placeholder_distinct(t: Seq<char>, j: nat, k: nat)
    requires
        decimal(j) != decimal(k),
    ensures
        placeholder_name(t, j) != placeholder_name(t, k),
{
    let n = ph_prefix().len() + 1 + t.len() + 1;
    let a = placeholder_name(t, j);
    let b = placeholder_name(t, k);
    if a == b {
        assert(a.subrange(n as int, a.len() as int) =~= decimal(j));
        assert(b.subrange(n as int, b.len() as int) =~= decimal(k));
    }
}

/// A placeholder other than the induction variable is renamed to a
/// variable with a valid name.
proof fn lemma_placeholder_renamed(t: Seq<char>, k: nat, sub: Seq<char>)
    requires
        k >= 1,
    ensures
        placeholder_name(t, k) != placeholder_name(t, 0),
        map_ident(placeholder_name(t, k), placeholder_name(t, 0), sub) == seq!['?'] + placeholder_name(t, k),
        is_var_text(map_ident(placeholder_name(t, k), placeholder_name(t, 0), sub)),
        map_ident(placeholder_name(t, k), placeholder_name(t, 0), sub) != seq!['?'],
{
    lemma_decimal_not_zero(k);
    lemma_placeholder_distinct(t, k, 0);
    let a = placeholder_name(t, k);
    assert(a.subrange(0, ph_prefix().len() as int) =~= ph_prefix());
    assert(seq_starts_with(a, ph_prefix()));
    let m = seq!['?'] + a;
    assert(m.len() > 1);
}

/// `r` is `e` with some nodes named `ph1` renamed to placeholders of the
/// type `t` numbered from one.
pub open spec fn renames_ph1(e: Seq<NodeV>, r: Seq<NodeV>, t: Seq<char>) -> bool {
    &&& r.len() == e.len()
    &&& forall|i: int|
        #![trigger r[i]]
        0 <= i < e.len() ==> r[i].1 == e[i].1 && (r[i].0 == e[i].0 || (e[i].0 == placeholder_name(t, 1)
            && exists|k: nat| k >= 1 && r[i].0 == placeholder_name(t, k)))
}

/// Each replacement renames a node named `ph1` to a placeholder numbered
/// from one.
pub open spec fn subs_rename_ph1(e: Seq<NodeV>, subs: Seq<(usize, Seq<char>)>, t: Seq<char>) -> bool {
    forall|j: int|
        #![trigger subs[j]]
        0 <= j < subs.len() ==> subs[j].0 < e.len() && e[subs[j].0 as int].0 == placeholder_name(t, 1)
            && exists|k: nat| k >= 1 && subs[j].1 == placeholder_name(t, k)
}

pub proof fn lemma_replace_renames(e: Seq<NodeV>, subs: Seq<(usize, Seq<char>)>, t: Seq<char>)
    requires
        subs_rename_ph1(e, subs, t),
    ensures
        renames_ph1(e, replace_ops(e, subs), t),
    decreases subs.len(),
{
    if subs.len() > 0 {
        assert(subs_rename_ph1(e, subs.drop_last(), t)) by {
            assert forall|j: int| 0 <= j < subs.drop_last().len() implies #[trigger] subs.drop_last()[j] == subs[j] by {}
        }
        lemma_replace_renames(e, subs.drop_last(), t);
        let prev = replace_ops(e, subs.drop_last());
        let s = subs.last();
        assert(subs[subs.len() - 1] == s);
        let r = replace_ops(e, subs);
        assert forall|i: int| 0 <= i < e.len() implies #[trigger] r[i].1 == e[i].1 && (r[i].0 == e[i].0 || (e[i].0
            == placeholder_name(t, 1) && exists|k: nat| k >= 1 && r[i].0 == placeholder_name(t, k))) by {
            assert(prev[i].1 == e[i].1);
            if i == s.0 as int {
                let k = choose|k: nat| k >= 1 && s.1 == placeholder_name(t, k);
                assert(r[i].0 == placeholder_name(t, k));
            } else {
                assert(r[i] == prev[i]);
            }
        }
    }
}

proof fn lemma_reachable_same(e: Seq<NodeV>, r: Seq<NodeV>, k: int)
    requires
        r.len() == e.len(),
        forall|i: int| #![trigger r[i]] 0 <= i < e.len() ==> r[i].1 == e[i].1,
    ensures
        reachable(e, k) == reachable(r, k),
    decreases e.len() - k,
{
    if 0 <= k < e.len() - 1 {
        if reachable(e, k) {
            let p = choose|p: int| k < p < e.len() && #[trigger] e[p].1.contains(k as usize) && reachable(e, p);
            lemma_reachable_same(e, r, p);
            assert(r[p].1 == e[p].1);
            assert(r[p].1.contains(k as usize) && reachable(r, p));
        }
        if reachable(r, k) {
            let p = choose|p: int| k < p < r.len() && #[trigger] r[p].1.contains(k as usize) && reachable(r, p);
            lemma_reachable_same(e, r, p);
            assert(r[p].1 == e[p].1);
            assert(e[p].1.contains(k as usize) && reachable(e, p));
        }
    }
}

/// Renaming `ph1` nodes of an equation to placeholders numbered from one
/// keeps it fit for a proof by induction on placeholder 0 of `t`.
pub proof fn lemma_inputs_renamed(
    e1: Seq<NodeV>,
    e2: Seq<NodeV>,
    r1: Seq<NodeV>,
    r2: Seq<NodeV>,
    t: Seq<char>,
    sub: Seq<char>,
)
    requires
        renames_ph1(e1, r1, t),
        expr_wf(e1),
        no_bare_var(e1, placeholder_name(t, 0), sub),
        pattern_wf(pattern_of(e1, placeholder_name(t, 0), sub)),
    ensures
        expr_wf(r1),
        forall|i: int| 0 <= i < r1.len() ==> (#[trigger] r1[i].0 == placeholder_name(t, 0)) == (e1[i].0
            == placeholder_name(t, 0)),
        mentions_op(r1, placeholder_name(t, 0)) == mentions_op(e1, placeholder_name(t, 0)),
        has_reachable_leaf(r1, placeholder_name(t, 0)) == has_reachable_leaf(e1, placeholder_name(t, 0)),
        no_bare_var(r1, placeholder_name(t, 0), sub),
        pattern_wf(pattern_of(r1, placeholder_name(t, 0), sub)),
{
    let ind = placeholder_name(t, 0);
    lemma_placeholder_renamed(t, 1, sub);
    assert forall|i: int| 0 <= i < r1.len() implies (#[trigger] r1[i].0 == ind) == (e1[i].0 == ind)
        && is_var_text(map_ident(r1[i].0, ind, sub)) == is_var_text(map_ident(e1[i].0, ind, sub))
        && (r1[i].1.len() == 0 ==> map_ident(r1[i].0, ind, sub) != seq!['?']) by {
        if r1[i].0 != e1[i].0 {
            let k = choose|k: nat| k >= 1 && r1[i].0 == placeholder_name(t, k);
            lemma_placeholder_renamed(t, k, sub);
        } else {
            assert(e1[i].1 == r1[i].1);
        }
    }
    assert(nodes_wf(r1)) by {
        assert forall|i: int, j: int| 0 <= i < r1.len() && 0 <= j < r1[i].1.len() implies #[trigger] r1[i].1[j] < i by {
            assert(e1[i].1 == r1[i].1);
        }
    }
    if mentions_op(r1, ind) {
        let i = choose|i: int| 0 <= i < r1.len() && #[trigger] r1[i].0 == ind;
        assert(e1[i].0 == ind);
    }
    if mentions_op(e1, ind) {
        let i = choose|i: int| 0 <= i < e1.len() && #[trigger] e1[i].0 == ind;
        assert(r1[i].0 == ind);
    }
    assert forall|k: int| #[trigger] reachable(r1, k) == reachable(e1, k) by {
        lemma_reachable_same(e1, r1, k);
    }
    if has_reachable_leaf(r1, ind) {
        let k = choose|k: int| #[trigger] reachable(r1, k) && r1[k].0 == ind && r1[k].1.len() == 0;
        assert(reachable(e1, k) && e1[k].0 == ind && e1[k].1.len() == 0);
    }
    if has_reachable_leaf(e1, ind) {
        let k = choose|k: int| #[trigger] reachable(e1, k) && e1[k].0 == ind && e1[k].1.len() == 0;
        assert(reachable(r1, k) && r1[k].0 == ind && r1[k].1.len() == 0);
    }
    assert(compatible(e1, r1, ind, sub, sub));
    lemma_pattern_wf_transfer(e1, r1, ind, sub, sub);
}

proof fn lemma_span_same(e: Seq<NodeV>, r: Seq<NodeV>, i: int)
    requires
        r.len() == e.len(),
        forall|q: int| #![trigger r[q]] 0 <= q < e.len() ==> r[q].1 == e[q].1,
    ensures
        span_start(r, i) == span_start(e, i),
    decreases i,
{
    if 0 <= i < e.len() && e[i].1.len() > 0 && 0 <= e[i].1[0] < i {
        assert(r[i].1 == e[i].1);
        lemma_span_same(e, r, e[i].1[0] as int);
    } else if 0 <= i < e.len() {
        assert(r[i].1 == e[i].1);
    }
}

/// Renaming `ph1` nodes keeps a parsed expression a parsed expression, and
/// keeps every node with children from becoming a variable.
pub proof fn lemma_renamed_tree(e: Seq<NodeV>, r: Seq<NodeV>, t: Seq<char>, sub: Seq<char>)
    requires
        renames_ph1(e, r, t),
        postorder_tree(e),
        no_var_application(e, placeholder_name(t, 0), sub),
    ensures
        postorder_tree(r),
        no_var_application(r, placeholder_name(t, 0), sub),
{
    let ind = placeholder_name(t, 0);
    assert forall|q: int| #![trigger r[q]] 0 <= q < e.len() implies r[q].1 == e[q].1 by {}
    assert(nodes_wf(r)) by {
        assert forall|i: int, j: int| 0 <= i < r.len() && 0 <= j < r[i].1.len() implies #[trigger] r[i].1[j] < i by {
            assert(r[i].1 == e[i].1);
        }
    }
    lemma_span_same(e, r, e.len() - 1);
    assert forall|i: int| 0 <= i < r.len() && r[i].1.len() > 0 implies #[trigger] r[i].1[r[i].1.len() - 1] == i - 1 by {
        assert(r[i].1 == e[i].1);
    }
    assert forall|i: int, j: int| 0 <= i < r.len() && 1 <= j < r[i].1.len() implies span_start(
        r,
        #[trigger] r[i].1[j] as int,
    ) == r[i].1[j - 1] + 1 by {
        assert(r[i].1 == e[i].1);
        lemma_span_same(e, r, r[i].1[j] as int);
    }
    assert forall|i: int| 0 <= i < r.len() && r[i].1.len() > 0 implies !is_var_text(
        #[trigger] map_ident(r[i].0, ind, sub),
    ) by {
        assert(r[i].1 == e[i].1);
        assert(!is_var_text(map_ident(e[i].0, ind, sub)));
        if r[i].0 != e[i].0 {
            lemma_placeholder_renamed(t, 1, sub);
            assert(e[i].0 == placeholder_name(t, 1));
        }
    }
}

} // verus!
