use vstd::prelude::*;
use egg::Subst;
use crate::egraph::{
    ProofGraph, graph_roots, graph_size_ok, subst_bindings, subst_lookup, pattern_pretty,
    roots_extend, classes_kept, union_chain, lemma_extend_trans, lemma_extend_keeps_classes,
    lemma_classes_kept_trans, lemma_union_chain_keeps_classes, egg_pretty, graph_leaves, pattern_leaf_ops,
    instance_class, pattern_applied,
};
use crate::pattern::{PatternAst, PatNodeV, pattern_wf, pattern_vars, valid_var_name};

verus! {

/// The matches of a searcher in one e-class: the e-class and the
/// substitutions found there.
pub struct MatchSet {
    pub eclass: usize,
    pub substs: Vec<Subst>,
}

/// All substitutions of the match sets, in order.
pub open spec fn all_substs(ms: Seq<MatchSet>) -> Seq<Subst>
    decreases ms.len(),
{
    if ms.len() == 0 {
        Seq::empty()
    } else {
        all_substs(ms.drop_last()) + ms.last().substs@
    }
}

/// The id that the substitution binds the variable `v` to.
pub open spec fn bound_id(s: Subst, v: Seq<char>) -> usize {
    subst_bindings(s)[v]
}

/// The substitution binds each variable of `vars`, to an id below `n`.
pub open spec fn binds_all(s: Subst, vars: Set<Seq<char>>, n: nat) -> bool {
    forall|v: Seq<char>|
        #[trigger] vars.contains(v) ==> subst_bindings(s).dom().contains(v) && subst_bindings(s)[v] < n
}

/// Total number of nodes of a list of patterns.
pub open spec fn total_len(ps: Seq<Seq<PatNodeV>>) -> nat
    decreases ps.len(),
{
    if ps.len() == 0 {
        0
    } else {
        total_len(ps.drop_last()) + ps.last().len()
    }
}

/// The canonical ids, and the merges reported, after the class bound to the
/// first variable is merged with the class bound to each other variable.
pub open spec fn union_subst(r: Seq<usize>, vars: Seq<Seq<char>>, s: Subst) -> (Seq<usize>, Seq<usize>) {
    union_chain(r, bound_id(s, vars[0]) as int, vars.drop_first().map_values(|v: Seq<char>| bound_id(s, v)))
}

/// `union_subst` applied to each substitution in turn, merges concatenated.
pub open spec fn union_substs(r: Seq<usize>, vars: Seq<Seq<char>>, ss: Seq<Subst>) -> (Seq<usize>, Seq<usize>)
    decreases ss.len(),
{
    if ss.len() == 0 {
        (r, Seq::empty())
    } else {
        let (r1, a1) = union_substs(r, vars, ss.drop_last());
        let (r2, a2) = union_subst(r1, vars, ss.last());
        (r2, a1 + a2)
    }
}

proof fn lemma_all_substs_step(ms: Seq<MatchSet>, i: int)
    requires
        0 <= i < ms.len(),
    ensures
        all_substs(ms.subrange(0, i + 1)) == all_substs(ms.subrange(0, i)) + ms[i].substs@,
{
    assert(ms.subrange(0, i + 1).drop_last() =~= ms.subrange(0, i));
}

proof fn lemma_budget(count: int, total: int, p: int)
    by (nonlinear_arith)
    requires
        0 <= count < total,
        p >= 0,
    ensures
        count * p + p <= total * p,
        (count + 1) * p == count * p + p,
{
}

proof fn lemma_all_substs_len(ms: Seq<MatchSet>, i: int)
    requires
        0 <= i <= ms.len(),
    ensures
        all_substs(ms.subrange(0, i)).len() <= all_substs(ms).len(),
    decreases ms.len() - i,
{
    if i < ms.len() {
        lemma_all_substs_step(ms, i);
        lemma_all_substs_len(ms, i + 1);
    } else {
        assert(ms.subrange(0, i) =~= ms);
    }
}

/// The operators that the patterns' reachable childless operator nodes carry.
pub open spec fn patterns_leaf_ops(ps: Seq<Seq<PatNodeV>>) -> Set<Seq<char>> {
    Set::new(|op: Seq<char>| exists|k: int| 0 <= k < ps.len() && #[trigger] pattern_leaf_ops(ps[k]).contains(op))
}

/// The patterns `ps` applied under `s` to an e-graph with canonical ids
/// `r`, giving the e-graph `e`, and `ids` are the patterns' roots, in order.
/// A root that is a variable is the class bound to it; a root that is an
/// operator node is canonical and is the class of the pattern's instance
/// under `s`.
pub open spec fn comp_added(
    ps: Seq<Seq<PatNodeV>>,
    s: Subst,
    r: Seq<usize>,
    e: ProofGraph,
    ids: Seq<usize>,
) -> bool {
    &&& roots_extend(r, graph_roots(e))
    &&& ids.len() == ps.len()
    &&& forall|m: int|
        0 <= m < ids.len() ==> #[trigger] ids[m] < graph_roots(e).len() && (ps[m].last() matches PatNodeV::Var(v)
            ==> ids[m] == subst_bindings(s)[v]) && (ps[m].last() is Node ==> graph_roots(e)[ids[m] as int] == ids[m]
            && instance_class(e, ps[m], subst_bindings(s)) == Some(ids[m]))
}

/// A run of a composite applier with patterns `ps` over the substitutions
/// `ss`: `rs[k]` are the canonical ids before substitution `k`, `es[k]`
/// the e-graph after its patterns are applied with roots `idss[k]`, and
/// `rs[k + 1]` the canonical ids after the class of the first root is
/// merged with that of each root.
pub open spec fn comp_run(
    ps: Seq<Seq<PatNodeV>>,
    ss: Seq<Subst>,
    rs: Seq<Seq<usize>>,
    es: Seq<ProofGraph>,
    idss: Seq<Seq<usize>>,
) -> bool {
    &&& rs.len() == ss.len() + 1
    &&& es.len() == ss.len()
    &&& idss.len() == ss.len()
    &&& forall|k: int|
        0 <= k < ss.len() ==> comp_added(ps, #[trigger] ss[k], rs[k], es[k], idss[k]) && rs[k + 1]
            == union_chain(graph_roots(es[k]), idss[k][0] as int, idss[k]).0
}

/// The merges reported along the first `n` steps of a run, in order.
pub open spec fn comp_reports(es: Seq<ProofGraph>, idss: Seq<Seq<usize>>, n: int) -> Seq<usize>
    decreases n,
{
    if n <= 0 {
        Seq::empty()
    } else {
        comp_reports(es, idss, n - 1) + union_chain(graph_roots(es[n - 1]), idss[n - 1][0] as int, idss[n - 1]).1
    }
}

proof fn lemma_comp_reports_push(
    es: Seq<ProofGraph>,
    idss: Seq<Seq<usize>>,
    e: ProofGraph,
    ids: Seq<usize>,
    n: int,
)
    requires
        0 <= n <= es.len(),
        n <= idss.len(),
    ensures
        comp_reports(es.push(e), idss.push(ids), n) == comp_reports(es, idss, n),
    decreases n,
{
    if n > 0 {
        lemma_comp_reports_push(es, idss, e, ids, n - 1);
        assert(es.push(e)[n - 1] == es[n - 1]);
        assert(idss.push(ids)[n - 1] == idss[n - 1]);
    }
}

/// The e-graphs `gs` are those that applying the pattern `p` under each of
/// the first `n` substitutions of `ss`, in order, passes through.
pub open spec fn applied_in_turn(p: Seq<PatNodeV>, ss: Seq<Subst>, gs: Seq<ProofGraph>, n: int) -> bool {
    &&& gs.len() == n + 1
    &&& forall|k: int|
        0 <= k < n ==> #[trigger] pattern_applied(gs[k], p, subst_bindings(ss[k]), gs[k + 1])
}

/// Applies several patterns to each match and merges all their results
/// into one class.
pub struct CompApplier {
    appliers: Vec<PatternAst>,
}

/// Applies a pattern to each match without merging it with the matched class.
pub struct DiffApplier {
    applier: PatternAst,
}

/// Merges the classes bound to the given variables, for each match.
pub struct UnionApplier {
    vars: Vec<String>,
}

proof fn lemma_total_len_step(ps: Seq<Seq<PatNodeV>>, k: int)
    requires
        0 <= k < ps.len(),
    ensures
        total_len(ps.subrange(0, k + 1)) == total_len(ps.subrange(0, k)) + ps[k].len(),
{
    assert(ps.subrange(0, k + 1).drop_last() =~= ps.subrange(0, k));
}

impl CompApplier {
    pub fn new(appliers: Vec<PatternAst>) -> (res: CompApplier)
        ensures
            res.patterns() == appliers@.map_values(|p: PatternAst| p@),
    {
        CompApplier { appliers }
    }

    /// The patterns, in the order they are applied.
    pub closed spec fn patterns(&self) -> Seq<Seq<PatNodeV>> {
        self.appliers@.map_values(|p: PatternAst| p@)
    }

    /// The patterns are usable and the substitution binds their variables.
    pub open spec fn applicable(&self, s: Subst, n: nat) -> bool {
        forall|k: int|
            0 <= k < self.patterns().len() ==> pattern_wf(#[trigger] self.patterns()[k]) && binds_all(
                s,
                pattern_vars(self.patterns()[k]),
                n,
            )
    }

    /// Applies every pattern under the substitution, in order, and returns
    /// the ids of their roots.
    fn apply_each(&self, g: &mut ProofGraph, s: &Subst) -> (ids: Vec<usize>)
        requires
            self.applicable(*s, graph_roots(*old(g)).len()),
            graph_roots(*old(g)).len() + total_len(self.patterns()) <= 0x1_0000_0000,
        ensures
            roots_extend(graph_roots(*old(g)), graph_roots(*final(g))),
            graph_roots(*final(g)).len() <= graph_roots(*old(g)).len() + total_len(self.patterns()),
            ids@.len() == self.patterns().len(),
            forall|m: int| 0 <= m < ids@.len() ==> #[trigger] ids@[m] < graph_roots(*final(g)).len(),
            comp_added(self.patterns(), *s, graph_roots(*old(g)), *final(g), ids@),
            graph_leaves(*final(g)) == graph_leaves(*old(g)).union(patterns_leaf_ops(self.patterns())),
    {
        let ghost start = graph_roots(*g);
        let ghost l0 = graph_leaves(*g);
        let ghost ps = self.patterns();
        let mut ids: Vec<usize> = Vec::new();
        let mut k: usize = 0;
        while k < self.appliers.len()
            invariant
                k <= self.appliers.len(),
                ps == self.patterns(),
                roots_extend(start, graph_roots(*g)),
                graph_roots(*g).len() <= start.len() + total_len(ps.subrange(0, k as int)),
                start.len() + total_len(ps) <= 0x1_0000_0000,
                self.applicable(*s, start.len()),
                ids@.len() == k,
                forall|m: int| 0 <= m < k ==> #[trigger] ids@[m] < graph_roots(*g).len(),
                forall|m: int|
                    0 <= m < k ==> (ps[m].last() matches PatNodeV::Var(v) ==> #[trigger] ids@[m]
                        == subst_bindings(*s)[v]) && (ps[m].last() is Node ==> graph_roots(*g)[ids@[m] as int]
                        == ids@[m] && instance_class(*g, ps[m], subst_bindings(*s)) == Some(ids@[m])),
                graph_leaves(*g) == l0.union(patterns_leaf_ops(ps.subrange(0, k as int))),
            decreases self.appliers.len() - k,
        {
            let ghost before = graph_roots(*g);
            let ghost lb = graph_leaves(*g);
            proof {
                lemma_total_len_step(ps, k as int);
                lemma_total_len_prefix(ps, k as int + 1);
                assert(ps[k as int] == self.appliers@[k as int]@);
                assert forall|v: Seq<char>| #[trigger] pattern_vars(self.appliers@[k as int]@).contains(v)
                    implies subst_bindings(*s).dom().contains(v) && subst_bindings(*s)[v] < before.len() by {
                    assert(binds_all(*s, pattern_vars(self.patterns()[k as int]), start.len()));
                }
                assert(pattern_wf(self.patterns()[k as int]));
            }
            let ghost gb = *g;
            let id = g.apply_pattern(&self.appliers[k], s);
            proof {
                lemma_extend_trans(start, before, graph_roots(*g));
                assert forall|m: int| 0 <= m < k && ps[m].last() is Node implies instance_class(
                    *g,
                    ps[m],
                    subst_bindings(*s),
                ) == Some(#[trigger] ids@[m]) by {
                    assert(instance_class(gb, ps[m], subst_bindings(*s)) == Some(ids@[m]));
                }
                let pre = ps.subrange(0, k as int);
                let next = ps.subrange(0, k as int + 1);
                assert(patterns_leaf_ops(next) =~= patterns_leaf_ops(pre).union(pattern_leaf_ops(ps[k as int]))) by {
                    assert forall|op: Seq<char>| patterns_leaf_ops(next).contains(op) implies patterns_leaf_ops(
                        pre,
                    ).union(pattern_leaf_ops(ps[k as int])).contains(op) by {
                        let q = choose|q: int| 0 <= q < next.len() && #[trigger] pattern_leaf_ops(next[q]).contains(op);
                        if q < k {
                            assert(pre[q] == next[q]);
                        }
                    }
                    assert forall|op: Seq<char>| patterns_leaf_ops(pre).union(pattern_leaf_ops(ps[k as int])).contains(op)
                        implies patterns_leaf_ops(next).contains(op) by {
                        if patterns_leaf_ops(pre).contains(op) {
                            let q = choose|q: int| 0 <= q < pre.len() && #[trigger] pattern_leaf_ops(pre[q]).contains(op);
                            assert(pre[q] == next[q]);
                        } else {
                            assert(next[k as int] == ps[k as int]);
                        }
                    }
                }
                assert(l0.union(patterns_leaf_ops(next)) =~= lb.union(pattern_leaf_ops(ps[k as int])));
            }
            ids.push(id);
            k += 1;
        }
        proof {
            assert(ps.subrange(0, ps.len() as int) =~= ps);
        }
        ids
    }

    /// For each substitution of each match: applies every pattern, takes the
    /// class of the first result, and merges each result into it. Returns
    /// the canonical ids that the merges which did something reported.
    /// Classes are only added and merged; where there is a substitution,
    /// the patterns' leaves join the e-graph's.
    pub fn apply_matches(&self, g: &mut ProofGraph, matches: &Vec<MatchSet>) -> (added: Vec<usize>)
        requires
            all_substs(matches@).len() > 0 ==> self.patterns().len() > 0,
            forall|i: int, j: int|
                0 <= i < matches@.len() && 0 <= j < matches@[i].substs@.len() ==> self.applicable(
                    #[trigger] matches@[i].substs@[j],
                    graph_roots(*old(g)).len(),
                ),
            graph_roots(*old(g)).len() + all_substs(matches@).len() * total_len(self.patterns())
                <= 0x1_0000_0000,
        ensures
            classes_kept(graph_roots(*old(g)), graph_roots(*final(g))),
            exists|rs: Seq<Seq<usize>>, es: Seq<ProofGraph>, idss: Seq<Seq<usize>>|
                #[trigger] comp_run(self.patterns(), all_substs(matches@), rs, es, idss) && rs[0] == graph_roots(
                    *old(g),
                ) && rs.last() == graph_roots(*final(g)) && added@ == comp_reports(
                    es,
                    idss,
                    all_substs(matches@).len() as int,
                ),
            graph_leaves(*final(g)) == (if all_substs(matches@).len() > 0 {
                graph_leaves(*old(g)).union(patterns_leaf_ops(self.patterns()))
            } else {
                graph_leaves(*old(g))
            }),
    {
        let ghost r0 = graph_roots(*g);
        let ghost l0 = graph_leaves(*g);
        let ghost ps = self.patterns();
        let ghost pl = patterns_leaf_ops(ps);
        let ghost total = all_substs(matches@).len() as int;
        let ghost plen = total_len(self.patterns()) as int;
        let ghost mut done: Seq<Subst> = Seq::empty();
        let ghost mut rs: Seq<Seq<usize>> = seq![r0];
        let ghost mut es: Seq<ProofGraph> = Seq::empty();
        let ghost mut idss: Seq<Seq<usize>> = Seq::empty();
        let mut added: Vec<usize> = Vec::new();
        let mut i: usize = 0;
        assert(matches@.subrange(0, 0) =~= Seq::<MatchSet>::empty());
        while i < matches.len()
            invariant
                i <= matches.len(),
                classes_kept(r0, graph_roots(*g)),
                graph_roots(*g).len() <= r0.len() + all_substs(matches@.subrange(0, i as int)).len() * plen,
                total == all_substs(matches@).len(),
                plen == total_len(self.patterns()),
                ps == self.patterns(),
                pl == patterns_leaf_ops(ps),
                r0 == graph_roots(*old(g)),
                l0 == graph_leaves(*old(g)),
                r0.len() + total * plen <= 0x1_0000_0000,
                total > 0 ==> self.patterns().len() > 0,
                forall|i2: int, j2: int|
                    0 <= i2 < matches@.len() && 0 <= j2 < matches@[i2].substs@.len() ==> self.applicable(
                        #[trigger] matches@[i2].substs@[j2],
                        r0.len(),
                    ),
                done == all_substs(matches@.subrange(0, i as int)),
                comp_run(ps, done, rs, es, idss),
                rs[0] == r0,
                rs.last() == graph_roots(*g),
                added@ == comp_reports(es, idss, done.len() as int),
                graph_leaves(*g) == (if done.len() > 0 { l0.union(pl) } else { l0 }),
            decreases matches.len() - i,
        {
            let mut j: usize = 0;
            proof {
                lemma_all_substs_step(matches@, i as int);
                lemma_all_substs_len(matches@, i as int + 1);
                assert(matches@[i as int].substs@.subrange(0, 0) =~= Seq::<Subst>::empty());
                assert(done + matches@[i as int].substs@.subrange(0, 0) =~= done);
            }
            while j < matches[i].substs.len()
                invariant
                    i < matches.len(),
                    j <= matches@[i as int].substs@.len(),
                    classes_kept(r0, graph_roots(*g)),
                    graph_roots(*g).len() <= r0.len() + (all_substs(matches@.subrange(0, i as int)).len() + j)
                        * plen,
                    all_substs(matches@.subrange(0, i as int + 1)) == all_substs(
                        matches@.subrange(0, i as int),
                    ) + matches@[i as int].substs@,
                    all_substs(matches@.subrange(0, i as int + 1)).len() <= total,
                    total == all_substs(matches@).len(),
                    plen == total_len(self.patterns()),
                    ps == self.patterns(),
                    pl == patterns_leaf_ops(ps),
                    r0.len() + total * plen <= 0x1_0000_0000,
                    total > 0 ==> self.patterns().len() > 0,
                    forall|i2: int, j2: int|
                        0 <= i2 < matches@.len() && 0 <= j2 < matches@[i2].substs@.len() ==> self.applicable(
                            #[trigger] matches@[i2].substs@[j2],
                            r0.len(),
                        ),
                    done == all_substs(matches@.subrange(0, i as int)) + matches@[i as int].substs@.subrange(
                        0,
                        j as int,
                    ),
                    comp_run(ps, done, rs, es, idss),
                    rs[0] == r0,
                    rs.last() == graph_roots(*g),
                    added@ == comp_reports(es, idss, done.len() as int),
                    graph_leaves(*g) == (if done.len() > 0 { l0.union(pl) } else { l0 }),
                decreases matches@[i as int].substs@.len() - j,
            {
                let s = &matches[i].substs[j];
                let ghost count = all_substs(matches@.subrange(0, i as int)).len() + j;
                let ghost start = graph_roots(*g);
                proof {
                    lemma_budget(count as int, total, plen);
                    assert(self.applicable(matches@[i as int].substs@[j as int], r0.len()));
                    assert forall|k: int| 0 <= k < self.patterns().len() implies pattern_wf(
                        #[trigger] self.patterns()[k],
                    ) && binds_all(*s, pattern_vars(self.patterns()[k]), start.len()) by {
                        assert(binds_all(*s, pattern_vars(self.patterns()[k]), r0.len()));
                    }
                }
                let ids = self.apply_each(g, s);
                let ghost midg = *g;
                let ghost mid = graph_roots(*g);
                let first = ids[0];
                let mut more = g.union_each(first, &ids);
                proof {
                    lemma_extend_keeps_classes(start, mid);
                    lemma_union_chain_keeps_classes(mid, first as int, ids@);
                    lemma_classes_kept_trans(start, mid, graph_roots(*g));
                    lemma_classes_kept_trans(r0, start, graph_roots(*g));
                    let n = done.len() as int;
                    let done2 = done.push(*s);
                    let rs2 = rs.push(graph_roots(*g));
                    let es2 = es.push(midg);
                    let idss2 = idss.push(ids@);
                    assert(comp_run(ps, done2, rs2, es2, idss2)) by {
                        assert forall|k: int| 0 <= k < done2.len() implies comp_added(
                            ps,
                            #[trigger] done2[k],
                            rs2[k],
                            es2[k],
                            idss2[k],
                        ) && rs2[k + 1] == union_chain(graph_roots(es2[k]), idss2[k][0] as int, idss2[k]).0 by {
                            if k < n {
                                assert(done2[k] == done[k]);
                                assert(comp_added(ps, done[k], rs[k], es[k], idss[k]));
                            } else {
                                assert(done2[k] == *s);
                                assert(rs2[k] == start);
                            }
                        }
                    }
                    lemma_comp_reports_push(es, idss, midg, ids@, n);
                    assert(comp_reports(es2, idss2, n + 1) == comp_reports(es, idss, n) + more@);
                    assert(matches@[i as int].substs@.subrange(0, j as int + 1) =~= matches@[i as int].substs@.subrange(
                        0,
                        j as int,
                    ).push(*s));
                    assert(all_substs(matches@.subrange(0, i as int)) + matches@[i as int].substs@.subrange(
                        0,
                        j as int + 1,
                    ) =~= done2);
                    assert(l0.union(pl).union(pl) =~= l0.union(pl));
                    done = done2;
                    rs = rs2;
                    es = es2;
                    idss = idss2;
                }
                added.append(&mut more);
                j += 1;
            }
            proof {
                assert(matches@[i as int].substs@.subrange(0, j as int) =~= matches@[i as int].substs@);
            }
            i += 1;
        }
        proof {
            assert(matches@.subrange(0, matches@.len() as int) =~= matches@);
        }
        added
    }
}

impl DiffApplier {
    pub fn new(applier: PatternAst) -> (res: DiffApplier)
        ensures
            res.pattern() == applier@,
    {
        DiffApplier { applier }
    }

    /// The pattern that is applied.
    pub closed spec fn pattern(&self) -> Seq<PatNodeV> {
        self.applier@
    }

    /// The pattern, pretty-printed at the given line width.
    pub fn pretty(&self, width: usize) -> (res: String)
        requires
            pattern_wf(self.pattern()),
        ensures
            res@ == egg_pretty(self.pattern(), width),
    {
        pattern_pretty(&self.applier, width)
    }

    /// Applies the pattern under the substitution and returns the id of its
    /// root. Classes are only added, and the pattern's leaves join the
    /// e-graph's.
    pub fn apply_one(&self, g: &mut ProofGraph, s: &Subst) -> (ids: Vec<usize>)
        requires
            pattern_wf(self.pattern()),
            binds_all(*s, pattern_vars(self.pattern()), graph_roots(*old(g)).len()),
            graph_roots(*old(g)).len() + self.pattern().len() <= 0x1_0000_0000,
        ensures
            pattern_applied(*old(g), self.pattern(), subst_bindings(*s), *final(g)),
            roots_extend(graph_roots(*old(g)), graph_roots(*final(g))),
            graph_roots(*final(g)).len() <= graph_roots(*old(g)).len() + self.pattern().len(),
            ids@.len() == 1,
            ids@[0] < graph_roots(*final(g)).len(),
            self.pattern().last() matches PatNodeV::Var(v) ==> ids@[0] == subst_bindings(*s)[v],
            self.pattern().last() is Node ==> graph_roots(*final(g))[ids@[0] as int] == ids@[0],
            self.pattern().last() is Node ==> instance_class(*final(g), self.pattern(), subst_bindings(*s)) == Some(
                ids@[0],
            ),
            forall|q: Seq<PatNodeV>, b: Map<Seq<char>, usize>|
                #[trigger] instance_class(*old(g), q, b) is Some ==> instance_class(*final(g), q, b)
                    == instance_class(*old(g), q, b),
            graph_leaves(*final(g)) == graph_leaves(*old(g)).union(pattern_leaf_ops(self.pattern())),
    {
        let id = g.apply_pattern(&self.applier, s);
        let mut ids: Vec<usize> = Vec::new();
        ids.push(id);
        ids
    }

    /// For each substitution of each match, in order, applies the pattern
    /// once and keeps its result apart from the matched class: classes are
    /// only added, never merged, and no merge is reported. Where there is a
    /// substitution, the pattern's leaves join the e-graph's.
    pub fn apply_matches(&self, g: &mut ProofGraph, matches: &Vec<MatchSet>) -> (added: Vec<usize>)
        requires
            pattern_wf(self.pattern()),
            forall|i: int, j: int|
                0 <= i < matches@.len() && 0 <= j < matches@[i].substs@.len() ==> binds_all(
                    #[trigger] matches@[i].substs@[j],
                    pattern_vars(self.pattern()),
                    graph_roots(*old(g)).len(),
                ),
            graph_roots(*old(g)).len() + all_substs(matches@).len() * self.pattern().len() <= 0x1_0000_0000,
        ensures
            added@.len() == 0,
            exists|gs: Seq<ProofGraph>|
                #[trigger] applied_in_turn(self.pattern(), all_substs(matches@), gs, all_substs(matches@).len() as int)
                    && gs[0] == *old(g) && gs.last() == *final(g),
            roots_extend(graph_roots(*old(g)), graph_roots(*final(g))),
            graph_roots(*final(g)).len() <= graph_roots(*old(g)).len() + all_substs(matches@).len()
                * self.pattern().len(),
            graph_leaves(*final(g)) == (if all_substs(matches@).len() > 0 {
                graph_leaves(*old(g)).union(pattern_leaf_ops(self.pattern()))
            } else {
                graph_leaves(*old(g))
            }),
            forall|k: int|
                0 <= k < all_substs(matches@).len() ==> (self.pattern().last() is Node ==> instance_class(
                    *final(g),
                    self.pattern(),
                    subst_bindings(#[trigger] all_substs(matches@)[k]),
                ) is Some),
    {
        let ghost r0 = graph_roots(*g);
        let ghost l0 = graph_leaves(*g);
        let ghost g0 = *g;
        let ghost mut gs: Seq<ProofGraph> = seq![*g];
        let ghost pl = pattern_leaf_ops(self.pattern());
        let ghost total = all_substs(matches@).len() as int;
        let ghost plen = self.pattern().len() as int;
        let mut i: usize = 0;
        assert(roots_extend(r0, r0));
        assert(matches@.subrange(0, 0) =~= Seq::<MatchSet>::empty());
        while i < matches.len()
            invariant
                i <= matches.len(),
                roots_extend(r0, graph_roots(*g)),
                graph_roots(*g).len() <= r0.len() + all_substs(matches@.subrange(0, i as int)).len() * plen,
                l0 == graph_leaves(*old(g)),
                g0 == *old(g),
                applied_in_turn(
                    self.pattern(),
                    all_substs(matches@.subrange(0, i as int)),
                    gs,
                    all_substs(matches@.subrange(0, i as int)).len() as int,
                ),
                gs[0] == g0,
                gs.last() == *g,
                pl == pattern_leaf_ops(self.pattern()),
                forall|u: int|
                    0 <= u < all_substs(matches@.subrange(0, i as int)).len() ==> (self.pattern().last() is Node
                        ==> instance_class(
                        *g,
                        self.pattern(),
                        subst_bindings(#[trigger] all_substs(matches@.subrange(0, i as int))[u]),
                    ) is Some),
                graph_leaves(*g) == (if all_substs(matches@.subrange(0, i as int)).len() > 0 {
                    l0.union(pl)
                } else {
                    l0
                }),
                total == all_substs(matches@).len(),
                plen == self.pattern().len(),
                r0.len() + total * plen <= 0x1_0000_0000,
                pattern_wf(self.pattern()),
                forall|i2: int, j2: int|
                    0 <= i2 < matches@.len() && 0 <= j2 < matches@[i2].substs@.len() ==> binds_all(
                        #[trigger] matches@[i2].substs@[j2],
                        pattern_vars(self.pattern()),
                        r0.len(),
                    ),
            decreases matches.len() - i,
        {
            let mut j: usize = 0;
            proof {
                lemma_all_substs_step(matches@, i as int);
                lemma_all_substs_len(matches@, i as int + 1);
                let cur = all_substs(matches@.subrange(0, i as int + 1));
                let before = all_substs(matches@.subrange(0, i as int));
                assert forall|k: int| 0 <= k < before.len() implies #[trigger] pattern_applied(
                    gs[k],
                    self.pattern(),
                    subst_bindings(cur[k]),
                    gs[k + 1],
                ) by {
                    assert(cur[k] == before[k]);
                    assert(pattern_applied(gs[k], self.pattern(), subst_bindings(before[k]), gs[k + 1]));
                }
            }
            while j < matches[i].substs.len()
                invariant
                    i < matches.len(),
                    j <= matches@[i as int].substs@.len(),
                    applied_in_turn(
                        self.pattern(),
                        all_substs(matches@.subrange(0, i as int + 1)),
                        gs,
                        all_substs(matches@.subrange(0, i as int)).len() + j,
                    ),
                    gs[0] == g0,
                    gs.last() == *g,
                    roots_extend(r0, graph_roots(*g)),
                    graph_roots(*g).len() <= r0.len() + (all_substs(matches@.subrange(0, i as int)).len() + j)
                        * plen,
                    pl == pattern_leaf_ops(self.pattern()),
                    forall|u: int|
                        0 <= u < all_substs(matches@.subrange(0, i as int)).len() + j ==> (self.pattern().last() is Node
                            ==> instance_class(
                            *g,
                            self.pattern(),
                            subst_bindings(#[trigger] all_substs(matches@.subrange(0, i as int + 1))[u]),
                        ) is Some),
                    graph_leaves(*g) == (if all_substs(matches@.subrange(0, i as int)).len() + j > 0 {
                        l0.union(pl)
                    } else {
                        l0
                    }),
                    all_substs(matches@.subrange(0, i as int + 1)) == all_substs(
                        matches@.subrange(0, i as int),
                    ) + matches@[i as int].substs@,
                    all_substs(matches@.subrange(0, i as int + 1)).len() <= total,
                    total == all_substs(matches@).len(),
                    plen == self.pattern().len(),
                    r0.len() + total * plen <= 0x1_0000_0000,
                    pattern_wf(self.pattern()),
                    forall|i2: int, j2: int|
                        0 <= i2 < matches@.len() && 0 <= j2 < matches@[i2].substs@.len() ==> binds_all(
                            #[trigger] matches@[i2].substs@[j2],
                            pattern_vars(self.pattern()),
                            r0.len(),
                        ),
                decreases matches@[i as int].substs@.len() - j,
            {
                let s = &matches[i].substs[j];
                let ghost count = all_substs(matches@.subrange(0, i as int)).len() + j;
                let ghost start = graph_roots(*g);
                proof {
                    lemma_budget(count as int, total, plen);
                    assert(binds_all(matches@[i as int].substs@[j as int], pattern_vars(self.pattern()), r0.len()));
                }
                let ghost lb = graph_leaves(*g);
                let ghost gb = *g;
                let _ids = self.apply_one(g, s);
                proof {
                    let cur = all_substs(matches@.subrange(0, i as int + 1));
                    let before = all_substs(matches@.subrange(0, i as int));
                    assert(cur[before.len() + j] == matches@[i as int].substs@[j as int]);
                    assert forall|u: int|
                        0 <= u < before.len() + j + 1 && self.pattern().last() is Node implies instance_class(
                        *g,
                        self.pattern(),
                        subst_bindings(#[trigger] cur[u]),
                    ) is Some by {
                        if u < before.len() + j {
                            assert(instance_class(gb, self.pattern(), subst_bindings(cur[u])) is Some);
                        }
                    }
                    lemma_extend_trans(r0, start, graph_roots(*g));
                    assert(lb.union(pl).union(pl) =~= lb.union(pl));
                    assert(l0.union(pl).union(pl) =~= l0.union(pl));
                    let n = before.len() + j;
                    let gs2 = gs.push(*g);
                    assert forall|k: int| 0 <= k < n + 1 implies #[trigger] pattern_applied(
                        gs2[k],
                        self.pattern(),
                        subst_bindings(cur[k]),
                        gs2[k + 1],
                    ) by {
                        if k < n {
                            assert(gs2[k] == gs[k] && gs2[k + 1] == gs[k + 1]);
                        } else {
                            assert(gs2[k] == gb);
                        }
                    }
                    gs = gs2;
                }
                j += 1;
            }
            proof {
                assert(all_substs(matches@.subrange(0, i as int)).len() + j == all_substs(
                    matches@.subrange(0, i as int + 1),
                ).len());
            }
            i += 1;
        }
        assert(matches@.subrange(0, matches@.len() as int) =~= matches@);
        proof {
            lemma_all_substs_len(matches@, matches@.len() as int);
            let ss = all_substs(matches@);
            assert(ss.len() * plen <= total * plen);
        }
        Vec::new()
    }
}

/// With fewer than two variables there is nothing to merge.
proof fn lemma_union_substs_single(r: Seq<usize>, vars: Seq<Seq<char>>, ss: Seq<Subst>)
    requires
        vars.len() == 1 || ss.len() == 0,
    ensures
        union_substs(r, vars, ss) == (r, Seq::<usize>::empty()),
    decreases ss.len(),
{
    if ss.len() > 0 {
        lemma_union_substs_single(r, vars, ss.drop_last());
        let bs = vars.drop_first().map_values(|v: Seq<char>| bound_id(ss.last(), v));
        assert(bs.len() == 0);
        assert(union_chain(r, bound_id(ss.last(), vars[0]) as int, bs) == (r, Seq::<usize>::empty()));
        assert(Seq::<usize>::empty() + Seq::<usize>::empty() =~= Seq::<usize>::empty());
    }
}

impl UnionApplier {
    pub fn new(vars: Vec<String>) -> (res: UnionApplier)
        ensures
            res.variables() == vars@.map_values(|v: String| v@),
    {
        UnionApplier { vars }
    }

    /// The variables whose classes are merged; the first is the one all
    /// others are merged into.
    pub closed spec fn variables(&self) -> Seq<Seq<char>> {
        self.vars@.map_values(|v: String| v@)
    }

    /// The variables whose classes are merged.
    pub fn vars(&self) -> (res: Vec<String>)
        ensures
            res@.map_values(|v: String| v@) == self.variables(),
    {
        let mut res: Vec<String> = Vec::new();
        let mut i: usize = 0;
        while i < self.vars.len()
            invariant
                i <= self.vars.len(),
                res@.len() == i,
                forall|k: int| 0 <= k < i ==> #[trigger] res@[k]@ == self.vars@[k]@,
            decreases self.vars.len() - i,
        {
            res.push(self.vars[i].clone());
            i += 1;
        }
        assert(res@.map_values(|v: String| v@) =~= self.variables());
        res
    }

    /// For each substitution of each match, in order: merges the class bound
    /// to the first variable with the class bound to each other variable,
    /// and returns the canonical ids that the merges which did something
    /// reported.
    pub fn apply_matches(&self, g: &mut ProofGraph, matches: &Vec<MatchSet>) -> (added: Vec<usize>)
        requires
            all_substs(matches@).len() > 0 ==> self.variables().len() > 0,
            self.variables().len() >= 2 ==> forall|k: int|
                0 <= k < self.variables().len() ==> valid_var_name(#[trigger] self.variables()[k]),
            self.variables().len() >= 2 ==> forall|i: int, j: int|
                0 <= i < matches@.len() && 0 <= j < matches@[i].substs@.len() ==> binds_all(
                    #[trigger] matches@[i].substs@[j],
                    self.variables().to_set(),
                    graph_roots(*old(g)).len(),
                ),
            graph_size_ok(graph_roots(*old(g))),
        ensures
            (graph_roots(*final(g)), added@) == union_substs(
                graph_roots(*old(g)),
                self.variables(),
                all_substs(matches@),
            ),
            graph_roots(*final(g)).len() == graph_roots(*old(g)).len(),
            graph_leaves(*final(g)) == graph_leaves(*old(g)),
    {
        let ghost r0 = graph_roots(*g);
        let ghost l0 = graph_leaves(*g);
        let ghost vars = self.variables();
        if self.vars.len() < 2 {
            proof {
                lemma_union_substs_single(r0, vars, all_substs(matches@));
            }
            return Vec::new();
        }
        let mut added: Vec<usize> = Vec::new();
        let mut i: usize = 0;
        assert(matches@.subrange(0, 0) =~= Seq::<MatchSet>::empty());
        while i < matches.len()
            invariant
                i <= matches.len(),
                vars == self.variables(),
                (graph_roots(*g), added@) == union_substs(r0, vars, all_substs(matches@.subrange(0, i as int))),
                graph_roots(*g).len() == r0.len(),
                graph_leaves(*g) == l0,
                graph_size_ok(r0),
                all_substs(matches@).len() > 0 ==> vars.len() > 0,
                forall|k: int| 0 <= k < vars.len() ==> valid_var_name(#[trigger] vars[k]),
                forall|i2: int, j2: int|
                    0 <= i2 < matches@.len() && 0 <= j2 < matches@[i2].substs@.len() ==> binds_all(
                        #[trigger] matches@[i2].substs@[j2],
                        vars.to_set(),
                        r0.len(),
                    ),
            decreases matches.len() - i,
        {
            let mut j: usize = 0;
            let ghost before = all_substs(matches@.subrange(0, i as int));
            proof {
                lemma_all_substs_step(matches@, i as int);
                lemma_all_substs_len(matches@, i as int + 1);
                assert(matches@[i as int].substs@.subrange(0, 0) =~= Seq::<Subst>::empty());
                assert(before + matches@[i as int].substs@.subrange(0, 0) =~= before);
            }
            while j < matches[i].substs.len()
                invariant
                    i < matches.len(),
                    j <= matches@[i as int].substs@.len(),
                    vars == self.variables(),
                    before == all_substs(matches@.subrange(0, i as int)),
                    (graph_roots(*g), added@) == union_substs(
                        r0,
                        vars,
                        before + matches@[i as int].substs@.subrange(0, j as int),
                    ),
                    graph_roots(*g).len() == r0.len(),
                    graph_leaves(*g) == l0,
                    graph_size_ok(r0),
                    all_substs(matches@.subrange(0, i as int + 1)) == before + matches@[i as int].substs@,
                    all_substs(matches@.subrange(0, i as int + 1)).len() <= all_substs(matches@).len(),
                    all_substs(matches@).len() > 0 ==> vars.len() > 0,
                    forall|k: int| 0 <= k < vars.len() ==> valid_var_name(#[trigger] vars[k]),
                    forall|i2: int, j2: int|
                        0 <= i2 < matches@.len() && 0 <= j2 < matches@[i2].substs@.len() ==> binds_all(
                            #[trigger] matches@[i2].substs@[j2],
                            vars.to_set(),
                            r0.len(),
                        ),
                decreases matches@[i as int].substs@.len() - j,
            {
                let s = &matches[i].substs[j];
                let ghost r1 = graph_roots(*g);
                proof {
                    assert(binds_all(matches@[i as int].substs@[j as int], vars.to_set(), r0.len()));
                    assert(vars.len() > 0);
                    assert(vars.to_set().contains(vars[0]));
                }
                let first = match subst_lookup(s, &self.vars[0]) {
                    Some(id) => id,
                    None => {
                        return added;
                    },
                };
                let mut bs: Vec<usize> = Vec::new();
                let mut k: usize = 1;
                while k < self.vars.len()
                    invariant
                        1 <= k <= self.vars.len(),
                        vars == self.variables(),
                        vars.len() == self.vars@.len(),
                        bs@ == vars.subrange(1, k as int).map_values(|v: Seq<char>| bound_id(*s, v)),
                        forall|m: int| 0 <= m < bs@.len() ==> #[trigger] bs@[m] < r0.len(),
                        forall|m: int| 0 <= m < vars.len() ==> valid_var_name(#[trigger] vars[m]),
                        binds_all(*s, vars.to_set(), r0.len()),
                    decreases self.vars.len() - k,
                {
                    proof {
                        assert(vars.to_set().contains(vars[k as int]));
                        assert(self.vars@[k as int]@ == vars[k as int]);
                    }
                    let b = match subst_lookup(s, &self.vars[k]) {
                        Some(id) => id,
                        None => {
                            return added;
                        },
                    };
                    bs.push(b);
                    proof {
                        assert(vars.subrange(1, k + 1).map_values(|v: Seq<char>| bound_id(*s, v)) =~= vars.subrange(
                            1,
                            k as int,
                        ).map_values(|v: Seq<char>| bound_id(*s, v)).push(bound_id(*s, vars[k as int])));
                    }
                    k += 1;
                }
                proof {
                    assert(vars.subrange(1, vars.len() as int) =~= vars.drop_first());
                }
                let mut more = g.union_each(first, &bs);
                proof {
                    let ss = before + matches@[i as int].substs@.subrange(0, j + 1);
                    assert(ss.drop_last() =~= before + matches@[i as int].substs@.subrange(0, j as int));
                    assert(ss.last() == *s);
                    lemma_union_chain_keeps_classes(r1, first as int, bs@);
                }
                added.append(&mut more);
                j += 1;
            }
            proof {
                assert(matches@[i as int].substs@.subrange(0, matches@[i as int].substs@.len() as int)
                    =~= matches@[i as int].substs@);
            }
            i += 1;
        }
        proof {
            assert(matches@.subrange(0, matches@.len() as int) =~= matches@);
        }
        added
    }
}

/// Total length of a prefix of a list of patterns is at most the whole.
proof fn lemma_total_len_prefix(ps: Seq<Seq<PatNodeV>>, k: int)
    requires
        0 <= k <= ps.len(),
    ensures
        total_len(ps.subrange(0, k)) <= total_len(ps),
    decreases ps.len() - k,
{
    if k < ps.len() {
        lemma_total_len_step(ps, k);
        lemma_total_len_prefix(ps, k + 1);
    } else {
        assert(ps.subrange(0, k) =~= ps);
    }
}

} // verus!
