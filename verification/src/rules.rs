use vstd::prelude::*;
use egg::{Rewrite, SymbolLang};
use crate::pattern::{PatNode, PatternAst, PatNodeV, pat_children, pattern_vars, pattern_wf};
use crate::appliers::DiffApplier;
use crate::egraph::{pat_reachable, pattern_rewrite, reach_vars, rewrite_rule, safe_rule};

verus! {

/// How a rule finds its matches.
pub enum SearcherSpec {
    /// Every match of one pattern.
    Pattern(PatternAst),
    /// Matches of all the patterns at once, each possibly in a different
    /// class, that agree on their shared variables.
    MultiDiff(Vec<PatternAst>),
    /// Matches of all the patterns at once in one and the same class, that
    /// agree on their shared variables.
    MultiEq(Vec<PatternAst>),
}

/// What a rule does with each match.
pub enum ApplierSpec {
    /// Adds the pattern and merges it with the matched class.
    Pattern(PatternAst),
    /// Adds the pattern and keeps it apart from the matched class.
    Diff(DiffApplier),
}

/// A rewrite rule, described by value: its names, searcher and applier.
pub struct RuleSpec {
    pub name: String,
    pub long_name: String,
    pub searcher: SearcherSpec,
    pub applier: ApplierSpec,
}

/// The view of a searcher.
pub enum SearcherV {
    Pattern(Seq<PatNodeV>),
    MultiDiff(Seq<Seq<PatNodeV>>),
    MultiEq(Seq<Seq<PatNodeV>>),
}

/// The view of an applier.
pub enum ApplierV {
    Pattern(Seq<PatNodeV>),
    Diff(Seq<PatNodeV>),
}

/// The view of a rule.
pub struct RuleV {
    pub name: Seq<char>,
    pub long_name: Seq<char>,
    pub searcher: SearcherV,
    pub applier: ApplierV,
}

/// The views of a list of patterns.
pub open spec fn patterns_view(ps: Seq<PatternAst>) -> Seq<Seq<PatNodeV>> {
    ps.map_values(|p: PatternAst| p@)
}

impl View for SearcherSpec {
    type V = SearcherV;

    open spec fn view(&self) -> SearcherV {
        match self {
            SearcherSpec::Pattern(p) => SearcherV::Pattern(p@),
            SearcherSpec::MultiDiff(ps) => SearcherV::MultiDiff(patterns_view(ps@)),
            SearcherSpec::MultiEq(ps) => SearcherV::MultiEq(patterns_view(ps@)),
        }
    }
}

impl View for ApplierSpec {
    type V = ApplierV;

    open spec fn view(&self) -> ApplierV {
        match self {
            ApplierSpec::Pattern(p) => ApplierV::Pattern(p@),
            ApplierSpec::Diff(d) => ApplierV::Diff(d.pattern()),
        }
    }
}

impl View for RuleSpec {
    type V = RuleV;

    open spec fn view(&self) -> RuleV {
        RuleV { name: self.name@, long_name: self.long_name@, searcher: self.searcher@, applier: self.applier@ }
    }
}

/// The views of a list of rules.
pub open spec fn rules_view(rs: Seq<RuleSpec>) -> Seq<RuleV> {
    rs.map_values(|r: RuleSpec| r@)
}

/// A copy of a list of patterns.
pub fn duplicate_patterns(ps: &Vec<PatternAst>) -> (res: Vec<PatternAst>)
    ensures
        patterns_view(res@) == patterns_view(ps@),
{
    let mut res: Vec<PatternAst> = Vec::new();
    let mut i: usize = 0;
    while i < ps.len()
        invariant
            i <= ps.len(),
            res@.len() == i,
            forall|k: int| 0 <= k < i ==> #[trigger] res@[k]@ == ps@[k]@,
        decreases ps.len() - i,
    {
        res.push(ps[i].duplicate());
        i += 1;
    }
    assert(patterns_view(res@) =~= patterns_view(ps@));
    res
}

impl SearcherSpec {
    /// A copy of this searcher.
    pub fn duplicate(&self) -> (res: SearcherSpec)
        ensures
            res@ == self@,
    {
        match self {
            SearcherSpec::Pattern(p) => SearcherSpec::Pattern(p.duplicate()),
            SearcherSpec::MultiDiff(ps) => SearcherSpec::MultiDiff(duplicate_patterns(ps)),
            SearcherSpec::MultiEq(ps) => SearcherSpec::MultiEq(duplicate_patterns(ps)),
        }
    }
}

/// Which nodes of the pattern can be reached from its root.
pub fn reachable_nodes(p: &PatternAst) -> (res: Vec<bool>)
    requires
        pattern_wf(p@),
    ensures
        res@.len() == p@.len(),
        forall|k: int| 0 <= k < p@.len() ==> #[trigger] res@[k] == pat_reachable(p@, k),
{
    let n = p.nodes.len();
    let ghost pv = p@;
    let mut r: Vec<bool> = Vec::new();
    let mut i: usize = 0;
    while i < n
        invariant
            i <= n,
            n == pv.len(),
            r@.len() == i,
            forall|m: int| 0 <= m < i ==> #[trigger] r@[m] == (m == n - 1),
        decreases n - i,
    {
        r.push(i == n - 1);
        i += 1;
    }
    let mut k: usize = n;
    while k > 0
        invariant
            k <= n,
            n == pv.len(),
            pv == p@,
            pattern_wf(pv),
            r@.len() == n,
            forall|m: int| k <= m < n ==> #[trigger] r@[m] == pat_reachable(pv, m),
            forall|m: int|
                0 <= m < k ==> (#[trigger] r@[m] <==> (m == n - 1 || exists|q: int|
                    k <= q < n && pat_reachable(pv, q) && #[trigger] pat_children(pv[q]).contains(m as usize))),
        decreases k,
    {
        let q = k - 1;
        assert(r@[q as int] == pat_reachable(pv, q as int)) by {
            if r@[q as int] && q != n - 1 {
                let q2 = choose|q2: int|
                    k <= q2 < n && pat_reachable(pv, q2) && #[trigger] pat_children(pv[q2]).contains(q as usize);
                assert(q < q2 && pat_children(pv[q2]).contains(q as usize) && pat_reachable(pv, q2));
            }
            if pat_reachable(pv, q as int) && q != n - 1 {
                let q2 = choose|q2: int|
                    q < q2 < n && #[trigger] pat_children(pv[q2]).contains(q as usize) && pat_reachable(pv, q2);
                assert(k <= q2 < n && pat_reachable(pv, q2) && pat_children(pv[q2]).contains(q as usize));
            }
        }
        if r[q] {
            assert(pv[q as int] == p.nodes@[q as int]@);
            match &p.nodes[q] {
                PatNode::Node(node) => {
                    let ghost cs = node.children@;
                    assert(pat_children(pv[q as int]) == cs);
                    let mut j: usize = 0;
                    while j < node.children.len()
                        invariant
                            j <= cs.len(),
                            cs == node.children@,
                            cs == pat_children(pv[q as int]),
                            q < n,
                            k == q + 1,
                            n == pv.len(),
                            pattern_wf(pv),
                            r@.len() == n,
                            pat_reachable(pv, q as int),
                            forall|m: int| q <= m < n ==> #[trigger] r@[m] == pat_reachable(pv, m),
                            forall|m: int|
                                0 <= m < q ==> (#[trigger] r@[m] <==> (m == n - 1 || (exists|q2: int|
                                    k <= q2 < n && pat_reachable(pv, q2) && #[trigger] pat_children(pv[q2]).contains(
                                        m as usize,
                                    )) || exists|jj: int| 0 <= jj < j && cs[jj] == m)),
                        decreases cs.len() - j,
                    {
                        let c = node.children[j];
                        assert(pat_children(pv[q as int])[j as int] < q);
                        r.set(c, true);
                        j += 1;
                    }
                    proof {
                        assert forall|m: int| 0 <= m < q implies (#[trigger] r@[m] <==> (m == n - 1 || exists|q2: int|
                            q <= q2 < n && pat_reachable(pv, q2) && #[trigger] pat_children(pv[q2]).contains(m as usize))) by {
                            if exists|jj: int| 0 <= jj < cs.len() && cs[jj] == m {
                                let jj = choose|jj: int| 0 <= jj < cs.len() && cs[jj] == m;
                                assert(pat_children(pv[q as int]).contains(m as usize));
                            }
                            if exists|q2: int|
                                q <= q2 < n && pat_reachable(pv, q2) && #[trigger] pat_children(pv[q2]).contains(m as usize) {
                                let q2 = choose|q2: int|
                                    q <= q2 < n && pat_reachable(pv, q2) && #[trigger] pat_children(pv[q2]).contains(m as usize);
                                if q2 == q {
                                    let jj = choose|jj: int| 0 <= jj < cs.len() && cs[jj] == m as usize;
                                    assert(cs[jj] == m);
                                }
                            }
                        }
                    }
                },
                PatNode::Var(_) => {
                    proof {
                        assert(pat_children(pv[q as int]).len() == 0);
                        assert forall|m: int| 0 <= m < q implies (#[trigger] r@[m] <==> (m == n - 1 || exists|q2: int|
                            q <= q2 < n && pat_reachable(pv, q2) && #[trigger] pat_children(pv[q2]).contains(m as usize))) by {
                            if exists|q2: int|
                                q <= q2 < n && pat_reachable(pv, q2) && #[trigger] pat_children(pv[q2]).contains(m as usize) {
                                let q2 = choose|q2: int|
                                    q <= q2 < n && pat_reachable(pv, q2) && #[trigger] pat_children(pv[q2]).contains(m as usize);
                                assert(q2 != q);
                            }
                        }
                    }
                },
            }
        } else {
            proof {
                assert forall|m: int| 0 <= m < q implies (#[trigger] r@[m] <==> (m == n - 1 || exists|q2: int|
                    q <= q2 < n && pat_reachable(pv, q2) && #[trigger] pat_children(pv[q2]).contains(m as usize))) by {
                    if exists|q2: int|
                        q <= q2 < n && pat_reachable(pv, q2) && #[trigger] pat_children(pv[q2]).contains(m as usize) {
                        let q2 = choose|q2: int|
                            q <= q2 < n && pat_reachable(pv, q2) && #[trigger] pat_children(pv[q2]).contains(m as usize);
                        assert(q2 != q);
                    }
                }
            }
        }
        k = q;
    }
    r
}

/// Whether every variable of `a` occurs at a node of `s` reachable from
/// its root, so that searching with `s` binds it.
pub fn vars_reached(a: &PatternAst, s: &PatternAst) -> (res: bool)
    requires
        pattern_wf(s@),
    ensures
        res == pattern_vars(a@).subset_of(reach_vars(s@)),
{
    let r = reachable_nodes(s);
    let mut i: usize = 0;
    while i < a.nodes.len()
        invariant
            i <= a.nodes.len(),
            r@.len() == s@.len(),
            forall|k: int| 0 <= k < s@.len() ==> #[trigger] r@[k] == pat_reachable(s@, k),
            forall|m: int| 0 <= m < i ==> (#[trigger] a@[m] matches PatNodeV::Var(w) ==> reach_vars(s@).contains(w)),
        decreases a.nodes.len() - i,
    {
        assert(a@[i as int] == a.nodes@[i as int]@);
        if let PatNode::Var(w) = &a.nodes[i] {
            let mut found = false;
            let mut k: usize = 0;
            while k < s.nodes.len()
                invariant
                    k <= s.nodes.len(),
                    r@.len() == s@.len(),
                    forall|k2: int| 0 <= k2 < s@.len() ==> #[trigger] r@[k2] == pat_reachable(s@, k2),
                    found ==> reach_vars(s@).contains(w@),
                    !found ==> forall|k2: int| 0 <= k2 < k ==> !(#[trigger] pat_reachable(s@, k2) && s@[k2] == PatNodeV::Var(w@)),
                decreases s.nodes.len() - k,
            {
                assert(s@[k as int] == s.nodes@[k as int]@);
                if r[k] {
                    if let PatNode::Var(x) = &s.nodes[k] {
                        if *x == *w {
                            assert(pat_reachable(s@, k as int) && s@[k as int] == PatNodeV::Var(w@));
                            found = true;
                        }
                    }
                }
                k += 1;
            }
            if !found {
                proof {
                    assert(pattern_vars(a@).contains(w@));
                    if reach_vars(s@).contains(w@) {
                        let k2 = choose|k2: int| #[trigger] pat_reachable(s@, k2) && s@[k2] == PatNodeV::Var(w@);
                        assert(0 <= k2 < s@.len());
                    }
                }
                return false;
            }
        }
        i += 1;
    }
    proof {
        assert forall|v: Seq<char>| pattern_vars(a@).contains(v) implies reach_vars(s@).contains(v) by {
            let m = choose|m: int| 0 <= m < a@.len() && a@[m] == PatNodeV::Var(v);
            assert(a@[m] matches PatNodeV::Var(w) ==> reach_vars(s@).contains(w));
        }
    }
    true
}

/// The rewrite from `searcher` to `applier` named `name`, where searching
/// with `searcher` binds every variable of `applier`; egg can run it.
pub fn safe_pattern_rewrite(
    name: &String,
    long_name: &String,
    searcher: &PatternAst,
    applier: &PatternAst,
) -> (res: Option<Rewrite<SymbolLang, ()>>)
    requires
        pattern_wf(searcher@),
        pattern_wf(applier@),
    ensures
        res is Some <==> pattern_vars(applier@).subset_of(reach_vars(searcher@)),
        res matches Some(r) ==> safe_rule(r) && rewrite_rule(r) == (name@, searcher@, applier@),
{
    if vars_reached(applier, searcher) {
        proof {
            assert forall|v: Seq<char>| pattern_vars(applier@).contains(v) implies pattern_vars(searcher@).contains(v) by {
                let k = choose|k: int| #[trigger] pat_reachable(searcher@, k) && searcher@[k] == PatNodeV::Var(v);
                assert(0 <= k < searcher@.len());
            }
        }
        pattern_rewrite(name, long_name, searcher, applier)
    } else {
        None
    }
}

} // verus!
