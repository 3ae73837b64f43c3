use vstd::prelude::*;
use vstd::string::*;
use crate::expr::{ENode, NodeV, nodes_wf};
use crate::text::seq_starts_with;
use crate::lang::ph_prefix;
use crate::prover::Prover;

verus! {

/// One node of a pattern: an operator node, or a pattern variable.
pub enum PatNode {
    Node(ENode),
    Var(String),
}

/// A pattern stored as a list of nodes, the last one being the root.
pub struct PatternAst {
    pub nodes: Vec<PatNode>,
}

/// The view of a pattern node.
pub enum PatNodeV {
    Node(Seq<char>, Seq<usize>),
    Var(Seq<char>),
}

impl View for PatNode {
    type V = PatNodeV;

    open spec fn view(&self) -> PatNodeV {
        match self {
            PatNode::Node(n) => PatNodeV::Node(n.op@, n.children@),
            PatNode::Var(v) => PatNodeV::Var(v@),
        }
    }
}

impl View for PatternAst {
    type V = Seq<PatNodeV>;

    open spec fn view(&self) -> Seq<PatNodeV> {
        self.nodes@.map_values(|n: PatNode| n@)
    }
}

/// The children of a pattern node (none for a variable).
pub open spec fn pat_children(n: PatNodeV) -> Seq<usize> {
    match n {
        PatNodeV::Node(_, c) => c,
        PatNodeV::Var(_) => Seq::empty(),
    }
}

/// A valid variable name: a `?` followed by at least one character.
pub open spec fn valid_var_name(v: Seq<char>) -> bool {
    v.len() > 1 && v[0] == '?'
}

/// A usable pattern: non-empty, children before parents, valid variable names.
pub open spec fn pattern_wf(p: Seq<PatNodeV>) -> bool {
    &&& p.len() > 0
    &&& forall|i: int, j: int|
        0 <= i < p.len() && 0 <= j < pat_children(p[i]).len() ==> #[trigger] pat_children(p[i])[j] < i
    &&& forall|i: int| 0 <= i < p.len() ==> (#[trigger] p[i] matches PatNodeV::Var(v) ==> valid_var_name(v))
}

/// The variables that occur in the pattern.
pub open spec fn pattern_vars(p: Seq<PatNodeV>) -> Set<Seq<char>> {
    Set::new(|v: Seq<char>| exists|i: int| 0 <= i < p.len() && p[i] == PatNodeV::Var(v))
}

/// The root of the pattern is a variable or an operator without children.
pub open spec fn root_is_leaf(p: Seq<PatNodeV>) -> bool {
    pat_children(p.last()).len() == 0
}

/// Text that names a pattern variable: it begins with `?`.
pub open spec fn is_var_text(s: Seq<char>) -> bool {
    s.len() > 0 && s[0] == '?'
}

/// The name of the operator that applies a variable standing for a function.
pub open spec fn apply_op() -> Seq<char> {
    seq!['a', 'p', 'p', 'l', 'y']
}

/// How an identifier of an expression is renamed in a pattern: the induction
/// placeholder becomes `sub`, other placeholders become variables, and all
/// other names stay.
pub open spec fn map_ident(i: Seq<char>, ind: Seq<char>, sub: Seq<char>) -> Seq<char> {
    if i == ind {
        sub
    } else if seq_starts_with(i, ph_prefix()) {
        seq!['?'] + i
    } else {
        i
    }
}

/// The pattern nodes appended to `acc` when the first `k` children of node
/// `idx` are translated in order, with the ids that the translations got.
pub open spec fn build_children(
    e: Seq<NodeV>,
    idx: int,
    k: int,
    ind: Seq<char>,
    sub: Seq<char>,
    acc: Seq<PatNodeV>,
) -> (Seq<PatNodeV>, Seq<usize>)
    decreases idx, k,
{
    if k <= 0 || idx < 0 || idx >= e.len() || k > e[idx].1.len() {
        (acc, Seq::empty())
    } else {
        let (a1, ids) = build_children(e, idx, k - 1, ind, sub, acc);
        let c = e[idx].1[k - 1] as int;
        if 0 <= c < idx {
            let (a2, id) = build_node(e, c, ind, sub, a1);
            (a2, ids.push(id))
        } else {
            (a1, ids)
        }
    }
}

/// The pattern nodes appended to `acc` when the subtree under node `idx` is
/// translated, children first, with the id of the node that stands for `idx`.
pub open spec fn build_node(
    e: Seq<NodeV>,
    idx: int,
    ind: Seq<char>,
    sub: Seq<char>,
    acc: Seq<PatNodeV>,
) -> (Seq<PatNodeV>, usize)
    decreases idx, e[idx].1.len() + 1,
{
    if idx < 0 || idx >= e.len() {
        (acc, 0)
    } else {
        let (a, ids) = build_children(e, idx, e[idx].1.len() as int, ind, sub, acc);
        let op = map_ident(e[idx].0, ind, sub);
        if is_var_text(op) && ids.len() > 0 {
            let a1 = a.push(PatNodeV::Node(op, Seq::empty()));
            let a2 = a1.push(PatNodeV::Node(apply_op(), seq![a.len() as usize] + ids));
            (a2, a1.len() as usize)
        } else if is_var_text(op) {
            (a.push(PatNodeV::Var(op)), a.len() as usize)
        } else {
            (a.push(PatNodeV::Node(op, e[idx].1)), a.len() as usize)
        }
    }
}

/// The pattern that the expression `e` becomes, its root translated last.
pub open spec fn pattern_of(e: Seq<NodeV>, ind: Seq<char>, sub: Seq<char>) -> Seq<PatNodeV> {
    build_node(e, e.len() - 1, ind, sub, Seq::empty()).0
}

/// No childless node of `e` is renamed to the bare text `?`.
pub open spec fn no_bare_var(e: Seq<NodeV>, ind: Seq<char>, sub: Seq<char>) -> bool {
    forall|i: int|
        0 <= i < e.len() && e[i].1.len() == 0 ==> #[trigger] map_ident(e[i].0, ind, sub) != seq!['?']
}

impl PatNode {
    /// A copy of this node.
    pub fn duplicate(&self) -> (res: PatNode)
        ensures
            res@ == self@,
    {
        match self {
            PatNode::Node(n) => PatNode::Node(n.duplicate()),
            PatNode::Var(v) => PatNode::Var(v.clone()),
        }
    }
}

impl PatternAst {
    /// A copy of this pattern.
    pub fn duplicate(&self) -> (res: PatternAst)
        ensures
            res@ == self@,
    {
        let mut nodes: Vec<PatNode> = Vec::new();
        let mut i: usize = 0;
        while i < self.nodes.len()
            invariant
                i <= self.nodes.len(),
                nodes@.len() == i,
                forall|k: int| 0 <= k < i ==> #[trigger] nodes@[k]@ == self.nodes@[k]@,
            decreases self.nodes.len() - i,
        {
            nodes.push(self.nodes[i].duplicate());
            i += 1;
        }
        let res = PatternAst { nodes };
        assert(res@ =~= self@);
        res
    }

    /// Whether the variable `v` occurs in this pattern.
    pub fn has_var(&self, v: &String) -> (res: bool)
        ensures
            res == pattern_vars(self@).contains(v@),
    {
        let mut i: usize = 0;
        while i < self.nodes.len()
            invariant
                i <= self.nodes.len(),
                forall|k: int| 0 <= k < i ==> #[trigger] self@[k] != PatNodeV::Var(v@),
            decreases self.nodes.len() - i,
        {
            assert(self@[i as int] == self.nodes@[i as int]@);
            match &self.nodes[i] {
                PatNode::Var(w) => {
                    if *w == *v {
                        assert(self@[i as int] == PatNodeV::Var(v@));
                        return true;
                    }
                },
                PatNode::Node(_) => {},
            }
            i += 1;
        }
        proof {
            if pattern_vars(self@).contains(v@) {
                let k = choose|k: int| 0 <= k < self@.len() && self@[k] == PatNodeV::Var(v@);
                assert(self@[k] != PatNodeV::Var(v@));
            }
        }
        false
    }

    /// Whether every variable of this pattern occurs in `a` or in `b`.
    pub fn vars_within(&self, a: &PatternAst, b: &PatternAst) -> (res: bool)
        ensures
            res == pattern_vars(self@).subset_of(pattern_vars(a@).union(pattern_vars(b@))),
    {
        let mut i: usize = 0;
        while i < self.nodes.len()
            invariant
                i <= self.nodes.len(),
                forall|k: int|
                    0 <= k < i ==> (#[trigger] self@[k] matches PatNodeV::Var(w) ==> pattern_vars(a@).union(
                        pattern_vars(b@),
                    ).contains(w)),
            decreases self.nodes.len() - i,
        {
            assert(self@[i as int] == self.nodes@[i as int]@);
            match &self.nodes[i] {
                PatNode::Var(w) => {
                    if !(a.has_var(w) || b.has_var(w)) {
                        assert(pattern_vars(self@).contains(w@));
                        return false;
                    }
                },
                PatNode::Node(_) => {},
            }
            i += 1;
        }
        proof {
            assert forall|w: Seq<char>| pattern_vars(self@).contains(w) implies pattern_vars(a@).union(
                pattern_vars(b@),
            ).contains(w) by {
                let k = choose|k: int| 0 <= k < self@.len() && self@[k] == PatNodeV::Var(w);
                assert(self@[k] == PatNodeV::Var(w));
            }
        }
        true
    }

    /// The pattern made of the single variable `name`.
    pub fn var(name: String) -> (res: PatternAst)
        ensures
            res@ == seq![PatNodeV::Var(name@)],
    {
        let mut nodes: Vec<PatNode> = Vec::new();
        nodes.push(PatNode::Var(name));
        let res = PatternAst { nodes };
        assert(res@ =~= seq![PatNodeV::Var(name@)]);
        res
    }

    /// The pattern `(op left right)` whose two arguments are the given leaves.
    pub fn binary(op: String, left: PatNode, right: PatNode) -> (res: PatternAst)
        ensures
            res@ == seq![left@, right@, PatNodeV::Node(op@, seq![0usize, 1usize])],
    {
        let mut nodes: Vec<PatNode> = Vec::new();
        nodes.push(left);
        nodes.push(right);
        let mut children: Vec<usize> = Vec::new();
        children.push(0);
        children.push(1);
        assert(children@ =~= seq![0usize, 1usize]);
        nodes.push(PatNode::Node(ENode { op, children }));
        let res = PatternAst { nodes };
        assert(res@ =~= seq![left@, right@, PatNodeV::Node(op@, seq![0usize, 1usize])]);
        res
    }

    /// The pattern `(op v0 v1 ...)` applying `op` to the given variables.
    pub fn apply_vars(op: String, vars: Vec<String>) -> (res: PatternAst)
        ensures
            res@ == vars_applied(op@, vars@.map_values(|v: String| v@)),
    {
        let ghost vv = vars@.map_values(|v: String| v@);
        let mut nodes: Vec<PatNode> = Vec::new();
        let mut children: Vec<usize> = Vec::new();
        let mut i: usize = 0;
        while i < vars.len()
            invariant
                i <= vars.len(),
                vv == vars@.map_values(|v: String| v@),
                nodes@.len() == i,
                children@.len() == i,
                forall|k: int| 0 <= k < i ==> #[trigger] nodes@[k]@ == PatNodeV::Var(vv[k]),
                forall|k: int| 0 <= k < i ==> #[trigger] children@[k] == k,
            decreases vars.len() - i,
        {
            nodes.push(PatNode::Var(vars[i].clone()));
            children.push(i);
            i += 1;
        }
        nodes.push(PatNode::Node(ENode { op, children }));
        let res = PatternAst { nodes };
        assert(children@ =~= Seq::new(vv.len(), |k: int| k as usize));
        assert(res@ =~= vars_applied(op@, vv));
        res
    }
}

/// The pattern `(op v0 v1 ...)`: one variable node per name, then the operator node.
pub open spec fn vars_applied(op: Seq<char>, vars: Seq<Seq<char>>) -> Seq<PatNodeV> {
    Seq::new(vars.len(), |k: int| PatNodeV::Var(vars[k])).push(
        PatNodeV::Node(op, Seq::new(vars.len(), |k: int| k as usize)),
    )
}

/// Appends the translation of the first `k` children of node `idx`.
pub fn add_children(
    res: &mut Vec<PatNode>,
    e: &Vec<ENode>,
    idx: usize,
    k: usize,
    ind: &String,
    sub: &String,
) -> (ids: Vec<usize>)
    requires
        idx < e@.len(),
        k <= e@[idx as int].children@.len(),
        nodes_wf(e@.map_values(|n: ENode| n@)),
    ensures
        (final(res)@.map_values(|n: PatNode| n@), ids@) == build_children(
            e@.map_values(|n: ENode| n@),
            idx as int,
            k as int,
            ind@,
            sub@,
            old(res)@.map_values(|n: PatNode| n@),
        ),
    decreases idx, k,
{
    let ghost ev = e@.map_values(|n: ENode| n@);
    if k == 0 {
        return Vec::new();
    }
    let mut ids = add_children(res, e, idx, k - 1, ind, sub);
    let c = e[idx].children[k - 1];
    assert(ev[idx as int].1[k - 1] == c);
    assert(c < idx);
    let id = add_node(res, e, c, ind, sub);
    ids.push(id);
    ids
}

/// Appends the translation of the subtree under node `idx` and returns the
/// id of the node that stands for it.
pub fn add_node(res: &mut Vec<PatNode>, e: &Vec<ENode>, idx: usize, ind: &String, sub: &String) -> (id: usize)
    requires
        idx < e@.len(),
        nodes_wf(e@.map_values(|n: ENode| n@)),
    ensures
        (final(res)@.map_values(|n: PatNode| n@), id) == build_node(
            e@.map_values(|n: ENode| n@),
            idx as int,
            ind@,
            sub@,
            old(res)@.map_values(|n: PatNode| n@),
        ),
    decreases idx, e@[idx as int].children@.len() + 1,
{
    let ghost ev = e@.map_values(|n: ENode| n@);
    let ids = add_children(res, e, idx, e[idx].children.len(), ind, sub);
    let op = Prover::ident_mapper(&e[idx].op, ind, sub);
    let is_var = crate::text::starts_with_char(op.as_str(), '?');
    let ghost a = res@.map_values(|n: PatNode| n@);
    if is_var && ids.len() > 0 {
        let func_id = res.len();
        res.push(PatNode::Node(ENode { op, children: Vec::new() }));
        let mut app_children: Vec<usize> = Vec::new();
        app_children.push(func_id);
        let mut j: usize = 0;
        while j < ids.len()
            invariant
                j <= ids.len(),
                app_children@ == seq![func_id] + ids@.subrange(0, j as int),
            decreases ids.len() - j,
        {
            app_children.push(ids[j]);
            j += 1;
            assert(app_children@ =~= seq![func_id] + ids@.subrange(0, j as int));
        }
        assert(ids@.subrange(0, ids.len() as int) =~= ids@);
        let app_id = res.len();
        proof {
            reveal_strlit("apply");
        }
        let apply = String::from_str("apply");
        assert(apply@ =~= apply_op());
        res.push(PatNode::Node(ENode { op: apply, children: app_children }));
        assert(res@.map_values(|n: PatNode| n@) =~= a.push(PatNodeV::Node(op@, Seq::empty())).push(
            PatNodeV::Node(apply_op(), seq![func_id] + ids@)));
        app_id
    } else if is_var {
        let id = res.len();
        res.push(PatNode::Var(op));
        assert(res@.map_values(|n: PatNode| n@) =~= a.push(PatNodeV::Var(op@)));
        id
    } else {
        let id = res.len();
        let children = e[idx].duplicate().children;
        res.push(PatNode::Node(ENode { op, children }));
        assert(res@.map_values(|n: PatNode| n@) =~= a.push(PatNodeV::Node(op@, ev[idx as int].1)));
        id
    }
}

} // verus!
