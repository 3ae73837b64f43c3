use vstd::prelude::*;

verus! {

/// One node of an expression: an operator applied to earlier nodes.
pub struct ENode {
    pub op: String,
    pub children: Vec<usize>,
}

/// An expression stored as a list of nodes, where every child index refers
/// to an earlier node and the last node is the root.
pub struct Expr {
    pub nodes: Vec<ENode>,
}

/// The mathematical view of a node: its operator text and its child indices.
pub type NodeV = (Seq<char>, Seq<usize>);

impl View for ENode {
    type V = NodeV;

    open spec fn view(&self) -> NodeV {
        (self.op@, self.children@)
    }
}

impl View for Expr {
    type V = Seq<NodeV>;

    open spec fn view(&self) -> Seq<NodeV> {
        self.nodes@.map_values(|n: ENode| n@)
    }
}

/// Every node's children come strictly before it.
pub open spec fn nodes_wf(e: Seq<NodeV>) -> bool {
    forall|i: int, j: int|
        0 <= i < e.len() && 0 <= j < e[i].1.len() ==> #[trigger] e[i].1[j] < i
}

/// A usable expression: non-empty, with children before parents.
pub open spec fn expr_wf(e: Seq<NodeV>) -> bool {
    e.len() > 0 && nodes_wf(e)
}

/// Some node of the expression carries the operator `op`.
pub open spec fn mentions_op(e: Seq<NodeV>, op: Seq<char>) -> bool {
    exists|i: int| 0 <= i < e.len() && #[trigger] e[i].0 == op
}

/// The indices, in increasing order, of the first `k` nodes whose operator is `op`.
pub open spec fn op_positions_upto(e: Seq<NodeV>, op: Seq<char>, k: int) -> Seq<usize>
    decreases k,
{
    if k <= 0 {
        Seq::empty()
    } else if e[k - 1].0 == op {
        op_positions_upto(e, op, k - 1).push((k - 1) as usize)
    } else {
        op_positions_upto(e, op, k - 1)
    }
}

/// The indices, in increasing order, of all nodes whose operator is `op`.
pub open spec fn op_positions(e: Seq<NodeV>, op: Seq<char>) -> Seq<usize> {
    op_positions_upto(e, op, e.len() as int)
}

/// The expression after giving node `s.0` the operator `s.1`, for each `s`
/// of `subs` in order (a later entry for the same node wins).
pub open spec fn replace_ops(e: Seq<NodeV>, subs: Seq<(usize, Seq<char>)>) -> Seq<NodeV>
    decreases subs.len(),
{
    if subs.len() == 0 {
        e
    } else {
        let prev = replace_ops(e, subs.drop_last());
        let s = subs.last();
        prev.update(s.0 as int, (s.1, prev[s.0 as int].1))
    }
}

/// The view of a list of operator replacements.
pub open spec fn subs_view(subs: Seq<(usize, String)>) -> Seq<(usize, Seq<char>)> {
    subs.map_values(|s: (usize, String)| (s.0, s.1@))
}

/// Node `k` can be reached from the root (the last node) by following children.
pub open spec fn reachable(e: Seq<NodeV>, k: int) -> bool
    decreases e.len() - k,
{
    if k < 0 || k >= e.len() {
        false
    } else if k == e.len() - 1 {
        true
    } else {
        exists|p: int|
            k < p < e.len() && #[trigger] e[p].1.contains(k as usize) && reachable(e, p)
    }
}

/// A childless node with operator `op` can be reached from the root.
pub open spec fn has_reachable_leaf(e: Seq<NodeV>, op: Seq<char>) -> bool {
    exists|k: int| #[trigger] reachable(e, k) && e[k].0 == op && e[k].1.len() == 0
}

/// Every listed position holds a node with operator `op`.
pub proof fn lemma_op_positions(e: Seq<NodeV>, op: Seq<char>, k: int)
    requires
        0 <= k <= e.len(),
        e.len() <= usize::MAX + 1,
    ensures
        forall|j: int|
            0 <= j < op_positions_upto(e, op, k).len() ==> #[trigger] op_positions_upto(e, op, k)[j] < k
                && e[op_positions_upto(e, op, k)[j] as int].0 == op,
    decreases k,
{
    if k > 0 {
        lemma_op_positions(e, op, k - 1);
        let prev = op_positions_upto(e, op, k - 1);
        let cur = op_positions_upto(e, op, k);
        assert forall|j: int| 0 <= j < cur.len() implies #[trigger] cur[j] < k && e[cur[j] as int].0 == op by {
            if e[k - 1].0 == op {
                assert(cur == prev.push((k - 1) as usize));
                if j < prev.len() {
                    assert(cur[j] == prev[j]);
                } else {
                    assert(cur[j] == (k - 1) as usize);
                }
            } else {
                assert(cur == prev);
            }
        }
    }
}

impl ENode {
    /// A copy of this node.
    pub fn duplicate(&self) -> (res: ENode)
        ensures
            res@ == self@,
    {
        let mut children: Vec<usize> = Vec::new();
        let mut i: usize = 0;
        while i < self.children.len()
            invariant
                i <= self.children.len(),
                children@ == self.children@.subrange(0, i as int),
            decreases self.children.len() - i,
        {
            children.push(self.children[i]);
            i += 1;
        }
        assert(children@ == self.children@);
        ENode { op: self.op.clone(), children }
    }
}

impl Expr {
    /// The expression made of one childless node.
    pub fn leaf(op: String) -> (res: Expr)
        ensures
            res@ == seq![(op@, Seq::<usize>::empty())],
    {
        let mut nodes: Vec<ENode> = Vec::new();
        nodes.push(ENode { op, children: Vec::new() });
        let res = Expr { nodes };
        assert(res@ =~= seq![(op@, Seq::<usize>::empty())]);
        res
    }

    /// A copy of this expression.
    pub fn duplicate(&self) -> (res: Expr)
        ensures
            res@ == self@,
    {
        let mut nodes: Vec<ENode> = Vec::new();
        let mut i: usize = 0;
        while i < self.nodes.len()
            invariant
                i <= self.nodes.len(),
                nodes@.len() == i,
                forall|k: int| 0 <= k < i ==> #[trigger] nodes@[k]@ == self.nodes@[k]@,
            decreases self.nodes.len() - i,
        {
            nodes.push(self.nodes[i].duplicate());
            i += 1;
        }
        let res = Expr { nodes };
        assert(res@ =~= self@);
        res
    }

    /// Whether the two expressions have the same nodes.
    pub fn same_as(&self, other: &Expr) -> (res: bool)
        ensures
            res == (self@ == other@),
    {
        if self.nodes.len() != other.nodes.len() {
            assert(self@.len() != other@.len());
            return false;
        }
        let mut i: usize = 0;
        while i < self.nodes.len()
            invariant
                i <= self.nodes.len(),
                self.nodes.len() == other.nodes.len(),
                forall|k: int| 0 <= k < i ==> #[trigger] self@[k] == other@[k],
            decreases self.nodes.len() - i,
        {
            let a = &self.nodes[i];
            let b = &other.nodes[i];
            if a.op != b.op || a.children.len() != b.children.len() {
                assert(self@[i as int] != other@[i as int]);
                return false;
            }
            let mut j: usize = 0;
            while j < a.children.len()
                invariant
                    j <= a.children.len(),
                    a.children.len() == b.children.len(),
                    i < self.nodes.len(),
                    self.nodes.len() == other.nodes.len(),
                    *a == self.nodes@[i as int],
                    *b == other.nodes@[i as int],
                    forall|m: int| 0 <= m < j ==> #[trigger] a.children@[m] == b.children@[m],
                decreases a.children.len() - j,
            {
                if a.children[j] != b.children[j] {
                    assert(self@[i as int].1[j as int] != other@[i as int].1[j as int]);
                    return false;
                }
                j += 1;
            }
            assert(a.children@ =~= b.children@);
            assert(self@[i as int] == other@[i as int]);
            i += 1;
        }
        assert(self@ =~= other@);
        true
    }

    /// Whether any node of the expression has the operator `op`.
    pub fn contains_op(&self, op: &String) -> (res: bool)
        ensures
            res == mentions_op(self@, op@),
    {
        let mut i: usize = 0;
        while i < self.nodes.len()
            invariant
                i <= self.nodes.len(),
                forall|k: int| 0 <= k < i ==> #[trigger] self@[k].0 != op@,
            decreases self.nodes.len() - i,
        {
            if self.nodes[i].op == *op {
                assert(self@[i as int].0 == op@);
                return true;
            }
            i += 1;
        }
        false
    }

    /// The indices of the nodes whose operator is `op`, in increasing order.
    pub fn positions_of(&self, op: &String) -> (res: Vec<usize>)
        ensures
            res@ == op_positions(self@, op@),
    {
        let mut res: Vec<usize> = Vec::new();
        let mut i: usize = 0;
        while i < self.nodes.len()
            invariant
                i <= self.nodes.len(),
                res@ == op_positions_upto(self@, op@, i as int),
            decreases self.nodes.len() - i,
        {
            if self.nodes[i].op == *op {
                res.push(i);
            }
            i += 1;
        }
        res
    }

    /// The expression with the operators of the given nodes replaced, in
    /// order of `subs`.
    pub fn replace_ops_at(&self, subs: &Vec<(usize, String)>) -> (res: Expr)
        requires
            forall|k: int| 0 <= k < subs.len() ==> #[trigger] subs@[k].0 < self@.len(),
        ensures
            res@ == replace_ops(self@, subs_view(subs@)),
    {
        let ghost subv = subs_view(subs@);
        let mut res = self.duplicate();
        let mut k: usize = 0;
        assert(subv.subrange(0, 0) =~= Seq::<(usize, Seq<char>)>::empty());
        while k < subs.len()
            invariant
                k <= subs.len(),
                subv == subs_view(subs@),
                forall|m: int| 0 <= m < subs.len() ==> #[trigger] subs@[m].0 < self@.len(),
                res@ == replace_ops(self@, subv.subrange(0, k as int)),
                res@.len() == self@.len(),
            decreases subs.len() - k,
        {
            let idx = subs[k].0;
            let old_node = &res.nodes[idx];
            let node = ENode { op: subs[k].1.clone(), children: old_node.duplicate().children };
            let ghost prev = res@;
            res.nodes.set(idx, node);
            assert(subv.subrange(0, k + 1).drop_last() =~= subv.subrange(0, k as int));
            assert(res@ =~= prev.update(idx as int, (subs@[k as int].1@, prev[idx as int].1)));
            k += 1;
        }
        assert(subv.subrange(0, subs.len() as int) =~= subv);
        res
    }
}

} // verus!
