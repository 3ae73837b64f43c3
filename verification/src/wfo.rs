use vstd::prelude::*;
use crate::expr::NodeV;
use crate::lang::{FunctionV, DataTypeV, leaf_expr};
use crate::pattern::{PatNodeV, vars_applied};
use crate::rules::{RuleV, SearcherV, ApplierV};
use crate::text::decimal;

verus! {

/// The operator of the well-founded order: `(ltwf a b)` says `a` is below `b`.
pub open spec fn ltwf() -> Seq<char> {
    seq!['l', 't', 'w', 'f']
}

/// The pattern `(ltwf a b)` with the two given leaves.
pub open spec fn ltwf_pattern(a: PatNodeV, b: PatNodeV) -> Seq<PatNodeV> {
    seq![a, b, PatNodeV::Node(ltwf(), seq![0usize, 1usize])]
}

/// The transitivity rule of the order: from `(ltwf ?x ?y)` and `(ltwf ?z ?x)`
/// it adds `(ltwf ?z ?y)`.
pub open spec fn wfo_trans_rule() -> RuleV {
    let x = PatNodeV::Var(seq!['?', 'x']);
    let y = PatNodeV::Var(seq!['?', 'y']);
    let z = PatNodeV::Var(seq!['?', 'z']);
    RuleV {
        name: "wfo transitivity"@,
        long_name: "well founded order transitivity"@,
        searcher: SearcherV::MultiDiff(seq![ltwf_pattern(x, y), ltwf_pattern(z, x)]),
        applier: ApplierV::Pattern(ltwf_pattern(z, y)),
    }
}

/// The variable that stands for the `i`-th parameter of a constructor.
pub open spec fn param_var(i: nat) -> Seq<char> {
    seq!['?', 'p', 'a', 'r', 'a', 'm', '_'] + decimal(i)
}

/// The variable that stands for the class a constructor term is in.
pub open spec fn root_var() -> Seq<char> {
    seq!['?', 'r', 'o', 'o', 't']
}

/// The pattern `(c ?param_0 ?param_1 ...)` of a constructor.
pub open spec fn ctor_pattern(c: FunctionV) -> Seq<PatNodeV> {
    vars_applied(c.name, Seq::new(c.params.len(), |i: int| param_var(i as nat)))
}

/// The rule saying that parameter `i` of constructor `c` is below the
/// constructor term: it finds `(c ?param_0 ...)` in the class `?root` and
/// adds `(ltwf ?param_i ?root)` without merging it.
pub open spec fn ctor_rule(c: FunctionV, i: nat) -> RuleV {
    let name = c.name + seq!['_'] + param_var(i);
    RuleV {
        name: name,
        long_name: name,
        searcher: SearcherV::MultiEq(seq![ctor_pattern(c), seq![PatNodeV::Var(root_var())]]),
        applier: ApplierV::Diff(
            ltwf_pattern(PatNodeV::Var(param_var(i)), PatNodeV::Var(root_var())),
        ),
    }
}

/// The rules of constructor `c` for its first `k` parameters, one for each
/// parameter whose type is `ty`.
pub open spec fn ctor_rules_upto(c: FunctionV, ty: Seq<NodeV>, k: int) -> Seq<RuleV>
    decreases k,
{
    if k <= 0 {
        Seq::empty()
    } else if c.params[k - 1] == ty {
        ctor_rules_upto(c, ty, k - 1).push(ctor_rule(c, (k - 1) as nat))
    } else {
        ctor_rules_upto(c, ty, k - 1)
    }
}

/// The rules of the first `k` constructors of `dt`.
pub open spec fn wfo_rules_upto(dt: DataTypeV, k: int) -> Seq<RuleV>
    decreases k,
{
    if k <= 0 {
        Seq::empty()
    } else {
        let c = dt.constructors[k - 1];
        wfo_rules_upto(dt, k - 1) + ctor_rules_upto(c, leaf_expr(dt.name), c.params.len() as int)
    }
}

/// The well-founded order rules of `dt`: a rule for each recursive
/// parameter of each constructor, in order, then transitivity.
pub open spec fn wfo_rules(dt: DataTypeV) -> Seq<RuleV> {
    wfo_rules_upto(dt, dt.constructors.len() as int).push(wfo_trans_rule())
}

} // verus!
