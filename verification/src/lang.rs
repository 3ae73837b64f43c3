use vstd::prelude::*;
use crate::expr::{Expr, NodeV};
use crate::text::{concat, decimal, push_decimal};

verus! {

/// A function symbol: its name, the types of its parameters and its return type.
pub struct Function {
    pub name: String,
    pub params: Vec<Expr>,
    pub ret_type: Expr,
}

/// An algebraic datatype: its name and its constructors.
pub struct DataType {
    pub name: String,
    pub constructors: Vec<Function>,
}

/// The view of a function symbol.
pub struct FunctionV {
    pub name: Seq<char>,
    pub params: Seq<Seq<NodeV>>,
    pub ret_type: Seq<NodeV>,
}

/// The view of a datatype.
pub struct DataTypeV {
    pub name: Seq<char>,
    pub constructors: Seq<FunctionV>,
}

impl View for Function {
    type V = FunctionV;

    open spec fn view(&self) -> FunctionV {
        FunctionV {
            name: self.name@,
            params: self.params@.map_values(|p: Expr| p@),
            ret_type: self.ret_type@,
        }
    }
}

impl View for DataType {
    type V = DataTypeV;

    open spec fn view(&self) -> DataTypeV {
        DataTypeV {
            name: self.name@,
            constructors: self.constructors@.map_values(|c: Function| c@),
        }
    }
}

/// The expression made of the single leaf `name`.
pub open spec fn leaf_expr(name: Seq<char>) -> Seq<NodeV> {
    seq![(name, Seq::<usize>::empty())]
}

/// The prefix shared by the names of all placeholder constants.
pub open spec fn ph_prefix() -> Seq<char> {
    seq!['t', 's', '_', 'p', 'h']
}

/// The name of the `i`-th placeholder of the type named `ty`.
pub open spec fn placeholder_name(ty: Seq<char>, i: nat) -> Seq<char> {
    ph_prefix() + seq!['_'] + ty + seq!['_'] + decimal(i)
}

/// The prefix shared by the names of all placeholder constants.
pub fn placeholder_prefix() -> (s: &'static str)
    ensures
        s@ == ph_prefix(),
{
    proof {
        reveal_strlit("ts_ph");
    }
    "ts_ph"
}

impl Function {
    pub fn new(name: String, params: Vec<Expr>, ret_type: Expr) -> (res: Function)
        ensures
            res.name == name,
            res.params == params,
            res.ret_type == ret_type,
    {
        Function { name, params, ret_type }
    }

    /// The expression that stands for this symbol: the leaf of its name.
    pub fn as_exp(&self) -> (res: Expr)
        ensures
            res@ == leaf_expr(self.name@),
    {
        Expr::leaf(self.name.clone())
    }

    /// A copy of this function symbol.
    pub fn duplicate(&self) -> (res: Function)
        ensures
            res@ == self@,
    {
        let mut params: Vec<Expr> = Vec::new();
        let mut i: usize = 0;
        while i < self.params.len()
            invariant
                i <= self.params.len(),
                params@.len() == i,
                forall|k: int| 0 <= k < i ==> #[trigger] params@[k]@ == self.params@[k]@,
            decreases self.params.len() - i,
        {
            params.push(self.params[i].duplicate());
            i += 1;
        }
        let res = Function { name: self.name.clone(), params, ret_type: self.ret_type.duplicate() };
        assert(res@.params =~= self@.params);
        res
    }
}

impl DataType {
    pub fn new(name: String, constructors: Vec<Function>) -> (res: DataType)
        ensures
            res.name == name,
            res.constructors == constructors,
    {
        DataType { name, constructors }
    }

    /// The expression that stands for this type: the leaf of its name.
    pub fn as_exp(&self) -> (res: Expr)
        ensures
            res@ == leaf_expr(self.name@),
    {
        Expr::leaf(self.name.clone())
    }
}

/// The `i`-th placeholder constant of the type named `ty`: a
/// parameterless symbol of that type.
pub fn placeholder(ty: &String, i: usize) -> (res: Function)
    ensures
        res@.name == placeholder_name(ty@, i as nat),
        res@.params.len() == 0,
        res@.ret_type == leaf_expr(ty@),
{
    let mut name = concat(placeholder_prefix(), "_");
    name.append(ty.as_str());
    name.append("_");
    push_decimal(&mut name, i);
    proof {
        reveal_strlit("_");
    }
    assert(name@ =~= placeholder_name(ty@, i as nat));
    let res = Function::new(name, Vec::new(), Expr::leaf(ty.clone()));
    assert(res@.params =~= Seq::<Seq<NodeV>>::empty());
    res
}

/// The placeholder that stands for the induction variable of `datatype`.
pub fn induction_var(datatype: &DataType) -> (res: Function)
    ensures
        res@.name == placeholder_name(datatype.name@, 0),
        res@.params.len() == 0,
        res@.ret_type == leaf_expr(datatype.name@),
{
    placeholder(&datatype.name, 0)
}

} // verus!
