//! Source-level types of the language.

use std::sync::Arc;
use vstd::prelude::*;

verus! {

/// A type of the language, as it is sealed after inference.
#[derive(Debug, PartialEq, Eq, Hash)]
pub enum Type {
    Error,
    Int,
    Tuple(Vec<Type>),
    Bool,
    Array(usize, Arc<Type>),
    Fn(Vec<Type>, Arc<Type>),
    Ptr { tp: Arc<Type>, is_mut: bool },
    Slice { tp: Arc<Type>, is_mut: bool },
}

/// The mathematical value of a [`Type`]: the same tree, with sequences in
/// place of vectors.
pub enum TypeV {
    Error,
    Int,
    Tuple(Seq<TypeV>),
    Bool,
    Array(usize, Box<TypeV>),
    Fn(Seq<TypeV>, Box<TypeV>),
    Ptr { tp: Box<TypeV>, is_mut: bool },
    Slice { tp: Box<TypeV>, is_mut: bool },
}

/// The views of a sequence of types, element by element.
pub open spec fn types_view(ts: Seq<Type>) -> Seq<TypeV>
    decreases ts,
{
    Seq::new(ts.len(), |i: int| if 0 <= i < ts.len() { type_view(ts[i]) } else { TypeV::Error })
}

pub open spec fn type_view(t: Type) -> TypeV
    decreases t,
{
    match t {
        Type::Error => TypeV::Error,
        Type::Int => TypeV::Int,
        Type::Bool => TypeV::Bool,
        Type::Tuple(tps) => TypeV::Tuple(types_view(tps@)),
        Type::Array(n, tp) => TypeV::Array(n, Box::new(type_view(*tp))),
        Type::Fn(args, ret) => TypeV::Fn(types_view(args@), Box::new(type_view(*ret))),
        Type::Ptr { tp, is_mut } => TypeV::Ptr { tp: Box::new(type_view(*tp)), is_mut },
        Type::Slice { tp, is_mut } => TypeV::Slice { tp: Box::new(type_view(*tp)), is_mut },
    }
}

impl View for Type {
    type V = TypeV;

    open spec fn view(&self) -> TypeV {
        type_view(*self)
    }
}

impl Type {
    /// A deep copy of `self`.
    pub fn copy(&self) -> (res: Self)
        ensures
            res@ == self@,
        decreases self,
    {
        match self {
            Type::Error => Type::Error,
            Type::Int => Type::Int,
            Type::Bool => Type::Bool,
            Type::Tuple(tps) => {
                assert(decreases_to!(*self => *tps));
                Type::Tuple(clone_types(tps))
            },
            Type::Array(n, tp) => Type::Array(*n, Arc::new((**tp).copy())),
            Type::Fn(args, ret) => {
                assert(decreases_to!(*self => *args));
                Type::Fn(clone_types(args), Arc::new((**ret).copy()))
            },
            Type::Ptr { tp, is_mut } => Type::Ptr { tp: Arc::new((**tp).copy()), is_mut: *is_mut },
            Type::Slice { tp, is_mut } => Type::Slice { tp: Arc::new((**tp).copy()), is_mut: *is_mut },
        }
    }
}

/// Copies a list of types element by element.
#[verifier::loop_isolation(false)]
pub fn clone_types(tps: &Vec<Type>) -> (res: Vec<Type>)
    ensures
        types_view(res@) == types_view(tps@),
    decreases tps,
{
    let mut res: Vec<Type> = Vec::new();
    let mut i: usize = 0;
    while i < tps.len()
        invariant
            i <= tps.len(),
            res.len() == i,
            forall|k: int| 0 <= k < i ==> (#[trigger] res@[k])@ == tps@[k]@,
        decreases tps.len() - i,
    {
        assert(decreases_to!(*tps => tps@[i as int]));
        res.push(tps[i].copy());
        i += 1;
    }
    assert(types_view(res@) =~= types_view(tps@));
    res
}

impl Type {
    pub fn fun(args: Vec<Type>, ret: Type) -> (res: Self)
        ensures
            res@ == TypeV::Fn(types_view(args@), Box::new(ret@)),
    {
        Type::Fn(args, Arc::new(ret))
    }

    pub fn error() -> (res: Self)
        ensures
            res@ == TypeV::Error,
    {
        Type::Error
    }

    /// The integer type.
    pub fn integer() -> (res: Self)
        ensures
            res@ == TypeV::Int,
    {
        Type::Int
    }

    /// The boolean type.
    pub fn boolean() -> (res: Self)
        ensures
            res@ == TypeV::Bool,
    {
        Type::Bool
    }

    pub fn tuple(tps: Vec<Type>) -> (res: Self)
        ensures
            res@ == TypeV::Tuple(types_view(tps@)),
    {
        Type::Tuple(tps)
    }

    pub fn array(size: usize, tp: Type) -> (res: Self)
        ensures
            res@ == TypeV::Array(size, Box::new(tp@)),
    {
        Type::Array(size, Arc::new(tp))
    }

    pub fn ptr(tp: Type, is_mut: bool) -> (res: Self)
        ensures
            res@ == (TypeV::Ptr { tp: Box::new(tp@), is_mut }),
    {
        Type::Ptr { tp: Arc::new(tp), is_mut }
    }

    pub fn slice(tp: Type, is_mut: bool) -> (res: Self)
        ensures
            res@ == (TypeV::Slice { tp: Box::new(tp@), is_mut }),
    {
        Type::Slice { tp: Arc::new(tp), is_mut }
    }
}

} // verus!
