//! Signatures of functions, read from their type annotations.

use crate::parser::ast::{File, FnDef, TypeExprData, TypeExprId};
use crate::tp::{types_view, Type, TypeV};
use std::sync::Arc;
use vstd::prelude::*;

verus! {

#[derive(Debug, PartialEq, Eq)]
pub struct FnSignature {
    pub args: Vec<Type>,
    pub ret: Type,
}

/// The types that the type expressions `ts` denote; only those before
/// index `bound` are read.
pub open spec fn types_of_exprs(f: File, ts: Seq<TypeExprId>, bound: nat) -> Seq<TypeV>
    decreases bound, 0nat,
{
    Seq::new(ts.len(), |i: int| if 0 <= i < ts.len() && ts[i].0 < bound { type_of_expr(f, ts[i]) } else { TypeV::Error })
}

/// The type that the type expression `t` of `f` denotes.
pub open spec fn type_of_expr(f: File, t: TypeExprId) -> TypeV
    decreases t.0, 1nat,
{
    if t.0 >= f.type_exprs@.len() || !f.wf() {
        TypeV::Error
    } else {
        let d = f.type_exprs@[t.0 as int].0;
        match d {
            TypeExprData::Error => TypeV::Error,
            TypeExprData::Int => TypeV::Int,
            TypeExprData::Bool => TypeV::Bool,
            TypeExprData::Fn(args, ret) => TypeV::Fn(
                types_of_exprs(f, args@, t.0 as nat),
                Box::new(if ret.0 < t.0 { type_of_expr(f, ret) } else { TypeV::Error }),
            ),
            TypeExprData::Tuple(ts) => TypeV::Tuple(types_of_exprs(f, ts@, t.0 as nat)),
            TypeExprData::Ptr { tp, is_mut } => TypeV::Ptr {
                tp: Box::new(if tp.0 < t.0 { type_of_expr(f, tp) } else { TypeV::Error }),
                is_mut,
            },
            TypeExprData::Array(size, tp) => TypeV::Array(
                size,
                Box::new(if tp.0 < t.0 { type_of_expr(f, tp) } else { TypeV::Error }),
            ),
            TypeExprData::Slice(is_mut, tp) => TypeV::Slice {
                tp: Box::new(if tp.0 < t.0 { type_of_expr(f, tp) } else { TypeV::Error }),
                is_mut,
            },
        }
    }
}

/// An annotation denotes a type of its own shape: `int` and `bool` the
/// base types; a pointer or slice annotation a pointer or slice with exactly
/// the annotation's mutability, to the type its inner annotation denotes;
/// an array annotation an array of the annotated length; a tuple or
/// function annotation a tuple of as many parts or a function of as many
/// parameters, each part the type its annotation denotes.
pub proof fn lemma_annotation_law(f: File, t: TypeExprId)
    requires
        f.wf(),
        t.0 < f.type_exprs@.len(),
    ensures
        match f.type_exprs@[t.0 as int].0 {
            TypeExprData::Int => type_of_expr(f, t) == TypeV::Int,
            TypeExprData::Bool => type_of_expr(f, t) == TypeV::Bool,
            TypeExprData::Error => type_of_expr(f, t) == TypeV::Error,
            TypeExprData::Ptr { tp, is_mut } => type_of_expr(f, t) matches TypeV::Ptr { tp: inner, is_mut: m }
                && m == is_mut && *inner == type_of_expr(f, tp),
            TypeExprData::Slice(is_mut, tp) => type_of_expr(f, t) matches TypeV::Slice { tp: inner, is_mut: m }
                && m == is_mut && *inner == type_of_expr(f, tp),
            TypeExprData::Array(n, tp) => type_of_expr(f, t) matches TypeV::Array(k, inner)
                && k == n && *inner == type_of_expr(f, tp),
            TypeExprData::Tuple(ts) => type_of_expr(f, t) matches TypeV::Tuple(vs) && vs.len() == ts@.len()
                && forall|i: int| 0 <= i < ts@.len() ==> vs[i] == type_of_expr(f, #[trigger] ts@[i]),
            TypeExprData::Fn(args, ret) => type_of_expr(f, t) matches TypeV::Fn(ps, r) && ps.len() == args@.len()
                && *r == type_of_expr(f, ret)
                && forall|i: int| 0 <= i < args@.len() ==> ps[i] == type_of_expr(f, #[trigger] args@[i]),
        },
{
    assert(crate::parser::ast::type_expr_refs_ok(f.type_exprs@[t.0 as int].0, t.0 as int));
    match f.type_exprs@[t.0 as int].0 {
        TypeExprData::Tuple(ts) => {
            assert forall|i: int| 0 <= i < ts@.len() implies types_of_exprs(f, ts@, t.0 as nat)[i] == type_of_expr(f, #[trigger] ts@[i]) by {
                assert(ts@[i].0 < t.0);
            }
        },
        TypeExprData::Fn(args, ret) => {
            assert forall|i: int| 0 <= i < args@.len() implies types_of_exprs(f, args@, t.0 as nat)[i] == type_of_expr(f, #[trigger] args@[i]) by {
                assert(args@[i].0 < t.0);
            }
        },
        _ => {},
    }
}

impl FnSignature {
    /// The function type of this signature.
    pub fn as_type(self) -> (res: Type)
        ensures
            res@ == TypeV::Fn(types_view(self.args@), Box::new(self.ret@)),
    {
        Type::fun(self.args, self.ret)
    }
}

/// Reads the type that the type expression `tp` denotes.
pub fn parse_type(file: &File, tp: TypeExprId) -> (res: Type)
    requires
        file.wf(),
        tp.0 < file.type_exprs@.len(),
    ensures
        res@ == type_of_expr(*file, tp),
    decreases tp.0,
{
    proof {
        assert(crate::parser::ast::type_expr_refs_ok(file.type_exprs@[tp.0 as int].0, tp.0 as int));
    }
    match &file.type_exprs[tp.0].0 {
        TypeExprData::Error => Type::Error,
        TypeExprData::Int => Type::Int,
        TypeExprData::Bool => Type::Bool,
        TypeExprData::Fn(args, ret) => {
            let a = parse_types(file, args, Ghost(tp));
            let r = parse_type(file, *ret);
            let res = Type::fun(a, r);
            res
        },
        TypeExprData::Tuple(types) => {
            let ts = parse_types(file, types, Ghost(tp));
            Type::Tuple(ts)
        },
        TypeExprData::Ptr { tp: inner, is_mut } => Type::Ptr { tp: Arc::new(parse_type(file, *inner)), is_mut: *is_mut },
        TypeExprData::Array(size, inner) => Type::Array(*size, Arc::new(parse_type(file, *inner))),
        TypeExprData::Slice(is_mut, inner) => Type::Slice { tp: Arc::new(parse_type(file, *inner)), is_mut: *is_mut },
    }
}

/// Reads the types that a list of type expressions, children of `parent`,
/// denote.
fn parse_types(file: &File, tps: &Vec<TypeExprId>, Ghost(parent): Ghost<TypeExprId>) -> (res: Vec<Type>)
    requires
        file.wf(),
        parent.0 < file.type_exprs@.len(),
        forall|k: int| 0 <= k < tps@.len() ==> (#[trigger] tps@[k]).0 < parent.0,
    ensures
        types_view(res@) == types_of_exprs(*file, tps@, parent.0 as nat),
    decreases parent.0, 0nat,
{
    let mut res: Vec<Type> = Vec::new();
    let mut i: usize = 0;
    while i < tps.len()
        invariant
            file.wf(),
            i <= tps@.len(),
            res@.len() == i,
            parent.0 < file.type_exprs@.len(),
            forall|k: int| 0 <= k < tps@.len() ==> (#[trigger] tps@[k]).0 < parent.0,
            forall|k: int| 0 <= k < i ==> (#[trigger] res@[k])@ == type_of_expr(*file, tps@[k]),
        decreases tps.len() - i,
    {
        res.push(parse_type(file, tps[i]));
        i += 1;
    }
    assert(types_view(res@) =~= types_of_exprs(*file, tps@, parent.0 as nat));
    res
}

/// The signature of the function `f`: the types of its parameters and of
/// its result.
pub fn func_signature(file: &File, f: &FnDef) -> (res: FnSignature)
    requires
        file.wf(),
        f.ret_type.0 < file.type_exprs@.len(),
        forall|k: int| 0 <= k < f.args@.len() ==> (#[trigger] f.args@[k]).1.0 < file.type_exprs@.len(),
    ensures
        res.args@.len() == f.args@.len(),
        forall|k: int| 0 <= k < f.args@.len() ==> (#[trigger] res.args@[k])@ == type_of_expr(*file, f.args@[k].1),
        res.ret@ == type_of_expr(*file, f.ret_type),
{
    let mut args: Vec<Type> = Vec::new();
    let mut i: usize = 0;
    while i < f.args.len()
        invariant
            file.wf(),
            i <= f.args@.len(),
            args@.len() == i,
            forall|k: int| 0 <= k < f.args@.len() ==> (#[trigger] f.args@[k]).1.0 < file.type_exprs@.len(),
            forall|k: int| 0 <= k < i ==> (#[trigger] args@[k])@ == type_of_expr(*file, f.args@[k].1),
        decreases f.args.len() - i,
    {
        args.push(parse_type(file, f.args[i].1));
        i += 1;
    }
    let ret = parse_type(file, f.ret_type);
    FnSignature { args, ret }
}

} // verus!
