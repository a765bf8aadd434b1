//! Types under inference: types that may hold unification variables, and the
//! unification table that records what each variable stands for.

use crate::tp::{Type, TypeV};
use ena::unify::{InPlaceUnificationTable, NoError, UnifyKey, UnifyValue};
use std::sync::Arc;
use vstd::prelude::*;

verus! {

/// A unification variable. Two variables are the same variable when their
/// ids are equal; `lvl` records the scope depth it was created at.
#[derive(Copy, Clone, Debug, Eq)]
pub struct UnifVar {
    pub id: u32,
    pub lvl: u32,
}

impl PartialEq for UnifVar {
    fn eq(&self, other: &Self) -> (r: bool) {
        self.id == other.id
    }
}

impl vstd::std_specs::cmp::PartialEqSpecImpl for UnifVar {
    open spec fn obeys_eq_spec() -> bool {
        true
    }

    open spec fn eq_spec(&self, other: &Self) -> bool {
        self.id == other.id
    }
}

/// A type under inference.
#[derive(Debug, Clone, PartialEq, Eq)]
pub struct UType {
    pub data: Arc<UTypeView>,
}

/// The outermost constructor of a type under inference.
#[derive(Debug, Clone, PartialEq, Eq)]
pub enum UTypeView {
    Error,
    Int,
    Tuple(Vec<UType>),
    Bool,
    UnifVar(UnifVar),
    Array(usize, UType),
    Fn(Vec<UType>, UType),
    Ptr { tp: UType, is_mut: bool },
    Slice { tp: UType, is_mut: bool },
}

/// The mathematical value of a type under inference; a variable is named
/// by its id.
pub enum UTypeV {
    Error,
    Int,
    Tuple(Seq<UTypeV>),
    Bool,
    Var(nat),
    Array(usize, Box<UTypeV>),
    Fn(Seq<UTypeV>, Box<UTypeV>),
    Ptr { tp: Box<UTypeV>, is_mut: bool },
    Slice { tp: Box<UTypeV>, is_mut: bool },
}

pub open spec fn utypes_view(ts: Seq<UType>) -> Seq<UTypeV>
    decreases ts,
{
    Seq::new(ts.len(), |i: int| if 0 <= i < ts.len() { utype_view(ts[i]) } else { UTypeV::Error })
}

pub open spec fn utype_view(t: UType) -> UTypeV
    decreases t,
{
    uview_view(*t.data)
}

pub open spec fn uview_view(v: UTypeView) -> UTypeV
    decreases v,
{
    match v {
        UTypeView::Error => UTypeV::Error,
        UTypeView::Int => UTypeV::Int,
        UTypeView::Bool => UTypeV::Bool,
        UTypeView::Tuple(ts) => UTypeV::Tuple(utypes_view(ts@)),
        UTypeView::UnifVar(u) => UTypeV::Var(u.id as nat),
        UTypeView::Array(n, t) => UTypeV::Array(n, Box::new(utype_view(t))),
        UTypeView::Fn(args, ret) => UTypeV::Fn(utypes_view(args@), Box::new(utype_view(ret))),
        UTypeView::Ptr { tp, is_mut } => UTypeV::Ptr { tp: Box::new(utype_view(tp)), is_mut },
        UTypeView::Slice { tp, is_mut } => UTypeV::Slice { tp: Box::new(utype_view(tp)), is_mut },
    }
}

impl View for UType {
    type V = UTypeV;

    open spec fn view(&self) -> UTypeV {
        utype_view(*self)
    }
}

impl View for UTypeView {
    type V = UTypeV;

    open spec fn view(&self) -> UTypeV {
        uview_view(*self)
    }
}

/// The view of a value of the unification table.
pub open spec fn opt_view(v: Option<UType>) -> Option<UTypeV> {
    match v {
        Some(t) => Some(t@),
        None => None,
    }
}

/// The type under inference that a sealed type stands for: the same tree,
/// without variables.
pub open spec fn lift(t: TypeV) -> UTypeV
    decreases t,
{
    match t {
        TypeV::Error => UTypeV::Error,
        TypeV::Int => UTypeV::Int,
        TypeV::Bool => UTypeV::Bool,
        TypeV::Tuple(ts) => UTypeV::Tuple(lift_seq(ts)),
        TypeV::Array(n, e) => UTypeV::Array(n, Box::new(lift(*e))),
        TypeV::Fn(args, ret) => UTypeV::Fn(lift_seq(args), Box::new(lift(*ret))),
        TypeV::Ptr { tp, is_mut } => UTypeV::Ptr { tp: Box::new(lift(*tp)), is_mut },
        TypeV::Slice { tp, is_mut } => UTypeV::Slice { tp: Box::new(lift(*tp)), is_mut },
    }
}

pub open spec fn lift_seq(ts: Seq<TypeV>) -> Seq<UTypeV>
    decreases ts,
{
    Seq::new(ts.len(), |i: int| if 0 <= i < ts.len() { lift(ts[i]) } else { UTypeV::Error })
}

impl UTypeView {
    pub fn wrap(self) -> (res: UType)
        ensures
            res@ == self@,
    {
        UType { data: Arc::new(self) }
    }

    /// A deep copy of `self`.
    pub fn copy(&self) -> (res: Self)
        ensures
            res@ == self@,
        decreases self,
    {
        match self {
            UTypeView::Error => UTypeView::Error,
            UTypeView::Int => UTypeView::Int,
            UTypeView::Bool => UTypeView::Bool,
            UTypeView::UnifVar(u) => UTypeView::UnifVar(*u),
            UTypeView::Tuple(ts) => {
                assert(decreases_to!(*self => *ts));
                UTypeView::Tuple(copy_utypes(ts))
            },
            UTypeView::Array(n, t) => UTypeView::Array(*n, t.copy()),
            UTypeView::Fn(args, ret) => {
                assert(decreases_to!(*self => *args));
                UTypeView::Fn(copy_utypes(args), ret.copy())
            },
            UTypeView::Ptr { tp, is_mut } => UTypeView::Ptr { tp: tp.copy(), is_mut: *is_mut },
            UTypeView::Slice { tp, is_mut } => UTypeView::Slice { tp: tp.copy(), is_mut: *is_mut },
        }
    }
}

impl UType {
    /// A deep copy of `self`.
    pub fn copy(&self) -> (res: Self)
        ensures
            res@ == self@,
        decreases self,
    {
        UType { data: Arc::new((*self.data).copy()) }
    }

    pub fn unit() -> (res: Self)
        ensures
            res@ == UTypeV::Tuple(Seq::empty()),
    {
        let res = UTypeView::Tuple(Vec::new()).wrap();
        assert(utypes_view(Seq::<UType>::empty()) =~= Seq::empty());
        res
    }

    pub fn fun(args: Vec<UType>, ret: UType) -> (res: Self)
        ensures
            res@ == UTypeV::Fn(utypes_view(args@), Box::new(ret@)),
    {
        UTypeView::Fn(args, ret).wrap()
    }

    pub fn error() -> (res: Self)
        ensures
            res@ == UTypeV::Error,
    {
        UTypeView::Error.wrap()
    }

    /// The integer type.
    pub fn integer() -> (res: Self)
        ensures
            res@ == UTypeV::Int,
    {
        UTypeView::Int.wrap()
    }

    /// The boolean type.
    pub fn boolean() -> (res: Self)
        ensures
            res@ == UTypeV::Bool,
    {
        UTypeView::Bool.wrap()
    }

    pub fn tuple(tps: Vec<UType>) -> (res: Self)
        ensures
            res@ == UTypeV::Tuple(utypes_view(tps@)),
    {
        UTypeView::Tuple(tps).wrap()
    }

    pub fn array(size: usize, tp: UType) -> (res: Self)
        ensures
            res@ == UTypeV::Array(size, Box::new(tp@)),
    {
        UTypeView::Array(size, tp).wrap()
    }

    pub fn ptr(tp: UType, is_mut: bool) -> (res: Self)
        ensures
            res@ == (UTypeV::Ptr { tp: Box::new(tp@), is_mut }),
    {
        UTypeView::Ptr { tp, is_mut }.wrap()
    }

    pub fn slice(tp: UType, is_mut: bool) -> (res: Self)
        ensures
            res@ == (UTypeV::Slice { tp: Box::new(tp@), is_mut }),
    {
        UTypeView::Slice { tp, is_mut }.wrap()
    }

    /// The type under inference that a sealed type stands for.
    pub fn from_type(t: &Type) -> (res: Self)
        ensures
            res@ == lift(t@),
        decreases t,
    {
        match t {
            Type::Error => UType::error(),
            Type::Int => UType::integer(),
            Type::Bool => UType::boolean(),
            Type::Tuple(tps) => {
                assert(decreases_to!(*t => *tps));
                UType::tuple(from_types(tps))
            },
            Type::Array(n, e) => UType::array(*n, UType::from_type(&**e)),
            Type::Fn(args, ret) => {
                assert(decreases_to!(*t => *args));
                UType::fun(from_types(args), UType::from_type(&**ret))
            },
            Type::Ptr { tp, is_mut } => UType::ptr(UType::from_type(&**tp), *is_mut),
            Type::Slice { tp, is_mut } => UType::slice(UType::from_type(&**tp), *is_mut),
        }
    }
}

/// Copies a list of types element by element.
#[verifier::loop_isolation(false)]
pub fn copy_utypes(ts: &Vec<UType>) -> (res: Vec<UType>)
    ensures
        utypes_view(res@) == utypes_view(ts@),
    decreases ts,
{
    let mut res: Vec<UType> = Vec::new();
    let mut i: usize = 0;
    while i < ts.len()
        invariant
            i <= ts.len(),
            res.len() == i,
            forall|k: int| 0 <= k < i ==> (#[trigger] res@[k])@ == ts@[k]@,
        decreases ts.len() - i,
    {
        assert(decreases_to!(*ts => ts@[i as int]));
        res.push(ts[i].copy());
        i += 1;
    }
    assert(utypes_view(res@) =~= utypes_view(ts@));
    res
}

/// Lifts a list of sealed types element by element.
#[verifier::loop_isolation(false)]
pub fn from_types(ts: &Vec<Type>) -> (res: Vec<UType>)
    ensures
        utypes_view(res@) == lift_seq(crate::tp::types_view(ts@)),
    decreases ts,
{
    let mut res: Vec<UType> = Vec::new();
    let mut i: usize = 0;
    while i < ts.len()
        invariant
            i <= ts.len(),
            res.len() == i,
            forall|k: int| 0 <= k < i ==> (#[trigger] res@[k])@ == lift(ts@[k]@),
        decreases ts.len() - i,
    {
        assert(decreases_to!(*ts => ts@[i as int]));
        res.push(UType::from_type(&ts[i]));
        i += 1;
    }
    assert(utypes_view(res@) =~= lift_seq(crate::tp::types_view(ts@)));
    res
}

#[verifier::external_type_specification]
#[verifier::external_body]
pub struct ExNoError(NoError);

/// Only a variable whose class has no type yet is ever given one, and only
/// two variables without a type are ever unioned (see the requirements of
/// `uf_union` and `uf_union_value`), so the table never merges two types.
impl UnifyValue for UType {
    type Error = NoError;

    fn unify_values(v1: &Self, v2: &Self) -> (r: Result<Self, Self::Error>)
        ensures
            r matches Ok(t) && t@ == v1@,
    {
        Ok(v1.copy())
    }
}

impl UnifyKey for UnifVar {
    type Value = Option<UType>;

    fn index(&self) -> (r: u32)
        ensures
            r == self.id,
    {
        self.id
    }

    fn from_index(id: u32) -> (r: Self)
        ensures
            r == (UnifVar { id, lvl: 0 }),
    {
        UnifVar { id, lvl: 0 }
    }

    fn tag() -> (r: &'static str)
        ensures
            r@ == "uvar"@,
    {
        "uvar"
    }
}

/// The unification table: for every variable, the root of its class and
/// the type bound to that class, if any.
#[verifier::external_body]
pub struct UnifTable {
    table: InPlaceUnificationTable<UnifVar>,
}

/// What the table holds: entry `k` is the id of the root of variable `k`'s
/// class and the type bound to that class.
pub uninterp spec fn uf_contents(t: UnifTable) -> Seq<(nat, Option<UTypeV>)>;

/// `InPlaceUnificationTable::new`: an empty table.
#[verifier::external_body]
pub(crate) fn uf_new() -> (t: UnifTable)
    ensures
        uf_contents(t) == Seq::<(nat, Option<UTypeV>)>::empty(),
{
    UnifTable { table: InPlaceUnificationTable::new() }
}

/// `UnificationTable::len`: the number of variables.
#[verifier::external_body]
pub(crate) fn uf_len(t: &UnifTable) -> (n: usize)
    ensures
        n == uf_contents(*t).len(),
{
    t.table.len()
}

/// `UnificationTable::new_key`: a new variable in a class of its own, with
/// id the number of variables before it and the given value.
#[verifier::external_body]
pub(crate) fn uf_new_key(t: &mut UnifTable, value: Option<UType>) -> (k: UnifVar)
    requires
        uf_contents(*old(t)).len() < u32::MAX,
    ensures
        k.id == uf_contents(*old(t)).len(),
        k.lvl == 0,
        uf_contents(*final(t)) == uf_contents(*old(t)).push((uf_contents(*old(t)).len(), opt_view(value))),
{
    t.table.new_key(value)
}

/// `UnificationTable::probe_value`: the value bound to `k`'s class. The
/// table only compresses paths; what it holds stays the same.
#[verifier::external_body]
pub(crate) fn uf_probe_value(t: &mut UnifTable, k: UnifVar) -> (v: Option<UType>)
    requires
        (k.id as nat) < uf_contents(*old(t)).len(),
    ensures
        uf_contents(*final(t)) == uf_contents(*old(t)),
        opt_view(v) == uf_contents(*old(t))[k.id as int].1,
{
    t.table.probe_value(k)
}

/// `UnificationTable::find`: the root of `k`'s class.
#[verifier::external_body]
pub(crate) fn uf_find(t: &mut UnifTable, k: UnifVar) -> (r: UnifVar)
    requires
        (k.id as nat) < uf_contents(*old(t)).len(),
    ensures
        uf_contents(*final(t)) == uf_contents(*old(t)),
        r.id as nat == uf_contents(*old(t))[k.id as int].0,
{
    t.table.find(k)
}

/// `UnificationTable::union` of two variables whose classes have no value:
/// the two classes become one, rooted at one of the two old roots, still
/// without a value.
#[verifier::external_body]
pub(crate) fn uf_union(t: &mut UnifTable, a: UnifVar, b: UnifVar)
    requires
        (a.id as nat) < uf_contents(*old(t)).len(),
        (b.id as nat) < uf_contents(*old(t)).len(),
        uf_contents(*old(t))[a.id as int].1 is None,
        uf_contents(*old(t))[b.id as int].1 is None,
    ensures
        uf_contents(*final(t)).len() == uf_contents(*old(t)).len(),
        uf_contents(*final(t))[a.id as int].0 == uf_contents(*old(t))[a.id as int].0
            || uf_contents(*final(t))[a.id as int].0 == uf_contents(*old(t))[b.id as int].0,
        forall|k: int| 0 <= k < uf_contents(*old(t)).len() ==> #[trigger] uf_contents(*final(t))[k] == (
            if uf_contents(*old(t))[k].0 == uf_contents(*old(t))[a.id as int].0
                || uf_contents(*old(t))[k].0 == uf_contents(*old(t))[b.id as int].0 {
                (uf_contents(*final(t))[a.id as int].0, None::<UTypeV>)
            } else {
                uf_contents(*old(t))[k]
            }),
{
    t.table.union(a, b)
}

/// `UnificationTable::union_value` on a variable whose class has no value:
/// the class gets `value`.
#[verifier::external_body]
pub(crate) fn uf_union_value(t: &mut UnifTable, k: UnifVar, value: Option<UType>)
    requires
        (k.id as nat) < uf_contents(*old(t)).len(),
        uf_contents(*old(t))[k.id as int].1 is None,
    ensures
        uf_contents(*final(t)).len() == uf_contents(*old(t)).len(),
        forall|j: int| 0 <= j < uf_contents(*old(t)).len() ==> #[trigger] uf_contents(*final(t))[j] == (
            if uf_contents(*old(t))[j].0 == uf_contents(*old(t))[k.id as int].0 {
                (uf_contents(*old(t))[j].0, opt_view(value))
            } else {
                uf_contents(*old(t))[j]
            }),
{
    t.table.union_value(k, value)
}

} // verus!
