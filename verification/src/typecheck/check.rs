//! Checking patterns and expressions against their types.

use crate::diagnostic::{debug_type, decimal, Diagnostic};
use crate::typecheck::error::error_at;
use crate::diagnostic::debug_str;
use crate::parser::ast::{expr_refs_ok, ExprData, ExprId, File, Ident, Op, PatternData, PatternId};
use crate::tp::{types_view, Type, TypeV};
use crate::typecheck::inference::compat::{coercible, lemma_coercible_refl, lemma_refines_refl, refines};
use crate::typecheck::{local_name, names_call, TypeError};
use crate::typecheck::inference::subst::{
    all_vars, apply, apply_seq, below, lemma_parts_smaller, lemma_view_apply, seal, seal_seq, size, table_ok, vars_below, view_of,
};
use crate::typecheck::inference::tp::{lift, utypes_view, UType, UTypeV, UTypeView};
use crate::typecheck::inference::{
    ident_text, pattern_name, scopes_find, lemma_scopes_find_some, lemma_continues_refl, lemma_continues_report, lemma_continues_same_diags, lemma_continues_trans,
    lemma_vars_mono, InferenceCtx,
};
use std::sync::Arc;
use vstd::prelude::*;

verus! {

/// The variables a pattern binds, left to right.
pub open spec fn pat_vars(f: File, p: PatternId) -> Seq<Ident>
    decreases p.0, 1nat, 0nat,
{
    if p.0 >= f.patterns@.len() || !f.wf() {
        Seq::empty()
    } else {
        match f.patterns@[p.0 as int].0 {
            PatternData::Var { name, .. } => seq![name],
            PatternData::Tuple(ps) => pats_vars(f, ps@, p.0 as nat),
            _ => Seq::empty(),
        }
    }
}

/// The variables the patterns `ps` bind, left to right; only patterns
/// before index `bound` are read.
pub open spec fn pats_vars(f: File, ps: Seq<PatternId>, bound: nat) -> Seq<Ident>
    decreases bound, 0nat, ps.len(),
{
    if ps.len() == 0 {
        Seq::empty()
    } else {
        pats_vars(f, ps.drop_last(), bound) + (if ps.last().0 < bound { pat_vars(f, ps.last()) } else { Seq::empty() })
    }
}


/// What the form of an expression says of the type inferred for it and of
/// whether it may be mutated.
pub open spec fn infer_shape(f: File, e: ExprId, t: UTypeV, m: bool) -> bool {
    match f.exprs@[e.0 as int].0 {
        ExprData::Error => t == UTypeV::Error && m,
        ExprData::Num(_) => t == UTypeV::Int && !m,
        ExprData::True => t == UTypeV::Bool && !m,
        ExprData::False => t == UTypeV::Bool && !m,
        ExprData::Tuple(es) => !m && (t matches UTypeV::Tuple(ts) && ts.len() == es@.len()),
        ExprData::Assign(_, _) => t == UTypeV::Tuple(Seq::empty()) && !m,
        ExprData::AddressOf(_) => !m && t is Ptr,
        ExprData::Array(es) => !m && (t matches UTypeV::Array(n, _) && n == es@.len()),
        ExprData::BinOp(op, _, _) => !m && t == (match op {
            Op::Le | Op::Eq => UTypeV::Bool,
            _ => UTypeV::Int,
        }),
        ExprData::Match(_, _) => !m,
        ExprData::FnCall(_, _) => !m,
        _ => true,
    }
}

/// What the mutability `m` inferred for `e` must be, where it follows from
/// the context (`before`) or from the types recorded for its parts
/// (`after`): a variable is as mutable as its binding, an unbound one
/// counts as mutable; a dereference is as mutable as the pointer, and
/// anything else dereferenced counts as mutable; an element of a slice is
/// as mutable as the slice.
pub open spec fn mut_of_kind(before: InferenceCtx, after: InferenceCtx, e: ExprId, m: bool) -> bool {
    match before.file.exprs@[e.0 as int].0 {
        ExprData::Var(x) => match before.lookup_spec(ident_text(*before.file, x)) {
            Some((_, m2)) => m == m2,
            None => m,
        },
        ExprData::Deref(e1) => match after.inferred_types@[e1.0 as int] {
            Some(u) => match view_of(u@, after.tbl()) {
                UTypeV::Ptr { is_mut, .. } => m == is_mut,
                _ => m,
            },
            None => true,
        },
        ExprData::Index(arr, _) => match after.inferred_types@[arr.0 as int] {
            Some(u) => match view_of(u@, after.tbl()) {
                UTypeV::Slice { is_mut, .. } => m == is_mut,
                _ => true,
            },
            None => true,
        },
        _ => true,
    }
}

/// `e` can never be assigned to: a variable bound immutably, or a value
/// that is not a place (a literal, a tuple, an array, an operation, a call,
/// an address, an assignment or a `match`).
pub open spec fn immutable_target(before: InferenceCtx, e: ExprId) -> bool {
    match before.file.exprs@[e.0 as int].0 {
        ExprData::Var(x) => before.lookup_spec(ident_text(*before.file, x)) matches Some((_, m)) && !m,
        ExprData::Num(_) | ExprData::True | ExprData::False | ExprData::Tuple(_) | ExprData::Array(_)
            | ExprData::BinOp(_, _, _) | ExprData::FnCall(_, _) | ExprData::AddressOf(_)
            | ExprData::Assign(_, _) | ExprData::Match(_, _) => true,
        _ => false,
    }
}

/// The type of a new variable when there are `n` already: the variable
/// `n`, or the error type when no more variables can be made.
pub open spec fn fresh_var(n: nat) -> UTypeV {
    if n < u32::MAX {
        UTypeV::Var(n)
    } else {
        UTypeV::Error
    }
}

/// The message for the missing argument at index `j` (numbered from one),
/// whose parameter type is `p` resolved through the table.
pub open spec fn missing_arg_text(j: int, p: UTypeV, c: Seq<(nat, Option<UTypeV>)>, sol: Seq<UTypeV>) -> Seq<char> {
    "missing arg #"@ + decimal((j + 1) as nat) + " of type "@ + debug_type(seal(apply(p, c, sol)))
}

/// The message for a value of type `got` where `exp` is expected.
pub open spec fn mismatch_text(exp: TypeV, got: TypeV) -> Seq<char> {
    "type mismatch. expected: "@ + debug_type(exp) + ", got: "@ + debug_type(got)
}

/// The message for the extra argument at index `k` (numbered from one).
pub open spec fn unexpected_arg_text(k: int) -> Seq<char> {
    "unexpected arg #"@ + decimal((k + 1) as nat)
}

/// What checking the call `e` of `ident` with arguments `exprs` gives, from
/// the context `before` to `after`: the callee's result type, and, after
/// the arguments are checked, one report for each missing argument (with
/// its parameter type as finally resolved) or extra argument; an unknown
/// callee gives the error type.
pub open spec fn call_typed(before: InferenceCtx, after: InferenceCtx, e: ExprId, ident: Ident, exprs: Seq<ExprId>, t: UTypeV) -> bool {
    match before.lookup_spec(ident_text(*before.file, ident)) {
        Some((ft, _)) => view_of(ft, before.tbl()) matches UTypeV::Fn(ps, rt) && t == *rt && {
            let n = after.diagnostics@.len();
            let k = exprs.len();
            &&& k < ps.len() ==> n >= before.diagnostics@.len() + (ps.len() - k) && forall|j: int| k <= j < ps.len()
                ==> error_at(#[trigger] after.diagnostics@[n - ps.len() + j], before.file.exprs@[e.0 as int].1,
                    missing_arg_text(j, ps[j], after.tbl(), after.sol@))
            &&& k > ps.len() ==> n >= before.diagnostics@.len() + (k - ps.len()) && forall|j: int| ps.len() <= j < k
                ==> error_at(#[trigger] after.diagnostics@[n - k + j], before.file.exprs@[exprs[j].0 as int].1,
                    unexpected_arg_text(j))
        },
        None => t == UTypeV::Error,
    }
}

/// Whether the pattern `p` fits a value of type `t`, with the table `c` and
/// its resolved types `sol`: a literal pattern where `t` may stand for
/// `bool`, a tuple pattern where `t` is seen as a tuple of as many parts,
/// each fitting its part.
pub open spec fn pat_fits(f: File, p: PatternId, t: UTypeV, c: Seq<(nat, Option<UTypeV>)>, sol: Seq<UTypeV>) -> bool
    decreases p.0, 1nat, 0nat,
{
    if p.0 >= f.patterns@.len() || !f.wf() {
        true
    } else {
        match f.patterns@[p.0 as int].0 {
            PatternData::True => coercible(apply(t, c, sol), UTypeV::Bool),
            PatternData::False => coercible(apply(t, c, sol), UTypeV::Bool),
            PatternData::Tuple(ps) => view_of(t, c) matches UTypeV::Tuple(ts) && ts.len() == ps@.len()
                && pats_fit(f, ps@, ts, c, sol, p.0 as nat),
            _ => true,
        }
    }
}

/// Each of the patterns `ps` fits the part of `ts` at its index; only
/// patterns before index `bound` are read.
pub open spec fn pats_fit(f: File, ps: Seq<PatternId>, ts: Seq<UTypeV>, c: Seq<(nat, Option<UTypeV>)>, sol: Seq<UTypeV>, bound: nat) -> bool
    decreases bound, 0nat, ps.len(),
{
    if ps.len() == 0 {
        true
    } else {
        pats_fit(f, ps.drop_last(), ts, c, sol, bound) && (ps.last().0 < bound ==> pat_fits(f, ps.last(), ts[ps.len() - 1], c, sol))
    }
}

/// The bindings the pattern `p` makes against a value of type `t`, left to
/// right: a variable pattern binds its name to `t` itself.
pub open spec fn pat_binds(f: File, p: PatternId, t: UTypeV, c: Seq<(nat, Option<UTypeV>)>) -> Seq<(Ident, UTypeV, bool)>
    decreases p.0, 1nat, 0nat,
{
    if p.0 >= f.patterns@.len() || !f.wf() {
        Seq::empty()
    } else {
        match f.patterns@[p.0 as int].0 {
            PatternData::Var { name, is_mut } => seq![(name, t, is_mut)],
            PatternData::Tuple(ps) => match view_of(t, c) {
                UTypeV::Tuple(ts) => pats_binds(f, ps@, ts, c, p.0 as nat),
                _ => Seq::empty(),
            },
            _ => Seq::empty(),
        }
    }
}

/// The bindings of the patterns `ps` against the parts `ts`, in order.
pub open spec fn pats_binds(f: File, ps: Seq<PatternId>, ts: Seq<UTypeV>, c: Seq<(nat, Option<UTypeV>)>, bound: nat) -> Seq<(Ident, UTypeV, bool)>
    decreases bound, 0nat, ps.len(),
{
    if ps.len() == 0 {
        Seq::empty()
    } else {
        pats_binds(f, ps.drop_last(), ts, c, bound) + (if ps.last().0 < bound { pat_binds(f, ps.last(), ts[ps.len() - 1], c) } else { Seq::empty() })
    }
}

/// The bindings with their types seen as types.
pub open spec fn binds_view(bs: Seq<(Ident, UType, bool)>) -> Seq<(Ident, UTypeV, bool)> {
    bs.map_values(|b: (Ident, UType, bool)| (b.0, b.1@, b.2))
}

/// A type seen through a table is seen the same through any table that
/// refines it, unless it is seen as a variable.
pub proof fn lemma_view_of_stable(t: UTypeV, c: Seq<(nat, Option<UTypeV>)>, sol: Seq<UTypeV>, c2: Seq<(nat, Option<UTypeV>)>, sol2: Seq<UTypeV>)
    requires
        table_ok(c, sol),
        refines(c, sol, c2, sol2),
        vars_below(t, c.len()),
        !(view_of(t, c) is Var),
    ensures
        view_of(t, c2) == view_of(t, c),
{
    lemma_view_apply(t, c, sol);
}

/// That a pattern fits, and the bindings it makes, stay as they are when
/// the table is refined.
pub proof fn lemma_pat_stable(
    f: File,
    p: PatternId,
    t: UTypeV,
    c: Seq<(nat, Option<UTypeV>)>,
    sol: Seq<UTypeV>,
    c2: Seq<(nat, Option<UTypeV>)>,
    sol2: Seq<UTypeV>,
)
    requires
        table_ok(c, sol),
        table_ok(c2, sol2),
        refines(c, sol, c2, sol2),
        vars_below(t, c.len()),
        pat_fits(f, p, t, c, sol),
    ensures
        pat_fits(f, p, t, c2, sol2),
        pat_binds(f, p, t, c2) == pat_binds(f, p, t, c),
    decreases p.0, 1nat,
{
    if p.0 < f.patterns@.len() && f.wf() {
        match f.patterns@[p.0 as int].0 {
            PatternData::True | PatternData::False => {
                assert(vars_below(UTypeV::Bool, c.len()));
                assert(apply(UTypeV::Bool, c, sol) == UTypeV::Bool);
                assert(apply(UTypeV::Bool, c2, sol2) == UTypeV::Bool);
            },
            PatternData::Tuple(ps) => {
                lemma_view_of_stable(t, c, sol, c2, sol2);
                lemma_view_apply(t, c, sol);
                let ts = view_of(t, c)->Tuple_0;
                assert(crate::parser::ast::pattern_refs_ok(f.patterns@[p.0 as int].0, p.0 as int, f.idents@.len()));
                lemma_pats_stable(f, ps@, ts, c, sol, c2, sol2, p.0 as nat);
            },
            _ => {},
        }
    }
}

/// `lemma_pat_stable` for each of a list of patterns.
pub proof fn lemma_pats_stable(
    f: File,
    ps: Seq<PatternId>,
    ts: Seq<UTypeV>,
    c: Seq<(nat, Option<UTypeV>)>,
    sol: Seq<UTypeV>,
    c2: Seq<(nat, Option<UTypeV>)>,
    sol2: Seq<UTypeV>,
    bound: nat,
)
    requires
        table_ok(c, sol),
        table_ok(c2, sol2),
        refines(c, sol, c2, sol2),
        forall|k: int| 0 <= k < ts.len() ==> vars_below(#[trigger] ts[k], c.len()),
        ps.len() <= ts.len(),
        pats_fit(f, ps, ts, c, sol, bound),
    ensures
        pats_fit(f, ps, ts, c2, sol2, bound),
        pats_binds(f, ps, ts, c2, bound) == pats_binds(f, ps, ts, c, bound),
    decreases bound, 0nat, ps.len(),
{
    if ps.len() > 0 {
        lemma_pats_stable(f, ps.drop_last(), ts, c, sol, c2, sol2, bound);
        if ps.last().0 < bound {
            lemma_pat_stable(f, ps.last(), ts[ps.len() - 1], c, sol, c2, sol2);
        }
    }
}

/// Expressions built from numbers, `true`, `false` and operators other
/// than division.
pub open spec fn arith(f: File, e: ExprId) -> bool
    decreases e.0,
{
    if e.0 >= f.exprs@.len() {
        false
    } else {
        match f.exprs@[e.0 as int].0 {
            ExprData::Num(_) => true,
            ExprData::True => true,
            ExprData::False => true,
            ExprData::BinOp(op, e1, e2) => !(op is Div) && e1.0 < e.0 && e2.0 < e.0 && arith(f, e1) && arith(f, e2),
            _ => false,
        }
    }
}

/// `k` is the index of a node of the arithmetic expression `e`.
pub open spec fn in_arith(f: File, e: ExprId, k: int) -> bool
    decreases e.0,
{
    if e.0 >= f.exprs@.len() {
        false
    } else {
        k == e.0 || match f.exprs@[e.0 as int].0 {
            ExprData::BinOp(_, e1, e2) => e1.0 < e.0 && e2.0 < e.0 && (in_arith(f, e1, k) || in_arith(f, e2, k)),
            _ => false,
        }
    }
}

/// The type of a node of an arithmetic expression: `bool` for literals and
/// comparisons, `int` otherwise.
pub open spec fn arith_ty(f: File, k: int) -> TypeV {
    match f.exprs@[k].0 {
        ExprData::True => TypeV::Bool,
        ExprData::False => TypeV::Bool,
        ExprData::BinOp(Op::Le, _, _) => TypeV::Bool,
        ExprData::BinOp(Op::Eq, _, _) => TypeV::Bool,
        _ => TypeV::Int,
    }
}

/// Checking the arithmetic expression `e` recorded the type of each of its
/// nodes, changed no other recorded type, and recorded no coercion.
pub open spec fn arith_recorded(before: InferenceCtx, after: InferenceCtx, e: ExprId) -> bool {
    &&& after.coercions@ == before.coercions@
    &&& after.inferred_types@.len() == before.inferred_types@.len()
    &&& forall|k: int| 0 <= k < before.inferred_types@.len() ==> if in_arith(*before.file, e, k) {
        (#[trigger] after.inferred_types@[k]) matches Some(u) && u@ == lift(arith_ty(*before.file, k))
    } else {
        after.inferred_types@[k] == before.inferred_types@[k]
    }
}

/// The nodes of an expression come no later than the expression.
pub proof fn lemma_in_arith_le(f: File, e: ExprId, k: int)
    requires
        in_arith(f, e, k),
    ensures
        k <= e.0,
    decreases e.0,
{
    if k != e.0 {
        if let ExprData::BinOp(_, e1, e2) = f.exprs@[e.0 as int].0 {
            if in_arith(f, e1, k) {
                lemma_in_arith_le(f, e1, k);
            } else {
                lemma_in_arith_le(f, e2, k);
            }
        }
    }
}

/// The names of a list of bindings.
pub open spec fn binding_names(bs: Seq<(Ident, UType, bool)>) -> Seq<Ident> {
    bs.map_values(|b: (Ident, UType, bool)| b.0)
}

impl<'a> InferenceCtx<'a> {
    /// Every binding names a known identifier and has a type over known
    /// variables.
    pub open spec fn bindings_ok(&self, bs: Seq<(Ident, UType, bool)>) -> bool {
        forall|k: int| 0 <= k < bs.len() ==> (#[trigger] bs[k]).0.0 < self.file.idents@.len()
            && vars_below(bs[k].1@, self.nvars()) && pattern_name(*self.file, bs[k].0)
    }

    /// The type `tp` with every variable resolved; a variable that is still
    /// free becomes the error type.
    pub fn seal_type(&mut self, tp: &UType) -> (res: Type)
        requires
            old(self).ok(),
            vars_below(tp@, old(self).nvars()),
        ensures
            final(self).ok(),
            final(self).same_state(old(self)),
            res@ == seal(old(self).res(tp@)),
        decreases size(old(self).res(tp@)), 1nat,
    {
        let ghost c = self.tbl();
        let ghost sol = self.sol@;
        let v = self.view(tp);
        proof {
            lemma_view_apply(tp@, c, sol);
            lemma_parts_smaller(v@, c, sol);
        }
        match v {
            UTypeView::Error => Type::Error,
            UTypeView::Tuple(tps) => {
                proof {
                    assert forall|k: int| 0 <= k < tps@.len() implies vars_below(#[trigger] tps@[k]@, c.len()) && size(self.res(tps@[k]@)) < size(self.res(tp@)) by {
                        assert(utypes_view(tps@)[k] == tps@[k]@);
                    }
                }
                let ts = self.seal_types(&tps, Ghost(tp@));
                proof {
                    assert(seal_seq(apply_seq(utypes_view(tps@), c, sol)) =~= types_view(ts@));
                }
                Type::Tuple(ts)
            },
            UTypeView::Int => Type::Int,
            UTypeView::Bool => Type::Bool,
            UTypeView::UnifVar(_) => Type::Error,
            UTypeView::Fn(args, ret) => {
                proof {
                    assert forall|k: int| 0 <= k < args@.len() implies vars_below(#[trigger] args@[k]@, c.len()) && size(self.res(args@[k]@)) < size(self.res(tp@)) by {
                        assert(utypes_view(args@)[k] == args@[k]@);
                    }
                }
                let a = self.seal_types(&args, Ghost(tp@));
                let r = self.seal_type(&ret);
                proof {
                    assert(seal_seq(apply_seq(utypes_view(args@), c, sol)) =~= types_view(a@));
                }
                Type::Fn(a, Arc::new(r))
            },
            UTypeView::Ptr { tp: t, is_mut } => Type::Ptr { tp: Arc::new(self.seal_type(&t)), is_mut },
            UTypeView::Array(size, t) => Type::Array(size, Arc::new(self.seal_type(&t))),
            UTypeView::Slice { tp: t, is_mut } => Type::Slice { tp: Arc::new(self.seal_type(&t)), is_mut },
        }
    }

    /// Seals the parts `tps` of the type `whole`, one by one.
    fn seal_types(&mut self, tps: &Vec<UType>, Ghost(whole): Ghost<UTypeV>) -> (res: Vec<Type>)
        requires
            old(self).ok(),
            forall|k: int| 0 <= k < tps@.len() ==> vars_below(#[trigger] tps@[k]@, old(self).nvars()),
            forall|k: int| 0 <= k < tps@.len() ==> size(old(self).res(#[trigger] tps@[k]@)) < size(old(self).res(whole)),
        ensures
            final(self).ok(),
            final(self).same_state(old(self)),
            res@.len() == tps@.len(),
            forall|k: int| 0 <= k < tps@.len() ==> (#[trigger] res@[k])@ == seal(old(self).res(tps@[k]@)),
        decreases size(old(self).res(whole)), 0nat,
    {
        let mut res: Vec<Type> = Vec::new();
        let mut i: usize = 0;
        while i < tps.len()
            invariant
                self.ok(),
                self.same_state(old(self)),
                i <= tps@.len(),
                res@.len() == i,
                forall|k: int| 0 <= k < tps@.len() ==> vars_below(#[trigger] tps@[k]@, old(self).nvars()),
                forall|k: int| 0 <= k < tps@.len() ==> size(old(self).res(#[trigger] tps@[k]@)) < size(old(self).res(whole)),
                forall|k: int| 0 <= k < i ==> (#[trigger] res@[k])@ == seal(old(self).res(tps@[k]@)),
            decreases tps.len() - i,
        {
            let t = self.seal_type(&tps[i]);
            res.push(t);
            i += 1;
        }
        res
    }
    /// Reports the diagnostic `d`.
    pub fn report(&mut self, d: Diagnostic)
        requires
            old(self).ok(),
        ensures
            final(self).ok(),
            final(self).continues(old(self)),
            final(self).tbl() == old(self).tbl(),
            final(self).sol == old(self).sol,
            final(self).scopes == old(self).scopes,
            final(self).inferred_types == old(self).inferred_types,
            final(self).coercions == old(self).coercions,
            final(self).diagnostics@ == old(self).diagnostics@.push(d),
    {
        let ghost prev = *self;
        self.diagnostics.push(d);
        proof {
            lemma_continues_report(&prev, self, d);
        }
    }

    /// Checks the pattern `pat` against the type `tp`: the bindings it
    /// makes, left to right. A pattern that cannot match a value of the
    /// type is reported.
    pub fn check_pat(&mut self, pat: PatternId, tp: &UType) -> (res: Vec<(Ident, UType, bool)>)
        requires
            old(self).ok(),
            pat.0 < old(self).file.patterns@.len(),
            vars_below(tp@, old(self).nvars()),
        ensures
            final(self).ok(),
            final(self).continues(old(self)),
            final(self).nvars() == old(self).nvars(),
            final(self).scopes == old(self).scopes,
            final(self).inferred_types == old(self).inferred_types,
            final(self).coercions@ == old(self).coercions@,
            final(self).bindings_ok(res@),
            final(self).diagnostics@.len() == old(self).diagnostics@.len()
                ==> binding_names(res@) == pat_vars(*old(self).file, pat),
            final(self).diagnostics@.len() == old(self).diagnostics@.len() ==> {
                &&& pat_fits(*old(self).file, pat, tp@, final(self).tbl(), final(self).sol@)
                &&& binds_view(res@) == pat_binds(*old(self).file, pat, tp@, final(self).tbl())
            },
        decreases pat.0,
    {
        let ghost s0 = *self;
        let file: &'a File = self.file;
        proof {
            assert(crate::parser::ast::pattern_refs_ok(file.patterns@[pat.0 as int].0, pat.0 as int, file.idents@.len()));
            lemma_continues_refl(self);
        }
        let span = file.patterns[pat.0].1;
        match &file.patterns[pat.0].0 {
            PatternData::Wildcard => {
                let res: Vec<(Ident, UType, bool)> = Vec::new();
                proof {
                    assert(binds_view(res@) =~= Seq::<(Ident, UTypeV, bool)>::empty());
                }
                res
            },
            PatternData::True | PatternData::False => {
                let b = UType::boolean();
                let ok = self.coerce(None, tp, &b);
                proof {
                    assert(self.coercions@ =~= s0.coercions@);
                }
                if !ok {
                    let exp = self.seal_type(tp);
                    let got = self.seal_type(&b);
                    let ghost s1 = *self;
                    proof {
                        lemma_continues_same_diags(&s0, &s1);
                    }
                    self.report(Diagnostic::type_mismatch(span, &exp, &got));
                    proof {
                        lemma_continues_trans(&s0, &s1, self);
                    }
                } else {
                    proof {
                        lemma_continues_same_diags(&s0, self);
                        assert(apply(b@, self.tbl(), self.sol@) == UTypeV::Bool);
                    }
                }
                let res: Vec<(Ident, UType, bool)> = Vec::new();
                proof {
                    assert(binds_view(res@) =~= Seq::<(Ident, UTypeV, bool)>::empty());
                }
                res
            },
            PatternData::Var { name, is_mut } => {
                let mut res: Vec<(Ident, UType, bool)> = Vec::new();
                res.push((*name, tp.copy(), *is_mut));
                proof {
                    assert(binding_names(res@) =~= seq![*name]);
                    assert(binds_view(res@) =~= seq![(*name, tp@, *is_mut)]);
                }
                res
            },
            PatternData::Tuple(pats) => {
                let v = self.view(tp);
                proof {
                    lemma_view_apply(tp@, self.tbl(), self.sol@);
                }
                match v {
                    UTypeView::Tuple(tps) => {
                        if pats.len() != tps.len() {
                            let exp = self.seal_type(tp);
                            let got = self.seal_type(&UType::unit());
                            let ghost s1 = *self;
                            self.report(Diagnostic::type_mismatch(span, &exp, &got));
                            proof {
                                lemma_continues_trans(&s0, &s1, self);
                            }
                            return Vec::new();
                        }
                        let mut res: Vec<(Ident, UType, bool)> = Vec::new();
                        let mut i: usize = 0;
                        proof {
                            assert forall|k: int| 0 <= k < tps@.len() implies vars_below(#[trigger] tps@[k]@, s0.nvars()) by {
                                assert(utypes_view(tps@)[k] == tps@[k]@);
                            }
                        }
                        proof {
                            assert(pats@.subrange(0, 0) =~= Seq::<PatternId>::empty());
                            assert(binding_names(res@) =~= Seq::<Ident>::empty());
                        }
                        while i < pats.len()
                            invariant
                                self.ok(),
                                self.continues(&s0),
                                self.nvars() == s0.nvars(),
                                self.scopes == s0.scopes,
                                self.inferred_types == s0.inferred_types,
                                self.coercions@ == s0.coercions@,
                                self.file == file,
                                file.wf(),
                                pat.0 < file.patterns@.len(),
                                file.patterns@[pat.0 as int].0 == PatternData::Tuple(*pats),
                                forall|k: int| 0 <= k < pats@.len() ==> (#[trigger] pats@[k]).0 < pat.0,
                                i <= pats@.len(),
                                pats@.len() == tps@.len(),
                                forall|k: int| 0 <= k < tps@.len() ==> vars_below(#[trigger] tps@[k]@, s0.nvars()),
                                self.bindings_ok(res@),
                                self.diagnostics@.len() == s0.diagnostics@.len()
                                    ==> binding_names(res@) == pats_vars(*file, pats@.subrange(0, i as int), pat.0 as nat),
                                self.diagnostics@.len() == s0.diagnostics@.len() ==> {
                                    &&& pats_fit(*file, pats@.subrange(0, i as int), utypes_view(tps@), self.tbl(), self.sol@, pat.0 as nat)
                                    &&& binds_view(res@) == pats_binds(*file, pats@.subrange(0, i as int), utypes_view(tps@), self.tbl(), pat.0 as nat)
                                },
                            decreases pats.len() - i,
                        {
                            let ghost s1 = *self;
                            let ghost res0 = res@;
                            let mut sub = self.check_pat(pats[i], &tps[i]);
                            let ghost sub0 = sub@;
                            res.append(&mut sub);
                            proof {
                                lemma_continues_trans(&s0, &s1, self);
                                assert(pats@.subrange(0, i + 1).drop_last() =~= pats@.subrange(0, i as int));
                                assert(pats@.subrange(0, i + 1).last() == pats@[i as int]);
                                assert(binding_names(res@) =~= binding_names(res0) + binding_names(sub0));
                                assert(binds_view(res@) =~= binds_view(res0) + binds_view(sub0));
                                assert(utypes_view(tps@)[i as int] == tps@[i as int]@);
                                if self.diagnostics@.len() == s0.diagnostics@.len() {
                                    assert(s1.diagnostics@.len() == s0.diagnostics@.len());
                                    assert forall|k: int| 0 <= k < utypes_view(tps@).len() implies vars_below(#[trigger] utypes_view(tps@)[k], s1.tbl().len()) by {
                                        assert(utypes_view(tps@)[k] == tps@[k]@);
                                    }
                                    lemma_pats_stable(*file, pats@.subrange(0, i as int), utypes_view(tps@), s1.tbl(), s1.sol@, self.tbl(), self.sol@, pat.0 as nat);
                                }
                                assert forall|k: int| 0 <= k < res@.len() implies (#[trigger] res@[k]).0.0 < self.file.idents@.len()
                                    && vars_below(res@[k].1@, self.nvars()) by {
                                    if k >= res0.len() {
                                        assert(res@[k] == sub0[k - res0.len()]);
                                    } else {
                                        assert(res@[k] == res0[k]);
                                    }
                                }
                            }
                            i += 1;
                        }
                        proof {
                            assert(pats@.subrange(0, pats@.len() as int) =~= pats@);
                            if self.diagnostics@.len() == s0.diagnostics@.len() {
                                lemma_view_of_stable(tp@, s0.tbl(), s0.sol@, self.tbl(), self.sol@);
                            }
                        }
                        res
                    },
                    _ => {
                        let exp = self.seal_type(tp);
                        let got = self.seal_type(&UType::unit());
                        let ghost s1 = *self;
                        self.report(Diagnostic::type_mismatch(span, &exp, &got));
                        proof {
                            lemma_continues_trans(&s0, &s1, self);
                        }
                        Vec::new()
                    },
                }
            },
        }
    }
    /// Binds each of `bindings` in the innermost scope, in order.
    pub fn extend_all(&mut self, bindings: Vec<(Ident, UType, bool)>)
        requires
            old(self).ok(),
            old(self).bindings_ok(bindings@),
        ensures
            final(self).ok(),
            final(self).continues(old(self)),
            final(self).tbl() == old(self).tbl(),
            final(self).sol == old(self).sol,
            final(self).inferred_types == old(self).inferred_types,
            final(self).coercions == old(self).coercions,
            final(self).diagnostics == old(self).diagnostics,
            final(self).scopes@.len() == old(self).scopes@.len(),
            final(self).scopes@.drop_last() == old(self).scopes@.drop_last(),
            final(self).scopes@.last()@.len() == old(self).scopes@.last()@.len() + bindings@.len(),
            forall|k: int| 0 <= k < old(self).scopes@.last()@.len() ==> #[trigger] final(self).scopes@.last()@[k] == old(self).scopes@.last()@[k],
            forall|k: int| 0 <= k < bindings@.len() ==> {
                let b = #[trigger] final(self).scopes@.last()@[old(self).scopes@.last()@.len() + k];
                b.0 == bindings@[k].0 && b.1@ == bindings@[k].1@ && b.2 == bindings@[k].2
            },
    {
        let ghost s0 = *self;
        let mut i: usize = 0;
        while i < bindings.len()
            invariant
                self.ok(),
                self.tbl() == s0.tbl(),
                self.sol == s0.sol,
                self.f == s0.f,
                self.file == s0.file,
                self.inferred_types == s0.inferred_types,
                self.coercions == s0.coercions,
                self.diagnostics == s0.diagnostics,
                s0.bindings_ok(bindings@),
                s0.scopes@.len() > 0,
                i <= bindings@.len(),
                self.scopes@.len() == s0.scopes@.len(),
                self.scopes@.drop_last() == s0.scopes@.drop_last(),
                self.scopes@.last()@.len() == s0.scopes@.last()@.len() + i,
                forall|k: int| 0 <= k < s0.scopes@.last()@.len() ==> #[trigger] self.scopes@.last()@[k] == s0.scopes@.last()@[k],
                forall|k: int| 0 <= k < i ==> {
                    let b = #[trigger] self.scopes@.last()@[s0.scopes@.last()@.len() + k];
                    b.0 == bindings@[k].0 && b.1@ == bindings@[k].1@ && b.2 == bindings@[k].2
                },
            decreases bindings.len() - i,
        {
            let b = &bindings[i];
            let ghost prev = self.scopes@.last()@;
            self.extend(b.0, b.1.copy(), b.2);
            proof {
                assert(self.scopes@.last()@ == prev.push(self.scopes@.last()@[prev.len() as int]));
                assert forall|k: int| 0 <= k < i + 1 implies {
                    let b = #[trigger] self.scopes@.last()@[s0.scopes@.last()@.len() + k];
                    b.0 == bindings@[k].0 && b.1@ == bindings@[k].1@ && b.2 == bindings@[k].2
                } by {
                    if k < i {
                        assert(self.scopes@.last()@[s0.scopes@.last()@.len() + k] == prev[s0.scopes@.last()@.len() + k]);
                    }
                }
            }
            i += 1;
        }
        proof {
            lemma_refines_refl(s0.tbl(), s0.sol@);
            lemma_continues_same_diags(&s0, self);
        }
    }

    /// Checks the expression `e` against the expected type `exp`, and, when
    /// `exp_mut`, that it may be mutated. A mismatch is reported.
    pub fn check_expr(&mut self, e: ExprId, exp: &UType, exp_mut: bool) -> (r: Result<(), TypeError>)
        requires
            old(self).ok(),
            e.0 < old(self).file.exprs@.len(),
            vars_below(exp@, old(self).nvars()),
        ensures
            final(self).ok(),
            final(self).continues(old(self)),
            arith(*old(self).file, e) ==> r is Ok && arith_recorded(*old(self), *final(self), e),
            r is Ok ==> final(self).scopes@.len() == old(self).scopes@.len(),
            r is Ok ==> (final(self).inferred_types@[e.0 as int] matches Some(u)
                && (final(self).diagnostics@.len() == old(self).diagnostics@.len()
                    ==> coercible(final(self).res(u@), final(self).res(exp@)))),
            r is Ok ==> (final(self).inferred_types@[e.0 as int] matches Some(u)
                && (!coercible(final(self).res(u@), final(self).res(exp@)) ==> exists|k: int|
                    old(self).diagnostics@.len() <= k < final(self).diagnostics@.len() && error_at(
                        #[trigger] final(self).diagnostics@[k],
                        old(self).file.exprs@[e.0 as int].1,
                        mismatch_text(seal(final(self).res(exp@)), seal(final(self).res(u@))),
                    ))),
            r matches Err(err) ==> names_call(*old(self).file, err),
        decreases e.0, 3nat,
    {
        let ghost s0 = *self;
        let file: &'a File = self.file;
        proof {
            assert(expr_refs_ok(file.exprs@[e.0 as int].0, e.0 as int, file.patterns@.len(), file.idents@.len()));
            lemma_continues_refl(self);
        }
        let span = file.exprs[e.0].1;
        match &file.exprs[e.0].0 {
            ExprData::Let(pat, e1, e2) => {
                self.push_scope();
                let ghost s1 = *self;
                proof {
                    lemma_refines_refl(s0.tbl(), s0.sol@);
                    lemma_continues_same_diags(&s0, &s1);
                }
                let x = self.infer_expr(*e1);
                proof {
                    lemma_continues_trans(&s0, &s1, self);
                }
                let (tp, _) = match x {
                    Ok(v) => v,
                    Err(err) => return Err(err),
                };
                let ghost sp = *self;
                self.pop_scope();
                let ghost s2 = *self;
                proof {
                    lemma_refines_refl(sp.tbl(), sp.sol@);
                    lemma_continues_same_diags(&sp, &s2);
                    lemma_continues_trans(&s0, &sp, &s2);
                }
                let bindings = self.check_pat(*pat, &tp);
                proof {
                    lemma_continues_trans(&s0, &s2, self);
                }
                let ghost s3 = *self;
                self.extend_all(bindings);
                proof {
                    lemma_continues_trans(&s0, &s3, self);
                    lemma_vars_mono(exp@, s0.nvars(), self.nvars());
                }
                let ghost s4 = *self;
                let y = self.check_expr(*e2, exp, exp_mut);
                proof {
                    lemma_continues_trans(&s0, &s4, self);
                }
                match y {
                    Ok(()) => {},
                    Err(err) => return Err(err),
                }
                let ghost s5 = *self;
                proof {
                    lemma_vars_mono(exp@, s0.nvars(), self.nvars());
                }
                self.inferred_types.set(e.0, Some(exp.copy()));
                proof {
                    lemma_continues_same_diags(&s5, self);
                    lemma_continues_trans(&s0, &s5, self);
                    lemma_coercible_refl(self.res(exp@));
                }
                Ok(())
            },
            _ => {
                let x = self.infer_expr(e);
                let (got, m) = match x {
                    Ok(v) => v,
                    Err(err) => return Err(err),
                };
                let ghost s1 = *self;
                proof {
                    lemma_vars_mono(exp@, s0.nvars(), self.nvars());
                }
                let ok = self.coerce(Some(e), &got, exp);
                proof {
                    lemma_continues_same_diags(&s1, self);
                    lemma_continues_trans(&s0, &s1, self);
                }
                let ghost kk = self.diagnostics@.len() as int;
                if !ok {
                    let t_exp = self.seal_type(exp);
                    let t_got = self.seal_type(&got);
                    let ghost s2 = *self;
                    self.report(Diagnostic::type_mismatch(span, &t_exp, &t_got));
                    proof {
                        lemma_continues_trans(&s0, &s2, self);
                        assert(error_at(self.diagnostics@[kk], span, mismatch_text(seal(self.res(exp@)), seal(self.res(got@)))));
                    }
                }
                if exp_mut && !m {
                    let ghost s3 = *self;
                    self.report(Diagnostic::exp_mut(span));
                    proof {
                        lemma_continues_trans(&s0, &s3, self);
                        assert(self.diagnostics@[kk] == s3.diagnostics@[kk] || kk >= s3.diagnostics@.len());
                    }
                }
                Ok(())
            },
        }
    }
    /// Infers the type of the expression `e`, and whether it may be
    /// mutated; records the type for `e`.
    pub fn infer_expr(&mut self, e: ExprId) -> (r: Result<(UType, bool), TypeError>)
        requires
            old(self).ok(),
            e.0 < old(self).file.exprs@.len(),
        ensures
            final(self).ok(),
            final(self).continues(old(self)),
            arith(*old(self).file, e) ==> r is Ok && arith_recorded(*old(self), *final(self), e),
            r is Ok ==> final(self).scopes@.len() == old(self).scopes@.len(),
            r matches Ok((t, m)) ==> vars_below(t@, final(self).nvars())
                && (final(self).inferred_types@[e.0 as int] matches Some(u) && u@ == t@)
                && infer_shape(*old(self).file, e, t@, m),
            r matches Ok((t, m)) ==> (old(self).file.exprs@[e.0 as int].0 matches ExprData::Var(x) ==> match old(self).lookup_spec(
                ident_text(*old(self).file, x),
            ) {
                Some((u, m2)) => t@ == u && m == m2,
                None => t@ == UTypeV::Error && m,
            }),
            r matches Ok((t, m)) ==> (old(self).file.exprs@[e.0 as int].0 matches ExprData::FnCall(g, es) ==>
                call_typed(*old(self), *final(self), e, g, es@, t@)),
            r matches Ok((t, m)) ==> mut_of_kind(*old(self), *final(self), e, m),
            r is Ok ==> (old(self).file.exprs@[e.0 as int].0 matches ExprData::Var(x) ==> (
                old(self).lookup_spec(ident_text(*old(self).file, x)) is None ==> final(self).diagnostics@.len() > old(self).diagnostics@.len()
                    && error_at(final(self).diagnostics@.last(), old(self).file.exprs@[e.0 as int].1,
                        "unbound var: "@ + debug_str(old(self).file.idents@[x.0 as int]@)))),
            r is Ok ==> (old(self).file.exprs@[e.0 as int].0 matches ExprData::Deref(e1) ==> (
                final(self).inferred_types@[e1.0 as int] matches Some(u) && !(view_of(u@, final(self).tbl()) is Ptr)
                    ==> final(self).diagnostics@.len() > old(self).diagnostics@.len()
                    && error_at(final(self).diagnostics@.last(), old(self).file.exprs@[e1.0 as int].1,
                        "this expression cannot be dereferenced"@))),
            r is Ok ==> (old(self).file.exprs@[e.0 as int].0 matches ExprData::Index(arr, _) ==> (
                final(self).inferred_types@[arr.0 as int] matches Some(u)
                    && !(view_of(u@, final(self).tbl()) is Array) && !(view_of(u@, final(self).tbl()) is Slice)
                    && !(view_of(u@, final(self).tbl()) is Error)
                    ==> final(self).diagnostics@.len() > old(self).diagnostics@.len()
                    && error_at(final(self).diagnostics@.last(), old(self).file.exprs@[arr.0 as int].1,
                        "this expression cannot be indexed"@))),
            r is Ok ==> (old(self).file.exprs@[e.0 as int].0 matches ExprData::Assign(e1, _) ==> (
                immutable_target(*old(self), e1) ==> exists|k: int| old(self).diagnostics@.len() <= k < final(self).diagnostics@.len()
                    && error_at(#[trigger] final(self).diagnostics@[k], old(self).file.exprs@[e1.0 as int].1,
                        "this expression cannot be mutated"@))),
            r matches Ok((t, m)) ==> (old(self).file.exprs@[e.0 as int].0 matches ExprData::AddressOf(e1) ==> (
                t@ matches UTypeV::Ptr { tp, is_mut } && final(self).inferred_types@[e1.0 as int] matches Some(u)
                    && *tp == u@ && infer_shape(*old(self).file, e1, u@, is_mut)
                    && mut_of_kind(*old(self), *final(self), e1, is_mut))),
            r matches Ok((t, m)) ==> (old(self).file.exprs@[e.0 as int].0 matches ExprData::Array(es) ==>
                t@ == UTypeV::Array(es.len(), Box::new(fresh_var(old(self).nvars())))),
            r matches Ok((t, m)) ==> (old(self).file.exprs@[e.0 as int].0 matches ExprData::Sequence(_, e2) ==>
                (final(self).inferred_types@[e2.0 as int] matches Some(u) && u@ == t@)),
            r matches Ok((t, m)) ==> (old(self).file.exprs@[e.0 as int].0 matches ExprData::Let(_, _, e2) ==>
                (final(self).inferred_types@[e2.0 as int] matches Some(u) && u@ == t@)),
            r matches Ok((t, m)) ==> (old(self).file.exprs@[e.0 as int].0 matches ExprData::Index(arr, _) ==> (
                final(self).inferred_types@[arr.0 as int] matches Some(u) && match view_of(u@, final(self).tbl()) {
                    UTypeV::Array(_, tp) => t@ == *tp,
                    UTypeV::Slice { tp, is_mut } => t@ == *tp && m == is_mut,
                    _ => t@ == UTypeV::Error,
                })),
            r matches Ok((t, m)) ==> (old(self).file.exprs@[e.0 as int].0 matches ExprData::Deref(e1) ==> (
                final(self).inferred_types@[e1.0 as int] matches Some(u) && match view_of(u@, final(self).tbl()) {
                    UTypeV::Ptr { tp, is_mut } => t@ == *tp && m == is_mut,
                    _ => t@ == UTypeV::Error && m,
                })),
            r matches Err(err) ==> names_call(*old(self).file, err),
        decreases e.0, 2nat,
    {
        let ghost s0 = *self;
        let file: &'a File = self.file;
        proof {
            assert(expr_refs_ok(file.exprs@[e.0 as int].0, e.0 as int, file.patterns@.len(), file.idents@.len()));
            lemma_continues_refl(self);
        }
        let span = file.exprs[e.0].1;
        let res: (UType, bool) = match &file.exprs[e.0].0 {
            ExprData::Error => (UType::error(), true),
            ExprData::Num(_) => (UType::integer(), false),
            ExprData::True => (UType::boolean(), false),
            ExprData::False => (UType::boolean(), false),
            ExprData::Var(ident) => match self.lookup(*ident) {
                Some(tp) => tp,
                None => {
                    self.report(Diagnostic::unbound_var(span, &file.idents[ident.0]));
                    (UType::error(), true)
                },
            },
            ExprData::FnCall(ident, exprs) => match self.infer_call(e, *ident, exprs) {
                Ok(v) => v,
                Err(err) => return Err(err),
            },
            ExprData::Let(pat, e1, e2) => match self.infer_let(e, *pat, *e1, *e2) {
                Ok(v) => v,
                Err(err) => return Err(err),
            },
            ExprData::Match(scrutinee, items) => match self.infer_match(e, *scrutinee, items) {
                Ok(v) => v,
                Err(err) => return Err(err),
            },
            ExprData::Tuple(exprs) => match self.infer_tuple(e, exprs) {
                Ok(v) => v,
                Err(err) => return Err(err),
            },
            ExprData::Array(exprs) => match self.infer_array(e, exprs) {
                Ok(v) => v,
                Err(err) => return Err(err),
            },
            ExprData::Assign(e1, e2) => {
                let x = self.infer_expr(*e1);
                let (tp, is_mut) = match x {
                    Ok(v) => v,
                    Err(err) => return Err(err),
                };
                let ghost kd = self.diagnostics@.len() as int;
                if !is_mut {
                    let ghost s1 = *self;
                    self.report(Diagnostic::exp_mut(file.exprs[e1.0].1));
                    proof {
                        lemma_continues_trans(&s0, &s1, self);
                    }
                }
                let ghost s2 = *self;
                let y = self.check_expr(*e2, &tp, false);
                proof {
                    lemma_continues_trans(&s0, &s2, self);
                    if !is_mut {
                        assert(self.diagnostics@[kd] == s2.diagnostics@[kd]);
                    }
                }
                match y {
                    Ok(()) => {},
                    Err(err) => return Err(err),
                }
                (UType::unit(), false)
            },
            ExprData::AddressOf(e1) => {
                let x = self.infer_expr(*e1);
                let (tp, is_mut) = match x {
                    Ok(v) => v,
                    Err(err) => return Err(err),
                };
                (UType::ptr(tp, is_mut), false)
            },
            ExprData::Deref(e1) => {
                let x = self.infer_expr(*e1);
                let (tp, _) = match x {
                    Ok(v) => v,
                    Err(err) => return Err(err),
                };
                let v = self.view(&tp);
                proof {
                    lemma_view_apply(tp@, self.tbl(), self.sol@);
                }
                match v {
                    UTypeView::Ptr { tp, is_mut } => (tp, is_mut),
                    _ => {
                        let ghost s1 = *self;
                        self.report(Diagnostic::cannot_deref(file.exprs[e1.0].1));
                        proof {
                            lemma_continues_trans(&s0, &s1, self);
                        }
                        (UType::error(), true)
                    },
                }
            },
            ExprData::Index(arr, id) => {
                let x = self.check_expr(*id, &UType::integer(), false);
                match x {
                    Ok(()) => {},
                    Err(err) => return Err(err),
                }
                let ghost s1 = *self;
                let y = self.infer_expr(*arr);
                proof {
                    lemma_continues_trans(&s0, &s1, self);
                }
                let (arr_tp, is_mut) = match y {
                    Ok(v) => v,
                    Err(err) => return Err(err),
                };
                let v = self.view(&arr_tp);
                proof {
                    lemma_view_apply(arr_tp@, self.tbl(), self.sol@);
                }
                match v {
                    UTypeView::Array(_, tp) => (tp, is_mut),
                    UTypeView::Slice { tp, is_mut } => (tp, is_mut),
                    UTypeView::Error => (UType::error(), is_mut),
                    _ => {
                        let ghost s2 = *self;
                        self.report(Diagnostic::cannot_index(file.exprs[arr.0].1));
                        proof {
                            lemma_continues_trans(&s0, &s2, self);
                        }
                        (UType::error(), is_mut)
                    },
                }
            },
            ExprData::Sequence(e1, e2) => {
                let x = self.infer_expr(*e1);
                match x {
                    Ok(_) => {},
                    Err(err) => return Err(err),
                }
                let ghost s1 = *self;
                let y = self.infer_expr(*e2);
                proof {
                    lemma_continues_trans(&s0, &s1, self);
                }
                match y {
                    Ok(v) => v,
                    Err(err) => return Err(err),
                }
            },
            ExprData::BinOp(op, e1, e2) => {
                let x = self.check_expr(*e1, &UType::integer(), false);
                match x {
                    Ok(()) => {},
                    Err(err) => return Err(err),
                }
                let ghost s1 = *self;
                let y = self.check_expr(*e2, &UType::integer(), false);
                proof {
                    lemma_continues_trans(&s0, &s1, self);
                }
                match y {
                    Ok(()) => {},
                    Err(err) => return Err(err),
                }
                let tp = match op {
                    Op::Add | Op::Sub | Op::Mul | Op::Div => UType::integer(),
                    Op::Le | Op::Eq => UType::boolean(),
                };
                (tp, false)
            },
        };
        let ghost s9 = *self;
        self.inferred_types.set(e.0, Some(res.0.copy()));
        proof {
            lemma_refines_refl(s9.tbl(), s9.sol@);
            lemma_continues_same_diags(&s9, self);
            lemma_continues_trans(&s0, &s9, self);
        }
        Ok(res)
    }

    /// Infers the type of a call `e` of the function named `ident` with the
    /// arguments `exprs`; each argument is checked against the parameter's
    /// type, and a missing or extra argument is reported.
    fn infer_call(&mut self, e: ExprId, ident: Ident, exprs: &Vec<ExprId>) -> (r: Result<(UType, bool), TypeError>)
        requires
            old(self).ok(),
            e.0 < old(self).file.exprs@.len(),
            ident.0 < old(self).file.idents@.len(),
            old(self).file.exprs@[e.0 as int].0 == ExprData::FnCall(ident, *exprs),
            forall|k: int| 0 <= k < exprs@.len() ==> (#[trigger] exprs@[k]).0 < e.0,
        ensures
            final(self).ok(),
            final(self).continues(old(self)),
            r is Ok ==> final(self).scopes@.len() == old(self).scopes@.len(),
            r matches Ok((t, m)) ==> vars_below(t@, final(self).nvars()) && !m,
            r matches Ok((t, m)) ==> call_typed(*old(self), *final(self), e, ident, exprs@, t@),
            r matches Err(err) ==> names_call(*old(self).file, err),
        decreases e.0, 1nat,
    {
        let ghost s0 = *self;
        let file: &'a File = self.file;
        proof {
            lemma_continues_refl(self);
        }
        let span = file.exprs[e.0].1;
        match self.lookup(ident) {
            Some((tp, _)) => {
                let v = self.view(&tp);
                proof {
                    lemma_view_apply(tp@, self.tbl(), self.sol@);
                }
                match v {
                    UTypeView::Fn(args, ret) => {
                        proof {
                            assert forall|k: int| 0 <= k < args@.len() implies vars_below(#[trigger] args@[k]@, s0.nvars()) by {
                                assert(utypes_view(args@)[k] == args@[k]@);
                            }
                        }
                        let mut id: usize = 0;
                        let mut i: usize = 0;
                        while i < args.len() && i < exprs.len()
                            invariant
                                self.ok(),
                                self.continues(&s0),
                                s0 == *old(self),
                                self.scopes@.len() == s0.scopes@.len(),
                                self.file == file,
                                s0.file == file,
                                i <= args@.len(),
                                i <= exprs@.len(),
                                id == i,
                                e.0 < file.exprs@.len(),
                                forall|k: int| 0 <= k < exprs@.len() ==> (#[trigger] exprs@[k]).0 < e.0,
                                forall|k: int| 0 <= k < args@.len() ==> vars_below(#[trigger] args@[k]@, self.nvars()),
                                vars_below(ret@, self.nvars()),
                            decreases args.len() - i,
                        {
                            id += 1;
                            let ghost s1 = *self;
                            let x = self.check_expr(exprs[i], &args[i], false);
                            proof {
                                lemma_continues_trans(&s0, &s1, self);
                            }
                            match x {
                                Ok(()) => {},
                                Err(err) => return Err(err),
                            }
                            proof {
                                assert forall|k: int| 0 <= k < args@.len() implies vars_below(#[trigger] args@[k]@, self.nvars()) by {
                                    lemma_vars_mono(args@[k]@, s1.nvars(), self.nvars());
                                }
                                lemma_vars_mono(ret@, s1.nvars(), self.nvars());
                            }
                            i += 1;
                        }
                        let ghost s2 = *self;
                        while i < args.len()
                            invariant
                                self.ok(),
                                self.continues(&s0),
                                s0 == *old(self),
                                self.scopes@.len() == s0.scopes@.len(),
                                self.file == file,
                                s0.file == file,
                                i <= args@.len(),
                                exprs@.len() <= i || i == args@.len(),
                                id == i,
                                e.0 < file.exprs@.len(),
                                span == file.exprs@[e.0 as int].1,
                                forall|k: int| 0 <= k < exprs@.len() ==> (#[trigger] exprs@[k]).0 < e.0,
                                forall|k: int| 0 <= k < args@.len() ==> vars_below(#[trigger] args@[k]@, self.nvars()),
                                vars_below(ret@, self.nvars()),
                                self.tbl() == s2.tbl(),
                                self.sol == s2.sol,
                                s2.nvars() == self.nvars(),
                                i > exprs@.len() ==> self.diagnostics@.len() == s2.diagnostics@.len() + (i - exprs@.len()),
                                i <= exprs@.len() ==> self.diagnostics@.len() == s2.diagnostics@.len(),
                                s2.diagnostics@.len() >= s0.diagnostics@.len(),
                                forall|j: int| exprs@.len() <= j < i ==> error_at(
                                    #[trigger] self.diagnostics@[s2.diagnostics@.len() + j - exprs@.len()],
                                    span,
                                    missing_arg_text(j, utypes_view(args@)[j], self.tbl(), self.sol@),
                                ),
                            decreases args.len() - i,
                        {
                            id += 1;
                            let ghost s1 = *self;
                            let t = self.seal_type(&args[i]);
                            let ghost s3 = *self;
                            self.report(Diagnostic::missing_argument(id, span, &t));
                            proof {
                                lemma_continues_trans(&s0, &s1, self);
                                assert(utypes_view(args@)[i as int] == args@[i as int]@);
                                assert forall|j: int| exprs@.len() <= j < i + 1 implies error_at(
                                    #[trigger] self.diagnostics@[s2.diagnostics@.len() + j - exprs@.len()],
                                    span,
                                    missing_arg_text(j, utypes_view(args@)[j], self.tbl(), self.sol@),
                                ) by {
                                    if j < i {
                                        assert(self.diagnostics@[s2.diagnostics@.len() + j - exprs@.len()] == s1.diagnostics@[s2.diagnostics@.len() + j - exprs@.len()]);
                                    }
                                }
                            }
                            i += 1;
                        }
                        let ghost s4 = *self;
                        let mut j: usize = args.len();
                        while j < exprs.len()
                            invariant
                                self.ok(),
                                self.continues(&s0),
                                self.scopes@.len() == s0.scopes@.len(),
                                self.file == file,
                                args@.len() <= j,
                                id == j,
                                e.0 < file.exprs@.len(),
                                forall|k: int| 0 <= k < exprs@.len() ==> (#[trigger] exprs@[k]).0 < e.0,
                                vars_below(ret@, self.nvars()),
                                self.tbl() == s4.tbl(),
                                self.sol == s4.sol,
                                self.diagnostics@.len() == s4.diagnostics@.len() + (j - args@.len()),
                                j <= exprs@.len() || j == args@.len(),
                                self.diagnostics@.subrange(0, s4.diagnostics@.len() as int) == s4.diagnostics@,
                                forall|k: int| args@.len() <= k < j ==> error_at(
                                    #[trigger] self.diagnostics@[s4.diagnostics@.len() + k - args@.len()],
                                    file.exprs@[exprs@[k].0 as int].1,
                                    unexpected_arg_text(k),
                                ),
                            decreases exprs.len() - j,
                        {
                            id += 1;
                            let ghost s1 = *self;
                            self.report(Diagnostic::unexpected_argument(id, file.exprs[exprs[j].0].1));
                            proof {
                                lemma_continues_trans(&s0, &s1, self);
                                assert forall|k: int| args@.len() <= k < j + 1 implies error_at(
                                    #[trigger] self.diagnostics@[s4.diagnostics@.len() + k - args@.len()],
                                    file.exprs@[exprs@[k].0 as int].1,
                                    unexpected_arg_text(k),
                                ) by {
                                    if k < j {
                                        assert(self.diagnostics@[s4.diagnostics@.len() + k - args@.len()] == s1.diagnostics@[s4.diagnostics@.len() + k - args@.len()]);
                                    }
                                }
                                assert(self.diagnostics@.subrange(0, s4.diagnostics@.len() as int) =~= s1.diagnostics@.subrange(0, s4.diagnostics@.len() as int));
                            }
                            j += 1;
                        }
                        proof {
                            assert(v@ == UTypeV::Fn(utypes_view(args@), Box::new(ret@)));
                            assert(utypes_view(args@).len() == args@.len());
                            if exprs@.len() < args@.len() {
                                assert(i == args@.len());
                                assert(self.diagnostics@ =~= s4.diagnostics@);
                                assert forall|jj: int| exprs@.len() <= jj < args@.len() implies error_at(
                                    #[trigger] self.diagnostics@[self.diagnostics@.len() - args@.len() + jj],
                                    span,
                                    missing_arg_text(jj, utypes_view(args@)[jj], self.tbl(), self.sol@),
                                ) by {
                                    assert(self.diagnostics@.len() - args@.len() + jj == s2.diagnostics@.len() + jj - exprs@.len());
                                }
                            }
                            if exprs@.len() > args@.len() {
                                assert forall|jj: int| args@.len() <= jj < exprs@.len() implies error_at(
                                    #[trigger] self.diagnostics@[self.diagnostics@.len() - exprs@.len() + jj],
                                    file.exprs@[exprs@[jj].0 as int].1,
                                    unexpected_arg_text(jj),
                                ) by {
                                    assert(self.diagnostics@.len() - exprs@.len() + jj == s4.diagnostics@.len() + jj - args@.len());
                                }
                            }
                        }
                        Ok((ret, false))
                    },
                    _ => {
                        proof {
                            let name = ident_text(*file, ident);
                            if scopes_find(s0.scopes@, *file, name) is Some {
                                lemma_scopes_find_some(s0.scopes@, *file, name);
                                let (i, j) = choose|i: int, j: int| 0 <= i < s0.scopes@.len() && 0 <= j < s0.scopes@[i]@.len()
                                    && ident_text(*file, (#[trigger] s0.scopes@[i]@[j]).0) == name;
                                let x = s0.scopes@[i]@[j].0;
                                assert(pattern_name(*file, x));
                                assert(local_name(*file, ident));
                            }
                        }
                        Err(TypeError::NotAFunction(e))
                    },
                }
            },
            None => {
                self.report(Diagnostic::unbound_var(span, &file.idents[ident.0]));
                Ok((UType::error(), false))
            },
        }
    }

    /// Infers the type of `let pat = e1 in e2` (the expression `e`): `e1`
    /// in a scope of its own, then `e2` with the bindings of `pat`.
    fn infer_let(&mut self, e: ExprId, pat: PatternId, e1: ExprId, e2: ExprId) -> (r: Result<(UType, bool), TypeError>)
        requires
            old(self).ok(),
            e.0 < old(self).file.exprs@.len(),
            pat.0 < old(self).file.patterns@.len(),
            e1.0 < e.0,
            e2.0 < e.0,
        ensures
            final(self).ok(),
            final(self).continues(old(self)),
            r is Ok ==> final(self).scopes@.len() == old(self).scopes@.len(),
            r matches Ok((t, m)) ==> vars_below(t@, final(self).nvars()),
            r matches Ok((t, m)) ==> (final(self).inferred_types@[e2.0 as int] matches Some(u) && u@ == t@),
            r matches Err(err) ==> names_call(*old(self).file, err),
        decreases e.0, 1nat,
    {
        let ghost s0 = *self;
        proof {
            lemma_continues_refl(self);
        }
        self.push_scope();
        let ghost s1 = *self;
        proof {
            lemma_continues_same_diags(&s0, &s1);
        }
        let x = self.infer_expr(e1);
        proof {
            lemma_continues_trans(&s0, &s1, self);
        }
        let (tp, _) = match x {
            Ok(v) => v,
            Err(err) => return Err(err),
        };
        let ghost sp = *self;
        self.pop_scope();
        proof {
            lemma_refines_refl(sp.tbl(), sp.sol@);
            lemma_continues_same_diags(&sp, self);
            lemma_continues_trans(&s0, &sp, self);
        }
        let ghost s2 = *self;
        let bindings = self.check_pat(pat, &tp);
        proof {
            lemma_continues_trans(&s0, &s2, self);
        }
        let ghost s3 = *self;
        self.extend_all(bindings);
        proof {
            lemma_continues_trans(&s0, &s3, self);
        }
        let ghost s4 = *self;
        let y = self.infer_expr(e2);
        proof {
            lemma_continues_trans(&s0, &s4, self);
        }
        y
    }

    /// Infers the type of the `match` expression `e`: each arm's pattern is
    /// checked against the scrutinee's type, and each arm's body against one
    /// new variable, the type of the whole.
    fn infer_match(&mut self, e: ExprId, scrutinee: ExprId, items: &Vec<(PatternId, ExprId)>) -> (r: Result<(UType, bool), TypeError>)
        requires
            old(self).ok(),
            e.0 < old(self).file.exprs@.len(),
            scrutinee.0 < e.0,
            forall|k: int| 0 <= k < items@.len() ==> (#[trigger] items@[k]).0.0 < old(self).file.patterns@.len() && items@[k].1.0 < e.0,
        ensures
            final(self).ok(),
            final(self).continues(old(self)),
            r is Ok ==> final(self).scopes@.len() == old(self).scopes@.len(),
            r matches Ok((t, m)) ==> vars_below(t@, final(self).nvars()) && !m,
            r matches Err(err) ==> names_call(*old(self).file, err),
        decreases e.0, 1nat,
    {
        let ghost s0 = *self;
        let file: &'a File = self.file;
        let x = self.infer_expr(scrutinee);
        let (pat_tp, _) = match x {
            Ok(v) => v,
            Err(err) => return Err(err),
        };
        let ghost s1 = *self;
        let tp = self.new_uvar();
        proof {
            lemma_continues_same_diags(&s1, self);
            lemma_continues_trans(&s0, &s1, self);
            lemma_vars_mono(pat_tp@, s1.nvars(), self.nvars());
        }
        let mut i: usize = 0;
        while i < items.len()
            invariant
                self.ok(),
                self.continues(&s0),
                s0 == *old(self),
                self.scopes@.len() == s0.scopes@.len(),
                self.file == file,
                s0.file == file,
                i <= items@.len(),
                e.0 < file.exprs@.len(),
                forall|k: int| 0 <= k < items@.len() ==> (#[trigger] items@[k]).0.0 < file.patterns@.len() && items@[k].1.0 < e.0,
                vars_below(pat_tp@, self.nvars()),
                vars_below(tp@, self.nvars()),
            decreases items.len() - i,
        {
            let ghost s2 = *self;
            let bindings = self.check_pat(items[i].0, &pat_tp);
            proof {
                lemma_continues_trans(&s0, &s2, self);
                lemma_vars_mono(tp@, s2.nvars(), self.nvars());
            }
            let ghost s3 = *self;
            self.extend_all(bindings);
            proof {
                lemma_continues_trans(&s0, &s3, self);
            }
            let ghost s4 = *self;
            let y = self.check_expr(items[i].1, &tp, false);
            proof {
                lemma_continues_trans(&s0, &s4, self);
            }
            match y {
                Ok(()) => {},
                Err(err) => return Err(err),
            }
            proof {
                lemma_vars_mono(pat_tp@, s2.nvars(), self.nvars());
                lemma_vars_mono(tp@, s2.nvars(), self.nvars());
            }
            i += 1;
        }
        Ok((tp, false))
    }

    /// Infers the type of the tuple expression `e` with the parts `exprs`.
    fn infer_tuple(&mut self, e: ExprId, exprs: &Vec<ExprId>) -> (r: Result<(UType, bool), TypeError>)
        requires
            old(self).ok(),
            e.0 < old(self).file.exprs@.len(),
            forall|k: int| 0 <= k < exprs@.len() ==> (#[trigger] exprs@[k]).0 < e.0,
        ensures
            final(self).ok(),
            final(self).continues(old(self)),
            r is Ok ==> final(self).scopes@.len() == old(self).scopes@.len(),
            r matches Ok((t, m)) ==> vars_below(t@, final(self).nvars()) && !m
                && (t@ matches UTypeV::Tuple(ts) && ts.len() == exprs@.len()),
            r matches Err(err) ==> names_call(*old(self).file, err),
        decreases e.0, 1nat,
    {
        let ghost s0 = *self;
        proof {
            lemma_continues_refl(self);
        }
        let mut tps: Vec<UType> = Vec::new();
        let mut i: usize = 0;
        while i < exprs.len()
            invariant
                self.ok(),
                self.continues(&s0),
                s0 == *old(self),
                self.scopes@.len() == s0.scopes@.len(),
                i <= exprs@.len(),
                tps@.len() == i,
                e.0 < self.file.exprs@.len(),
                forall|k: int| 0 <= k < exprs@.len() ==> (#[trigger] exprs@[k]).0 < e.0,
                forall|k: int| 0 <= k < i ==> vars_below(#[trigger] tps@[k]@, self.nvars()),
            decreases exprs.len() - i,
        {
            let ghost s1 = *self;
            let x = self.infer_expr(exprs[i]);
            proof {
                lemma_continues_trans(&s0, &s1, self);
            }
            let (t, _) = match x {
                Ok(v) => v,
                Err(err) => return Err(err),
            };
            proof {
                assert forall|k: int| 0 <= k < i implies vars_below(#[trigger] tps@[k]@, self.nvars()) by {
                    lemma_vars_mono(tps@[k]@, s1.nvars(), self.nvars());
                }
            }
            tps.push(t);
            i += 1;
        }
        let t = UType::tuple(tps);
        proof {
            assert forall|k: int| 0 <= k < utypes_view(tps@).len() implies all_vars(#[trigger] utypes_view(tps@)[k], below(self.nvars())) by {
                assert(utypes_view(tps@)[k] == tps@[k]@);
            }
        }
        Ok((t, false))
    }

    /// Infers the type of the array expression `e` with the elements
    /// `exprs`, each checked against one new variable.
    fn infer_array(&mut self, e: ExprId, exprs: &Vec<ExprId>) -> (r: Result<(UType, bool), TypeError>)
        requires
            old(self).ok(),
            e.0 < old(self).file.exprs@.len(),
            forall|k: int| 0 <= k < exprs@.len() ==> (#[trigger] exprs@[k]).0 < e.0,
        ensures
            final(self).ok(),
            final(self).continues(old(self)),
            r is Ok ==> final(self).scopes@.len() == old(self).scopes@.len(),
            r matches Ok((t, m)) ==> vars_below(t@, final(self).nvars()) && !m
                && (t@ matches UTypeV::Array(n, _) && n == exprs@.len()),
            r matches Ok((t, m)) ==> t@ == UTypeV::Array(exprs.len(), Box::new(fresh_var(old(self).nvars()))),
            r matches Err(err) ==> names_call(*old(self).file, err),
        decreases e.0, 1nat,
    {
        let ghost s0 = *self;
        let size = exprs.len();
        let tp = self.new_uvar();
        let ghost tv = tp@;
        proof {
            lemma_continues_same_diags(&s0, self);
        }
        let mut i: usize = 0;
        while i < exprs.len()
            invariant
                self.ok(),
                self.continues(&s0),
                s0 == *old(self),
                self.scopes@.len() == s0.scopes@.len(),
                i <= exprs@.len(),
                e.0 < self.file.exprs@.len(),
                forall|k: int| 0 <= k < exprs@.len() ==> (#[trigger] exprs@[k]).0 < e.0,
                vars_below(tp@, self.nvars()),
                tp@ == fresh_var(s0.nvars()),
            decreases exprs.len() - i,
        {
            let ghost s1 = *self;
            let x = self.check_expr(exprs[i], &tp, false);
            proof {
                lemma_continues_trans(&s0, &s1, self);
            }
            match x {
                Ok(()) => {},
                Err(err) => return Err(err),
            }
            proof {
                lemma_vars_mono(tp@, s1.nvars(), self.nvars());
            }
            i += 1;
        }
        Ok((UType::array(size, tp), false))
    }
}

} // verus!
