//! Unification of two types under inference, with the coercions the
//! language allows.

use crate::parser::ast::ExprId;
use crate::typecheck::inference::compat::{
    coercible, lemma_coercible_refl, lemma_refines_refl, lemma_refines_trans, lemma_view_stable, refines,
};
use crate::typecheck::inference::subst::{
    all_vars, apply, apply_seq, free_count, ground, lemma_parts_smaller, lemma_view_apply, other_than, size, table_ok, vars_below,
    view_of,
};
use crate::typecheck::inference::tp::{uf_find, utypes_view, UType, UTypeV, UTypeView, UnifVar};
use crate::typecheck::inference::InferenceCtx;
use crate::typecheck::Coercion;
use vstd::prelude::*;

verus! {

/// Types of two different kinds, neither a variable nor the error type,
/// stay apart however their variables resolve.
proof fn lemma_kinds_apart(a: UTypeV, b: UTypeV, c: Seq<(nat, Option<UTypeV>)>, sol: Seq<UTypeV>)
    requires
        !(a is Error),
        !(b is Error),
        !(a is Var),
        !(b is Var),
        !(a is Int && b is Int),
        !(a is Bool && b is Bool),
        !(a is Ptr && b is Ptr),
        !(a is Slice && b is Slice),
        !(a is Ptr && b is Slice),
        !(a is Array && b is Array),
        !(a is Tuple && b is Tuple),
        !(a is Fn && b is Fn),
    ensures
        !coercible(apply(a, c, sol), apply(b, c, sol)),
{
}

impl<'a> InferenceCtx<'a> {
    /// Everything but the table and the coercions is as in `other`; of the
    /// coercions, only that of `id` may have been recorded.
    pub open spec fn same_but_unification(&self, other: &Self, id: Option<ExprId>) -> bool {
        &&& self.scopes == other.scopes
        &&& self.f == other.f
        &&& self.file == other.file
        &&& self.inferred_types == other.inferred_types
        &&& self.diagnostics == other.diagnostics
        &&& self.coercions@.len() == other.coercions@.len()
        &&& forall|k: int| 0 <= k < other.coercions@.len() && !(id matches Some(e) && e.0 == k)
            ==> #[trigger] self.coercions@[k] == other.coercions@[k]
        &&& id matches Some(e) ==> self.coercions@[e.0 as int] == other.coercions@[e.0 as int]
            || self.coercions@[e.0 as int] == Some(Coercion::ArrayPtrToSlice)
    }

    /// Whether the class of `uv`, which has no type, occurs in `tp` once
    /// resolved.
    pub fn occurs(&mut self, tp: &UType, uv: UnifVar) -> (r: bool)
        requires
            old(self).ok(),
            vars_below(tp@, old(self).nvars()),
            (uv.id as nat) < old(self).nvars(),
            old(self).tbl()[uv.id as int].1 is None,
        ensures
            final(self).ok(),
            final(self).same_state(old(self)),
            r == !all_vars(old(self).res(tp@), other_than(old(self).tbl()[uv.id as int].0)),
        decreases size(old(self).res(tp@)),
    {
        let ghost c = self.tbl();
        let ghost sol = self.sol@;
        let ghost u = c[uv.id as int].0;
        let v = self.view(tp);
        proof {
            lemma_view_apply(tp@, c, sol);
            lemma_parts_smaller(v@, c, sol);
        }
        match v {
            UTypeView::Error => {
                assert(apply(tp@, c, sol) == UTypeV::Error);
                false
            },
            UTypeView::Bool => {
                assert(apply(tp@, c, sol) == UTypeV::Bool);
                false
            },
            UTypeView::Int => {
                assert(apply(tp@, c, sol) == UTypeV::Int);
                false
            },
            UTypeView::UnifVar(w) => {
                let rw = uf_find(&mut self.unif, w);
                let ru = uf_find(&mut self.unif, uv);
                rw.id == ru.id
            },
            UTypeView::Fn(args, ret) => {
                let mut i: usize = 0;
                while i < args.len()
                    invariant
                        self.ok(),
                        self.same_state(old(self)),
                        i <= args@.len(),
                        c == self.tbl(),
                        sol == self.sol@,
                        u == c[uv.id as int].0,
                        (uv.id as nat) < c.len(),
                        c[uv.id as int].1 is None,
                        vars_below(v@, c.len()),
                        v@ == UTypeV::Fn(utypes_view(args@), Box::new(ret@)),
                        apply(v@, c, sol) == apply(tp@, c, sol),
                        forall|k: int| 0 <= k < args@.len() ==> size(apply(#[trigger] utypes_view(args@)[k], c, sol)) < size(apply(v@, c, sol)),
                        forall|k: int| 0 <= k < i ==> all_vars(apply(#[trigger] utypes_view(args@)[k], c, sol), other_than(u)),
                    decreases args.len() - i,
                {
                    assert(utypes_view(args@)[i as int] == args@[i as int]@);
                    if self.occurs(&args[i], uv) {
                        proof {
                            let ts = utypes_view(args@);
                            assert(apply_seq(ts, c, sol)[i as int] == apply(ts[i as int], c, sol));
                        }
                        return true;
                    }
                    i += 1;
                }
                let r = self.occurs(&ret, uv);
                proof {
                    let ts = utypes_view(args@);
                    assert forall|k: int| 0 <= k < ts.len() implies all_vars(#[trigger] apply_seq(ts, c, sol)[k], other_than(u)) by {
                        assert(apply_seq(ts, c, sol)[k] == apply(ts[k], c, sol));
                    }
                }
                r
            },
            UTypeView::Tuple(items) => {
                let mut i: usize = 0;
                while i < items.len()
                    invariant
                        self.ok(),
                        self.same_state(old(self)),
                        i <= items@.len(),
                        c == self.tbl(),
                        sol == self.sol@,
                        u == c[uv.id as int].0,
                        (uv.id as nat) < c.len(),
                        c[uv.id as int].1 is None,
                        vars_below(v@, c.len()),
                        v@ == UTypeV::Tuple(utypes_view(items@)),
                        apply(v@, c, sol) == apply(tp@, c, sol),
                        forall|k: int| 0 <= k < items@.len() ==> size(apply(#[trigger] utypes_view(items@)[k], c, sol)) < size(apply(v@, c, sol)),
                        forall|k: int| 0 <= k < i ==> all_vars(apply(#[trigger] utypes_view(items@)[k], c, sol), other_than(u)),
                    decreases items.len() - i,
                {
                    assert(utypes_view(items@)[i as int] == items@[i as int]@);
                    if self.occurs(&items[i], uv) {
                        proof {
                            let ts = utypes_view(items@);
                            assert(apply_seq(ts, c, sol)[i as int] == apply(ts[i as int], c, sol));
                        }
                        return true;
                    }
                    i += 1;
                }
                proof {
                    let ts = utypes_view(items@);
                    assert forall|k: int| 0 <= k < ts.len() implies all_vars(#[trigger] apply_seq(ts, c, sol)[k], other_than(u)) by {
                        assert(apply_seq(ts, c, sol)[k] == apply(ts[k], c, sol));
                    }
                }
                false
            },
            UTypeView::Array(_, t) => self.occurs(&t, uv),
            UTypeView::Ptr { tp: t, .. } => self.occurs(&t, uv),
            UTypeView::Slice { tp: t, .. } => self.occurs(&t, uv),
        }
    }
    /// Unifies `from` with `to` so that a value of type `from` may stand
    /// where `to` is expected, and says whether that worked. Where a
    /// pointer to an array stands for a slice and `expr_id` is given, the
    /// coercion is recorded for that expression.
    #[verifier::rlimit(100)]
    #[verifier::spinoff_prover]
    pub fn coerce(&mut self, expr_id: Option<ExprId>, from: &UType, to: &UType) -> (b: bool)
        requires
            old(self).ok(),
            vars_below(from@, old(self).nvars()),
            vars_below(to@, old(self).nvars()),
            expr_id matches Some(e) ==> e.0 < old(self).coercions@.len(),
        ensures
            final(self).ok(),
            final(self).same_but_unification(old(self), expr_id),
            final(self).nvars() == old(self).nvars(),
            refines(old(self).tbl(), old(self).sol@, final(self).tbl(), final(self).sol@),
            (final(self).tbl() == old(self).tbl() && final(self).sol == old(self).sol)
                || free_count(final(self).tbl(), old(self).nvars()) < free_count(old(self).tbl(), old(self).nvars()),
            b ==> coercible(final(self).res(from@), final(self).res(to@)),
            from@ == to@ ==> b,
            ground(old(self).res(from@)) && ground(old(self).res(to@)) ==> {
                &&& b == coercible(old(self).res(from@), old(self).res(to@))
                &&& final(self).tbl() == old(self).tbl()
                &&& final(self).sol == old(self).sol
            },
            !b ==> !coercible(final(self).res(from@), final(self).res(to@)),
            old(self).res(from@) is Error || old(self).res(to@) is Error ==> {
                &&& b
                &&& final(self).tbl() == old(self).tbl()
                &&& final(self).sol == old(self).sol
                &&& final(self).coercions == old(self).coercions
            },
            old(self).res(from@) is Var && old(self).res(to@) is Var ==> b && final(self).res(from@) == final(self).res(to@),
            old(self).res(from@) matches UTypeV::Var(w) && !(old(self).res(to@) is Var) && !(old(self).res(to@) is Error)
                && all_vars(old(self).res(to@), other_than(w)) ==> b && final(self).res(from@) == final(self).res(to@),
            old(self).res(to@) matches UTypeV::Var(w) && !(old(self).res(from@) is Var) && !(old(self).res(from@) is Error)
                && all_vars(old(self).res(from@), other_than(w)) ==> b && final(self).res(from@) == final(self).res(to@),
            expr_id matches Some(e) ==> (b && old(self).res(to@) is Slice && (old(self).res(from@) matches UTypeV::Ptr { tp, .. } && *tp is Array)
                ==> final(self).coercions@[e.0 as int] == Some(Coercion::ArrayPtrToSlice)),
            old(self).res(from@) is Ptr && old(self).res(to@) is Slice && !b ==> final(self).coercions@ == old(self).coercions@,
            old(self).res(from@) is Int || old(self).res(from@) is Bool ==> final(self).coercions@ == old(self).coercions@,
            old(self).res(from@) matches UTypeV::Array(n1, _) && old(self).res(to@) matches UTypeV::Array(n2, _) && n1 != n2 ==> !b,
        decreases free_count(old(self).tbl(), old(self).nvars()), size(old(self).res(from@)) + size(old(self).res(to@)), 2nat,
    {
        let ghost c = self.tbl();
        let ghost sol = self.sol@;
        let ghost n = c.len();
        let v1 = self.view(from);
        let v2 = self.view(to);
        proof {
            lemma_view_apply(from@, c, sol);
            lemma_view_apply(to@, c, sol);
            lemma_parts_smaller(v1@, c, sol);
            lemma_parts_smaller(v2@, c, sol);
            lemma_refines_refl(c, sol);
        }
        let ghost gr = ground(apply(from@, c, sol)) && ground(apply(to@, c, sol));
        match (v1, v2) {
            (UTypeView::Error, _) => true,
            (_, UTypeView::Error) => true,
            (UTypeView::Int, UTypeView::Int) => true,
            (UTypeView::Bool, UTypeView::Bool) => true,
            (UTypeView::Ptr { tp: tp1, is_mut: m1 }, UTypeView::Ptr { tp: tp2, is_mut: m2 }) => {
                proof {
                    if gr {
                        assert(ground(apply(tp1@, c, sol)) && ground(apply(tp2@, c, sol)));
                    }
                }
                let r = self.coerce(expr_id, &tp1, &tp2);
                proof {
                    if gr {
                        assert(r == coercible(apply(tp1@, c, sol), apply(tp2@, c, sol)));
                    }
                    lemma_view_stable(from@, c, sol, self.tbl(), self.sol@);
                    lemma_view_stable(to@, c, sol, self.tbl(), self.sol@);
                }
                r && (m1 || !m2)
            },
            (UTypeView::Slice { tp: tp1, is_mut: m1 }, UTypeView::Slice { tp: tp2, is_mut: m2 }) => {
                proof {
                    if gr {
                        assert(ground(apply(tp1@, c, sol)) && ground(apply(tp2@, c, sol)));
                    }
                }
                let r = self.coerce(expr_id, &tp1, &tp2);
                proof {
                    if gr {
                        assert(r == coercible(apply(tp1@, c, sol), apply(tp2@, c, sol)));
                    }
                    lemma_view_stable(from@, c, sol, self.tbl(), self.sol@);
                    lemma_view_stable(to@, c, sol, self.tbl(), self.sol@);
                }
                r && (m1 || !m2)
            },
            (UTypeView::Ptr { tp: tp1, is_mut: m1 }, UTypeView::Slice { tp: tp2, is_mut: m2 }) => {
                let v3 = self.view(&tp1);
                proof {
                    lemma_view_apply(tp1@, c, sol);
                    lemma_parts_smaller(v3@, c, sol);
                }
                proof {
                    if gr {
                        assert(ground(apply(tp1@, c, sol)) && ground(apply(tp2@, c, sol)));
                        assert(ground(apply(v3@, c, sol)));
                    }
                }
                match v3 {
                    UTypeView::Array(_, e1) => {
                        proof {
                            if gr {
                                assert(ground(apply(e1@, c, sol)));
                            }
                        }
                        let r = self.coerce(None, &e1, &tp2);
                        proof {
                            if gr {
                                assert(r == coercible(apply(e1@, c, sol), apply(tp2@, c, sol)));
                            }
                            lemma_view_stable(from@, c, sol, self.tbl(), self.sol@);
                            lemma_view_stable(to@, c, sol, self.tbl(), self.sol@);
                            lemma_view_stable(tp1@, c, sol, self.tbl(), self.sol@);
                        }
                        let b = r && (m1 || !m2);
                        proof {
                            assert(self.coercions@ =~= old(self).coercions@);
                        }
                        if b {
                            if let Some(id) = expr_id {
                                self.coercions.set(id.0, Some(Coercion::ArrayPtrToSlice));
                            }
                        }
                        b
                    },
                    _ => {
                        proof {
                            if gr {
                                assert(!(apply(v3@, c, sol) is Array));
                            }
                        }
                        false
                    },
                }
            },
            (UTypeView::Array(s1, tp1), UTypeView::Array(s2, tp2)) => {
                proof {
                    if gr {
                        assert(ground(apply(tp1@, c, sol)) && ground(apply(tp2@, c, sol)));
                    }
                }
                let r = self.coerce(expr_id, &tp1, &tp2);
                proof {
                    if gr {
                        assert(r == coercible(apply(tp1@, c, sol), apply(tp2@, c, sol)));
                    }
                    lemma_view_stable(from@, c, sol, self.tbl(), self.sol@);
                    lemma_view_stable(to@, c, sol, self.tbl(), self.sol@);
                }
                r && s1 == s2
            },
            (UTypeView::Tuple(tps1), UTypeView::Tuple(tps2)) => {
                self.coerce_tuple(expr_id, &tps1, &tps2, Ghost(from@), Ghost(to@))
            },
            (UTypeView::Fn(args1, r1), UTypeView::Fn(args2, r2)) => {
                self.coerce_fn(expr_id, &args1, &r1, &args2, &r2, Ghost(from@), Ghost(to@))
            },
            (UTypeView::UnifVar(u1), UTypeView::UnifVar(u2)) => {
                proof {
                    assert(!ground(apply(v1@, c, sol)));
                }
                self.union(u1, u2);
                proof {
                    lemma_coercible_refl(self.res(from@));
                }
                true
            },
            (UTypeView::UnifVar(u), tp) => {
                proof {
                    assert(!ground(apply(v1@, c, sol)));
                }
                let t = tp.wrap();
                if !self.occurs(&t, u) {
                    self.resolve(u, t);
                    proof {
                        lemma_view_stable(to@, c, sol, self.tbl(), self.sol@);
                        lemma_coercible_refl(self.res(from@));
                    }
                    true
                } else {
                    false
                }
            },
            (tp, UTypeView::UnifVar(u)) => {
                proof {
                    assert(!ground(apply(v2@, c, sol)));
                }
                let t = tp.wrap();
                if !self.occurs(&t, u) {
                    self.resolve(u, t);
                    proof {
                        lemma_view_stable(from@, c, sol, self.tbl(), self.sol@);
                        lemma_coercible_refl(self.res(to@));
                    }
                    true
                } else {
                    false
                }
            },
            (_, _) => {
                proof {
                    lemma_kinds_apart(v1@, v2@, c, sol);
                }
                false
            },
        }
    }

    /// `coerce` on two tuple types, `from` and `to`, whose parts are `tps1`
    /// and `tps2`.
    fn coerce_tuple(
        &mut self,
        expr_id: Option<ExprId>,
        tps1: &Vec<UType>,
        tps2: &Vec<UType>,
        Ghost(from): Ghost<UTypeV>,
        Ghost(to): Ghost<UTypeV>,
    ) -> (b: bool)
        requires
            old(self).ok(),
            vars_below(from, old(self).nvars()),
            vars_below(to, old(self).nvars()),
            view_of(from, old(self).tbl()) == UTypeV::Tuple(utypes_view(tps1@)),
            view_of(to, old(self).tbl()) == UTypeV::Tuple(utypes_view(tps2@)),
            expr_id matches Some(e) ==> e.0 < old(self).coercions@.len(),
        ensures
            final(self).ok(),
            final(self).same_but_unification(old(self), expr_id),
            final(self).nvars() == old(self).nvars(),
            refines(old(self).tbl(), old(self).sol@, final(self).tbl(), final(self).sol@),
            (final(self).tbl() == old(self).tbl() && final(self).sol == old(self).sol)
                || free_count(final(self).tbl(), old(self).nvars()) < free_count(old(self).tbl(), old(self).nvars()),
            b ==> coercible(final(self).res(from), final(self).res(to)),
            from == to ==> b,
            ground(old(self).res(from)) && ground(old(self).res(to)) ==> {
                &&& b == coercible(old(self).res(from), old(self).res(to))
                &&& final(self).tbl() == old(self).tbl()
                &&& final(self).sol == old(self).sol
            },
            !b ==> !coercible(final(self).res(from), final(self).res(to)),
        decreases free_count(old(self).tbl(), old(self).nvars()), size(old(self).res(from)) + size(old(self).res(to)), 1nat,
    {
        let ghost c = self.tbl();
        let ghost sol = self.sol@;
        let ghost n = c.len();
        proof {
            lemma_view_apply(from, c, sol);
            lemma_view_apply(to, c, sol);
            lemma_parts_smaller(view_of(from, c), c, sol);
            lemma_parts_smaller(view_of(to, c), c, sol);
            assert forall|k: int| 0 <= k < tps1@.len() implies vars_below(#[trigger] tps1@[k]@, n) && size(self.res(tps1@[k]@)) < size(self.res(from)) by {
                assert(utypes_view(tps1@)[k] == tps1@[k]@);
            }
            assert forall|k: int| 0 <= k < tps2@.len() implies vars_below(#[trigger] tps2@[k]@, n) && size(self.res(tps2@[k]@)) < size(self.res(to)) by {
                assert(utypes_view(tps2@)[k] == tps2@[k]@);
            }
            if ground(self.res(from)) && ground(self.res(to)) {
                assert forall|k: int| 0 <= k < tps1@.len() implies ground(#[trigger] self.res(tps1@[k]@)) by {
                    assert(utypes_view(tps1@)[k] == tps1@[k]@);
                    assert(apply_seq(utypes_view(tps1@), c, sol)[k] == self.res(tps1@[k]@));
                }
                assert forall|k: int| 0 <= k < tps2@.len() implies ground(#[trigger] self.res(tps2@[k]@)) by {
                    assert(utypes_view(tps2@)[k] == tps2@[k]@);
                    assert(apply_seq(utypes_view(tps2@), c, sol)[k] == self.res(tps2@[k]@));
                }
            }
        }
        let all = self.coerce_all(expr_id, tps1, tps2, Ghost(from), Ghost(to));
        proof {
            lemma_view_stable(from, c, sol, self.tbl(), self.sol@);
            lemma_view_stable(to, c, sol, self.tbl(), self.sol@);
            let a1 = apply_seq(utypes_view(tps1@), self.tbl(), self.sol@);
            let a2 = apply_seq(utypes_view(tps2@), self.tbl(), self.sol@);
            if all && tps1.len() == tps2.len() {
                assert forall|k: int| 0 <= k < a1.len() implies coercible(#[trigger] a1[k], a2[k]) by {
                    assert(utypes_view(tps1@)[k] == tps1@[k]@);
                    assert(utypes_view(tps2@)[k] == tps2@[k]@);
                    assert(coercible(apply(tps1@[k]@, self.tbl(), self.sol@), apply(tps2@[k]@, self.tbl(), self.sol@)));
                }
            }
            if ground(apply(from, c, sol)) && ground(apply(to, c, sol)) && tps1.len() == tps2.len() && !all {
                let k = choose|k: int| 0 <= k < tps1@.len() && !coercible(#[trigger] apply(tps1@[k]@, c, sol), apply(tps2@[k]@, c, sol));
                assert(utypes_view(tps1@)[k] == tps1@[k]@);
                assert(utypes_view(tps2@)[k] == tps2@[k]@);
                assert(!coercible(a1[k], a2[k]));
            }
            if !all {
                let k = choose|k: int| 0 <= k < tps1@.len() && k < tps2@.len()
                    && !coercible(#[trigger] apply(tps1@[k]@, self.tbl(), self.sol@), apply(tps2@[k]@, self.tbl(), self.sol@));
                assert(utypes_view(tps1@)[k] == tps1@[k]@);
                assert(utypes_view(tps2@)[k] == tps2@[k]@);
                assert(!coercible(a1[k], a2[k]));
            }
            assert(a1.len() == tps1@.len() && a2.len() == tps2@.len());
        }
        all && tps1.len() == tps2.len()
    }

    /// `coerce` on two function types, `from` and `to`, with parameters
    /// `args1` and `args2` and results `r1` and `r2`.
    fn coerce_fn(
        &mut self,
        expr_id: Option<ExprId>,
        args1: &Vec<UType>,
        r1: &UType,
        args2: &Vec<UType>,
        r2: &UType,
        Ghost(from): Ghost<UTypeV>,
        Ghost(to): Ghost<UTypeV>,
    ) -> (b: bool)
        requires
            old(self).ok(),
            vars_below(from, old(self).nvars()),
            vars_below(to, old(self).nvars()),
            view_of(from, old(self).tbl()) == UTypeV::Fn(utypes_view(args1@), Box::new(r1@)),
            view_of(to, old(self).tbl()) == UTypeV::Fn(utypes_view(args2@), Box::new(r2@)),
            expr_id matches Some(e) ==> e.0 < old(self).coercions@.len(),
        ensures
            final(self).ok(),
            final(self).same_but_unification(old(self), expr_id),
            final(self).nvars() == old(self).nvars(),
            refines(old(self).tbl(), old(self).sol@, final(self).tbl(), final(self).sol@),
            (final(self).tbl() == old(self).tbl() && final(self).sol == old(self).sol)
                || free_count(final(self).tbl(), old(self).nvars()) < free_count(old(self).tbl(), old(self).nvars()),
            b ==> coercible(final(self).res(from), final(self).res(to)),
            from == to ==> b,
            ground(old(self).res(from)) && ground(old(self).res(to)) ==> {
                &&& b == coercible(old(self).res(from), old(self).res(to))
                &&& final(self).tbl() == old(self).tbl()
                &&& final(self).sol == old(self).sol
            },
            !b ==> !coercible(final(self).res(from), final(self).res(to)),
        decreases free_count(old(self).tbl(), old(self).nvars()), size(old(self).res(from)) + size(old(self).res(to)), 1nat,
    {
        let ghost c = self.tbl();
        let ghost sol = self.sol@;
        let ghost n = c.len();
        let ghost gr = ground(apply(from, c, sol)) && ground(apply(to, c, sol));
        proof {
            lemma_refines_refl(c, sol);
            lemma_view_apply(from, c, sol);
            lemma_view_apply(to, c, sol);
            lemma_parts_smaller(view_of(from, c), c, sol);
            lemma_parts_smaller(view_of(to, c), c, sol);
            assert forall|k: int| 0 <= k < args1@.len() implies vars_below(#[trigger] args1@[k]@, n) && size(self.res(args1@[k]@)) < size(self.res(from)) by {
                assert(utypes_view(args1@)[k] == args1@[k]@);
            }
            assert forall|k: int| 0 <= k < args2@.len() implies vars_below(#[trigger] args2@[k]@, n) && size(self.res(args2@[k]@)) < size(self.res(to)) by {
                assert(utypes_view(args2@)[k] == args2@[k]@);
            }
            if gr {
                assert forall|k: int| 0 <= k < args1@.len() implies ground(#[trigger] self.res(args1@[k]@)) by {
                    assert(utypes_view(args1@)[k] == args1@[k]@);
                    assert(apply_seq(utypes_view(args1@), c, sol)[k] == self.res(args1@[k]@));
                }
                assert forall|k: int| 0 <= k < args2@.len() implies ground(#[trigger] self.res(args2@[k]@)) by {
                    assert(utypes_view(args2@)[k] == args2@[k]@);
                    assert(apply_seq(utypes_view(args2@), c, sol)[k] == self.res(args2@[k]@));
                }
            }
        }
        let all = self.coerce_all(expr_id, args1, args2, Ghost(from), Ghost(to));
        if all && args1.len() == args2.len() {
            let ghost c1 = self.tbl();
            let ghost s1 = self.sol@;
            proof {
                if gr {
                    assert(ground(apply(r1@, c, sol)));
                    assert(ground(apply(r2@, c, sol)));
                }
            }
            let r = self.coerce(expr_id, r1, r2);
            proof {
                if gr {
                    assert(forall|k: int| 0 <= k < args1@.len() ==> coercible(#[trigger] apply(args1@[k]@, c, sol), apply(args2@[k]@, c, sol)));
                    assert forall|k: int| 0 <= k < args1@.len() implies coercible(#[trigger] apply_seq(utypes_view(args1@), c, sol)[k], apply_seq(utypes_view(args2@), c, sol)[k]) by {
                        assert(utypes_view(args1@)[k] == args1@[k]@);
                        assert(utypes_view(args2@)[k] == args2@[k]@);
                    }
                    assert(apply(from, c, sol) == UTypeV::Fn(apply_seq(utypes_view(args1@), c, sol), Box::new(apply(r1@, c, sol))));
                    assert(apply(to, c, sol) == UTypeV::Fn(apply_seq(utypes_view(args2@), c, sol), Box::new(apply(r2@, c, sol))));
                    assert(r == coercible(apply(r1@, c, sol), apply(r2@, c, sol)));
                }
                lemma_refines_trans(c, sol, c1, s1, self.tbl(), self.sol@);
                lemma_view_stable(from, c, sol, self.tbl(), self.sol@);
                lemma_view_stable(to, c, sol, self.tbl(), self.sol@);
                let a1 = apply_seq(utypes_view(args1@), self.tbl(), self.sol@);
                let a2 = apply_seq(utypes_view(args2@), self.tbl(), self.sol@);
                assert forall|k: int| 0 <= k < a1.len() implies coercible(#[trigger] a1[k], a2[k]) by {
                    assert(utypes_view(args1@)[k] == args1@[k]@);
                    assert(utypes_view(args2@)[k] == args2@[k]@);
                    assert(vars_below(args1@[k]@, n));
                    assert(vars_below(args2@[k]@, n));
                    assert(coercible(apply(args1@[k]@, c1, s1), apply(args2@[k]@, c1, s1)));
                    assert(a1[k] == self.res(args1@[k]@));
                    assert(a2[k] == self.res(args2@[k]@));
                }
            }
            proof {
                if !r {
                    assert(self.res(from) == UTypeV::Fn(apply_seq(utypes_view(args1@), self.tbl(), self.sol@), Box::new(self.res(r1@))));
                    assert(self.res(to) == UTypeV::Fn(apply_seq(utypes_view(args2@), self.tbl(), self.sol@), Box::new(self.res(r2@))));
                }
            }
            r
        } else {
            proof {
                lemma_view_stable(from, c, sol, self.tbl(), self.sol@);
                lemma_view_stable(to, c, sol, self.tbl(), self.sol@);
                let a1 = apply_seq(utypes_view(args1@), self.tbl(), self.sol@);
                let a2 = apply_seq(utypes_view(args2@), self.tbl(), self.sol@);
                assert(a1.len() == args1@.len() && a2.len() == args2@.len());
                if !all {
                    let k = choose|k: int| 0 <= k < args1@.len() && k < args2@.len()
                        && !coercible(#[trigger] apply(args1@[k]@, self.tbl(), self.sol@), apply(args2@[k]@, self.tbl(), self.sol@));
                    assert(utypes_view(args1@)[k] == args1@[k]@);
                    assert(utypes_view(args2@)[k] == args2@[k]@);
                    assert(!coercible(a1[k], a2[k]));
                }
                if gr && args1.len() == args2.len() {
                    let k = choose|k: int| 0 <= k < args1@.len() && !coercible(#[trigger] apply(args1@[k]@, c, sol), apply(args2@[k]@, c, sol));
                    assert(utypes_view(args1@)[k] == args1@[k]@);
                    assert(utypes_view(args2@)[k] == args2@[k]@);
                    assert(!coercible(apply_seq(utypes_view(args1@), c, sol)[k], apply_seq(utypes_view(args2@), c, sol)[k]));
                }
            }
            false
        }
    }

    /// Coerces `tps1[k]` to `tps2[k]` for each `k` in order, as long as
    /// both lists last and each coercion succeeds; says whether all that
    /// were tried succeeded. The lists are the parts of `from` and `to`.
    fn coerce_all(
        &mut self,
        expr_id: Option<ExprId>,
        tps1: &Vec<UType>,
        tps2: &Vec<UType>,
        Ghost(from): Ghost<UTypeV>,
        Ghost(to): Ghost<UTypeV>,
    ) -> (all: bool)
        requires
            old(self).ok(),
            expr_id matches Some(e) ==> e.0 < old(self).coercions@.len(),
            forall|k: int| 0 <= k < tps1@.len() ==> vars_below(#[trigger] tps1@[k]@, old(self).nvars()),
            forall|k: int| 0 <= k < tps2@.len() ==> vars_below(#[trigger] tps2@[k]@, old(self).nvars()),
            forall|k: int| 0 <= k < tps1@.len() ==> size(old(self).res(#[trigger] tps1@[k]@)) < size(old(self).res(from)),
            forall|k: int| 0 <= k < tps2@.len() ==> size(old(self).res(#[trigger] tps2@[k]@)) < size(old(self).res(to)),
        ensures
            final(self).ok(),
            final(self).same_but_unification(old(self), expr_id),
            final(self).nvars() == old(self).nvars(),
            refines(old(self).tbl(), old(self).sol@, final(self).tbl(), final(self).sol@),
            (final(self).tbl() == old(self).tbl() && final(self).sol == old(self).sol)
                || free_count(final(self).tbl(), old(self).nvars()) < free_count(old(self).tbl(), old(self).nvars()),
            utypes_view(tps1@) == utypes_view(tps2@) ==> all,
            all && tps1@.len() == tps2@.len() ==> forall|k: int| 0 <= k < tps1@.len()
                ==> coercible(#[trigger] apply(tps1@[k]@, final(self).tbl(), final(self).sol@), apply(tps2@[k]@, final(self).tbl(), final(self).sol@)),
            (forall|k: int| 0 <= k < tps1@.len() ==> ground(#[trigger] old(self).res(tps1@[k]@)))
                && (forall|k: int| 0 <= k < tps2@.len() ==> ground(#[trigger] old(self).res(tps2@[k]@))) ==> {
                &&& final(self).tbl() == old(self).tbl()
                &&& final(self).sol == old(self).sol
                &&& tps1@.len() == tps2@.len() ==> (all <==> forall|k: int| 0 <= k < tps1@.len()
                    ==> coercible(#[trigger] old(self).res(tps1@[k]@), old(self).res(tps2@[k]@)))
            },
            !all ==> exists|k: int| 0 <= k < tps1@.len() && k < tps2@.len()
                && !coercible(#[trigger] apply(tps1@[k]@, final(self).tbl(), final(self).sol@), apply(tps2@[k]@, final(self).tbl(), final(self).sol@)),
        decreases free_count(old(self).tbl(), old(self).nvars()), size(old(self).res(from)) + size(old(self).res(to)), 0nat,
    {
        let ghost c = self.tbl();
        let ghost sol = self.sol@;
        let ghost n = c.len();
        proof {
            lemma_refines_refl(c, sol);
        }
        let ghost gr = (forall|k: int| 0 <= k < tps1@.len() ==> ground(#[trigger] apply(tps1@[k]@, c, sol)))
            && (forall|k: int| 0 <= k < tps2@.len() ==> ground(#[trigger] apply(tps2@[k]@, c, sol)));
        let mut all = true;
        let mut i: usize = 0;
        while i < tps1.len() && i < tps2.len() && all
            invariant
                gr == ((forall|k: int| 0 <= k < tps1@.len() ==> ground(#[trigger] apply(tps1@[k]@, c, sol)))
                    && (forall|k: int| 0 <= k < tps2@.len() ==> ground(#[trigger] apply(tps2@[k]@, c, sol)))),
                gr ==> self.tbl() == c && self.sol@ == sol,
                !all ==> exists|k: int| 0 <= k < i && k < tps2@.len()
                    && !coercible(#[trigger] apply(tps1@[k]@, self.tbl(), self.sol@), apply(tps2@[k]@, self.tbl(), self.sol@)),
                gr && !all ==> exists|k: int| 0 <= k < i && k < tps2@.len()
                    && !coercible(#[trigger] apply(tps1@[k]@, c, sol), apply(tps2@[k]@, c, sol)),
                self.ok(),
                self.same_but_unification(old(self), expr_id),
                self.nvars() == n,
                c == old(self).tbl(),
                sol == old(self).sol@,
                n == c.len(),
                refines(c, sol, self.tbl(), self.sol@),
                (self.tbl() == c && self.sol@ == sol) || free_count(self.tbl(), n) < free_count(c, n),
                i <= tps1@.len(),
                expr_id matches Some(e) ==> e.0 < old(self).coercions@.len(),
                forall|k: int| 0 <= k < tps1@.len() ==> vars_below(#[trigger] tps1@[k]@, n),
                forall|k: int| 0 <= k < tps2@.len() ==> vars_below(#[trigger] tps2@[k]@, n),
                forall|k: int| 0 <= k < tps1@.len() ==> size(apply(#[trigger] tps1@[k]@, c, sol)) < size(apply(from, c, sol)),
                forall|k: int| 0 <= k < tps2@.len() ==> size(apply(#[trigger] tps2@[k]@, c, sol)) < size(apply(to, c, sol)),
                all ==> forall|k: int| 0 <= k < i ==> coercible(#[trigger] apply(tps1@[k]@, self.tbl(), self.sol@), apply(tps2@[k]@, self.tbl(), self.sol@)),
                utypes_view(tps1@) == utypes_view(tps2@) ==> all,
            decreases tps1.len() - i,
        {
            let ghost pc = self.tbl();
            let ghost ps = self.sol@;
            proof {
                if utypes_view(tps1@) == utypes_view(tps2@) {
                    assert(utypes_view(tps1@)[i as int] == tps1@[i as int]@);
                    assert(utypes_view(tps2@)[i as int] == tps2@[i as int]@);
                }
            }
            let r = self.coerce(expr_id, &tps1[i], &tps2[i]);
            proof {
                lemma_refines_trans(c, sol, pc, ps, self.tbl(), self.sol@);
                assert forall|k: int| 0 <= k < i + 1 && r implies coercible(#[trigger] apply(tps1@[k]@, self.tbl(), self.sol@), apply(tps2@[k]@, self.tbl(), self.sol@)) by {
                    if k < i {
                        assert(coercible(apply(tps1@[k]@, pc, ps), apply(tps2@[k]@, pc, ps)));
                    }
                }
            }
            proof {
                if gr && !r {
                    assert(!coercible(apply(tps1@[i as int]@, c, sol), apply(tps2@[i as int]@, c, sol)));
                }
            }
            if !r {
                all = false;
            }
            i += 1;
        }
        proof {
            if gr && tps1@.len() == tps2@.len() && !all {
                let k = choose|k: int| 0 <= k < i && k < tps2@.len()
                    && !coercible(#[trigger] apply(tps1@[k]@, c, sol), apply(tps2@[k]@, c, sol));
                assert(!coercible(old(self).res(tps1@[k]@), old(self).res(tps2@[k]@)));
            }
        }
        all
    }
}

} // verus!
