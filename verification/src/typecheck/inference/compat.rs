//! When a value of one type may stand where another is expected.

use crate::typecheck::inference::subst::{
    all_vars, apply, apply_seq, below, seal, seal_seq, bind_of, bind_sol, lemma_all_vars_weaken, lemma_apply_bind, lemma_apply_push, lemma_apply_union,
    lemma_view_apply, rename, rename_seq, rename_sol, subst, subst_seq, table_ok, union_of, vars_below, view_of,
};
use crate::typecheck::inference::tp::{lift, lift_seq, UTypeV};
use crate::tp::TypeV;
use vstd::prelude::*;

verus! {

/// A value of type `a` may be used where `b` is expected: the types agree,
/// up to the error type (which agrees with anything), a mutable pointer or
/// slice standing for an immutable one, and a pointer to an array standing
/// for a slice of its elements.
pub open spec fn coercible(a: UTypeV, b: UTypeV) -> bool
    decreases a,
{
    match (a, b) {
        (UTypeV::Error, _) => true,
        (_, UTypeV::Error) => true,
        (UTypeV::Int, UTypeV::Int) => true,
        (UTypeV::Bool, UTypeV::Bool) => true,
        (UTypeV::Ptr { tp: t1, is_mut: m1 }, UTypeV::Ptr { tp: t2, is_mut: m2 }) => coercible(*t1, *t2) && (m1 || !m2),
        (UTypeV::Slice { tp: t1, is_mut: m1 }, UTypeV::Slice { tp: t2, is_mut: m2 }) => coercible(*t1, *t2) && (m1 || !m2),
        (UTypeV::Ptr { tp: t1, is_mut: m1 }, UTypeV::Slice { tp: t2, is_mut: m2 }) => match *t1 {
            UTypeV::Array(_, e1) => coercible(*e1, *t2) && (m1 || !m2),
            _ => false,
        },
        (UTypeV::Array(s1, t1), UTypeV::Array(s2, t2)) => coercible(*t1, *t2) && s1 == s2,
        (UTypeV::Tuple(ts1), UTypeV::Tuple(ts2)) => ts1.len() == ts2.len() && forall|i: int|
            0 <= i < ts1.len() ==> coercible(#[trigger] ts1[i], ts2[i]),
        (UTypeV::Fn(a1, r1), UTypeV::Fn(a2, r2)) => a1.len() == a2.len() && (forall|i: int|
            0 <= i < a1.len() ==> coercible(#[trigger] a1[i], a2[i])) && coercible(*r1, *r2),
        (UTypeV::Var(u), UTypeV::Var(v)) => u == v,
        _ => false,
    }
}

/// An array stands only for an array of the same length, of elements that
/// its own elements may stand for.
pub proof fn lemma_coercible_array_length(n1: usize, a: UTypeV, n2: usize, b: UTypeV)
    requires
        coercible(UTypeV::Array(n1, Box::new(a)), UTypeV::Array(n2, Box::new(b))),
    ensures
        n1 == n2,
        coercible(a, b),
{
}

/// A value can never stand where a mutable pointer or slice is expected
/// unless it is itself mutable: what stands for a mutable pointer is a
/// mutable pointer, and what stands for a mutable slice is a mutable slice
/// or a mutable pointer to an array. Neither type is the error type here.
pub proof fn lemma_coercible_keeps_mutability(a: UTypeV, b: UTypeV)
    requires
        coercible(a, b),
        !(a is Error),
        !(b is Error),
    ensures
        b matches UTypeV::Ptr { is_mut: true, .. } ==> (a matches UTypeV::Ptr { is_mut: true, .. }),
        b matches UTypeV::Slice { is_mut: true, .. } ==> (a matches UTypeV::Slice { is_mut: true, .. })
            || (a matches UTypeV::Ptr { tp, is_mut: true } && *tp is Array),
{
}

/// Apart from the error type, which agrees with anything, coercion keeps
/// the kind of a type: an integer stands only for an integer and a boolean
/// only for a boolean, a tuple only for a tuple of as many parts, a pointer
/// only for a pointer or (to an array) a slice, and a variable only for
/// itself.
pub proof fn lemma_coercible_keeps_kind(a: UTypeV, b: UTypeV)
    requires
        coercible(a, b),
        !(a is Error),
        !(b is Error),
    ensures
        a is Int <==> b is Int,
        a is Bool <==> b is Bool,
        a matches UTypeV::Tuple(ts1) ==> (b matches UTypeV::Tuple(ts2) && ts1.len() == ts2.len()),
        a matches UTypeV::Fn(ps1, _) ==> (b matches UTypeV::Fn(ps2, _) && ps1.len() == ps2.len()),
        a is Ptr ==> b is Ptr || b is Slice,
        a is Slice ==> b is Slice,
        a is Array ==> b is Array,
        a matches UTypeV::Var(u) ==> b == UTypeV::Var(u),
{
}

/// Every type may stand where it is expected itself.
pub proof fn lemma_coercible_refl(t: UTypeV)
    ensures
        coercible(t, t),
    decreases t,
{
    match t {
        UTypeV::Tuple(ts) => {
            assert forall|i: int| 0 <= i < ts.len() implies coercible(#[trigger] ts[i], ts[i]) by {
                lemma_coercible_refl(ts[i]);
            }
        },
        UTypeV::Fn(args, ret) => {
            lemma_coercible_refl(*ret);
            assert forall|i: int| 0 <= i < args.len() implies coercible(#[trigger] args[i], args[i]) by {
                lemma_coercible_refl(args[i]);
            }
        },
        UTypeV::Array(_, e) => lemma_coercible_refl(*e),
        UTypeV::Ptr { tp, .. } => lemma_coercible_refl(*tp),
        UTypeV::Slice { tp, .. } => lemma_coercible_refl(*tp),
        _ => {},
    }
}

/// Renaming variables keeps two types coercible.
pub proof fn lemma_coercible_rename(a: UTypeV, b: UTypeV, x: nat, y: nat, r: nat)
    requires
        coercible(a, b),
    ensures
        coercible(rename(a, x, y, r), rename(b, x, y, r)),
    decreases a,
{
    match (a, b) {
        (UTypeV::Error, _) => {},
        (_, UTypeV::Error) => {},
        (UTypeV::Ptr { tp: t1, .. }, UTypeV::Ptr { tp: t2, .. }) => lemma_coercible_rename(*t1, *t2, x, y, r),
        (UTypeV::Slice { tp: t1, .. }, UTypeV::Slice { tp: t2, .. }) => lemma_coercible_rename(*t1, *t2, x, y, r),
        (UTypeV::Ptr { tp: t1, .. }, UTypeV::Slice { tp: t2, .. }) => {
            if let UTypeV::Array(n, e1) = *t1 {
                lemma_coercible_rename(*e1, *t2, x, y, r);
                assert(rename(*t1, x, y, r) == UTypeV::Array(n, Box::new(rename(*e1, x, y, r))));
            }
        },
        (UTypeV::Array(_, t1), UTypeV::Array(_, t2)) => lemma_coercible_rename(*t1, *t2, x, y, r),
        (UTypeV::Tuple(ts1), UTypeV::Tuple(ts2)) => {
            assert forall|i: int| 0 <= i < ts1.len() implies coercible(#[trigger] rename_seq(ts1, x, y, r)[i], rename_seq(ts2, x, y, r)[i]) by {
                lemma_coercible_rename(ts1[i], ts2[i], x, y, r);
            }
            assert(rename(a, x, y, r) == UTypeV::Tuple(rename_seq(ts1, x, y, r)));
            assert(rename(b, x, y, r) == UTypeV::Tuple(rename_seq(ts2, x, y, r)));
        },
        (UTypeV::Fn(a1, r1), UTypeV::Fn(a2, r2)) => {
            lemma_coercible_rename(*r1, *r2, x, y, r);
            assert forall|i: int| 0 <= i < a1.len() implies coercible(#[trigger] rename_seq(a1, x, y, r)[i], rename_seq(a2, x, y, r)[i]) by {
                lemma_coercible_rename(a1[i], a2[i], x, y, r);
            }
            assert(rename(a, x, y, r) == UTypeV::Fn(rename_seq(a1, x, y, r), Box::new(rename(*r1, x, y, r))));
            assert(rename(b, x, y, r) == UTypeV::Fn(rename_seq(a2, x, y, r), Box::new(rename(*r2, x, y, r))));
        },
        _ => {},
    }
}

/// Replacing a variable by a type keeps two types coercible.
pub proof fn lemma_coercible_subst(a: UTypeV, b: UTypeV, u: nat, t: UTypeV)
    requires
        coercible(a, b),
    ensures
        coercible(subst(a, u, t), subst(b, u, t)),
    decreases a,
{
    match (a, b) {
        (UTypeV::Error, _) => {},
        (_, UTypeV::Error) => {},
        (UTypeV::Ptr { tp: t1, .. }, UTypeV::Ptr { tp: t2, .. }) => lemma_coercible_subst(*t1, *t2, u, t),
        (UTypeV::Slice { tp: t1, .. }, UTypeV::Slice { tp: t2, .. }) => lemma_coercible_subst(*t1, *t2, u, t),
        (UTypeV::Ptr { tp: t1, .. }, UTypeV::Slice { tp: t2, .. }) => {
            if let UTypeV::Array(n, e1) = *t1 {
                lemma_coercible_subst(*e1, *t2, u, t);
                assert(subst(*t1, u, t) == UTypeV::Array(n, Box::new(subst(*e1, u, t))));
            }
        },
        (UTypeV::Array(_, t1), UTypeV::Array(_, t2)) => lemma_coercible_subst(*t1, *t2, u, t),
        (UTypeV::Tuple(ts1), UTypeV::Tuple(ts2)) => {
            assert forall|i: int| 0 <= i < ts1.len() implies coercible(#[trigger] subst_seq(ts1, u, t)[i], subst_seq(ts2, u, t)[i]) by {
                lemma_coercible_subst(ts1[i], ts2[i], u, t);
            }
            assert(subst(a, u, t) == UTypeV::Tuple(subst_seq(ts1, u, t)));
            assert(subst(b, u, t) == UTypeV::Tuple(subst_seq(ts2, u, t)));
        },
        (UTypeV::Fn(a1, r1), UTypeV::Fn(a2, r2)) => {
            lemma_coercible_subst(*r1, *r2, u, t);
            assert forall|i: int| 0 <= i < a1.len() implies coercible(#[trigger] subst_seq(a1, u, t)[i], subst_seq(a2, u, t)[i]) by {
                lemma_coercible_subst(a1[i], a2[i], u, t);
            }
            assert(subst(a, u, t) == UTypeV::Fn(subst_seq(a1, u, t), Box::new(subst(*r1, u, t))));
            assert(subst(b, u, t) == UTypeV::Fn(subst_seq(a2, u, t), Box::new(subst(*r2, u, t))));
        },
        (UTypeV::Var(_), UTypeV::Var(_)) => {
            lemma_coercible_refl(subst(a, u, t));
        },
        _ => {},
    }
}

/// The table `c2` (with its resolved types `sol2`) refines `c`: it has at
/// least the same variables, the types bound before are still bound, and
/// types that were coercible once resolved still are.
pub open spec fn refines(c: Seq<(nat, Option<UTypeV>)>, sol: Seq<UTypeV>, c2: Seq<(nat, Option<UTypeV>)>, sol2: Seq<UTypeV>) -> bool {
    &&& c.len() <= c2.len()
    &&& forall|k: int| 0 <= k < c.len() && (#[trigger] c[k]).1 is Some ==> c2[k].1 == c[k].1
    &&& forall|a: UTypeV, b: UTypeV|
        vars_below(a, c.len()) && vars_below(b, c.len()) && coercible(apply(a, c, sol), apply(b, c, sol))
            ==> #[trigger] coercible(apply(a, c2, sol2), apply(b, c2, sol2))
}

pub proof fn lemma_refines_refl(c: Seq<(nat, Option<UTypeV>)>, sol: Seq<UTypeV>)
    ensures
        refines(c, sol, c, sol),
{
}

pub proof fn lemma_refines_trans(
    c1: Seq<(nat, Option<UTypeV>)>,
    s1: Seq<UTypeV>,
    c2: Seq<(nat, Option<UTypeV>)>,
    s2: Seq<UTypeV>,
    c3: Seq<(nat, Option<UTypeV>)>,
    s3: Seq<UTypeV>,
)
    requires
        refines(c1, s1, c2, s2),
        refines(c2, s2, c3, s3),
    ensures
        refines(c1, s1, c3, s3),
{
    assert forall|a: UTypeV, b: UTypeV|
        vars_below(a, c1.len()) && vars_below(b, c1.len()) && coercible(apply(a, c1, s1), apply(b, c1, s1))
            implies #[trigger] coercible(apply(a, c3, s3), apply(b, c3, s3)) by {
        lemma_all_vars_weaken(a, below(c1.len()), below(c2.len()));
        lemma_all_vars_weaken(b, below(c1.len()), below(c2.len()));
        assert(coercible(apply(a, c2, s2), apply(b, c2, s2)));
    }
}

pub proof fn lemma_refines_union(c: Seq<(nat, Option<UTypeV>)>, sol: Seq<UTypeV>, c2: Seq<(nat, Option<UTypeV>)>, ra: nat, rb: nat, r: nat)
    requires
        table_ok(c, sol),
        union_of(c, c2, ra, rb, r),
    ensures
        refines(c, sol, c2, rename_sol(sol, ra, rb, r)),
{
    let sol2 = rename_sol(sol, ra, rb, r);
    assert forall|k: int| 0 <= k < c.len() && (#[trigger] c[k]).1 is Some implies c2[k].1 == c[k].1 by {
        let q = c[k].0;
        assert(c[q as int].0 == q);
    }
    assert forall|a: UTypeV, b: UTypeV|
        vars_below(a, c.len()) && vars_below(b, c.len()) && coercible(apply(a, c, sol), apply(b, c, sol))
            implies #[trigger] coercible(apply(a, c2, sol2), apply(b, c2, sol2)) by {
        lemma_apply_union(a, c, sol, c2, ra, rb, r);
        lemma_apply_union(b, c, sol, c2, ra, rb, r);
        lemma_coercible_rename(apply(a, c, sol), apply(b, c, sol), ra, rb, r);
    }
}

pub proof fn lemma_refines_bind(c: Seq<(nat, Option<UTypeV>)>, sol: Seq<UTypeV>, c2: Seq<(nat, Option<UTypeV>)>, ru: nat, x: UTypeV)
    requires
        table_ok(c, sol),
        bind_of(c, c2, ru, x),
    ensures
        refines(c, sol, c2, bind_sol(sol, ru, apply(x, c, sol))),
{
    let sol2 = bind_sol(sol, ru, apply(x, c, sol));
    assert forall|k: int| 0 <= k < c.len() && (#[trigger] c[k]).1 is Some implies c2[k].1 == c[k].1 by {
        let q = c[k].0;
        assert(c[q as int].0 == q);
    }
    assert forall|a: UTypeV, b: UTypeV|
        vars_below(a, c.len()) && vars_below(b, c.len()) && coercible(apply(a, c, sol), apply(b, c, sol))
            implies #[trigger] coercible(apply(a, c2, sol2), apply(b, c2, sol2)) by {
        lemma_apply_bind(a, c, sol, c2, ru, x);
        lemma_apply_bind(b, c, sol, c2, ru, x);
        lemma_coercible_subst(apply(a, c, sol), apply(b, c, sol), ru, apply(x, c, sol));
    }
}

pub proof fn lemma_refines_push(c: Seq<(nat, Option<UTypeV>)>, sol: Seq<UTypeV>)
    requires
        table_ok(c, sol),
    ensures
        refines(c, sol, c.push((c.len(), None)), sol.push(UTypeV::Error)),
{
    assert forall|a: UTypeV, b: UTypeV|
        vars_below(a, c.len()) && vars_below(b, c.len()) && coercible(apply(a, c, sol), apply(b, c, sol))
            implies #[trigger] coercible(apply(a, c.push((c.len(), None)), sol.push(UTypeV::Error)), apply(b, c.push((c.len(), None)), sol.push(UTypeV::Error))) by {
        lemma_apply_push(a, c, sol);
        lemma_apply_push(b, c, sol);
    }
}

/// What a type shows through the table stays what it resolves to in every
/// refinement of the table.
pub proof fn lemma_view_stable(t: UTypeV, c: Seq<(nat, Option<UTypeV>)>, sol: Seq<UTypeV>, c2: Seq<(nat, Option<UTypeV>)>, sol2: Seq<UTypeV>)
    requires
        table_ok(c, sol),
        table_ok(c2, sol2),
        refines(c, sol, c2, sol2),
        vars_below(t, c.len()),
        !(view_of(t, c) is Var),
    ensures
        apply(t, c2, sol2) == apply(view_of(t, c), c2, sol2),
{
    lemma_all_vars_weaken(t, below(c.len()), below(c2.len()));
    lemma_view_apply(t, c2, sol2);
    if let UTypeV::Var(w) = t {
        assert(w < c.len());
        assert(c[w as int].1 is Some);
        assert(c2[w as int].1 == c[w as int].1);
    }
}

/// A sealed type has no variable, so resolving it changes nothing.
pub proof fn lemma_lift_closed(t: TypeV, p: spec_fn(nat) -> bool)
    ensures
        all_vars(lift(t), p),
        forall|c: Seq<(nat, Option<UTypeV>)>, sol: Seq<UTypeV>| #[trigger] apply(lift(t), c, sol) == lift(t),
    decreases t,
{
    match t {
        TypeV::Tuple(ts) => {
            assert(lift(t) == UTypeV::Tuple(lift_seq(ts)));
            assert forall|i: int| 0 <= i < ts.len() implies all_vars(#[trigger] lift_seq(ts)[i], p) by {
                lemma_lift_closed(ts[i], p);
            }
            assert forall|c: Seq<(nat, Option<UTypeV>)>, sol: Seq<UTypeV>| #[trigger] apply(lift(t), c, sol) == lift(t) by {
                assert forall|i: int| 0 <= i < ts.len() implies apply_seq(lift_seq(ts), c, sol)[i] == lift_seq(ts)[i] by {
                    lemma_lift_closed(ts[i], p);
                    assert(lift_seq(ts)[i] == lift(ts[i]));
                    assert(apply(lift(ts[i]), c, sol) == lift(ts[i]));
                }
                assert(apply_seq(lift_seq(ts), c, sol) =~= lift_seq(ts));
                assert(lift(t) == UTypeV::Tuple(lift_seq(ts)));
                assert(apply(lift(t), c, sol) == UTypeV::Tuple(apply_seq(lift_seq(ts), c, sol)));
            }
        },
        TypeV::Fn(args, ret) => {
            lemma_lift_closed(*ret, p);
            assert(lift(t) == UTypeV::Fn(lift_seq(args), Box::new(lift(*ret))));
            assert forall|i: int| 0 <= i < args.len() implies all_vars(#[trigger] lift_seq(args)[i], p) by {
                lemma_lift_closed(args[i], p);
            }
            assert forall|c: Seq<(nat, Option<UTypeV>)>, sol: Seq<UTypeV>| #[trigger] apply(lift(t), c, sol) == lift(t) by {
                assert forall|i: int| 0 <= i < args.len() implies apply_seq(lift_seq(args), c, sol)[i] == lift_seq(args)[i] by {
                    lemma_lift_closed(args[i], p);
                    assert(lift_seq(args)[i] == lift(args[i]));
                    assert(apply(lift(args[i]), c, sol) == lift(args[i]));
                }
                assert(apply_seq(lift_seq(args), c, sol) =~= lift_seq(args));
                assert(apply(lift(*ret), c, sol) == lift(*ret));
            }
        },
        TypeV::Array(_, e) => {
            lemma_lift_closed(*e, p);
            assert forall|c: Seq<(nat, Option<UTypeV>)>, sol: Seq<UTypeV>| #[trigger] apply(lift(t), c, sol) == lift(t) by {
                assert(apply(lift(*e), c, sol) == lift(*e));
            }
        },
        TypeV::Ptr { tp, .. } => {
            lemma_lift_closed(*tp, p);
            assert forall|c: Seq<(nat, Option<UTypeV>)>, sol: Seq<UTypeV>| #[trigger] apply(lift(t), c, sol) == lift(t) by {
                assert(apply(lift(*tp), c, sol) == lift(*tp));
            }
        },
        TypeV::Slice { tp, .. } => {
            lemma_lift_closed(*tp, p);
            assert forall|c: Seq<(nat, Option<UTypeV>)>, sol: Seq<UTypeV>| #[trigger] apply(lift(t), c, sol) == lift(t) by {
                assert(apply(lift(*tp), c, sol) == lift(*tp));
            }
        },
        _ => {},
    }
}

/// Sealing two coercible types (their free variables becoming the error
/// type) leaves them coercible.
pub proof fn lemma_coercible_seal(a: UTypeV, b: UTypeV)
    requires
        coercible(a, b),
    ensures
        coercible(lift(seal(a)), lift(seal(b))),
    decreases a,
{
    match (a, b) {
        (UTypeV::Error, _) => {},
        (_, UTypeV::Error) => {},
        (UTypeV::Ptr { tp: t1, .. }, UTypeV::Ptr { tp: t2, .. }) => lemma_coercible_seal(*t1, *t2),
        (UTypeV::Slice { tp: t1, .. }, UTypeV::Slice { tp: t2, .. }) => lemma_coercible_seal(*t1, *t2),
        (UTypeV::Ptr { tp: t1, .. }, UTypeV::Slice { tp: t2, .. }) => {
            if let UTypeV::Array(n, e1) = *t1 {
                lemma_coercible_seal(*e1, *t2);
                assert(lift(seal(*t1)) == UTypeV::Array(n, Box::new(lift(seal(*e1)))));
            }
        },
        (UTypeV::Array(_, t1), UTypeV::Array(_, t2)) => lemma_coercible_seal(*t1, *t2),
        (UTypeV::Tuple(ts1), UTypeV::Tuple(ts2)) => {
            assert forall|i: int| 0 <= i < ts1.len() implies coercible(#[trigger] lift_seq(seal_seq(ts1))[i], lift_seq(seal_seq(ts2))[i]) by {
                lemma_coercible_seal(ts1[i], ts2[i]);
            }
            assert(lift(seal(a)) == UTypeV::Tuple(lift_seq(seal_seq(ts1))));
            assert(lift(seal(b)) == UTypeV::Tuple(lift_seq(seal_seq(ts2))));
        },
        (UTypeV::Fn(a1, r1), UTypeV::Fn(a2, r2)) => {
            lemma_coercible_seal(*r1, *r2);
            assert forall|i: int| 0 <= i < a1.len() implies coercible(#[trigger] lift_seq(seal_seq(a1))[i], lift_seq(seal_seq(a2))[i]) by {
                lemma_coercible_seal(a1[i], a2[i]);
            }
            assert(lift(seal(a)) == UTypeV::Fn(lift_seq(seal_seq(a1)), Box::new(lift(seal(*r1)))));
            assert(lift(seal(b)) == UTypeV::Fn(lift_seq(seal_seq(a2)), Box::new(lift(seal(*r2)))));
        },
        (UTypeV::Var(_), UTypeV::Var(_)) => {},
        _ => {},
    }
}

/// Sealing a sealed type gives it back.
pub proof fn lemma_seal_lift(t: TypeV)
    ensures
        seal(lift(t)) == t,
    decreases t,
{
    match t {
        TypeV::Tuple(ts) => {
            assert forall|i: int| 0 <= i < ts.len() implies seal_seq(lift_seq(ts))[i] == ts[i] by {
                lemma_seal_lift(ts[i]);
            }
            assert(seal_seq(lift_seq(ts)) =~= ts);
        },
        TypeV::Fn(args, ret) => {
            lemma_seal_lift(*ret);
            assert forall|i: int| 0 <= i < args.len() implies seal_seq(lift_seq(args))[i] == args[i] by {
                lemma_seal_lift(args[i]);
            }
            assert(seal_seq(lift_seq(args)) =~= args);
        },
        TypeV::Array(_, e) => lemma_seal_lift(*e),
        TypeV::Ptr { tp, .. } => lemma_seal_lift(*tp),
        TypeV::Slice { tp, .. } => lemma_seal_lift(*tp),
        _ => {},
    }
}


/// A sealed type taken into inference and sealed again comes back
/// unchanged, whatever the table holds.
pub proof fn lemma_seal_of_lift(t: TypeV, c: Seq<(nat, Option<UTypeV>)>, sol: Seq<UTypeV>)
    ensures
        seal(apply(lift(t), c, sol)) == t,
{
    lemma_lift_closed(t, |w: nat| true);
    lemma_seal_lift(t);
}

} // verus!
