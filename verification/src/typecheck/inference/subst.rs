//! The substitution that a unification table stands for.
//!
//! The table maps each variable to the root of its class and, where the
//! class is bound, to the type it is bound to. Alongside it the inference
//! context keeps, as ghost state, the fully resolved type of every bound
//! root (`sol`). The invariant [`table_ok`] ties the two together; that such
//! a `sol` exists is what makes every walk through the table finite.

use crate::typecheck::inference::tp::UTypeV;
use vstd::prelude::*;

verus! {

/// The structural size of a type.
pub open spec fn size(t: UTypeV) -> nat
    decreases t,
{
    match t {
        UTypeV::Tuple(ts) => 1 + sizes(ts),
        UTypeV::Array(_, e) => 1 + size(*e),
        UTypeV::Fn(args, ret) => 1 + sizes(args) + size(*ret),
        UTypeV::Ptr { tp, .. } => 1 + size(*tp),
        UTypeV::Slice { tp, .. } => 1 + size(*tp),
        _ => 1,
    }
}

pub open spec fn sizes(ts: Seq<UTypeV>) -> nat
    decreases ts,
{
    if ts.len() == 0 {
        0
    } else {
        sizes(ts.drop_last()) + size(ts.last())
    }
}

/// Each element of a sequence is no larger than all of them together.
pub proof fn lemma_sizes_elem(ts: Seq<UTypeV>, i: int)
    requires
        0 <= i < ts.len(),
    ensures
        size(ts[i]) <= sizes(ts),
    decreases ts.len(),
{
    if i < ts.len() - 1 {
        lemma_sizes_elem(ts.drop_last(), i);
    }
}

/// Every variable of `t` satisfies `p`.
pub open spec fn all_vars(t: UTypeV, p: spec_fn(nat) -> bool) -> bool
    decreases t,
{
    match t {
        UTypeV::Var(w) => p(w),
        UTypeV::Tuple(ts) => forall|i: int| 0 <= i < ts.len() ==> all_vars(#[trigger] ts[i], p),
        UTypeV::Array(_, e) => all_vars(*e, p),
        UTypeV::Fn(args, ret) => all_vars(*ret, p) && forall|i: int|
            0 <= i < args.len() ==> all_vars(#[trigger] args[i], p),
        UTypeV::Ptr { tp, .. } => all_vars(*tp, p),
        UTypeV::Slice { tp, .. } => all_vars(*tp, p),
        _ => true,
    }
}

/// `t` holds no variable.
pub open spec fn ground(t: UTypeV) -> bool
    decreases t,
{
    match t {
        UTypeV::Var(_) => false,
        UTypeV::Tuple(ts) => forall|i: int| 0 <= i < ts.len() ==> ground(#[trigger] ts[i]),
        UTypeV::Array(_, e) => ground(*e),
        UTypeV::Fn(args, ret) => ground(*ret) && forall|i: int| 0 <= i < args.len() ==> ground(#[trigger] args[i]),
        UTypeV::Ptr { tp, .. } => ground(*tp),
        UTypeV::Slice { tp, .. } => ground(*tp),
        _ => true,
    }
}

/// Every variable of `t` is one of the first `n`.
pub open spec fn vars_below(t: UTypeV, n: nat) -> bool {
    all_vars(t, below(n))
}

pub open spec fn below(n: nat) -> spec_fn(nat) -> bool {
    |w: nat| w < n
}

/// The variables that are free roots of `c`.
pub open spec fn free_in(c: Seq<(nat, Option<UTypeV>)>) -> spec_fn(nat) -> bool {
    |w: nat| free_root(c, w)
}

/// The variables other than `u`.
pub open spec fn other_than(u: nat) -> spec_fn(nat) -> bool {
    |w: nat| w != u
}

pub open spec fn root(c: Seq<(nat, Option<UTypeV>)>, w: nat) -> nat {
    c[w as int].0
}

pub open spec fn bound(c: Seq<(nat, Option<UTypeV>)>, w: nat) -> bool {
    c[w as int].1 is Some
}

/// `w` is the root of a class that has no type.
pub open spec fn free_root(c: Seq<(nat, Option<UTypeV>)>, w: nat) -> bool {
    w < c.len() && c[w as int].0 == w && c[w as int].1 is None
}

/// What the variable `w` resolves to.
pub open spec fn resolve_var(c: Seq<(nat, Option<UTypeV>)>, sol: Seq<UTypeV>, w: nat) -> UTypeV {
    if w < c.len() && bound(c, w) {
        sol[root(c, w) as int]
    } else if w < c.len() {
        UTypeV::Var(root(c, w))
    } else {
        UTypeV::Var(w)
    }
}

pub open spec fn apply_seq(ts: Seq<UTypeV>, c: Seq<(nat, Option<UTypeV>)>, sol: Seq<UTypeV>) -> Seq<UTypeV>
    decreases ts,
{
    Seq::new(ts.len(), |i: int| if 0 <= i < ts.len() { apply(ts[i], c, sol) } else { UTypeV::Error })
}

/// `t` with every variable replaced by what it resolves to.
pub open spec fn apply(t: UTypeV, c: Seq<(nat, Option<UTypeV>)>, sol: Seq<UTypeV>) -> UTypeV
    decreases t,
{
    match t {
        UTypeV::Var(w) => resolve_var(c, sol, w),
        UTypeV::Tuple(ts) => UTypeV::Tuple(apply_seq(ts, c, sol)),
        UTypeV::Array(n, e) => UTypeV::Array(n, Box::new(apply(*e, c, sol))),
        UTypeV::Fn(args, ret) => UTypeV::Fn(apply_seq(args, c, sol), Box::new(apply(*ret, c, sol))),
        UTypeV::Ptr { tp, is_mut } => UTypeV::Ptr { tp: Box::new(apply(*tp, c, sol)), is_mut },
        UTypeV::Slice { tp, is_mut } => UTypeV::Slice { tp: Box::new(apply(*tp, c, sol)), is_mut },
        _ => t,
    }
}

/// The table `c` and the resolved types `sol` agree, and walking through
/// the table always ends.
pub open spec fn table_ok(c: Seq<(nat, Option<UTypeV>)>, sol: Seq<UTypeV>) -> bool {
    &&& sol.len() == c.len()
    &&& forall|k: int| 0 <= k < c.len() ==> {
        let r = (#[trigger] c[k]).0;
        &&& r < c.len()
        &&& c[r as int].0 == r
        &&& c[k].1 == c[r as int].1
    }
    &&& forall|k: int| 0 <= k < c.len() && (#[trigger] c[k]).1 is Some ==> {
        let v = c[k].1->0;
        &&& !(v is Var)
        &&& vars_below(v, c.len())
    }
    &&& forall|k: int| 0 <= k < c.len() && (#[trigger] c[k]).1 is Some && c[k].0 == k ==> {
        &&& sol[k] == apply(c[k].1->0, c, sol)
        &&& all_vars(sol[k], free_in(c))
    }
}

/// The number of classes without a type among the first `n` variables.
pub open spec fn free_count(c: Seq<(nat, Option<UTypeV>)>, n: nat) -> nat
    decreases n,
{
    if n == 0 {
        0
    } else {
        free_count(c, (n - 1) as nat) + (if free_root(c, (n - 1) as nat) { 1nat } else { 0nat })
    }
}

/// `t` with the variables `a` and `b` both renamed to `r`.
pub open spec fn rename(t: UTypeV, a: nat, b: nat, r: nat) -> UTypeV
    decreases t,
{
    match t {
        UTypeV::Var(w) => if w == a || w == b { UTypeV::Var(r) } else { t },
        UTypeV::Tuple(ts) => UTypeV::Tuple(rename_seq(ts, a, b, r)),
        UTypeV::Array(n, e) => UTypeV::Array(n, Box::new(rename(*e, a, b, r))),
        UTypeV::Fn(args, ret) => UTypeV::Fn(rename_seq(args, a, b, r), Box::new(rename(*ret, a, b, r))),
        UTypeV::Ptr { tp, is_mut } => UTypeV::Ptr { tp: Box::new(rename(*tp, a, b, r)), is_mut },
        UTypeV::Slice { tp, is_mut } => UTypeV::Slice { tp: Box::new(rename(*tp, a, b, r)), is_mut },
        _ => t,
    }
}

pub open spec fn rename_seq(ts: Seq<UTypeV>, a: nat, b: nat, r: nat) -> Seq<UTypeV>
    decreases ts,
{
    Seq::new(ts.len(), |i: int| if 0 <= i < ts.len() { rename(ts[i], a, b, r) } else { UTypeV::Error })
}

/// `t` with the variable `u` replaced by `x`.
pub open spec fn subst(t: UTypeV, u: nat, x: UTypeV) -> UTypeV
    decreases t,
{
    match t {
        UTypeV::Var(w) => if w == u { x } else { t },
        UTypeV::Tuple(ts) => UTypeV::Tuple(subst_seq(ts, u, x)),
        UTypeV::Array(n, e) => UTypeV::Array(n, Box::new(subst(*e, u, x))),
        UTypeV::Fn(args, ret) => UTypeV::Fn(subst_seq(args, u, x), Box::new(subst(*ret, u, x))),
        UTypeV::Ptr { tp, is_mut } => UTypeV::Ptr { tp: Box::new(subst(*tp, u, x)), is_mut },
        UTypeV::Slice { tp, is_mut } => UTypeV::Slice { tp: Box::new(subst(*tp, u, x)), is_mut },
        _ => t,
    }
}

pub open spec fn subst_seq(ts: Seq<UTypeV>, u: nat, x: UTypeV) -> Seq<UTypeV>
    decreases ts,
{
    Seq::new(ts.len(), |i: int| if 0 <= i < ts.len() { subst(ts[i], u, x) } else { UTypeV::Error })
}

/// A predicate that holds of every variable keeps holding of a weaker one.
pub proof fn lemma_all_vars_weaken(t: UTypeV, p: spec_fn(nat) -> bool, q: spec_fn(nat) -> bool)
    requires
        all_vars(t, p),
        forall|w: nat| #[trigger] p(w) ==> q(w),
    ensures
        all_vars(t, q),
    decreases t,
{
    match t {
        UTypeV::Tuple(ts) => {
            assert forall|i: int| 0 <= i < ts.len() implies all_vars(#[trigger] ts[i], q) by {
                lemma_all_vars_weaken(ts[i], p, q);
            }
        },
        UTypeV::Fn(args, ret) => {
            lemma_all_vars_weaken(*ret, p, q);
            assert forall|i: int| 0 <= i < args.len() implies all_vars(#[trigger] args[i], q) by {
                lemma_all_vars_weaken(args[i], p, q);
            }
        },
        UTypeV::Array(_, e) => lemma_all_vars_weaken(*e, p, q),
        UTypeV::Ptr { tp, .. } => lemma_all_vars_weaken(*tp, p, q),
        UTypeV::Slice { tp, .. } => lemma_all_vars_weaken(*tp, p, q),
        _ => {},
    }
}

/// Replacing a variable that does not occur changes nothing.
pub proof fn lemma_subst_absent(t: UTypeV, u: nat, x: UTypeV)
    requires
        all_vars(t, other_than(u)),
    ensures
        subst(t, u, x) == t,
    decreases t,
{
    match t {
        UTypeV::Tuple(ts) => {
            assert forall|i: int| 0 <= i < ts.len() implies subst(ts[i], u, x) == ts[i] by {
                lemma_subst_absent(ts[i], u, x);
            }
            assert(subst_seq(ts, u, x) =~= ts);
        },
        UTypeV::Fn(args, ret) => {
            lemma_subst_absent(*ret, u, x);
            assert forall|i: int| 0 <= i < args.len() implies subst(args[i], u, x) == args[i] by {
                lemma_subst_absent(args[i], u, x);
            }
            assert(subst_seq(args, u, x) =~= args);
        },
        UTypeV::Array(_, e) => lemma_subst_absent(*e, u, x),
        UTypeV::Ptr { tp, .. } => lemma_subst_absent(*tp, u, x),
        UTypeV::Slice { tp, .. } => lemma_subst_absent(*tp, u, x),
        _ => {},
    }
}

/// The variables of `rename(t, a, b, r)` are those of `t`, renamed.
pub proof fn lemma_all_vars_rename(t: UTypeV, a: nat, b: nat, r: nat, p: spec_fn(nat) -> bool, q: spec_fn(nat) -> bool)
    requires
        all_vars(t, p),
        forall|w: nat| #[trigger] p(w) ==> q(if w == a || w == b { r } else { w }),
    ensures
        all_vars(rename(t, a, b, r), q),
    decreases t,
{
    match t {
        UTypeV::Var(w) => {
            assert(p(w));
            if w == a || w == b {
                assert(q(r));
                assert(rename(t, a, b, r) == UTypeV::Var(r));
                assert(all_vars(UTypeV::Var(r), q));
                assert(all_vars(rename(t, a, b, r), q));
            } else {
                assert(q(w));
                assert(rename(t, a, b, r) == t);
                assert(all_vars(t, q));
                assert(all_vars(rename(t, a, b, r), q));
            }
        },
        UTypeV::Tuple(ts) => {
            assert forall|i: int| 0 <= i < ts.len() implies all_vars(#[trigger] rename_seq(ts, a, b, r)[i], q) by {
                lemma_all_vars_rename(ts[i], a, b, r, p, q);
            }
            assert(rename(t, a, b, r) == UTypeV::Tuple(rename_seq(ts, a, b, r)));
            assert(all_vars(rename(t, a, b, r), q));
        },
        UTypeV::Fn(args, ret) => {
            lemma_all_vars_rename(*ret, a, b, r, p, q);
            assert forall|i: int| 0 <= i < args.len() implies all_vars(#[trigger] rename_seq(args, a, b, r)[i], q) by {
                lemma_all_vars_rename(args[i], a, b, r, p, q);
            }
            assert(rename(t, a, b, r) == UTypeV::Fn(rename_seq(args, a, b, r), Box::new(rename(*ret, a, b, r))));
            assert(all_vars(rename(t, a, b, r), q));
        },
        UTypeV::Array(_, e) => lemma_all_vars_rename(*e, a, b, r, p, q),
        UTypeV::Ptr { tp, .. } => lemma_all_vars_rename(*tp, a, b, r, p, q),
        UTypeV::Slice { tp, .. } => lemma_all_vars_rename(*tp, a, b, r, p, q),
        _ => {
            assert(rename(t, a, b, r) == t);
        },
    }
}

/// The variables of `subst(t, u, x)` are those of `t` but `u`, and those
/// of `x`.
pub proof fn lemma_all_vars_subst(t: UTypeV, u: nat, x: UTypeV, p: spec_fn(nat) -> bool, q: spec_fn(nat) -> bool)
    requires
        all_vars(t, p),
        all_vars(x, q),
        forall|w: nat| #[trigger] p(w) && w != u ==> q(w),
    ensures
        all_vars(subst(t, u, x), q),
    decreases t,
{
    match t {
        UTypeV::Var(w) => {
            assert(p(w));
            if w == u {
                assert(subst(t, u, x) == x);
            } else {
                assert(q(w));
                assert(subst(t, u, x) == t);
            }
        },
        UTypeV::Tuple(ts) => {
            assert forall|i: int| 0 <= i < ts.len() implies all_vars(#[trigger] subst_seq(ts, u, x)[i], q) by {
                lemma_all_vars_subst(ts[i], u, x, p, q);
            }
            assert(subst(t, u, x) == UTypeV::Tuple(subst_seq(ts, u, x)));
        },
        UTypeV::Fn(args, ret) => {
            lemma_all_vars_subst(*ret, u, x, p, q);
            assert forall|i: int| 0 <= i < args.len() implies all_vars(#[trigger] subst_seq(args, u, x)[i], q) by {
                lemma_all_vars_subst(args[i], u, x, p, q);
            }
            assert(subst(t, u, x) == UTypeV::Fn(subst_seq(args, u, x), Box::new(subst(*ret, u, x))));
        },
        UTypeV::Array(_, e) => lemma_all_vars_subst(*e, u, x, p, q),
        UTypeV::Ptr { tp, .. } => lemma_all_vars_subst(*tp, u, x, p, q),
        UTypeV::Slice { tp, .. } => lemma_all_vars_subst(*tp, u, x, p, q),
        _ => {},
    }
}

/// Resolving a type below `len` only meets free roots.
pub proof fn lemma_apply_free(t: UTypeV, c: Seq<(nat, Option<UTypeV>)>, sol: Seq<UTypeV>)
    requires
        table_ok(c, sol),
        vars_below(t, c.len()),
    ensures
        all_vars(apply(t, c, sol), free_in(c)),
    decreases t,
{
    match t {
        UTypeV::Var(w) => {
            assert(w < c.len());
            let r = root(c, w);
            assert(c[w as int].0 == r);
            if bound(c, w) {
                assert(c[r as int].1 is Some && c[r as int].0 == r);
                assert(apply(t, c, sol) == sol[r as int]);
            } else {
                assert(free_root(c, r));
                assert(apply(t, c, sol) == UTypeV::Var(r));
                assert(free_in(c)(r));
            }
        },
        UTypeV::Tuple(ts) => {
            assert forall|i: int| 0 <= i < ts.len() implies all_vars(#[trigger] apply_seq(ts, c, sol)[i], free_in(c)) by {
                assert(vars_below(ts[i], c.len()));
                lemma_apply_free(ts[i], c, sol);
            }
            assert(apply(t, c, sol) == UTypeV::Tuple(apply_seq(ts, c, sol)));
        },
        UTypeV::Fn(args, ret) => {
            lemma_apply_free(*ret, c, sol);
            assert forall|i: int| 0 <= i < args.len() implies all_vars(#[trigger] apply_seq(args, c, sol)[i], free_in(c)) by {
                assert(vars_below(args[i], c.len()));
                lemma_apply_free(args[i], c, sol);
            }
            assert(apply(t, c, sol) == UTypeV::Fn(apply_seq(args, c, sol), Box::new(apply(*ret, c, sol))));
        },
        UTypeV::Array(_, e) => lemma_apply_free(*e, c, sol),
        UTypeV::Ptr { tp, .. } => lemma_apply_free(*tp, c, sol),
        UTypeV::Slice { tp, .. } => lemma_apply_free(*tp, c, sol),
        _ => {},
    }
}

/// `free_count` shrinks when free roots only disappear and one does.
pub proof fn lemma_free_count_le(c: Seq<(nat, Option<UTypeV>)>, c2: Seq<(nat, Option<UTypeV>)>, n: nat)
    requires
        forall|w: nat| w < n && #[trigger] free_root(c2, w) ==> free_root(c, w),
    ensures
        free_count(c2, n) <= free_count(c, n),
    decreases n,
{
    if n > 0 {
        lemma_free_count_le(c, c2, (n - 1) as nat);
    }
}

pub proof fn lemma_free_count_lt(c: Seq<(nat, Option<UTypeV>)>, c2: Seq<(nat, Option<UTypeV>)>, n: nat, l: nat)
    requires
        forall|w: nat| w < n && #[trigger] free_root(c2, w) ==> free_root(c, w),
        l < n,
        free_root(c, l),
        !free_root(c2, l),
    ensures
        free_count(c2, n) < free_count(c, n),
    decreases n,
{
    if n - 1 == l {
        lemma_free_count_le(c, c2, (n - 1) as nat);
    } else {
        lemma_free_count_lt(c, c2, (n - 1) as nat, l);
    }
}

/// The table after the classes rooted at `ra` and `rb` (both free) are
/// merged into one rooted at `r`.
pub open spec fn union_of(c: Seq<(nat, Option<UTypeV>)>, c2: Seq<(nat, Option<UTypeV>)>, ra: nat, rb: nat, r: nat) -> bool {
    &&& c2.len() == c.len()
    &&& free_root(c, ra)
    &&& free_root(c, rb)
    &&& (r == ra || r == rb)
    &&& forall|k: int| 0 <= k < c.len() ==> #[trigger] c2[k] == (if c[k].0 == ra || c[k].0 == rb {
        (r, None::<UTypeV>)
    } else {
        c[k]
    })
}

pub open spec fn rename_sol(sol: Seq<UTypeV>, ra: nat, rb: nat, r: nat) -> Seq<UTypeV> {
    Seq::new(sol.len(), |k: int| rename(sol[k], ra, rb, r))
}

/// After a union, a type resolves to what it resolved to before, renamed.
pub proof fn lemma_apply_union(t: UTypeV, c: Seq<(nat, Option<UTypeV>)>, sol: Seq<UTypeV>, c2: Seq<(nat, Option<UTypeV>)>, ra: nat, rb: nat, r: nat)
    requires
        table_ok(c, sol),
        vars_below(t, c.len()),
        union_of(c, c2, ra, rb, r),
    ensures
        apply(t, c2, rename_sol(sol, ra, rb, r)) == rename(apply(t, c, sol), ra, rb, r),
    decreases t,
{
    let sol2 = rename_sol(sol, ra, rb, r);
    match t {
        UTypeV::Var(w) => {
            assert(w < c.len());
            let q = c[w as int].0;
            assert(c2[w as int] == (if q == ra || q == rb { (r, None::<UTypeV>) } else { c[w as int] }));
            assert(c[q as int].0 == q);
            if q == ra || q == rb {
                assert(c[w as int].1 == c[q as int].1);
                assert(apply(t, c, sol) == UTypeV::Var(q));
                assert(apply(t, c2, sol2) == UTypeV::Var(r));
            } else if bound(c, w) {
                assert(apply(t, c, sol) == sol[q as int]);
                assert(apply(t, c2, sol2) == sol2[q as int]);
            } else {
                assert(apply(t, c, sol) == UTypeV::Var(q));
                assert(apply(t, c2, sol2) == UTypeV::Var(q));
            }
        },
        UTypeV::Tuple(ts) => {
            assert forall|i: int| 0 <= i < ts.len() implies #[trigger] apply_seq(ts, c2, sol2)[i] == rename_seq(apply_seq(ts, c, sol), ra, rb, r)[i] by {
                assert(vars_below(ts[i], c.len()));
                lemma_apply_union(ts[i], c, sol, c2, ra, rb, r);
            }
            assert(apply_seq(ts, c2, sol2) =~= rename_seq(apply_seq(ts, c, sol), ra, rb, r));
        },
        UTypeV::Fn(args, ret) => {
            lemma_apply_union(*ret, c, sol, c2, ra, rb, r);
            assert forall|i: int| 0 <= i < args.len() implies #[trigger] apply_seq(args, c2, sol2)[i] == rename_seq(apply_seq(args, c, sol), ra, rb, r)[i] by {
                assert(vars_below(args[i], c.len()));
                lemma_apply_union(args[i], c, sol, c2, ra, rb, r);
            }
            assert(apply_seq(args, c2, sol2) =~= rename_seq(apply_seq(args, c, sol), ra, rb, r));
        },
        UTypeV::Array(_, e) => lemma_apply_union(*e, c, sol, c2, ra, rb, r),
        UTypeV::Ptr { tp, .. } => lemma_apply_union(*tp, c, sol, c2, ra, rb, r),
        UTypeV::Slice { tp, .. } => lemma_apply_union(*tp, c, sol, c2, ra, rb, r),
        _ => {},
    }
}

/// A union keeps the invariant; it merges two classes into one, or none
/// when they were one already.
pub proof fn lemma_union_ok(c: Seq<(nat, Option<UTypeV>)>, sol: Seq<UTypeV>, c2: Seq<(nat, Option<UTypeV>)>, ra: nat, rb: nat, r: nat)
    requires
        table_ok(c, sol),
        union_of(c, c2, ra, rb, r),
    ensures
        table_ok(c2, rename_sol(sol, ra, rb, r)),
        ra == rb ==> c2 == c,
        ra != rb ==> free_count(c2, c.len()) < free_count(c, c.len()),
{
    let sol2 = rename_sol(sol, ra, rb, r);
    let n = c.len();
    assert forall|k: int| 0 <= k < n implies {
        let q = (#[trigger] c2[k]).0;
        &&& q < n
        &&& c2[q as int].0 == q
        &&& c2[k].1 == c2[q as int].1
    } by {
        let q0 = c[k].0;
        assert(c[q0 as int].0 == q0);
        if q0 == ra || q0 == rb {
            assert(c[r as int].0 == r);
        }
    }
    assert forall|k: int| 0 <= k < n && (#[trigger] c2[k]).1 is Some implies {
        let v = c2[k].1->0;
        &&& !(v is Var)
        &&& vars_below(v, n)
    } by {
        let q0 = c[k].0;
        assert(c[q0 as int].0 == q0);
    }
    assert forall|w: nat| #[trigger] free_in(c)(w) implies free_in(c2)(if w == ra || w == rb { r } else { w }) by {
        assert(free_root(c, w));
        if w == ra || w == rb {
            assert(c2[r as int] == (r, None::<UTypeV>));
        } else {
            assert(c2[w as int] == c[w as int]);
        }
    }
    assert forall|k: int| 0 <= k < n && (#[trigger] c2[k]).1 is Some && c2[k].0 == k implies {
        &&& sol2[k] == apply(c2[k].1->0, c2, sol2)
        &&& all_vars(sol2[k], free_in(c2))
    } by {
        let q0 = c[k].0;
        assert(c[q0 as int].0 == q0);
        assert(c2[k] == c[k]);
        let v = c[k].1->0;
        lemma_apply_union(v, c, sol, c2, ra, rb, r);
        lemma_all_vars_rename(sol[k], ra, rb, r, free_in(c), free_in(c2));
    }
    if ra == rb {
        assert forall|k: int| 0 <= k < n implies #[trigger] c2[k] == c[k] by {
            let q0 = c[k].0;
            if q0 == ra {
                assert(c[k].1 == c[q0 as int].1);
            }
        }
        assert(c2 =~= c);
    } else {
        let l = if r == ra { rb } else { ra };
        assert forall|w: nat| w < n && #[trigger] free_root(c2, w) implies free_root(c, w) by {
            let q0 = c[w as int].0;
            assert(c[q0 as int].0 == q0);
            if q0 == ra || q0 == rb {
                assert(c[w as int].1 == c[q0 as int].1);
            }
        }
        assert(c[l as int].0 == l);
        lemma_free_count_lt(c, c2, n, l);
    }
}

/// The table after the free class rooted at `ru` is bound to `x`.
pub open spec fn bind_of(c: Seq<(nat, Option<UTypeV>)>, c2: Seq<(nat, Option<UTypeV>)>, ru: nat, x: UTypeV) -> bool {
    &&& c2.len() == c.len()
    &&& free_root(c, ru)
    &&& forall|k: int| 0 <= k < c.len() ==> #[trigger] c2[k] == (if c[k].0 == ru {
        (c[k].0, Some(x))
    } else {
        c[k]
    })
}

pub open spec fn bind_sol(sol: Seq<UTypeV>, ru: nat, a: UTypeV) -> Seq<UTypeV> {
    Seq::new(sol.len(), |k: int| if k == ru { a } else { subst(sol[k], ru, a) })
}

/// After binding `ru` to `x`, a type resolves to what it resolved to
/// before, with `ru` replaced by what `x` resolves to.
pub proof fn lemma_apply_bind(t: UTypeV, c: Seq<(nat, Option<UTypeV>)>, sol: Seq<UTypeV>, c2: Seq<(nat, Option<UTypeV>)>, ru: nat, x: UTypeV)
    requires
        table_ok(c, sol),
        vars_below(t, c.len()),
        bind_of(c, c2, ru, x),
    ensures
        apply(t, c2, bind_sol(sol, ru, apply(x, c, sol))) == subst(apply(t, c, sol), ru, apply(x, c, sol)),
    decreases t,
{
    let a = apply(x, c, sol);
    let sol2 = bind_sol(sol, ru, a);
    match t {
        UTypeV::Var(w) => {
            assert(w < c.len());
            let q = c[w as int].0;
            assert(c[q as int].0 == q);
            assert(c[w as int].1 == c[q as int].1);
            if q == ru {
                assert(apply(t, c, sol) == UTypeV::Var(q));
                assert(apply(t, c2, sol2) == sol2[ru as int]);
            } else if bound(c, w) {
                assert(apply(t, c, sol) == sol[q as int]);
                assert(apply(t, c2, sol2) == sol2[q as int]);
            } else {
                assert(apply(t, c, sol) == UTypeV::Var(q));
                assert(apply(t, c2, sol2) == UTypeV::Var(q));
            }
        },
        UTypeV::Tuple(ts) => {
            assert forall|i: int| 0 <= i < ts.len() implies #[trigger] apply_seq(ts, c2, sol2)[i] == subst_seq(apply_seq(ts, c, sol), ru, a)[i] by {
                assert(vars_below(ts[i], c.len()));
                lemma_apply_bind(ts[i], c, sol, c2, ru, x);
            }
            assert(apply_seq(ts, c2, sol2) =~= subst_seq(apply_seq(ts, c, sol), ru, a));
        },
        UTypeV::Fn(args, ret) => {
            lemma_apply_bind(*ret, c, sol, c2, ru, x);
            assert forall|i: int| 0 <= i < args.len() implies #[trigger] apply_seq(args, c2, sol2)[i] == subst_seq(apply_seq(args, c, sol), ru, a)[i] by {
                assert(vars_below(args[i], c.len()));
                lemma_apply_bind(args[i], c, sol, c2, ru, x);
            }
            assert(apply_seq(args, c2, sol2) =~= subst_seq(apply_seq(args, c, sol), ru, a));
        },
        UTypeV::Array(_, e) => lemma_apply_bind(*e, c, sol, c2, ru, x),
        UTypeV::Ptr { tp, .. } => lemma_apply_bind(*tp, c, sol, c2, ru, x),
        UTypeV::Slice { tp, .. } => lemma_apply_bind(*tp, c, sol, c2, ru, x),
        _ => {},
    }
}

/// Binding a free root to a type in which it does not occur keeps the
/// invariant, and leaves one free class fewer.
pub proof fn lemma_bind_ok(c: Seq<(nat, Option<UTypeV>)>, sol: Seq<UTypeV>, c2: Seq<(nat, Option<UTypeV>)>, ru: nat, x: UTypeV)
    requires
        table_ok(c, sol),
        bind_of(c, c2, ru, x),
        !(x is Var),
        vars_below(x, c.len()),
        all_vars(apply(x, c, sol), other_than(ru)),
    ensures
        table_ok(c2, bind_sol(sol, ru, apply(x, c, sol))),
        free_count(c2, c.len()) < free_count(c, c.len()),
{
    let a = apply(x, c, sol);
    let sol2 = bind_sol(sol, ru, a);
    let n = c.len();
    lemma_apply_free(x, c, sol);
    assert forall|k: int| 0 <= k < n implies {
        let q = (#[trigger] c2[k]).0;
        &&& q < n
        &&& c2[q as int].0 == q
        &&& c2[k].1 == c2[q as int].1
    } by {
        let q0 = c[k].0;
        assert(c[q0 as int].0 == q0);
    }
    assert forall|k: int| 0 <= k < n && (#[trigger] c2[k]).1 is Some implies {
        let v = c2[k].1->0;
        &&& !(v is Var)
        &&& vars_below(v, n)
    } by {
        let q0 = c[k].0;
        assert(c[q0 as int].0 == q0);
    }
    // what `x` resolves to only holds free roots other than `ru`
    assert forall|w: nat| #[trigger] free_in(c)(w) && other_than(ru)(w) implies free_in(c2)(w) by {
        assert(c2[w as int] == c[w as int]);
    }
    lemma_all_vars_both(a, free_in(c), other_than(ru), free_in(c2));
    assert forall|k: int| 0 <= k < n && (#[trigger] c2[k]).1 is Some && c2[k].0 == k implies {
        &&& sol2[k] == apply(c2[k].1->0, c2, sol2)
        &&& all_vars(sol2[k], free_in(c2))
    } by {
        let q0 = c[k].0;
        assert(c[q0 as int].0 == q0);
        if k == ru {
            lemma_apply_bind(x, c, sol, c2, ru, x);
            lemma_subst_absent(a, ru, a);
        } else {
            assert(c2[k] == c[k]);
            let v = c[k].1->0;
            lemma_apply_bind(v, c, sol, c2, ru, x);
            assert forall|w: nat| #[trigger] free_in(c)(w) && w != ru implies free_in(c2)(w) by {
                assert(c2[w as int] == c[w as int]);
            }
            lemma_all_vars_subst(sol[k], ru, a, free_in(c), free_in(c2));
        }
    }
    assert forall|w: nat| w < n && #[trigger] free_root(c2, w) implies free_root(c, w) by {
        let q0 = c[w as int].0;
        assert(c[q0 as int].0 == q0);
    }
    assert(c2[ru as int] == (ru, Some(x)));
    lemma_free_count_lt(c, c2, n, ru);
}

/// Two predicates that hold of every variable make their conjunction hold,
/// and so anything it implies.
pub proof fn lemma_all_vars_both(t: UTypeV, p: spec_fn(nat) -> bool, q: spec_fn(nat) -> bool, r: spec_fn(nat) -> bool)
    requires
        all_vars(t, p),
        all_vars(t, q),
        forall|w: nat| #[trigger] p(w) && q(w) ==> r(w),
    ensures
        all_vars(t, r),
    decreases t,
{
    match t {
        UTypeV::Tuple(ts) => {
            assert forall|i: int| 0 <= i < ts.len() implies all_vars(#[trigger] ts[i], r) by {
                lemma_all_vars_both(ts[i], p, q, r);
            }
        },
        UTypeV::Fn(args, ret) => {
            lemma_all_vars_both(*ret, p, q, r);
            assert forall|i: int| 0 <= i < args.len() implies all_vars(#[trigger] args[i], r) by {
                lemma_all_vars_both(args[i], p, q, r);
            }
        },
        UTypeV::Array(_, e) => lemma_all_vars_both(*e, p, q, r),
        UTypeV::Ptr { tp, .. } => lemma_all_vars_both(*tp, p, q, r),
        UTypeV::Slice { tp, .. } => lemma_all_vars_both(*tp, p, q, r),
        UTypeV::Var(w) => {
            assert(p(w) && q(w));
        },
        _ => {},
    }
}

/// A new variable leaves every old type resolving as before.
pub proof fn lemma_apply_push(t: UTypeV, c: Seq<(nat, Option<UTypeV>)>, sol: Seq<UTypeV>)
    requires
        table_ok(c, sol),
        vars_below(t, c.len()),
    ensures
        apply(t, c.push((c.len(), None)), sol.push(UTypeV::Error)) == apply(t, c, sol),
    decreases t,
{
    let c2 = c.push((c.len(), None::<UTypeV>));
    let sol2 = sol.push(UTypeV::Error);
    match t {
        UTypeV::Var(w) => {
            assert(w < c.len());
            assert(c2[w as int] == c[w as int]);
            let q = c[w as int].0;
            assert(sol2[q as int] == sol[q as int]);
        },
        UTypeV::Tuple(ts) => {
            assert forall|i: int| 0 <= i < ts.len() implies #[trigger] apply_seq(ts, c2, sol2)[i] == apply_seq(ts, c, sol)[i] by {
                assert(vars_below(ts[i], c.len()));
                lemma_apply_push(ts[i], c, sol);
            }
            assert(apply_seq(ts, c2, sol2) =~= apply_seq(ts, c, sol));
        },
        UTypeV::Fn(args, ret) => {
            lemma_apply_push(*ret, c, sol);
            assert forall|i: int| 0 <= i < args.len() implies #[trigger] apply_seq(args, c2, sol2)[i] == apply_seq(args, c, sol)[i] by {
                assert(vars_below(args[i], c.len()));
                lemma_apply_push(args[i], c, sol);
            }
            assert(apply_seq(args, c2, sol2) =~= apply_seq(args, c, sol));
        },
        UTypeV::Array(_, e) => lemma_apply_push(*e, c, sol),
        UTypeV::Ptr { tp, .. } => lemma_apply_push(*tp, c, sol),
        UTypeV::Slice { tp, .. } => lemma_apply_push(*tp, c, sol),
        _ => {},
    }
}

/// A new, free variable keeps the invariant.
pub proof fn lemma_push_ok(c: Seq<(nat, Option<UTypeV>)>, sol: Seq<UTypeV>)
    requires
        table_ok(c, sol),
    ensures
        table_ok(c.push((c.len(), None)), sol.push(UTypeV::Error)),
{
    let c2 = c.push((c.len(), None::<UTypeV>));
    let sol2 = sol.push(UTypeV::Error);
    let n = c.len();
    assert forall|k: int| 0 <= k < c2.len() implies {
        let q = (#[trigger] c2[k]).0;
        &&& q < c2.len()
        &&& c2[q as int].0 == q
        &&& c2[k].1 == c2[q as int].1
    } by {
        if k < n {
            let q0 = c[k].0;
            assert(c[q0 as int].0 == q0);
        }
    }
    assert forall|k: int| 0 <= k < c2.len() && (#[trigger] c2[k]).1 is Some implies {
        let v = c2[k].1->0;
        &&& !(v is Var)
        &&& vars_below(v, c2.len())
    } by {
        assert(k < n);
        assert(c2[k] == c[k]);
        lemma_all_vars_weaken(c[k].1->0, below(n), below(c2.len()));
    }
    assert forall|w: nat| #[trigger] free_in(c)(w) implies free_in(c2)(w) by {
        assert(c2[w as int] == c[w as int]);
    }
    assert forall|k: int| 0 <= k < c2.len() && (#[trigger] c2[k]).1 is Some && c2[k].0 == k implies {
        &&& sol2[k] == apply(c2[k].1->0, c2, sol2)
        &&& all_vars(sol2[k], free_in(c2))
    } by {
        assert(k < n);
        assert(c2[k] == c[k]);
        lemma_apply_push(c[k].1->0, c, sol);
        lemma_all_vars_weaken(sol[k], free_in(c), free_in(c2));
    }
}

/// What looking at `t` through the table shows: the type bound to a bound
/// variable, and `t` itself otherwise.
pub open spec fn view_of(t: UTypeV, c: Seq<(nat, Option<UTypeV>)>) -> UTypeV {
    match t {
        UTypeV::Var(w) => if w < c.len() && c[w as int].1 is Some {
            c[w as int].1->0
        } else {
            t
        },
        _ => t,
    }
}

/// Looking through the table changes nothing in what a type resolves to,
/// and shows a variable only where it is free.
pub proof fn lemma_view_apply(t: UTypeV, c: Seq<(nat, Option<UTypeV>)>, sol: Seq<UTypeV>)
    requires
        table_ok(c, sol),
        vars_below(t, c.len()),
    ensures
        apply(view_of(t, c), c, sol) == apply(t, c, sol),
        vars_below(view_of(t, c), c.len()),
        view_of(t, c) matches UTypeV::Var(w) ==> w < c.len() && c[w as int].1 is None,
{
    if let UTypeV::Var(w) = t {
        assert(w < c.len());
        if c[w as int].1 is Some {
            let r = c[w as int].0;
            assert(c[r as int].0 == r);
            assert(c[w as int].1 == c[r as int].1);
        }
    }
}

/// The parts of a type resolve to smaller types than the whole.
pub proof fn lemma_parts_smaller(t: UTypeV, c: Seq<(nat, Option<UTypeV>)>, sol: Seq<UTypeV>)
    ensures
        t matches UTypeV::Tuple(ts) ==> forall|i: int| 0 <= i < ts.len() ==> size(apply(#[trigger] ts[i], c, sol)) < size(apply(t, c, sol)),
        t matches UTypeV::Fn(args, ret) ==> size(apply(*ret, c, sol)) < size(apply(t, c, sol))
            && forall|i: int| 0 <= i < args.len() ==> size(apply(#[trigger] args[i], c, sol)) < size(apply(t, c, sol)),
        t matches UTypeV::Array(_, e) ==> size(apply(*e, c, sol)) < size(apply(t, c, sol)),
        t matches UTypeV::Ptr { tp, .. } ==> size(apply(*tp, c, sol)) < size(apply(t, c, sol)),
        t matches UTypeV::Slice { tp, .. } ==> size(apply(*tp, c, sol)) < size(apply(t, c, sol)),
{
    match t {
        UTypeV::Tuple(ts) => {
            assert forall|i: int| 0 <= i < ts.len() implies size(apply(#[trigger] ts[i], c, sol)) < size(apply(t, c, sol)) by {
                lemma_sizes_elem(apply_seq(ts, c, sol), i);
            }
        },
        UTypeV::Fn(args, ret) => {
            assert forall|i: int| 0 <= i < args.len() implies size(apply(#[trigger] args[i], c, sol)) < size(apply(t, c, sol)) by {
                lemma_sizes_elem(apply_seq(args, c, sol), i);
            }
        },
        _ => {},
    }
}

/// A type with no variable left, as inference reports it: an unresolved
/// variable becomes the error type.
pub open spec fn seal(t: UTypeV) -> crate::tp::TypeV
    decreases t,
{
    match t {
        UTypeV::Error => crate::tp::TypeV::Error,
        UTypeV::Int => crate::tp::TypeV::Int,
        UTypeV::Bool => crate::tp::TypeV::Bool,
        UTypeV::Var(_) => crate::tp::TypeV::Error,
        UTypeV::Tuple(ts) => crate::tp::TypeV::Tuple(seal_seq(ts)),
        UTypeV::Array(n, e) => crate::tp::TypeV::Array(n, Box::new(seal(*e))),
        UTypeV::Fn(args, ret) => crate::tp::TypeV::Fn(seal_seq(args), Box::new(seal(*ret))),
        UTypeV::Ptr { tp, is_mut } => crate::tp::TypeV::Ptr { tp: Box::new(seal(*tp)), is_mut },
        UTypeV::Slice { tp, is_mut } => crate::tp::TypeV::Slice { tp: Box::new(seal(*tp)), is_mut },
    }
}

pub open spec fn seal_seq(ts: Seq<UTypeV>) -> Seq<crate::tp::TypeV>
    decreases ts,
{
    Seq::new(ts.len(), |i: int| if 0 <= i < ts.len() { seal(ts[i]) } else { crate::tp::TypeV::Error })
}

/// Sealing keeps the shape of a list of types, sealing each part.
pub proof fn lemma_seal_seq_parts(ts: Seq<UTypeV>)
    ensures
        seal_seq(ts).len() == ts.len(),
        forall|i: int| 0 <= i < ts.len() ==> #[trigger] seal_seq(ts)[i] == seal(ts[i]),
{
}

} // verus!
