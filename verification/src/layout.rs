//! Memory layout of values: how many VM stack cells a value of a type occupies.

use crate::tp::{Type, TypeV};
use vstd::prelude::*;

verus! {

/// The number of cells a value of type `t` occupies.
pub open spec fn type_size(t: TypeV) -> nat
    decreases t,
{
    match t {
        TypeV::Error => 0,
        TypeV::Int => 1,
        TypeV::Tuple(tps) => types_size(tps),
        TypeV::Bool => 1,
        TypeV::Array(n, tp) => (n as nat) * type_size(*tp),
        TypeV::Fn(_, _) => 1,
        TypeV::Ptr { .. } => 1,
        TypeV::Slice { .. } => 2,
    }
}

/// The total size of a sequence of types laid out one after the other.
pub open spec fn types_size(tps: Seq<TypeV>) -> nat
    decreases tps,
{
    if tps.len() == 0 {
        0
    } else {
        types_size(tps.drop_last()) + type_size(tps.last())
    }
}

/// `get_size` succeeds on `t`: it reaches no `Error` and no size that it
/// computes on the way exceeds `usize::MAX`.
pub open spec fn has_layout(t: TypeV) -> bool
    decreases t,
{
    match t {
        TypeV::Error => false,
        TypeV::Tuple(tps) => types_size(tps) <= usize::MAX
            && forall|i: int| 0 <= i < tps.len() ==> has_layout(#[trigger] tps[i]),
        TypeV::Array(n, tp) => has_layout(*tp) && (n as nat) * type_size(*tp) <= usize::MAX,
        _ => true,
    }
}

/// A prefix of a sequence of types is no larger than the whole.
pub proof fn lemma_types_size_prefix(tps: Seq<TypeV>, i: int)
    requires
        0 <= i <= tps.len(),
    ensures
        types_size(tps.take(i)) <= types_size(tps),
    decreases tps.len(),
{
    if i < tps.len() {
        assert(tps.drop_last().take(i) =~= tps.take(i));
        lemma_types_size_prefix(tps.drop_last(), i);
    } else {
        assert(tps.take(i) =~= tps);
    }
}

/// The size of a value of type `tp`.
#[verifier::loop_isolation(false)]
pub fn get_size(tp: &Type) -> (res: usize)
    requires
        has_layout(tp@),
    ensures
        res == type_size(tp@),
    decreases tp,
{
    match tp {
        Type::Error => 0,
        Type::Int => 1,
        Type::Tuple(tps) => {
            let ghost tv = tps@.map_values(|t: Type| t@);
            assert(tv =~= crate::tp::types_view(tps@));
            let mut sum: usize = 0;
            let mut i: usize = 0;
            while i < tps.len()
                invariant
                    i <= tps.len(),
                    sum == types_size(tv.take(i as int)),
                decreases tps.len() - i,
            {
                assert(decreases_to!(*tp => tps@[i as int])) by {
                    assert(decreases_to!(*tp => *tps));
                    assert(decreases_to!(*tps => tps@[i as int]));
                }
                assert(has_layout(tv[i as int]));
                let s = get_size(&tps[i]);
                proof {
                    assert(tv.take(i + 1).drop_last() =~= tv.take(i as int));
                    lemma_types_size_prefix(tv, i + 1);
                }
                sum = sum + s;
                i += 1;
            }
            assert(tv.take(tps.len() as int) =~= tv);
            sum
        },
        Type::Bool => 1,
        Type::Array(n, inner) => {
            let s = get_size(inner);
            *n * s
        },
        Type::Fn(_, _) => 1,
        Type::Ptr { .. } => 1,
        Type::Slice { .. } => 2,
    }
}

/// The size of a value of type `tp`, or `None` where `get_size` would fail.
#[verifier::loop_isolation(false)]
pub fn try_get_size(tp: &Type) -> (res: Option<usize>)
    ensures
        res == (if has_layout(tp@) { Some(type_size(tp@) as usize) } else { None }),
    decreases tp,
{
    match tp {
        Type::Error => None,
        Type::Int => Some(1),
        Type::Tuple(tps) => {
            let ghost tv = tps@.map_values(|t: Type| t@);
            assert(tv =~= crate::tp::types_view(tps@));
            let mut sum: usize = 0;
            let mut i: usize = 0;
            while i < tps.len()
                invariant
                    i <= tps.len(),
                    sum == types_size(tv.take(i as int)),
                    forall|k: int| 0 <= k < i ==> has_layout(#[trigger] tv[k]),
                decreases tps.len() - i,
            {
                assert(decreases_to!(*tp => tps@[i as int])) by {
                    assert(decreases_to!(*tp => *tps));
                    assert(decreases_to!(*tps => tps@[i as int]));
                }
                let s = match try_get_size(&tps[i]) {
                    Some(s) => s,
                    None => {
                        assert(!has_layout(tv[i as int]));
                        return None;
                    },
                };
                proof {
                    assert(tv.take(i + 1).drop_last() =~= tv.take(i as int));
                }
                if sum > usize::MAX - s {
                    proof {
                        lemma_types_size_prefix(tv, i + 1);
                    }
                    return None;
                }
                sum = sum + s;
                i += 1;
            }
            assert(tv.take(tps.len() as int) =~= tv);
            Some(sum)
        },
        Type::Bool => Some(1),
        Type::Array(n, inner) => {
            let s = match try_get_size(inner) {
                Some(s) => s,
                None => return None,
            };
            match n.checked_mul(s) {
                Some(z) => Some(z),
                None => None,
            }
        },
        Type::Fn(_, _) => Some(1),
        Type::Ptr { .. } => Some(1),
        Type::Slice { .. } => Some(2),
    }
}

} // verus!
