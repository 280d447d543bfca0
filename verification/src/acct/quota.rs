//! Quota calculations.
//!
//! This module allows an unknown set of users to fairly share a fixed pool of
//! resources. The quota-check is applied whenever a user requests resources
//! from the shared resource pool. It considers every allocation of a user as a
//! re-allocation of their current share: they are pretended to release their
//! currently held resources, and to then request the size of the original
//! request plus their previous share. This re-allocation has to satisfy the
//! following inequality:
//!
//! ```txt
//!                       remaining + share
//!     charge + share <= ~~~~~~~~~~~~~~~~~
//!                           A(n_users)
//! ```
//!
//! In other words, of the remaining resources, a user gets a fraction that only
//! depends on the number of users that are active. Which function `A()` is
//! chosen determines the guarantees of the algorithm.

use crate::acct::Value;
use vstd::arithmetic::power2::{
    lemma_pow2_pos, lemma_pow2_strictly_increases, lemma_pow2_unfold, pow2,
};
use vstd::prelude::*;

verus! {

/// Convert from `usize` to [`Value`].
pub fn value_from_usize(v: usize) -> (r: Value)
    ensures
        r == v,
{
    v as Value
}

/// The ceiled base-2 logarithm.
pub open spec fn log2_ceiled(v: int) -> nat
    decreases v,
{
    if v <= 1 {
        0
    } else {
        1 + log2_ceiled((v + 1) / 2)
    }
}

/// The ceiled logarithm is the exponent of the smallest power of two that is
/// not less than the value.
pub proof fn lemma_log2_ceiled(v: int)
    requires
        v >= 1,
    ensures
        v <= pow2(log2_ceiled(v)),
        forall|e: nat| #![trigger pow2(e)] v <= pow2(e) ==> log2_ceiled(v) <= e,
    decreases v,
{
    let r = log2_ceiled(v);
    if v > 1 {
        let h = (v + 1) / 2;
        lemma_log2_ceiled(h);
        lemma_pow2_unfold(r);
        assert forall|e: nat| #![trigger pow2(e)] v <= pow2(e) implies r <= e by {
            if e == 0 {
                assert(pow2(0) == 1) by {
                    vstd::arithmetic::power2::lemma2_to64();
                }
            } else {
                lemma_pow2_unfold(e);
                assert(h <= pow2((e - 1) as nat));
            }
        }
    } else {
        lemma_pow2_pos(0);
    }
}

proof fn lemma_log2_unique(v: int, r: nat)
    requires
        v >= 1,
        v <= pow2(r),
        r > 0 ==> pow2((r - 1) as nat) < v,
    ensures
        r == log2_ceiled(v),
{
    lemma_log2_ceiled(v);
    let e = log2_ceiled(v);
    if e < r {
        if e < r - 1 {
            lemma_pow2_strictly_increases(e, (r - 1) as nat);
        }
    }
}

/// Calculate the ceiled base-2 logarithm, rounding up in case of missing
/// precision.
///
/// If `v` is 0, this is the maximum logarithm representable.
pub fn log2_ceil(v: Value) -> (r: Value)
    ensures
        v >= 1 ==> r == log2_ceiled(v as int),
        v == 0 ==> r == Value::BITS,
{
    let length: u32 = Value::BITS;

    // This calculates the ceiled logarithm. What we do is count the leading
    // zeros of the value in question and then subtract it from its bit-length.
    // By subtracting one from the value first we make sure the value is ceiled.
    let w: Value = v.wrapping_sub(1);
    let zeros: u32 = w.leading_zeros();
    proof {
        vstd::std_specs::bits::axiom_u64_leading_zeros(w);
        let r = (64 - zeros) as nat;
        if v >= 1 {
            lemma_pow2_pos(0);
            assert(pow2(0) == 1) by {
                vstd::arithmetic::power2::lemma2_to64();
            }
            if w == 0 {
                lemma_log2_unique(v as int, 0);
            } else {
                let z = zeros as u64;
                let top = (63 - z) as u64;
                assert(w >> top != 0) by (bit_vector)
                    requires
                        (w >> top) & 1u64 != 0u64,
                ;
                vstd::bits::lemma_u64_shr_is_div(w, top);
                assert(w >= pow2(top as nat)) by {
                    if w < pow2(top as nat) {
                        vstd::arithmetic::div_mod::lemma_basic_div(w as int, pow2(top as nat) as int);
                    }
                }
                if zeros == 0 {
                    assert(pow2(64) == 0x1_0000_0000_0000_0000) by {
                        vstd::arithmetic::power2::lemma2_to64();
                    }
                } else {
                    let all = (64 - z) as u64;
                    assert(w >> all == 0);
                    vstd::bits::lemma_u64_shr_is_div(w, all);
                    lemma_pow2_pos(all as nat);
                    assert(w < pow2(all as nat)) by (nonlinear_arith)
                        requires
                            w as int / pow2(all as nat) as int == 0,
                            pow2(all as nat) > 0,
                            w >= 0,
                    ;
                }
                lemma_log2_unique(v as int, r);
            }
        } else {
            assert(w == u64::MAX);
            assert((u64::MAX >> 63u64) & 1u64 == 1u64) by (bit_vector);
            assert(zeros == 0) by {
                if zeros > 0 {
                    assert((w >> 63u64) & 1u64 == 0u64);
                }
            }
        }
    }
    let log2: u32 = length - zeros;
    log2 as Value
}

/// A resource allocator that provides exponential allocation guarantees. It
/// ensures resource reserves are freely accessible, at the expense of granting
/// only very limited guarantees to each entity.
///
/// This allocator grants access to half of the remaining resources for every
/// new allocation.
pub fn allocator_exponential(_users: Value) -> (r: Option<Value>)
    ensures
        r == Some(2 as Value),
{
    Some(2)
}

/// A resource allocator that provides polynomial allocation guarantees. It
/// ensures resource reserves are easily accessible, at the expense of granting
/// only limited guarantees to each entity.
///
/// This allocator grants access to 1 over `n + 1` of the remaining resources
/// for every new allocation (with `n` being the number of active entities).
pub fn allocator_polynomial(users: Value) -> (r: Option<Value>)
    ensures
        r == fits(users + 1),
{
    users.checked_add(1)
}

/// A number as resource value, if it is in the range of such values.
pub open spec fn fits(v: int) -> Option<Value> {
    if 0 <= v <= Value::MAX {
        Some(v as Value)
    } else {
        None
    }
}

/// The divisor of the quasilinear allocator: `(n+1) log(n+1) + n+1`.
pub open spec fn quasilinear(users: int) -> int {
    (users + 1) * log2_ceiled(users + 1) + users + 1
}

/// A resource allocator that provides quasilinear allocation guarantees. It
/// ensures strong guarantees to each entity, at the expense of heavily
/// restricting resource reserves.
///
/// This allocator grants access to 1 over `(n+1) log(n+1) + n+1` of the
/// remaining resources for every new allocation (with `n` being the number of
/// active entities).
pub fn allocator_quasilinear(users: Value) -> (r: Option<Value>)
    ensures
        r == fits(quasilinear(users as int)),
{
    let ghost n = users + 1;
    let ghost l = log2_ceiled(n) as int;
    proof {
        assert(n * l >= 0) by (nonlinear_arith)
            requires
                n >= 0,
                l >= 0,
        ;
        assert(n * l == l * n) by (nonlinear_arith);
    }
    let users1 = match users.checked_add(1) {
        Some(v) => v,
        None => return None,
    };
    let log_mul = match log2_ceil(users1).checked_mul(users1) {
        Some(v) => v,
        None => return None,
    };
    log_mul.checked_add(users1)
}

/// The minimum reserve for a request, given the divisor of the allocator:
/// `(charge + share) * A - share`. There is none if this, or a partial result,
/// is out of range.
pub open spec fn reserve(allocator: Option<Value>, share: Value, charge: Value) -> Option<Value> {
    match allocator {
        Some(a) => if charge + share <= Value::MAX && (charge + share) * a <= Value::MAX {
            fits((charge + share) * a - share)
        } else {
            None
        },
        None => None,
    }
}

/// Calculate the minimum reserve size required for an allocation request to
/// pass the quota.
///
/// Whenever an allocation request is checked against the quota, this function
/// can be used to calculate how many resources must still be available in the
/// reserve to allow the request. If this minimum reserve size matches the size
/// of the request, the allocation would be allowed to consume all remaining
/// resources. In most cases, this function returns a bigger minimum reserve
/// size, to ensure future requests can be served as well.
///
/// * `n_users`: Number of users that are tracked, including the claimant user
/// * `share`: Amount of resources the claimant user has already allocated
/// * `charge`: Amount of resources that are requested by the claimant user
///
/// Any overflow results in a quota rejection.
pub fn quota_reserve<F: Fn(Value) -> Option<Value>>(
    allocator_fn: F,
    n_users: Value,
    share: Value,
    charge: Value,
) -> (r: Option<Value>)
    requires
        allocator_fn.requires((n_users,)),
    ensures
        exists|a: Option<Value>|
            allocator_fn.ensures((n_users,), a) && r == #[trigger] reserve(a, share, charge),
{
    let allocator = allocator_fn(n_users);
    let ghost r = reserve(allocator, share, charge);
    let allocator = match allocator {
        Some(v) => v,
        None => return None,
    };
    let charge_share = match charge.checked_add(share) {
        Some(v) => v,
        None => return None,
    };
    let limit = match charge_share.checked_mul(allocator) {
        Some(v) => v,
        None => return None,
    };
    limit.checked_sub(share)
}

/// The minimum reserve is available if, and only if, the request does not
/// exceed the fraction of the resources that the allocator grants.
pub proof fn lemma_reserve_is_fraction(a: Value, share: Value, charge: Value, remaining: Value)
    requires
        a > 0,
        charge + share <= Value::MAX,
        (charge + share) * a <= Value::MAX,
    ensures
        (reserve(Some(a), share, charge) is Some && reserve(Some(a), share, charge)->0
            <= remaining) <==> charge + share <= (remaining + share) / (a as int),
{
    let x = charge + share;
    let y = remaining + share;
    let b = a as int;
    assert(x * b >= share) by (nonlinear_arith)
        requires
            x >= share,
            x >= 0,
            b >= 1,
    ;
    assert(x * b <= y <==> x <= y / b) by (nonlinear_arith)
        requires
            b >= 1,
            x >= 0,
            y >= 0,
    ;
}

/// A minimum reserve always covers the request.
pub proof fn lemma_reserve_covers(a: Option<Value>, share: Value, charge: Value)
    requires
        a is Some ==> a->0 >= 1,
        reserve(a, share, charge) is Some,
    ensures
        reserve(a, share, charge)->0 >= charge,
{
    let b = a->0 as int;
    assert((charge + share) * b >= charge + share) by (nonlinear_arith)
        requires
            b >= 1,
    ;
}

/// The divisor of the quasilinear allocator is at least 1, and at least 2 for
/// every active entity.
pub proof fn lemma_quasilinear_positive(users: int)
    requires
        users >= 0,
    ensures
        quasilinear(users) >= 1,
        users >= 1 ==> quasilinear(users) >= 2 * (users + 1),
{
    let n = users + 1;
    let l = log2_ceiled(n) as int;
    assert(n * l >= 0) by (nonlinear_arith)
        requires
            l >= 0,
            n >= 0,
    ;
    if users >= 1 {
        assert(n * l >= n) by (nonlinear_arith)
            requires
                l >= 1,
                n >= 0,
        ;
    }
}

} // verus!
