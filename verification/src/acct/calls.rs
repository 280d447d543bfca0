//! What calls into the accounting system do, in terms of their arguments and
//! their results.
//!
//! A request for resources is granted if, and only if, it satisfies the
//! inequality that all quotas are based on:
//!
//! ```txt
//!                       remaining + share
//!     charge + share <= ~~~~~~~~~~~~~~~~~
//!                              A
//! ```

use crate::acct::claim::{
    charge_claims, claims_ok, discharge_claims, kept_reserve, slot_charged, slot_discharged,
    slot_request, verdict, zero_claim, Claim,
};
use crate::acct::fair::{quasilinear_fn, Pool, Request};
use crate::acct::model::{
    for_user, from_quota, from_user, lemma_claims, lemma_counts, on_user, AcctView,
};
use crate::acct::quota::{
    allocator_exponential, allocator_polynomial, allocator_quasilinear, fits, lemma_log2_ceiled,
    lemma_quasilinear_positive, log2_ceil, log2_ceiled, quasilinear, quota_reserve, reserve,
    value_from_usize,
};
use crate::acct::{Acct, Actor, Charge, ChargeError, Id, N_SLOTS, UserRef, Value};
use crate::util::arena::{Addr, AllocError};
use crate::util::total::{lemma_total_bound, lemma_total_count, total};
use vstd::arithmetic::div_mod::{
    lemma_div_basics, lemma_div_is_ordered_by_denominator, lemma_div_pos_is_pos,
};
use vstd::arithmetic::mul::lemma_mul_is_commutative;
use vstd::arithmetic::power2::{lemma_pow2_strictly_increases, pow2};
use vstd::prelude::*;

verus! {

/// A request satisfies the inequality of a quota.
pub open spec fn within(charge: int, share: int, remaining: int, a: int) -> bool {
    (charge + share) * a <= remaining + share
}

/// What the reserve of a quota has to provide for an actor to charge an amount:
/// with this reserve the amount is just half of what is left.
pub open spec fn demand(amount: int, share: int) -> int {
    2 * amount + share
}

/// A charge on a single slot is affordable: either the reserve of the quota
/// covers it, or the missing part is granted by the user. Foreign users get no
/// more than a fraction of what the user has left.
pub open spec fn affordable(
    user: Claim,
    quota: Claim,
    trace: Claim,
    a: int,
    amount: int,
    cross_user: bool,
    s: int,
) -> bool {
    let missing = demand(amount, trace.claimed[s] as int) - quota.available[s];
    ||| within(amount, trace.claimed[s] as int, quota.available[s] as int, 2)
    ||| cross_user && within(missing, quota.claimed[s] as int, user.available[s] as int, a)
    ||| !cross_user && missing <= user.available[s]
}

/// The minimum reserve is there if, and only if, a request satisfies the
/// inequality of the quota.
proof fn lemma_within(a: int, share: Value, charge: Value, remaining: Value)
    requires
        a >= 1,
        remaining + share <= Value::MAX,
        charge + share >= 1 || a <= Value::MAX,
    ensures
        (reserve(fits(a), share, charge) is Some && reserve(fits(a), share, charge)->0
            <= remaining) <==> within(charge as int, share as int, remaining as int, a),
{
    let x = charge + share;
    assert(x * a >= x) by (nonlinear_arith)
        requires
            x >= 0,
            a >= 1,
    ;
    if x >= 1 {
        assert(x * a >= a) by (nonlinear_arith)
            requires
                x >= 1,
                a >= 1,
        ;
    }
}

pub(super) proof fn lemma_slot(
    user: Claim,
    quota: Claim,
    trace: Claim,
    n_users: Value,
    amount: Value,
    cross_user: bool,
    s: int,
)
    requires
        0 <= s < N_SLOTS,
        claims_ok(user, quota, trace),
    ensures
        ({
            let r = slot_request(user, quota, trace, n_users, amount, cross_user, s);
            let a = quasilinear(n_users as int);
            let missing = demand(amount as int, trace.claimed[s] as int) - quota.available[s];
            &&& r is Ok <==> affordable(user, quota, trace, a, amount as int, cross_user, s)
            &&& r matches Ok(n) ==> n == if missing > 0 {
                missing
            } else {
                0
            }
            &&& r matches Err(e) ==> e == if 2 * (amount + trace.claimed[s]) > Value::MAX {
                ChargeError::ActorQuota
            } else {
                ChargeError::UserQuota
            }
        }),
{
    let a = quasilinear(n_users as int);
    let share = trace.claimed[s];
    assert(quota.available[s] <= quota.claimed[s]);
    lemma_quasilinear_positive(n_users as int);
    lemma_within(2, share, amount, quota.available[s]);
    let missing = demand(amount as int, share as int) - quota.available[s];
    if 2 * (amount + share) <= Value::MAX {
        if missing > 0 {
            lemma_within(a, quota.claimed[s], missing as Value, user.available[s]);
        }
    } else {
        assert(missing + quota.claimed[s] > user.available[s] + quota.claimed[s]);
        let x = missing + quota.claimed[s];
        assert(x * a >= x) by (nonlinear_arith)
            requires
                x >= 0,
                a >= 1,
        ;
    }
}

/// `l` is the binary logarithm of a number, rounded up.
pub open spec fn is_log2(v: int, l: nat) -> bool {
    &&& v <= pow2(l)
    &&& l > 0 ==> pow2((l - 1) as nat) < v
}

proof fn lemma_is_log2(v: int, l: nat)
    requires
        v >= 1,
        is_log2(v, l),
    ensures
        log2_ceiled(v) == l,
{
    lemma_log2_ceiled(v);
    let e = log2_ceiled(v);
    if e < l && e < l - 1 {
        lemma_pow2_strictly_increases(e, (l - 1) as nat);
    }
}

/// The allocators divide what is left by 2, by `n + 1`, and by
/// `(n+1) log(n+1) + n+1`, unless this is out of range.
pub proof fn lemma_allocators(
    n: Value,
    l: nat,
    x: Option<Value>,
    p: Option<Value>,
    q: Option<Value>,
)
    requires
        is_log2(n + 1, l),
        call_ensures(allocator_exponential, (n,), x),
        call_ensures(allocator_polynomial, (n,), p),
        call_ensures(allocator_quasilinear, (n,), q),
    ensures
        x == Some(2 as Value),
        p is Some <==> n + 1 <= Value::MAX,
        p is Some ==> p->0 == n + 1,
        q is Some <==> (n + 1) * l + n + 1 <= Value::MAX,
        q is Some ==> q->0 == (n + 1) * l + n + 1,
{
    lemma_is_log2(n + 1, l);
    lemma_quasilinear_positive(n as int);
}

/// The reserve that a request needs is `(charge + share) * A - share`, unless this
/// is out of range.
pub proof fn lemma_quota_reserve<F: Fn(Value) -> Option<Value>>(
    allocator_fn: F,
    n_users: Value,
    share: Value,
    charge: Value,
    r: Option<Value>,
    a: Value,
)
    requires
        call_ensures(quota_reserve::<F>, (allocator_fn, n_users, share, charge), r),
        forall|x: Option<Value>| #[trigger]
            allocator_fn.ensures((n_users,), x) ==> x == Some(a),
        a >= 1,
    ensures
        r is Some <==> (charge + share) * a <= Value::MAX,
        r is Some ==> r->0 == (charge + share) * a - share,
        forall|remaining: Value|
            remaining + share <= Value::MAX ==> (#[trigger] within(
                charge as int,
                share as int,
                remaining as int,
                a as int,
            ) <==> r is Some && r->0 <= remaining),
{
    let x = charge + share;
    assert(x * a >= x) by (nonlinear_arith)
        requires
            x >= 0,
            a >= 1,
    ;
}

/// There is no reserve without an allocator.
pub proof fn lemma_no_reserve<F: Fn(Value) -> Option<Value>>(
    allocator_fn: F,
    n_users: Value,
    share: Value,
    charge: Value,
    r: Option<Value>,
)
    requires
        call_ensures(quota_reserve::<F>, (allocator_fn, n_users, share, charge), r),
        forall|x: Option<Value>| #[trigger] allocator_fn.ensures((n_users,), x) ==> x is None,
    ensures
        r is None,
{
}

/// The logarithm of a positive number, rounded up. Zero counts as the number past
/// the range.
pub proof fn lemma_log2_ceil(v: Value, l: nat, r: Value)
    requires
        v >= 1 ==> is_log2(v as int, l),
        call_ensures(log2_ceil, (v,), r),
    ensures
        v >= 1 ==> r == l,
        v == 0 ==> r == 64,
{
    if v >= 1 {
        lemma_is_log2(v as int, l);
    }
}

/// Machine integers are values.
pub proof fn lemma_value_from_usize(v: usize, r: Value)
    requires
        call_ensures(value_from_usize, (v,), r),
    ensures
        r == v,
{
}

/// Why a charge is refused: a charge that no reserve could ever cover exceeds the
/// quota of the actor, and any other one the quota of the user.
pub open spec fn refusal(amount: int, share: int) -> ChargeError {
    if 2 * (amount + share) > Value::MAX {
        ChargeError::ActorQuota
    } else {
        ChargeError::UserQuota
    }
}

/// `j` is the first slot, starting with `k`, in which a charge is not affordable.
pub open spec fn first_refused(
    user: Claim,
    quota: Claim,
    trace: Claim,
    a: int,
    amount: Seq<Value>,
    cross_user: bool,
    k: int,
    j: int,
) -> bool {
    &&& k <= j < N_SLOTS
    &&& !affordable(user, quota, trace, a, amount[j] as int, cross_user, j)
    &&& forall|s: int| #![trigger amount[s]]
        k <= s < j ==> affordable(user, quota, trace, a, amount[s] as int, cross_user, s)
}

pub(super) proof fn lemma_verdict(
    user: Claim,
    quota: Claim,
    trace: Claim,
    n_users: Value,
    amount: Seq<Value>,
    cross_user: bool,
    k: int,
)
    requires
        0 <= k <= N_SLOTS,
        claims_ok(user, quota, trace),
    ensures
        ({
            let r = verdict(user, quota, trace, n_users, amount, cross_user, k);
            let a = quasilinear(n_users as int);
            &&& r is Ok <==> forall|s: int| #![trigger amount[s]]
                k <= s < N_SLOTS ==> affordable(
                    user,
                    quota,
                    trace,
                    a,
                    amount[s] as int,
                    cross_user,
                    s,
                )
            &&& r != Err::<(), ChargeError>(ChargeError::Alloc(AllocError))
            &&& forall|j: int| #[trigger]
                first_refused(user, quota, trace, a, amount, cross_user, k, j) ==> r == Err::<
                    (),
                    ChargeError,
                >(refusal(amount[j] as int, trace.claimed[j] as int))
        }),
    decreases N_SLOTS - k,
{
    if k < N_SLOTS {
        let a = quasilinear(n_users as int);
        lemma_slot(user, quota, trace, n_users, amount[k], cross_user, k);
        lemma_verdict(user, quota, trace, n_users, amount, cross_user, k + 1);
        assert forall|j: int| #[trigger]
            first_refused(user, quota, trace, a, amount, cross_user, k, j) implies verdict(
            user,
            quota,
            trace,
            n_users,
            amount,
            cross_user,
            k,
        ) == Err::<(), ChargeError>(refusal(amount[j] as int, trace.claimed[j] as int)) by {
            if j > k {
                assert(affordable(user, quota, trace, a, amount[k] as int, cross_user, k));
                assert(first_refused(user, quota, trace, a, amount, cross_user, k + 1, j));
            }
        }
    }
}

/// A charge is granted if, and only if, it is affordable in every slot. If it is,
/// the amount moves from the reserve of the quota to the actor, and what is
/// missing in the reserve is provided by the user beforehand. If it is not,
/// nothing moves.
pub proof fn lemma_charge_claims(
    user: &mut Claim,
    quota: &mut Claim,
    trace: &mut Claim,
    n_users: Value,
    n_actors: Value,
    amount: &[Value; N_SLOTS],
    cross_user: bool,
    r: Result<(), ChargeError>,
    l: nat,
    a: int,
)
    requires
        claims_ok(*old(user), *old(quota), *old(trace)),
        is_log2(n_users + 1, l),
        a == (n_users + 1) * l + n_users + 1,
        call_ensures(
            charge_claims,
            (user, quota, trace, n_users, n_actors, amount, cross_user),
            r,
        ),
    ensures
        r is Ok <==> forall|s: int| #![trigger amount@[s]]
            0 <= s < N_SLOTS ==> affordable(
                *old(user),
                *old(quota),
                *old(trace),
                a,
                amount@[s] as int,
                cross_user,
                s,
            ),
        r is Err ==> *final(user) == *old(user) && *final(quota) == *old(quota) && *final(trace)
            == *old(trace),
        forall|j: int| #[trigger]
            first_refused(
                *old(user),
                *old(quota),
                *old(trace),
                a,
                amount@,
                cross_user,
                0,
                j,
            ) ==> r == Err::<(), ChargeError>(
                refusal(amount@[j] as int, old(trace).claimed[j] as int),
            ),
        r is Ok ==> forall|s: int| #![trigger amount@[s]]
            0 <= s < N_SLOTS ==> {
                let missing = demand(amount@[s] as int, old(trace).claimed[s] as int) - old(
                    quota,
                ).available[s];
                let moved = if missing > 0 {
                    missing
                } else {
                    0
                };
                &&& final(user).available[s] == old(user).available[s] - moved
                &&& final(quota).claimed[s] == old(quota).claimed[s] + moved
                &&& final(quota).available[s] == old(quota).available[s] + moved - amount@[s]
                &&& final(trace).claimed[s] == old(trace).claimed[s] + amount@[s]
                &&& final(trace).available[s] == old(trace).available[s]
            },
{
    let (u, q, t) = (*old(user), *old(quota), *old(trace));
    lemma_is_log2(n_users + 1, l);
    lemma_verdict(u, q, t, n_users, amount@, cross_user, 0);
    if r is Ok {
        assert forall|s: int| #![trigger amount@[s]] 0 <= s < N_SLOTS implies {
            let missing = demand(amount@[s] as int, t.claimed[s] as int) - q.available[s];
            let moved = if missing > 0 {
                missing
            } else {
                0
            };
            &&& final(user).available[s] == u.available[s] - moved
            &&& final(quota).claimed[s] == q.claimed[s] + moved
            &&& final(quota).available[s] == q.available[s] + moved - amount@[s]
            &&& final(trace).claimed[s] == t.claimed[s] + amount@[s]
            &&& final(trace).available[s] == t.available[s]
        } by {
            lemma_slot(u, q, t, n_users, amount@[s], cross_user, s);
            assert(slot_charged(
                (u, *final(user)),
                (q, *final(quota)),
                (t, *final(trace)),
                n_users,
                amount@[s],
                cross_user,
                s,
            ));
        }
    }
}

/// A foreign user gets resources of a user if, and only if, the pool of that
/// user grants them, whether or not it has any already. Hence, the guarantees of
/// the allocator hold for every charge that crosses user boundaries.
pub proof fn lemma_pool_decides(
    user: Claim,
    quota: Claim,
    trace: Claim,
    pool: Pool,
    position: int,
    amount: Value,
    s: int,
)
    requires
        0 <= s < N_SLOTS,
        claims_ok(user, quota, trace),
        0 <= position <= pool.shares.len(),
        pool.remaining == user.available[s],
        quota.claimed[s] == if position < pool.shares.len() {
            pool.shares[position]
        } else {
            0
        },
        demand(amount as int, trace.claimed[s] as int) - quota.available[s] > 0,
        demand(amount as int, trace.claimed[s] as int) - quota.available[s] <= Value::MAX,
    ensures
        ({
            let n = if position < pool.shares.len() {
                pool.shares.len() as int
            } else {
                pool.shares.len() as int + 1
            };
            let missing = demand(amount as int, trace.claimed[s] as int) - quota.available[s];
            affordable(user, quota, trace, quasilinear(n), amount as int, true, s)
                <==> pool.grants(
                quasilinear_fn(),
                Request { user: position, charge: missing as Value },
            )
        }),
{
    let n = if position < pool.shares.len() {
        pool.shares.len() as int
    } else {
        pool.shares.len() as int + 1
    };
    let missing = demand(amount as int, trace.claimed[s] as int) - quota.available[s];
    assert(quota.available[s] <= quota.claimed[s]);
    lemma_quasilinear_positive(n);
    lemma_within(quasilinear(n), quota.claimed[s], missing as Value, user.available[s]);
}

/// Nothing is missing, or a pool grants what is.
pub open spec fn is_served(pool: Pool, position: int, missing: int) -> bool {
    ||| missing <= 0
    ||| missing <= Value::MAX && pool.grants(
        quasilinear_fn(),
        Request { user: position, charge: missing as Value },
    )
}

/// A charge of a foreign user is granted if, and only if, in every slot the
/// reserve of its quota covers it, or the pool of the charged user grants what is
/// missing. The pool changes as if it has served the request.
pub proof fn lemma_pools_decide(
    user: &mut Claim,
    quota: &mut Claim,
    trace: &mut Claim,
    n_users: Value,
    n_actors: Value,
    amount: &[Value; N_SLOTS],
    r: Result<(), ChargeError>,
    pools: Seq<Pool>,
    position: int,
)
    requires
        claims_ok(*old(user), *old(quota), *old(trace)),
        call_ensures(charge_claims, (user, quota, trace, n_users, n_actors, amount, true), r),
        pools.len() == N_SLOTS,
        forall|s: int| #![trigger pools[s]]
            0 <= s < N_SLOTS ==> {
                &&& 0 <= position <= pools[s].shares.len()
                &&& pools[s].remaining == old(user).available[s]
                &&& old(quota).claimed[s] == if position < pools[s].shares.len() {
                    pools[s].shares[position]
                } else {
                    0
                }
                &&& n_users == if position < pools[s].shares.len() {
                    pools[s].shares.len() as int
                } else {
                    pools[s].shares.len() as int + 1
                }
            },
    ensures
        r is Ok <==> forall|s: int| #![trigger pools[s]]
            0 <= s < N_SLOTS ==> is_served(
                pools[s],
                position,
                demand(amount@[s] as int, old(trace).claimed[s] as int) - old(quota).available[s],
            ),
        r is Ok ==> forall|s: int| #![trigger pools[s]]
            0 <= s < N_SLOTS ==> {
                let missing = demand(amount@[s] as int, old(trace).claimed[s] as int) - old(
                    quota,
                ).available[s];
                let pool = pools[s].granted(Request { user: position, charge: missing as Value });
                missing > 0 ==> pool.remaining == final(user).available[s] && pool.shares.last()
                    == final(quota).claimed[s]
            },
{
    let (u, q, t) = (*old(user), *old(quota), *old(trace));
    let a = quasilinear(n_users as int);
    let l = log2_ceiled(n_users + 1);
    lemma_log2_ceiled(n_users + 1);
    lemma_charge_claims(user, quota, trace, n_users, n_actors, amount, true, r, l, a);
    assert forall|s: int| #![trigger pools[s]] #![trigger amount@[s]]
        0 <= s < N_SLOTS implies (affordable(u, q, t, a, amount@[s] as int, true, s) <==> is_served(
        pools[s],
        position,
        demand(amount@[s] as int, t.claimed[s] as int) - q.available[s],
    )) by {
        let missing = demand(amount@[s] as int, t.claimed[s] as int) - q.available[s];
        assert(q.available[s] <= q.claimed[s]);
        lemma_quasilinear_positive(n_users as int);
        if 0 < missing <= Value::MAX {
            lemma_pool_decides(u, q, t, pools[s], position, amount@[s], s);
        } else if missing > Value::MAX {
            let x = missing + q.claimed[s];
            assert(x * a >= x) by (nonlinear_arith)
                requires
                    x >= 0,
                    a >= 1,
            ;
        }
    }
    if r is Ok {
        assert forall|s: int| #![trigger pools[s]] 0 <= s < N_SLOTS implies ({
            let missing = demand(amount@[s] as int, t.claimed[s] as int) - q.available[s];
            let pool = pools[s].granted(Request { user: position, charge: missing as Value });
            missing > 0 ==> pool.remaining == final(user).available[s] && pool.shares.last()
                == final(quota).claimed[s]
        }) by {
            assert(affordable(u, q, t, a, amount@[s] as int, true, s));
            let missing = demand(amount@[s] as int, t.claimed[s] as int) - q.available[s];
            assert(final(user).available[s] == u.available[s] - if missing > 0 {
                missing
            } else {
                0
            });
        }
    }
}

/// What a discharge does in one slot: the actor gives back the amount. The quota
/// retains a reserve of what its actors have claimed on average, and everything
/// else goes back to the user. Nothing gets lost.
pub open spec fn slot_returns(
    user: (Claim, Claim),
    quota: (Claim, Claim),
    trace: (Claim, Claim),
    n_actors: int,
    amount: int,
    s: int,
) -> bool {
    let granted = quota.1.claimed[s] - quota.1.available[s];
    let average = granted / n_actors;
    let available = quota.0.available[s] + amount;
    &&& trace.1.claimed[s] == trace.0.claimed[s] - amount
    &&& trace.1.available[s] == 0
    &&& granted == quota.0.claimed[s] - quota.0.available[s] - amount
    &&& user.1.available[s] + quota.1.claimed[s] == user.0.available[s] + quota.0.claimed[s]
    &&& quota.1.available[s] == if 2 * average <= Value::MAX && average < available {
        average
    } else {
        available
    }
}

pub(super) proof fn lemma_slot_returns(
    user: (Claim, Claim),
    quota: (Claim, Claim),
    trace: (Claim, Claim),
    n_actors: Value,
    amount: Value,
    s: int,
)
    requires
        0 <= s < N_SLOTS,
        claims_ok(user.0, quota.0, trace.0),
        n_actors > 0,
        amount <= trace.0.claimed[s],
        slot_discharged(user, quota, trace, n_actors, amount, s),
    ensures
        slot_returns(user, quota, trace, n_actors as int, amount as int, s),
{
    let q = quota.0;
    assert(q.available[s] <= q.claimed[s]);
    let granted = q.claimed[s] - (q.available[s] + amount);
    let average = granted / n_actors as int;
    lemma_div_pos_is_pos(granted, n_actors as int);
    lemma_div_is_ordered_by_denominator(granted, 1, n_actors as int);
    lemma_div_basics(granted);
    assert(quota.1.claimed[s] - quota.1.available[s] == granted);
    lemma_mul_is_commutative(2, average);
    assert(reserve(Some(2), average as Value, 0) == if 2 * average <= Value::MAX {
        Some(average as Value)
    } else {
        None
    });
    assert(kept_reserve(granted, n_actors) == if 2 * average <= Value::MAX {
        average as Value
    } else {
        Value::MAX
    });
}

/// A discharge gives back what was charged, in every slot.
pub proof fn lemma_discharge_claims(
    user: &mut Claim,
    quota: &mut Claim,
    trace: &mut Claim,
    n_actors: Value,
    amount: &[Value; N_SLOTS],
    r: (),
    s: int,
)
    requires
        claims_ok(*old(user), *old(quota), *old(trace)),
        n_actors > 0,
        forall|k: int| #![trigger amount@[k]]
            0 <= k < N_SLOTS ==> amount@[k] <= old(trace).claimed[k],
        call_ensures(discharge_claims, (user, quota, trace, n_actors, amount), r),
        0 <= s < N_SLOTS,
    ensures
        slot_returns(
            (*old(user), *final(user)),
            (*old(quota), *final(quota)),
            (*old(trace), *final(trace)),
            n_actors as int,
            amount@[s] as int,
            s,
        ),
        final(user).claimed == old(user).claimed,
{
    assert(amount@[s] <= old(trace).claimed[s]);
    lemma_slot_returns(
        (*old(user), *final(user)),
        (*old(quota), *final(quota)),
        (*old(trace), *final(trace)),
        n_actors,
        amount@[s],
        s,
    );
}

/// `quota` is the claim of the user `id` on the user `u`, and `trace` the part of
/// it that the actor `a` takes. Both are empty if there are no charges yet.
pub open spec fn claims_of(
    v: AcctView,
    u: Addr,
    id: Id,
    a: Addr,
    quota: Claim,
    trace: Claim,
) -> bool {
    &&& forall|q: Addr| #[trigger]
        v.quotas.contains_key(q) && v.quotas[q].user == u && v.quotas[q].id == id ==> quota
            == v.quotas[q].claim
    &&& forall|t: Addr| #[trigger]
        v.traces.contains_key(t) && v.traces[t].actor == a && v.quotas[v.traces[t].quota].user == u
            && v.quotas[v.traces[t].quota].id == id ==> trace == v.traces[t].claim
    &&& (forall|q: Addr| #[trigger]
        v.quotas.contains_key(q) ==> !(v.quotas[q].user == u && v.quotas[q].id == id))
        ==> quota == Claim { available: [0; N_SLOTS], claimed: [0; N_SLOTS] }
    &&& (forall|t: Addr| #[trigger]
        v.traces.contains_key(t) ==> !(v.traces[t].actor == a
            && v.quotas[v.traces[t].quota].user == u && v.quotas[v.traces[t].quota].id == id))
        ==> trace == Claim { available: [0; N_SLOTS], claimed: [0; N_SLOTS] }
}

/// The sequence lists the quotas on a user, including the one of the user `id`.
/// If there is none yet, any unused address takes its place.
pub open spec fn lists_quotas(v: AcctView, u: Addr, id: Id, qs: Seq<Addr>) -> bool {
    &&& qs.no_duplicates()
    &&& forall|q: Addr| #[trigger]
        v.quotas.contains_key(q) && v.quotas[q].user == u ==> qs.contains(q)
    &&& exists|i: int| #![trigger qs[i]]
        0 <= i < qs.len() && (v.quotas.contains_key(qs[i]) ==> v.quotas[qs[i]].user == u
            && v.quotas[qs[i]].id == id) && forall|k: int| #![trigger qs[k]]
            0 <= k < qs.len() && k != i ==> v.quotas.contains_key(qs[k]) && v.quotas[qs[k]].user
                == u && v.quotas[qs[k]].id != id
}

pub(super) proof fn lemma_claims_of(v: AcctView, u: Addr, a: Addr, quota: Claim, trace: Claim)
    requires
        v.wf(),
        v.users.contains_key(u),
        v.actors.contains_key(a),
        claims_of(v, u, v.users[v.actors[a].user].id, a, quota, trace),
    ensures
        claims_ok(v.users[u].claim, quota, trace),
        match v.quota_on(u, v.users[v.actors[a].user].id) {
            Some(b) => {
                &&& quota == v.quotas[b].claim
                &&& match v.trace_on(b, a) {
                    Some(t) => trace == v.traces[t].claim,
                    None => trace == zero_claim(),
                }
            },
            None => quota == zero_claim() && trace == zero_claim(),
        },
{
    let id = v.users[v.actors[a].user].id;
    let q = v.quota_on(u, id);
    let user = v.users[u].claim;
    assert(v.user_ok(u));
    match q {
        Some(b) => {
            assert(v.quotas.contains_key(b) && v.quotas[b].user == u && v.quotas[b].id == id);
            if v.trace_on(b, a) is None {
                assert forall|t: Addr| #[trigger] v.traces.contains_key(t) implies !(
                v.traces[t].actor == a && v.quotas[v.traces[t].quota].user == u
                    && v.quotas[v.traces[t].quota].id == id) by {
                    assert(v.trace_ok(t));
                    let _ = v.quotas[v.traces[t].quota];
                }
            } else {
                let t = v.trace_on(b, a)->0;
                assert(v.traces.contains_key(t));
            }
        },
        None => {
            assert forall|t: Addr| #[trigger] v.traces.contains_key(t) implies !(v.traces[t].actor
                == a && v.quotas[v.traces[t].quota].user == u && v.quotas[v.traces[t].quota].id
                == id) by {
                assert(v.trace_ok(t));
            }
        },
    }
    assert forall|s: int| #![trigger trace.available[s]] 0 <= s < N_SLOTS implies {
        &&& trace.available[s] == 0
        &&& trace.claimed[s] <= quota.claimed[s] - quota.available[s]
        &&& user.available[s] + quota.claimed[s] <= Value::MAX
    } by {
        lemma_total_bound(v.quotas, from_user(u, s));
        assert(v.users[u].claim.available[s] + total(v.quotas, from_user(u, s)) == v.maxima[s]);
        if let Some(b) = q {
            assert(v.quota_ok(b));
            assert(from_user(u, s)(v.quotas[b]) == quota.claimed[s]);
            lemma_total_bound(v.traces, from_quota(b, s));
            assert(v.quotas[b].claim.available[s] == quota.available[s]);
            if let Some(t) = v.trace_on(b, a) {
                lemma_claims(v, t);
                assert(v.quotas[v.traces[t].quota].claim.available[s] == quota.available[s]);
            }
        }
    }
}

/// There is a quota of the user `id` on the user `u`.
pub open spec fn has_quota(v: AcctView, u: Addr, id: Id) -> bool {
    exists|q: Addr| #[trigger]
        v.quotas.contains_key(q) && v.quotas[q].user == u && v.quotas[q].id == id
}

/// There is a trace of the actor `a` on the quota of the user `id` on the user `u`.
pub open spec fn has_trace(v: AcctView, u: Addr, id: Id, a: Addr) -> bool {
    exists|t: Addr| #[trigger]
        v.traces.contains_key(t) && v.traces[t].actor == a && v.quotas[v.traces[t].quota].user == u
            && v.quotas[v.traces[t].quota].id == id
}

/// A charge can be recorded: what is needed for it exists already, or can be
/// created.
pub open spec fn has_memory(v: AcctView, u: Addr, id: Id, a: Addr, limit: usize) -> bool {
    &&& has_quota(v, u, id) || v.quotas.dom().len() < limit
    &&& has_trace(v, u, id, a) || v.traces.dom().len() < limit
}

proof fn lemma_has(v: AcctView, u: Addr, a: Addr)
    requires
        v.wf(),
    ensures
        ({
            let id = v.users[v.actors[a].user].id;
            let q = v.quota_on(u, id);
            &&& q is Some <==> has_quota(v, u, id)
            &&& has_trace(v, u, id, a) <==> q is Some && v.trace_on(q->0, a) is Some
        }),
{
    let id = v.users[v.actors[a].user].id;
    let q = v.quota_on(u, id);
    if has_trace(v, u, id, a) {
        let t = choose|t: Addr| #[trigger]
            v.traces.contains_key(t) && v.traces[t].actor == a && v.quotas[v.traces[t].quota].user
                == u && v.quotas[v.traces[t].quota].id == id;
        assert(v.trace_ok(t));
        assert(v.quotas.contains_key(v.traces[t].quota));
        let b = q->0;
        assert(v.quotas.contains_key(b) && v.quotas[b].user == u && v.quotas[b].id == id);
        let _ = (v.quotas[b], v.quotas[v.traces[t].quota]);
        assert(!v.lacks_trace(b, a));
    }
    if q is Some && v.trace_on(q->0, a) is Some {
        let b = q->0;
        let t = v.trace_on(b, a)->0;
        assert(v.quotas.contains_key(b) && v.quotas[b].user == u && v.quotas[b].id == id);
        assert(v.traces.contains_key(t) && v.traces[t].quota == b && v.traces[t].actor == a);
    }
}

pub(super) proof fn lemma_judged(
    v: AcctView,
    u: Addr,
    a: Addr,
    amount: Seq<Value>,
    limit: usize,
    quota: Claim,
    trace: Claim,
    qs: Seq<Addr>,
    l: nat,
    d: int,
    cross: bool,
)
    requires
        v.wf(),
        cross == (v.users[v.actors[a].user].id != v.users[u].id),
        v.countable(),
        v.users.contains_key(u),
        v.actors.contains_key(a),
        amount.len() == N_SLOTS,
        claims_of(v, u, v.users[v.actors[a].user].id, a, quota, trace),
        lists_quotas(v, u, v.users[v.actors[a].user].id, qs),
        is_log2(qs.len() as int + 1, l),
        d == (qs.len() as int + 1) * l + qs.len() + 1,
    ensures
        ({
            let r = v.judged(u, a, amount, limit);
            let enough = has_memory(v, u, v.users[v.actors[a].user].id, a, limit);
            &&& r == Err::<(), ChargeError>(ChargeError::Alloc(AllocError)) <==> !enough
            &&& r is Ok <==> enough && forall|s: int| #![trigger amount[s]]
                0 <= s < N_SLOTS ==> affordable(
                    v.users[u].claim,
                    quota,
                    trace,
                    d,
                    amount[s] as int,
                    cross,
                    s,
                )
            &&& enough ==> forall|j: int| #[trigger]
                first_refused(
                    v.users[u].claim,
                    quota,
                    trace,
                    d,
                    amount,
                    cross,
                    0,
                    j,
                ) ==> r == Err::<(), ChargeError>(
                    refusal(amount[j] as int, trace.claimed[j] as int),
                )
        }),
{
    let id = v.users[v.actors[a].user].id;
    let i = choose|i: int| #![trigger qs[i]]
        0 <= i < qs.len() && (v.quotas.contains_key(qs[i]) ==> v.quotas[qs[i]].user == u
            && v.quotas[qs[i]].id == id) && forall|k: int| #![trigger qs[k]]
            0 <= k < qs.len() && k != i ==> v.quotas.contains_key(qs[k]) && v.quotas[qs[k]].user
                == u && v.quotas[qs[k]].id != id;
    let q = v.quota_on(u, id);
    assert(v.user_ok(u));
    lemma_counts(v);
    lemma_is_log2(qs.len() as int + 1, l);
    lemma_total_bound(v.actors, for_user(u));
    if q is Some {
        let b = q->0;
        assert(v.quotas.contains_key(b) && v.quotas[b].user == u && v.quotas[b].id == id);
        assert(qs.contains(b));
        let k = choose|k: int| 0 <= k < qs.len() && qs[k] == b;
        assert(k == i);
        assert forall|c: Addr| v.quotas.contains_key(c) implies on_user(u)(#[trigger] v.quotas[c])
            == (if qs.contains(c) {
            1int
        } else {
            0
        }) by {
            if qs.contains(c) {
                let m = choose|m: int| 0 <= m < qs.len() && qs[m] == c;
                assert(v.quotas[qs[m]].user == u);
            }
        }
        lemma_total_count(v.quotas, on_user(u), qs);
    } else {
        assert(v.lacks_quota(u, id));
        assert(!v.quotas.contains_key(qs[i]));
        let rs = qs.remove(i);
        assert forall|m: int| 0 <= m < rs.len() implies v.quotas.contains_key(#[trigger] rs[m]) by {
            assert(rs[m] == qs[if m < i {
                m
            } else {
                m + 1
            }]);
        }
        assert forall|c: Addr| v.quotas.contains_key(c) implies on_user(u)(#[trigger] v.quotas[c])
            == (if rs.contains(c) {
            1int
        } else {
            0
        }) by {
            if rs.contains(c) {
                let m = choose|m: int| 0 <= m < rs.len() && rs[m] == c;
                assert(rs[m] == qs[if m < i {
                    m
                } else {
                    m + 1
                }]);
            } else if v.quotas[c].user == u {
                assert(qs.contains(c));
                let m = choose|m: int| 0 <= m < qs.len() && qs[m] == c;
                assert(c == rs[if m < i {
                    m
                } else {
                    m - 1
                }]);
            }
        }
        assert(rs.no_duplicates());
        lemma_total_count(v.quotas, on_user(u), rs);
    }
    let n = v.n_quotas(u) + if q is Some {
        0int
    } else {
        1
    };
    assert(n == qs.len());
    let user = v.users[u].claim;
    lemma_claims_of(v, u, a, quota, trace);
    lemma_has(v, u, a);
    lemma_verdict(
        user,
        quota,
        trace,
        n as Value,
        amount,
        cross,
        0,
    );
}

/// A charge on the user of an actor, on behalf of another actor, is granted if,
/// and only if, it is affordable. All actors of a user share a single claim on
/// the charged user, and the more users have such a claim, the less each of them
/// gets.
pub proof fn lemma_charge(
    this: &Actor,
    acct: &mut Acct,
    claimant: &Actor,
    amount: &[Value; N_SLOTS],
    r: Result<Charge, ChargeError>,
    quota: Claim,
    trace: Claim,
    qs: Seq<Addr>,
    l: nat,
    a: int,
    cross: bool,
    enough: bool,
)
    requires
        old(acct).wf(),
        this.valid(old(acct)@),
        claimant.valid(old(acct)@),
        old(acct)@.countable(),
        call_ensures(Actor::charge, (this, acct, claimant, amount), r),
        ({
            let v = old(acct)@;
            let u = v.actors[this.addr()].user;
            let id = v.users[v.actors[claimant.addr()].user].id;
            &&& claims_of(v, u, id, claimant.addr(), quota, trace)
            &&& enough == has_memory(v, u, id, claimant.addr(), old(acct).limit())
            &&& cross == (id != v.users[u].id)
            &&& lists_quotas(v, u, id, qs)
        }),
        is_log2(qs.len() as int + 1, l),
        a == (qs.len() as int + 1) * l + qs.len() + 1,
    ensures
        ({
            let v = old(acct)@;
            let u = v.actors[this.addr()].user;
            r is Ok <==> enough && forall|s: int| #![trigger amount@[s]]
                0 <= s < N_SLOTS ==> affordable(
                    v.users[u].claim,
                    quota,
                    trace,
                    a,
                    amount@[s] as int,
                    cross,
                    s,
                )
        }),
        ({
            let v = old(acct)@;
            let u = v.actors[this.addr()].user;
            enough ==> forall|j: int| #[trigger]
                first_refused(
                    v.users[u].claim,
                    quota,
                    trace,
                    a,
                    amount@,
                    cross,
                    0,
                    j,
                ) ==> r == Err::<Charge, ChargeError>(
                    refusal(amount@[j] as int, trace.claimed[j] as int),
                )
        }),
        r is Err ==> final(acct)@ == old(acct)@,
        r == Err::<Charge, ChargeError>(ChargeError::Alloc(AllocError)) <==> !enough,
{
    let v = old(acct)@;
    let u = v.actors[this.addr()].user;
    old(acct).lemma_wf();
    assert(v.actor_ok(this.addr()));
    lemma_judged(v, u, claimant.addr(), amount@, old(acct).limit(), quota, trace, qs, l, a, cross);
}

/// A charge on a user follows the same rules as a charge on one of its actors.
pub proof fn lemma_charge_on_user(
    this: &UserRef,
    acct: &mut Acct,
    claimant: &Actor,
    amount: &[Value; N_SLOTS],
    r: Result<Charge, ChargeError>,
    quota: Claim,
    trace: Claim,
    qs: Seq<Addr>,
    l: nat,
    a: int,
    cross: bool,
    enough: bool,
)
    requires
        old(acct).wf(),
        this.valid(old(acct)@),
        claimant.valid(old(acct)@),
        old(acct)@.countable(),
        call_ensures(UserRef::charge, (this, acct, claimant, amount), r),
        ({
            let v = old(acct)@;
            let id = v.users[v.actors[claimant.addr()].user].id;
            &&& claims_of(v, this.addr(), id, claimant.addr(), quota, trace)
            &&& enough == has_memory(v, this.addr(), id, claimant.addr(), old(acct).limit())
            &&& cross == (id != v.users[this.addr()].id)
            &&& lists_quotas(v, this.addr(), id, qs)
        }),
        is_log2(qs.len() as int + 1, l),
        a == (qs.len() as int + 1) * l + qs.len() + 1,
    ensures
        ({
            let v = old(acct)@;
            let u = this.addr();
            r is Ok <==> enough && forall|s: int| #![trigger amount@[s]]
                0 <= s < N_SLOTS ==> affordable(
                    v.users[u].claim,
                    quota,
                    trace,
                    a,
                    amount@[s] as int,
                    cross,
                    s,
                )
        }),
        ({
            let v = old(acct)@;
            let u = this.addr();
            enough ==> forall|j: int| #[trigger]
                first_refused(
                    v.users[u].claim,
                    quota,
                    trace,
                    a,
                    amount@,
                    cross,
                    0,
                    j,
                ) ==> r == Err::<Charge, ChargeError>(
                    refusal(amount@[j] as int, trace.claimed[j] as int),
                )
        }),
        r is Err ==> final(acct)@ == old(acct)@,
        r == Err::<Charge, ChargeError>(ChargeError::Alloc(AllocError)) <==> !enough,
{
    let v = old(acct)@;
    old(acct).lemma_wf();
    lemma_judged(
        v,
        this.addr(),
        claimant.addr(),
        amount@,
        old(acct).limit(),
        quota,
        trace,
        qs,
        l,
        a,
        cross,
    );
}

} // verus!
