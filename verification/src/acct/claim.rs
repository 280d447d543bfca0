//! Resource claims and how resources move between them.

use crate::acct::quota::{
    allocator_exponential, allocator_quasilinear, fits, lemma_quasilinear_positive,
    lemma_reserve_covers, quasilinear, quota_reserve, reserve,
};
use crate::acct::{ChargeError, N_SLOTS, Value};
use vstd::prelude::*;

verus! {

/// An object to track how many resources a stage has available and claimed.
///
/// A [`Claim`] object is always attached to an entity that claims resources
/// (regardless whether it is a tail-node or an intermediate that re-shares the
/// resources). It tracks how many resources this entity currently has claimed
/// from its upper node, and how many it has available to its lower nodes. The
/// amount it granted to its lower nodes is the difference between the two.
///
/// Tail nodes never have resources available. They always request exactly the
/// amount they claim, and they always release all resources back to the upper
/// node if no longer needed.
///
/// Intermediate nodes will likely request more resources than they grant. This
/// allows guarantees to other sub-nodes about future resource claims, without
/// being required to request more from the upper nodes (which can possibly
/// fail).
///
/// The root node cannot release resource to upper nodes (there are no upper
/// nodes), and thus the available resource of the root node show exactly the
/// resources that have not been claimed by the system, yet.
#[derive(Clone, Copy, Debug)]
pub struct Claim {
    pub available: [Value; N_SLOTS],
    pub claimed: [Value; N_SLOTS],
}

impl Claim {
    /// Create a claim on the given resources, all of which are available.
    pub fn with(available: &[Value; N_SLOTS]) -> (r: Self)
        ensures
            r.available == *available,
            r.claimed == *available,
    {
        Claim { available: *available, claimed: *available }
    }

    /// Create a claim on nothing.
    pub fn new() -> (r: Self)
        ensures
            r == zero_claim(),
    {
        Self::with(&[0; N_SLOTS])
    }
}

/// A claim on nothing.
pub open spec fn zero_claim() -> Claim {
    Claim { available: [0; N_SLOTS], claimed: [0; N_SLOTS] }
}

/// How many resources the upper stage has to provide for a charge on a single
/// slot, or why the charge is refused.
///
/// A request of an actor is first served from the reserve of the quota. If this
/// is not big enough, the missing part is requested from the user. If this
/// crosses user boundaries, a strong allocator decides. Otherwise, all
/// resources of the user are accessible.
pub open spec fn slot_request(
    user: Claim,
    quota: Claim,
    trace: Claim,
    n_users: Value,
    amount: Value,
    cross_user: bool,
    s: int,
) -> Result<Value, ChargeError> {
    match reserve(Some(2), trace.claimed[s], amount) {
        None => Err(ChargeError::ActorQuota),
        Some(minimum) => if quota.available[s] >= minimum {
            Ok(0)
        } else {
            let request = (minimum - quota.available[s]) as Value;
            let minimum = if cross_user {
                reserve(fits(quasilinear(n_users as int)), quota.claimed[s], request)
            } else {
                Some(request)
            };
            if minimum is Some && user.available[s] >= minimum->0 {
                Ok(request)
            } else {
                Err(ChargeError::UserQuota)
            }
        },
    }
}

/// The verdict on a charge, considering the slots from `s` on: it is granted if
/// every slot is, and otherwise refused for the first slot that is not.
pub open spec fn verdict(
    user: Claim,
    quota: Claim,
    trace: Claim,
    n_users: Value,
    amount: Seq<Value>,
    cross_user: bool,
    s: int,
) -> Result<(), ChargeError>
    decreases N_SLOTS - s,
{
    if 0 <= s < N_SLOTS {
        match slot_request(user, quota, trace, n_users, amount[s], cross_user, s) {
            Ok(_) => verdict(user, quota, trace, n_users, amount, cross_user, s + 1),
            Err(e) => Err(e),
        }
    } else {
        Ok(())
    }
}

/// How a granted charge moves resources in a single slot.
pub open spec fn slot_charged(
    user: (Claim, Claim),
    quota: (Claim, Claim),
    trace: (Claim, Claim),
    n_users: Value,
    amount: Value,
    cross_user: bool,
    s: int,
) -> bool {
    let request = slot_request(user.0, quota.0, trace.0, n_users, amount, cross_user, s)->Ok_0;
    &&& user.1.available[s] == user.0.available[s] - request
    &&& quota.1.claimed[s] == quota.0.claimed[s] + request
    &&& quota.1.available[s] == quota.0.available[s] + request - amount
    &&& trace.1.claimed[s] == trace.0.claimed[s] + amount
    &&& trace.1.available[s] == trace.0.available[s]
}

/// The claims of a user, one of its quotas, and one of the traces thereof, are
/// in the shape that every operation keeps.
pub open spec fn claims_ok(user: Claim, quota: Claim, trace: Claim) -> bool {
    forall|s: int| #![trigger quota.available[s]]
        0 <= s < N_SLOTS ==> {
            &&& trace.available[s] == 0
            &&& trace.claimed[s] <= quota.claimed[s] - quota.available[s]
            &&& user.available[s] + quota.claimed[s] <= Value::MAX
        }
}

/// Charge resources on a user.
///
/// This checks all quotas that are involved, and moves resources from the user
/// to the quota, and from there to the trace. If a quota would be exceeded,
/// nothing is changed.
///
/// * `n_users`: Number of quotas of the user
/// * `n_actors`: Number of traces of the quota
pub fn charge_claims(
    claim_user: &mut Claim,
    claim_quota: &mut Claim,
    claim_trace: &mut Claim,
    n_users: Value,
    n_actors: Value,
    amount: &[Value; N_SLOTS],
    cross_user: bool,
) -> (r: Result<(), ChargeError>)
    requires
        claims_ok(*old(claim_user), *old(claim_quota), *old(claim_trace)),
    ensures
        r == verdict(
            *old(claim_user),
            *old(claim_quota),
            *old(claim_trace),
            n_users,
            amount@,
            cross_user,
            0,
        ),
        r is Err ==> *final(claim_user) == *old(claim_user) && *final(claim_quota) == *old(
            claim_quota,
        ) && *final(claim_trace) == *old(claim_trace),
        r is Ok ==> forall|s: int| #![trigger amount@[s]]
            0 <= s < N_SLOTS ==> slot_charged(
                (*old(claim_user), *final(claim_user)),
                (*old(claim_quota), *final(claim_quota)),
                (*old(claim_trace), *final(claim_trace)),
                n_users,
                amount@[s],
                cross_user,
                s,
            ),
        final(claim_user).claimed == old(claim_user).claimed,
{
    let ghost u0 = *claim_user;
    let ghost q0 = *claim_quota;
    let ghost t0 = *claim_trace;

    // Remember the request to the user for each slot.
    let mut reqs: [Value; N_SLOTS] = [0; N_SLOTS];

    // First check each slot independently, but apply nothing.
    let mut slot: usize = 0;
    while slot < N_SLOTS
        invariant
            slot <= N_SLOTS,
            *claim_user == u0,
            *claim_quota == q0,
            *claim_trace == t0,
            claims_ok(u0, q0, t0),
            verdict(u0, q0, t0, n_users, amount@, cross_user, 0) == verdict(
                u0,
                q0,
                t0,
                n_users,
                amount@,
                cross_user,
                slot as int,
            ),
            forall|s: int| #![trigger amount@[s]]
                0 <= s < slot ==> slot_request(u0, q0, t0, n_users, amount@[s], cross_user, s)
                    == Ok::<Value, ChargeError>(reqs@[s]),
        decreases N_SLOTS - slot,
    {
        assert(q0.available[slot as int] <= q0.claimed[slot as int]);
        let req = amount[slot];

        // Trace allocation
        //
        // A trace object is a leaf node in the allocation tree, and as such
        // cannot have any overallocated resources. We delegate the allocation
        // and request resources for this trace object from the quota. This
        // uses a very lenient allocator, since no user boundaries are crossed,
        // but we merely share resources across actors of the same user.
        let minimum = match quota_reserve(
            allocator_exponential,
            n_actors,
            claim_trace.claimed[slot],
            req,
        ) {
            Some(v) => v,
            None => return Err(ChargeError::ActorQuota),
        };
        if claim_quota.available[slot] >= minimum {
            reqs[slot] = 0;
            slot += 1;
            continue;
        }

        let req = minimum - claim_quota.available[slot];

        // User allocation
        //
        // The reserve of the quota was not big enough to serve the request, so
        // we have to request more resources from the user. If this crosses
        // user-boundaries, we have to ensure that a strong allocator is used.
        // But if this does not cross user-boundaries, we grant full access to
        // all resources of the user.
        let minimum = if cross_user {
            match quota_reserve(
                allocator_quasilinear,
                n_users,
                claim_quota.claimed[slot],
                req,
            ) {
                Some(v) => v,
                None => return Err(ChargeError::UserQuota),
            }
        } else {
            req
        };
        if claim_user.available[slot] >= minimum {
            reqs[slot] = req;
            slot += 1;
            continue;
        }

        // Root allocation
        //
        // The resources of the user were exhausted. We do not support further
        // propagation, but only provide per-user limits. Hence, we have to
        // fail the request.
        return Err(ChargeError::UserQuota);
    }

    // With all quotas checked, apply the charge to each slot.
    slot = 0;
    while slot < N_SLOTS
        invariant
            slot <= N_SLOTS,
            claims_ok(u0, q0, t0),
            claim_user.claimed == u0.claimed,
            forall|s: int| #![trigger amount@[s]]
                0 <= s < N_SLOTS ==> slot_request(u0, q0, t0, n_users, amount@[s], cross_user, s)
                    == Ok::<Value, ChargeError>(reqs@[s]),
            forall|s: int| #![trigger amount@[s]]
                0 <= s < slot ==> slot_charged(
                    (u0, *claim_user),
                    (q0, *claim_quota),
                    (t0, *claim_trace),
                    n_users,
                    amount@[s],
                    cross_user,
                    s,
                ),
            forall|s: int| #![trigger u0.available[s]]
                slot <= s < N_SLOTS ==> {
                    &&& claim_user.available[s] == u0.available[s]
                    &&& claim_quota.available[s] == q0.available[s]
                    &&& claim_quota.claimed[s] == q0.claimed[s]
                    &&& claim_trace.available[s] == t0.available[s]
                    &&& claim_trace.claimed[s] == t0.claimed[s]
                },
        decreases N_SLOTS - slot,
    {
        proof {
            let s = slot as int;
            lemma_request_fits(u0, q0, t0, n_users, amount@[s], cross_user, s);
        }
        let ghost (u1, q1, t1) = (*claim_user, *claim_quota, *claim_trace);
        let req = amount[slot];
        claim_user.available[slot] -= reqs[slot];
        claim_quota.claimed[slot] += reqs[slot];
        claim_quota.available[slot] += reqs[slot];

        claim_quota.available[slot] -= req;
        claim_trace.claimed[slot] += req;
        proof {
            assert forall|s: int| #![trigger u0.available[s]] 0 <= s < N_SLOTS && s != slot implies {
                &&& claim_user.available[s] == u1.available[s]
                &&& claim_quota.available[s] == q1.available[s]
                &&& claim_quota.claimed[s] == q1.claimed[s]
                &&& claim_trace.available[s] == t1.available[s]
                &&& claim_trace.claimed[s] == t1.claimed[s]
            } by {}
        }
        slot += 1;
    }
    Ok(())
}

/// What is requested from the user is available there, and together with the
/// reserve of the quota it covers the charge.
pub proof fn lemma_request_fits(
    user: Claim,
    quota: Claim,
    trace: Claim,
    n_users: Value,
    amount: Value,
    cross_user: bool,
    s: int,
)
    requires
        slot_request(user, quota, trace, n_users, amount, cross_user, s) is Ok,
    ensures
        slot_request(user, quota, trace, n_users, amount, cross_user, s)->Ok_0
            <= user.available[s],
        amount <= quota.available[s] + slot_request(
            user,
            quota,
            trace,
            n_users,
            amount,
            cross_user,
            s,
        )->Ok_0,
        trace.claimed[s] + amount <= Value::MAX,
{
    let minimum = reserve(Some(2), trace.claimed[s], amount);
    lemma_reserve_covers(Some(2), trace.claimed[s], amount);
    if quota.available[s] < minimum->0 && cross_user {
        let request = (minimum->0 - quota.available[s]) as Value;
        let a = fits(quasilinear(n_users as int));
        lemma_quasilinear_positive(n_users as int);
        lemma_reserve_covers(a, quota.claimed[s], request);
    }
}

/// Operations that cross user boundaries cannot exhaust the resources of a user:
/// whenever a quota claims more resources of a foreign user, then a multiple of
/// everything it has claimed stays available on that user.
pub proof fn lemma_foreign_charge_leaves_resources(
    user: (Claim, Claim),
    quota: (Claim, Claim),
    trace: (Claim, Claim),
    n_users: Value,
    amount: Value,
    s: int,
)
    requires
        slot_request(user.0, quota.0, trace.0, n_users, amount, true, s) is Ok,
        slot_request(user.0, quota.0, trace.0, n_users, amount, true, s)->Ok_0 > 0,
        slot_charged(user, quota, trace, n_users, amount, true, s),
    ensures
        user.1.available[s] >= (quasilinear(n_users as int) - 1) * quota.1.claimed[s],
{
    let request = slot_request(user.0, quota.0, trace.0, n_users, amount, true, s)->Ok_0;
    let a = quasilinear(n_users as int);
    let x = quota.0.claimed[s] + request;
    lemma_quasilinear_positive(n_users as int);
    assert((a - 1) * x == x * a - x) by (nonlinear_arith);
}

/// The reserve a quota keeps when resources are released: what a new actor
/// would need to request the average of what the actors have claimed (i.e., the
/// ideal 1/n partition). If the average is 0, so is the reserve.
pub open spec fn kept_reserve(granted: int, n_actors: Value) -> Value {
    let average = (granted / n_actors as int) as Value;
    match reserve(Some(2), average, 0) {
        Some(v) => v,
        None => Value::MAX,
    }
}

/// How much a quota releases to its user when a charge on a slot is discharged.
pub open spec fn slot_released(quota: Claim, n_actors: Value, amount: Value, s: int) -> int {
    let available = quota.available[s] + amount;
    let minimum = kept_reserve(quota.claimed[s] - available, n_actors);
    if minimum < available {
        available - minimum
    } else {
        0
    }
}

/// How a discharge moves resources in a single slot.
pub open spec fn slot_discharged(
    user: (Claim, Claim),
    quota: (Claim, Claim),
    trace: (Claim, Claim),
    n_actors: Value,
    amount: Value,
    s: int,
) -> bool {
    let released = slot_released(quota.0, n_actors, amount, s);
    &&& user.1.available[s] == user.0.available[s] + released
    &&& quota.1.claimed[s] == quota.0.claimed[s] - released
    &&& quota.1.available[s] == quota.0.available[s] + amount - released
    &&& trace.1.claimed[s] == trace.0.claimed[s] - amount
    &&& trace.1.available[s] == 0
}

/// How a discharge moves resources in all slots.
pub open spec fn all_discharged(
    user: (Claim, Claim),
    quota: (Claim, Claim),
    trace: (Claim, Claim),
    n_actors: Value,
    amount: Seq<Value>,
) -> bool {
    forall|s: int| #![trigger amount[s]] #![trigger quota.0.available[s]]
        0 <= s < N_SLOTS ==> slot_discharged(user, quota, trace, n_actors, amount[s], s)
}

/// Discharge resources on a user.
///
/// This moves resources from the trace back to the quota, and from there to the
/// user. The quota retains a reserve, to serve other charges.
///
/// * `n_actors`: Number of traces of the quota
pub fn discharge_claims(
    claim_user: &mut Claim,
    claim_quota: &mut Claim,
    claim_trace: &mut Claim,
    n_actors: Value,
    amount: &[Value; N_SLOTS],
)
    requires
        claims_ok(*old(claim_user), *old(claim_quota), *old(claim_trace)),
        n_actors > 0,
        forall|s: int| #![trigger amount@[s]]
            0 <= s < N_SLOTS ==> amount@[s] <= old(claim_trace).claimed[s],
    ensures
        forall|s: int| #![trigger old(claim_quota).available[s]]
            0 <= s < N_SLOTS ==> slot_discharged(
                (*old(claim_user), *final(claim_user)),
                (*old(claim_quota), *final(claim_quota)),
                (*old(claim_trace), *final(claim_trace)),
                n_actors,
                amount@[s],
                s,
            ),
        final(claim_user).claimed == old(claim_user).claimed,
        all_discharged(
            (*old(claim_user), *final(claim_user)),
            (*old(claim_quota), *final(claim_quota)),
            (*old(claim_trace), *final(claim_trace)),
            n_actors,
            amount@,
        ),
{
    let ghost u0 = *claim_user;
    let ghost q0 = *claim_quota;
    let ghost t0 = *claim_trace;
    let mut slot: usize = 0;
    while slot < N_SLOTS
        invariant
            slot <= N_SLOTS,
            claims_ok(u0, q0, t0),
            n_actors > 0,
            forall|s: int| #![trigger amount@[s]]
                0 <= s < N_SLOTS ==> amount@[s] <= t0.claimed[s],
            claim_user.claimed == u0.claimed,
            forall|s: int| #![trigger q0.available[s]]
                0 <= s < slot ==> slot_discharged(
                    (u0, *claim_user),
                    (q0, *claim_quota),
                    (t0, *claim_trace),
                    n_actors,
                    amount@[s],
                    s,
                ),
            forall|s: int| #![trigger u0.available[s]]
                slot <= s < N_SLOTS ==> {
                    &&& claim_user.available[s] == u0.available[s]
                    &&& claim_quota.available[s] == q0.available[s]
                    &&& claim_quota.claimed[s] == q0.claimed[s]
                    &&& claim_trace.available[s] == t0.available[s]
                    &&& claim_trace.claimed[s] == t0.claimed[s]
                },
        decreases N_SLOTS - slot,
    {
        let ghost (u1, q1, t1) = (*claim_user, *claim_quota, *claim_trace);
        let ghost k = slot as int;
        assert(q0.available[k] <= q0.claimed[k]);
        assert(amount@[k] <= t0.claimed[k]);

        // Release the claimed amount on the trace-object and make it available
        // as cached resources. We do this for completeness reasons, but we
        // immediately propagate the resources in the next step.
        claim_trace.available[slot] += amount[slot];

        // Release all unused resources on the trace object and grant them back
        // to the quota. We do not want to cache any resources on the trace
        // object, yet, but always ensure everything is properly returned to the
        // lower levels.
        let n = claim_trace.available[slot];
        claim_trace.available[slot] -= n;
        claim_trace.claimed[slot] -= n;
        claim_quota.available[slot] += n;

        // We now want to release unused resources on the quota object back to
        // the user. We cannot release all unused resources, since other charges
        // might require reserves. Hence, we re-calculate how big the reserve
        // shall be and then shrink down to this size.
        let claimed = claim_quota.claimed[slot];
        let available = claim_quota.available[slot];
        let average = (claimed - available) / n_actors;
        let minimum = match quota_reserve(allocator_exponential, n_actors, average, 0) {
            Some(v) => v,
            None => Value::MAX,
        };
        if minimum < available {
            let n = available - minimum;
            claim_quota.available[slot] -= n;
            claim_quota.claimed[slot] -= n;
            claim_user.available[slot] += n;
        }
        proof {
            assert forall|s: int| #![trigger u0.available[s]] k < s < N_SLOTS implies {
                &&& claim_user.available[s] == u0.available[s]
                &&& claim_quota.available[s] == q0.available[s]
                &&& claim_quota.claimed[s] == q0.claimed[s]
                &&& claim_trace.available[s] == t0.available[s]
                &&& claim_trace.claimed[s] == t0.claimed[s]
            } by {
                assert(u1.available[s] == u0.available[s]);
                assert(claim_user.available[s] == u1.available[s]);
                assert(claim_quota.available[s] == q1.available[s]);
                assert(claim_quota.claimed[s] == q1.claimed[s]);
            }
            assert forall|s: int| #![trigger q0.available[s]] 0 <= s < k implies {
                &&& claim_user.available[s] == u1.available[s]
                &&& claim_quota.available[s] == q1.available[s]
                &&& claim_quota.claimed[s] == q1.claimed[s]
                &&& claim_trace.available[s] == t1.available[s]
                &&& claim_trace.claimed[s] == t1.claimed[s]
            } by {}
        }
        slot += 1;
    }
}

/// If nothing is granted after a discharge, then nothing is reserved either.
pub proof fn lemma_kept_reserve_zero(n_actors: Value)
    requires
        n_actors > 0,
    ensures
        kept_reserve(0, n_actors) == 0,
{
    vstd::arithmetic::div_mod::lemma_div_basics(n_actors as int);
}

} // verus!
