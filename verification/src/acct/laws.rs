//! Laws of an accounting system.

use crate::acct::claim::{lemma_kept_reserve_zero, slot_charged, slot_discharged, zero_claim, Claim};
use crate::acct::model::{charged, from_quota, from_user, on_quota, AcctView, QuotaView, TraceView};
use crate::acct::{charged_on, discharged_from, Charge, N_SLOTS, Value};
use crate::util::arena::Addr;
use crate::util::total::{
    lemma_total_bound, lemma_total_empty, lemma_total_ext, lemma_total_insert, lemma_total_plus,
    lemma_total_remove, lemma_total_zero, total,
};
use vstd::prelude::*;

verus! {

/// Sums up what the quotas on a user keep available as reserve.
pub open spec fn reserved_on(u: Addr, s: int) -> spec_fn(QuotaView) -> int {
    |q: QuotaView|
        if q.user == u {
            q.claim.available[s] as int
        } else {
            0
        }
}

/// Sums up the active charges on a user.
pub open spec fn charges_on(v: AcctView, u: Addr, s: int) -> spec_fn(TraceView) -> int {
    |t: TraceView|
        if v.quotas[t.quota].user == u {
            charged(t.charges, s)
        } else {
            0
        }
}

/// It is never possible to have two users with the same ID in an accounting
/// system.
pub proof fn lemma_users_are_unique(v: AcctView, a: Addr, b: Addr)
    requires
        v.wf(),
        v.users.contains_key(a),
        v.users.contains_key(b),
        v.users[a].id == v.users[b].id,
    ensures
        a == b,
{
}

/// Sums up what traces on some of the quotas have claimed, if these are on a
/// user.
spec fn claimed_via(m: Map<Addr, QuotaView>, u: Addr, s: int) -> spec_fn(TraceView) -> int {
    |t: TraceView|
        if m.contains_key(t.quota) && m[t.quota].user == u {
            t.claim.claimed[s] as int
        } else {
            0
        }
}

proof fn lemma_quotas_split(v: AcctView, m: Map<Addr, QuotaView>, u: Addr, s: int)
    requires
        v.inv(),
        0 <= s < N_SLOTS,
        m.submap_of(v.quotas),
        m.dom().finite(),
    ensures
        total(m, from_user(u, s)) == total(m, reserved_on(u, s)) + total(
            v.traces,
            claimed_via(m, u, s),
        ),
    decreases m.dom().len(),
{
    if m.dom().len() == 0 {
        assert(m.dom() =~= Set::<Addr>::empty());
        lemma_total_empty(m, from_user(u, s));
        lemma_total_empty(m, reserved_on(u, s));
        lemma_total_zero(v.traces, claimed_via(m, u, s));
    } else {
        let q = m.dom().choose();
        let n = m.remove(q);
        lemma_quotas_split(v, n, u, s);
        lemma_total_remove(m, from_user(u, s), q);
        lemma_total_remove(m, reserved_on(u, s), q);
        assert(v.quotas.contains_key(q) && v.quota_ok(q));
        assert(v.quotas[q].claim.available[s] + total(v.traces, from_quota(q, s))
            == v.quotas[q].claim.claimed[s]);
        if m[q].user == u {
            lemma_total_plus(
                v.traces,
                claimed_via(n, u, s),
                from_quota(q, s),
                claimed_via(m, u, s),
            );
        } else {
            lemma_total_ext(v.traces, claimed_via(n, u, s), claimed_via(m, u, s));
        }
    }
}

/// No resources get lost: at any time, the resources of a user are either
/// available, kept as reserve by a quota on the user, or part of an active
/// charge.
pub proof fn lemma_resources_are_conserved(v: AcctView, u: Addr, s: int)
    requires
        v.wf(),
        v.users.contains_key(u),
        0 <= s < N_SLOTS,
    ensures
        v.users[u].claim.available[s] + total(v.quotas, reserved_on(u, s)) + total(
            v.traces,
            charges_on(v, u, s),
        ) == v.maxima[s],
{
    assert(v.user_ok(u));
    assert(v.users[u].claim.available[s] + total(v.quotas, from_user(u, s)) == v.maxima[s]);
    lemma_quotas_split(v, v.quotas, u, s);
    assert forall|t: Addr| v.traces.contains_key(t) implies claimed_via(v.quotas, u, s)(
        #[trigger] v.traces[t],
    ) == charges_on(v, u, s)(v.traces[t]) by {
        assert(v.trace_ok(t));
        assert(v.traces[t].claim.claimed[s] == charged(v.traces[t].charges, s));
    }
    lemma_total_ext(v.traces, claimed_via(v.quotas, u, s), charges_on(v, u, s));
}

/// All active charges on a user together never exceed the maxima of the
/// accounting system.
pub proof fn lemma_charges_are_limited(v: AcctView, u: Addr, s: int)
    requires
        v.wf(),
        v.users.contains_key(u),
        0 <= s < N_SLOTS,
    ensures
        total(v.traces, charges_on(v, u, s)) <= v.maxima[s],
{
    lemma_resources_are_conserved(v, u, s);
    lemma_total_bound(v.quotas, reserved_on(u, s));
}

/// Without active charges on a user, all its resources are available.
pub proof fn lemma_idle_user_has_all(v: AcctView, u: Addr, s: int)
    requires
        v.wf(),
        v.users.contains_key(u),
        0 <= s < N_SLOTS,
        forall|t: Addr| #[trigger]
            v.traces.contains_key(t) ==> v.quotas[v.traces[t].quota].user != u,
    ensures
        v.users[u].claim.available[s] == v.maxima[s],
{
    assert(v.user_ok(u));
    assert(v.users[u].claim.available[s] + total(v.quotas, from_user(u, s)) == v.maxima[s]);
    assert forall|q: Addr| v.quotas.contains_key(q) implies from_user(u, s)(#[trigger] v.quotas[q])
        == 0 by {
        assert(v.quota_ok(q));
        if v.quotas[q].user == u {
            lemma_total_zero(v.traces, on_quota(q));
            assert(v.quota_held(q) == 0);
        }
    }
    lemma_total_zero(v.quotas, from_user(u, s));
}

/// The accounting system goes away with its last reference: by then, there are
/// no objects left in it.
pub proof fn lemma_unreferenced_is_empty(v: AcctView)
    requires
        v.wf(),
        v.refs == 0,
    ensures
        v.users =~= Map::empty(),
        v.quotas =~= Map::empty(),
        v.traces =~= Map::empty(),
        v.actors =~= Map::empty(),
{
    assert(v.users.dom().len() == 0);
    assert(v.users.dom() =~= Set::empty());
    assert forall|q: Addr| !v.quotas.contains_key(q) by {
        assert(v.quotas.contains_key(q) ==> v.quota_ok(q));
    }
    assert forall|t: Addr| !v.traces.contains_key(t) by {
        assert(v.traces.contains_key(t) ==> v.trace_ok(t));
    }
    assert forall|a: Addr| !v.actors.contains_key(a) by {
        assert(v.actors.contains_key(a) ==> v.actor_ok(a));
    }
}

/// Resources are released completely: if the user of an actor has no charges on
/// another user, then a charge that is discharged again leaves no trace behind.
pub proof fn lemma_charge_discharge(
    v: AcctView,
    w: AcctView,
    x: AcctView,
    u: Addr,
    claimant: Addr,
    charge: Charge,
    user: Claim,
    quota: Claim,
    trace: Claim,
)
    requires
        v.wf(),
        v.users.contains_key(u),
        v.actors.contains_key(claimant),
        v.lacks_quota(u, v.users[v.actors[claimant].user].id),
        charged_on(v, w, u, claimant, charge),
        discharged_from(w, x, charge.trace()->0, charge.amount(), user, quota, trace),
    ensures
        x == v,
{
    let t = charge.trace()->0;
    let q = w.traces[t].quota;
    let id = v.users[v.actors[claimant].user].id;
    let o = v.opened(u, q, claimant, t);
    assert(v.user_ok(u));
    assert(v.actor_ok(claimant));
    assert forall|b: Addr| #[trigger] v.traces.contains_key(b) implies v.traces[b].quota != q by {
        assert(v.trace_ok(b));
    }
    assert(v.lacks_trace(q, claimant));
    let o1 = v.quota_added(q, u, id);
    assert(o == o1.trace_added(t, q, claimant).quota_counted(q, -1));
    assert(w.n_traces(q) == 1) by {
        lemma_total_zero(v.traces, on_quota(q));
        lemma_total_insert(v.traces, on_quota(q), t, w.traces[t]);
        assert(w.traces =~= v.traces.insert(t, w.traces[t]));
    }
    let charges = w.traces[t].charges;
    assert(charges =~= seq![charge.amount()]);
    assert(charges[0] == charge.amount());
    assert(charges.contains(charge.amount()));
    assert(charges.index_of(charge.amount()) == 0);
    assert(charges.remove(0) =~= Seq::empty());
    lemma_kept_reserve_zero(1);
    assert forall|s: int| 0 <= s < N_SLOTS implies #[trigger] user.available[s]
        == v.users[u].claim.available[s] by {
        assert(slot_charged(
            (o.users[u].claim, w.users[u].claim),
            (o.quotas[q].claim, w.quotas[q].claim),
            (o.traces[t].claim, w.traces[t].claim),
            o.n_quotas(u) as Value,
            charge.amount()[s],
            id != v.users[u].id,
            s,
        ));
        assert(slot_discharged(
            (w.users[u].claim, user),
            (w.quotas[q].claim, quota),
            (w.traces[t].claim, trace),
            w.n_traces(q) as Value,
            charge.amount()[s],
            s,
        )) by {
            assert(w.quotas[q].claim.available[s] == w.quotas[q].claim.available[s]);
        }
        assert(o.quotas[q].claim == zero_claim());
    }
    assert(user.available =~= v.users[u].claim.available);
    assert(user == v.users[u].claim);
    assert(x =~= v);
}

} // verus!
