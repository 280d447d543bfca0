//! What calls into the accounting system do to its objects, in terms of their
//! arguments and their results.

use crate::acct::calls::{
    affordable, claims_of, demand, first_refused, has_memory, is_log2, lemma_claims_of,
    lemma_judged, lemma_slot, lemma_slot_returns, lemma_verdict, lists_quotas, refusal,
    slot_returns,
};
use crate::acct::capi::{
    acct_get_user, acct_new, acct_ref, acct_unref, actor_charge, actor_new, actor_ref, actor_unref,
    charge_deinit, charge_init, user_ref, user_unref,
};
use crate::acct::claim::{slot_charged, verdict, zero_claim, Claim};
use crate::acct::model::{
    charged, lemma_charged_remove, lemma_claims, on_quota, on_user, AcctView, ActorView, QuotaView,
    TraceView, UserView,
};
use crate::acct::{
    charged_on, discharged_from, Acct, Actor, Charge, ChargeError, Id, N_SLOTS, UserRef, Value,
};
use crate::util::arena::{Addr, AllocError};
use crate::util::total::{lemma_total_count, lemma_total_insert};
use vstd::prelude::*;

verus! {

/// A number that is 1 if the condition holds, and 0 otherwise.
pub open spec fn one_if(b: bool) -> int {
    if b {
        1
    } else {
        0
    }
}

/// What a granted charge does in one slot: the actor gets the amount from the
/// reserve of the quota, and the user fills up that reserve as far as needed.
pub open spec fn slot_takes(
    user: (Claim, Claim),
    quota: (Claim, Claim),
    trace: (Claim, Claim),
    amount: int,
    s: int,
) -> bool {
    let missing = demand(amount, trace.0.claimed[s] as int) - quota.0.available[s];
    let moved = if missing > 0 {
        missing
    } else {
        0
    };
    &&& user.1.available[s] == user.0.available[s] - moved
    &&& quota.1.claimed[s] == quota.0.claimed[s] + moved
    &&& quota.1.available[s] == quota.0.available[s] + moved - amount
    &&& trace.1.claimed[s] == trace.0.claimed[s] + amount
    &&& trace.1.available[s] == 0
}

/// An amount was charged on the user `u` with the actor `a` as claimant. It is
/// recorded in the trace `t` of the actor, on the quota `q` that all actors of the
/// same user share. Both are created if they do not exist. Nobody else is
/// affected.
pub open spec fn takes(
    v: AcctView,
    w: AcctView,
    u: Addr,
    a: Addr,
    q: Addr,
    t: Addr,
    amount: Seq<Value>,
) -> bool {
    let id = v.users[v.actors[a].user].id;
    let known_q = v.quotas.contains_key(q);
    let known_t = v.traces.contains_key(t);
    let quota = if known_q {
        v.quotas[q].claim
    } else {
        Claim { available: [0; N_SLOTS], claimed: [0; N_SLOTS] }
    };
    let trace = if known_t {
        v.traces[t].claim
    } else {
        Claim { available: [0; N_SLOTS], claimed: [0; N_SLOTS] }
    };
    // There is a single quota of a user on another one, and a single trace of
    // an actor on it.
    &&& w.quotas.contains_key(q) && w.quotas[q].user == u && w.quotas[q].id == id
    &&& w.traces.contains_key(t) && w.traces[t].quota == q && w.traces[t].actor == a
    &&& forall|b: Addr| #[trigger]
        v.quotas.contains_key(b) && v.quotas[b].user == u && v.quotas[b].id == id ==> b == q
    &&& forall|b: Addr| #[trigger]
        v.traces.contains_key(b) && v.traces[b].quota == q && v.traces[b].actor == a ==> b == t
    // Resources are moved.
    &&& forall|s: int| #![trigger amount[s]]
        0 <= s < N_SLOTS ==> slot_takes(
            (v.users[u].claim, w.users[u].claim),
            (quota, w.quotas[q].claim),
            (trace, w.traces[t].claim),
            amount[s] as int,
            s,
        )
    &&& w.traces[t].charges == (if known_t {
        v.traces[t].charges
    } else {
        Seq::empty()
    }).push(amount)
    // References are counted.
    &&& w.users[u] == UserView {
        refs: v.users[u].refs + one_if(!known_q),
        claim: w.users[u].claim,
        ..v.users[u]
    }
    &&& w.quotas[q].refs == if known_q {
        v.quotas[q].refs + one_if(!known_t)
    } else {
        1
    }
    &&& w.traces[t].refs == if known_t {
        v.traces[t].refs + 1
    } else {
        1
    }
    &&& w.actors == v.actors.insert(
        a,
        ActorView { refs: v.actors[a].refs + one_if(!known_t), ..v.actors[a] },
    )
    // Nothing else changes.
    &&& w.users == v.users.insert(u, w.users[u])
    &&& w.quotas == v.quotas.insert(q, w.quotas[q])
    &&& w.traces == v.traces.insert(t, w.traces[t])
    &&& w == AcctView {
        users: w.users,
        quotas: w.quotas,
        traces: w.traces,
        actors: w.actors,
        ..v
    }
}

proof fn lemma_takes(v: AcctView, w: AcctView, u: Addr, a: Addr, charge: Charge, limit: usize)
    requires
        v.wf(),
        v.users.contains_key(u),
        v.actors.contains_key(a),
        v.countable(),
        v.judged(u, a, charge.amount(), limit) is Ok,
        charged_on(v, w, u, a, charge),
    ensures
        charge.trace() is Some,
        takes(
            v,
            w,
            u,
            a,
            w.traces[charge.trace()->0].quota,
            charge.trace()->0,
            charge.amount(),
        ),
{
    let t = charge.trace()->0;
    let q = w.traces[t].quota;
    let id = v.users[v.actors[a].user].id;
    let amount = charge.amount();
    let o = v.opened(u, q, a, t);
    assert(v.user_ok(u));
    assert(v.actor_ok(a));
    let quota = if v.quotas.contains_key(q) {
        v.quotas[q].claim
    } else {
        zero_claim()
    };
    let trace = if v.traces.contains_key(t) {
        v.traces[t].claim
    } else {
        zero_claim()
    };
    // The quota and the trace are the only ones.
    if !v.lacks_quota(u, id) {
        assert(v.quotas.contains_key(q) && v.quotas[q].user == u && v.quotas[q].id == id);
    }
    if !v.lacks_trace(q, a) {
        assert(v.traces.contains_key(t) && v.traces[t].quota == q && v.traces[t].actor == a);
    }
    assert forall|b: Addr| #[trigger] v.traces.contains_key(b) implies v.quotas.contains_key(
        v.traces[b].quota,
    ) by {
        assert(v.trace_ok(b));
    }
    assert(claims_of(v, u, id, a, quota, trace)) by {
        assert forall|b: Addr| #[trigger]
            v.quotas.contains_key(b) && v.quotas[b].user == u && v.quotas[b].id == id implies b
            == q by {
            let _ = (v.quotas[b], v.quotas[q]);
        }
        assert forall|b: Addr| #[trigger]
            v.traces.contains_key(b) && v.traces[b].actor == a && v.quotas[v.traces[b].quota].user
                == u && v.quotas[v.traces[b].quota].id == id implies b == t by {
            let _ = (v.quotas[v.traces[b].quota], v.quotas[q]);
            assert(v.quotas.contains_key(v.traces[b].quota));
            assert(v.traces[b].quota == q);
            let _ = (v.traces[b], v.traces[t]);
        }
    }
    lemma_claims_of(v, u, a, quota, trace);
    assert(o.users[u].claim == v.users[u].claim);
    assert(o.quotas[q].claim == quota);
    assert(o.traces[t].claim == trace);
    assert(w.users =~= v.users.insert(u, w.users[u]));
    assert(w.quotas =~= v.quotas.insert(q, w.quotas[q]));
    assert(w.traces =~= v.traces.insert(t, w.traces[t]));
    assert(w.actors =~= v.actors.insert(
        a,
        ActorView {
            refs: v.actors[a].refs + one_if(!v.traces.contains_key(t)),
            ..v.actors[a]
        },
    ));
    let cross = id != v.users[u].id;
    let n = o.n_quotas(u) as Value;
    assert(o.quotas =~= v.quotas.insert(q, o.quotas[q]));
    lemma_total_insert(v.quotas, on_user(u), q, o.quotas[q]);
    assert(v.judged(u, a, amount, limit) == verdict(
        v.users[u].claim,
        quota,
        trace,
        n,
        amount,
        cross,
        0,
    ));
    lemma_verdict(v.users[u].claim, quota, trace, n, amount, cross, 0);
    assert forall|s: int| #![trigger amount[s]] 0 <= s < N_SLOTS implies slot_takes(
        (v.users[u].claim, w.users[u].claim),
        (quota, w.quotas[q].claim),
        (trace, w.traces[t].claim),
        amount[s] as int,
        s,
    ) by {
        assert(slot_charged(
            (v.users[u].claim, w.users[u].claim),
            (quota, w.quotas[q].claim),
            (trace, w.traces[t].claim),
            n,
            amount[s],
            cross,
            s,
        ));
        lemma_slot(v.users[u].claim, quota, trace, n, amount[s], cross, s);
    }
}

/// A granted charge moves resources, and is recorded.
pub proof fn lemma_charge_takes(
    this: &Actor,
    acct: &mut Acct,
    claimant: &Actor,
    amount: &[Value; N_SLOTS],
    r: Result<Charge, ChargeError>,
)
    requires
        old(acct).wf(),
        this.valid(old(acct)@),
        claimant.valid(old(acct)@),
        old(acct)@.countable(),
        call_ensures(Actor::charge, (this, acct, claimant, amount), r),
        r is Ok,
    ensures
        r->Ok_0.amount() == amount@,
        r->Ok_0.trace() is Some,
        takes(
            old(acct)@,
            final(acct)@,
            old(acct)@.actors[this.addr()].user,
            claimant.addr(),
            final(acct)@.traces[r->Ok_0.trace()->0].quota,
            r->Ok_0.trace()->0,
            amount@,
        ),
{
    let v = old(acct)@;
    old(acct).lemma_wf();
    assert(v.actor_ok(this.addr()));
    lemma_takes(
        v,
        final(acct)@,
        v.actors[this.addr()].user,
        claimant.addr(),
        r->Ok_0,
        old(acct).limit(),
    );
}

/// A granted charge on a user moves resources, and is recorded.
pub proof fn lemma_charge_takes_from_user(
    this: &UserRef,
    acct: &mut Acct,
    claimant: &Actor,
    amount: &[Value; N_SLOTS],
    r: Result<Charge, ChargeError>,
)
    requires
        old(acct).wf(),
        this.valid(old(acct)@),
        claimant.valid(old(acct)@),
        old(acct)@.countable(),
        call_ensures(UserRef::charge, (this, acct, claimant, amount), r),
        r is Ok,
    ensures
        r->Ok_0.amount() == amount@,
        r->Ok_0.trace() is Some,
        takes(
            old(acct)@,
            final(acct)@,
            this.addr(),
            claimant.addr(),
            final(acct)@.traces[r->Ok_0.trace()->0].quota,
            r->Ok_0.trace()->0,
            amount@,
        ),
{
    old(acct).lemma_wf();
    lemma_takes(
        old(acct)@,
        final(acct)@,
        this.addr(),
        claimant.addr(),
        r->Ok_0,
        old(acct).limit(),
    );
}

/// A charge object that is in use cannot be charged again. Other than that, it is
/// charged if, and only if, the charge is affordable, and each refusal has an
/// error of its own.
pub proof fn lemma_actor_charge(
    acct: &mut Acct,
    this: &Actor,
    charge: &mut Charge,
    claimant: &Actor,
    amount: &[Value; N_SLOTS],
    r: i32,
    quota: Claim,
    trace: Claim,
    qs: Seq<Addr>,
    l: nat,
    a: int,
    cross: bool,
    enough: bool,
)
    requires
        old(acct).wf(),
        this.valid(old(acct)@),
        claimant.valid(old(acct)@),
        old(acct)@.countable(),
        call_ensures(actor_charge, (acct, this, charge, claimant, amount), r),
        ({
            let v = old(acct)@;
            let u = v.actors[this.addr()].user;
            let id = v.users[v.actors[claimant.addr()].user].id;
            &&& claims_of(v, u, id, claimant.addr(), quota, trace)
            &&& lists_quotas(v, u, id, qs)
            &&& enough == has_memory(v, u, id, claimant.addr(), old(acct).limit())
            &&& cross == (id != v.users[u].id)
        }),
        is_log2(qs.len() as int + 1, l),
        a == (qs.len() as int + 1) * l + qs.len() + 1,
    ensures
        old(charge).trace() is Some ==> r == -22,
        old(charge).trace() is None && !enough ==> r == -12,
        r == 0 <==> old(charge).trace() is None && enough && forall|s: int| #![trigger amount@[s]]
            0 <= s < N_SLOTS ==> affordable(
                old(acct)@.users[old(acct)@.actors[this.addr()].user].claim,
                quota,
                trace,
                a,
                amount@[s] as int,
                cross,
                s,
            ),
        old(charge).trace() is None && enough ==> forall|j: int| #[trigger]
            first_refused(
                old(acct)@.users[old(acct)@.actors[this.addr()].user].claim,
                quota,
                trace,
                a,
                amount@,
                cross,
                0,
                j,
            ) ==> r == if refusal(amount@[j] as int, trace.claimed[j] as int) is ActorQuota {
                -54int
            } else {
                -122
            },
        r != 0 ==> final(acct)@ == old(acct)@ && *final(charge) == *old(charge),
        r == 0 ==> {
            &&& final(charge).amount() == amount@
            &&& final(charge).trace() is Some
            &&& takes(
                old(acct)@,
                final(acct)@,
                old(acct)@.actors[this.addr()].user,
                claimant.addr(),
                final(acct)@.traces[final(charge).trace()->0].quota,
                final(charge).trace()->0,
                amount@,
            )
        },
{
    let v = old(acct)@;
    let u = v.actors[this.addr()].user;
    old(acct).lemma_wf();
    assert(v.actor_ok(this.addr()));
    lemma_judged(v, u, claimant.addr(), amount@, old(acct).limit(), quota, trace, qs, l, a, cross);
    if r == 0 {
        lemma_takes(v, final(acct)@, u, claimant.addr(), *final(charge), old(acct).limit());
    }
}

/// There is at most one user of an ID: an existing one is reused, and a new one
/// has all resources available.
pub proof fn lemma_get_user(acct: &mut Acct, id: Id, r: Result<UserRef, AllocError>)
    requires
        old(acct).wf(),
        call_ensures(Acct::get_user, (acct, id), r),
    ensures
        finds_user(
            old(acct)@,
            final(acct)@,
            id,
            old(acct).limit(),
            if r is Ok {
                Some(r->Ok_0.addr())
            } else {
                None
            },
        ),
{
    old(acct).lemma_wf();
}

/// There is at most one user of an ID: an existing one is reused, and a new one
/// has all resources available.
pub proof fn lemma_acct_get_user(acct: &mut Acct, id: Id, r: Result<UserRef, i32>)
    requires
        old(acct).wf(),
        call_ensures(acct_get_user, (acct, id), r),
    ensures
        finds_user(
            old(acct)@,
            final(acct)@,
            id,
            old(acct).limit(),
            if r is Ok {
                Some(r->Ok_0.addr())
            } else {
                None
            },
        ),
        r matches Err(e) ==> e == -12,
{
    old(acct).lemma_wf();
}

/// The user of an ID is referenced once more, or created.
pub open spec fn finds_user(
    v: AcctView,
    w: AcctView,
    id: Id,
    limit: usize,
    r: Option<Addr>,
) -> bool {
    let known = exists|b: Addr| #[trigger] v.users.contains_key(b) && v.users[b].id == id;
    &&& r is Some <==> known || v.users.dom().len() < limit
    &&& r is None ==> w == v
    &&& r matches Some(u) ==> {
        &&& forall|b: Addr| #[trigger] v.users.contains_key(b) && v.users[b].id == id ==> b == u
        &&& known <==> v.users.contains_key(u)
        &&& w.users.contains_key(u) && w.users[u].id == id
        &&& known ==> {
            &&& w.users[u] == UserView { refs: v.users[u].refs + 1, ..v.users[u] }
            &&& w.refs == v.refs
        }
        &&& !known ==> {
            &&& w.users[u].refs == 1
            &&& w.users[u].claim.available == v.maxima
            &&& w.users[u].claim.claimed == v.maxima
            &&& w.refs == v.refs + 1
        }
        &&& w.users == v.users.insert(u, w.users[u])
        &&& w == AcctView { refs: w.refs, users: w.users, ..v }
    }
}

/// The same ID always gives the same user, as long as the user is referenced.
pub proof fn lemma_same_user(
    acct: &mut Acct,
    next: &mut Acct,
    id: Id,
    other: Id,
    r: Result<UserRef, AllocError>,
    s: Result<UserRef, AllocError>,
)
    requires
        old(acct).wf(),
        call_ensures(Acct::get_user, (acct, id), r),
        r is Ok,
        old(next).wf(),
        old(next)@ == final(acct)@,
        call_ensures(Acct::get_user, (next, other), s),
        s is Ok,
    ensures
        s->Ok_0.addr() == r->Ok_0.addr() <==> other == id,
{
    lemma_get_user(acct, id, r);
    lemma_get_user(next, other, s);
}

/// An actor acts on behalf of the user it was created with, and takes over the
/// reference to it.
pub proof fn lemma_actor_with(acct: &mut Acct, user: UserRef, r: Result<Actor, AllocError>)
    requires
        call_ensures(Actor::with, (acct, user), r),
    ensures
        r is Ok <==> old(acct)@.actors.dom().len() < old(acct).limit(),
        r matches Ok(a) ==> {
            &&& !old(acct)@.actors.contains_key(a.addr())
            &&& final(acct)@.actors == old(acct)@.actors.insert(
                a.addr(),
                ActorView { user: user.addr(), refs: 1 },
            )
            &&& final(acct)@ == AcctView { actors: final(acct)@.actors, ..old(acct)@ }
        },
        r is Err ==> loses_user(old(acct)@, final(acct)@, user.addr()),
{
}

/// An actor acts on behalf of the user it was created with, and holds a
/// reference to it.
pub proof fn lemma_actor_new(acct: &mut Acct, user: &UserRef, r: Result<Actor, i32>)
    requires
        old(acct).wf(),
        call_ensures(actor_new, (acct, user), r),
    ensures
        r is Ok <==> old(acct)@.actors.dom().len() < old(acct).limit(),
        r matches Ok(a) ==> {
            let (v, w) = (old(acct)@, final(acct)@);
            let u = user.addr();
            &&& !v.actors.contains_key(a.addr())
            &&& w.actors == v.actors.insert(a.addr(), ActorView { user: u, refs: 1 })
            &&& w.users == v.users.insert(
                u,
                UserView { refs: v.users[u].refs + 1, ..v.users[u] },
            )
            &&& w == AcctView { actors: w.actors, users: w.users, ..v }
        },
        r matches Err(e) ==> e == -12 && final(acct)@ == old(acct)@,
{
}

/// A reference to a user is gone, and so is the user if it was the last one.
pub open spec fn loses_user(v: AcctView, w: AcctView, u: Addr) -> bool {
    &&& v.users[u].refs > 1 ==> w == AcctView {
        users: v.users.insert(u, UserView { refs: v.users[u].refs - 1, ..v.users[u] }),
        ..v
    }
    &&& v.users[u].refs <= 1 ==> w == AcctView {
        refs: v.refs - 1,
        users: v.users.remove(u),
        ..v
    }
}

/// A reference to an actor is gone, and so is the actor if it was the last one.
/// The user of the actor loses a reference then.
pub open spec fn loses_actor(v: AcctView, w: AcctView, a: Addr) -> bool {
    &&& v.actors[a].refs > 1 ==> w == AcctView {
        actors: v.actors.insert(a, ActorView { refs: v.actors[a].refs - 1, ..v.actors[a] }),
        ..v
    }
    &&& v.actors[a].refs <= 1 ==> loses_user(
        AcctView { actors: v.actors.remove(a), ..v },
        w,
        v.actors[a].user,
    )
}

/// Another reference to a user is the same user, and is counted.
pub proof fn lemma_user_ref(acct: &mut Acct, this: &UserRef, r: UserRef)
    requires
        call_ensures(UserRef::acquire, (this, acct), r) || call_ensures(
            user_ref,
            (acct, Some(this)),
            Some(r),
        ),
    ensures
        r.addr() == this.addr(),
        final(acct)@.users == old(acct)@.users.insert(
            this.addr(),
            UserView {
                refs: old(acct)@.users[this.addr()].refs + 1,
                ..old(acct)@.users[this.addr()]
            },
        ),
        final(acct)@ == (AcctView { users: final(acct)@.users, ..old(acct)@ }),
{
}

/// Another reference to an actor is the same actor, and is counted.
pub proof fn lemma_actor_ref(acct: &mut Acct, this: &Actor, r: Actor)
    requires
        call_ensures(Actor::acquire, (this, acct), r) || call_ensures(
            actor_ref,
            (acct, Some(this)),
            Some(r),
        ),
    ensures
        r.addr() == this.addr(),
        final(acct)@.actors == old(acct)@.actors.insert(
            this.addr(),
            ActorView {
                refs: old(acct)@.actors[this.addr()].refs + 1,
                ..old(acct)@.actors[this.addr()]
            },
        ),
        final(acct)@ == (AcctView { actors: final(acct)@.actors, ..old(acct)@ }),
{
}

/// A reference to a user is dropped.
pub proof fn lemma_user_unref(acct: &mut Acct, this: UserRef, r: ())
    requires
        call_ensures(UserRef::release, (this, acct), r) || call_ensures(
            user_unref,
            (acct, Some(this)),
            None,
        ),
    ensures
        loses_user(old(acct)@, final(acct)@, this.addr()),
{
}

/// A reference to an actor is dropped.
pub proof fn lemma_actor_unref(acct: &mut Acct, this: Actor, r: ())
    requires
        call_ensures(Actor::release, (this, acct), r) || call_ensures(
            actor_unref,
            (acct, Some(this)),
            None,
        ),
    ensures
        loses_actor(old(acct)@, final(acct)@, this.addr()),
{
}

/// A new accounting system has no users, and a single reference to it.
pub proof fn lemma_acct_new(maxima: &[Value; N_SLOTS], r: Acct)
    requires
        call_ensures(Acct::new, (maxima,), r) || call_ensures(acct_new, (maxima,), r),
    ensures
        r@.refs == 1,
        r@.maxima == *maxima,
        r@.users.dom() == Set::<Addr>::empty(),
        r@.quotas.dom() == Set::<Addr>::empty(),
        r@.traces.dom() == Set::<Addr>::empty(),
        r@.actors.dom() == Set::<Addr>::empty(),
{
}

/// References to an accounting system are counted, and the last one is told.
pub proof fn lemma_acct_refs(acct: &mut Acct, r: bool)
    requires
        call_ensures(Acct::release, (acct,), r) || call_ensures(acct_unref, (Some(acct),), r),
    ensures
        final(acct)@ == (AcctView { refs: old(acct)@.refs - 1, ..old(acct)@ }),
        r <==> old(acct)@.refs == 1,
{
}

/// Another reference to an accounting system is counted.
pub proof fn lemma_acct_ref(acct: &mut Acct, r: ())
    requires
        call_ensures(Acct::acquire, (acct,), r) || call_ensures(acct_ref, (Some(acct),), r),
    ensures
        final(acct)@ == (AcctView { refs: old(acct)@.refs + 1, ..old(acct)@ }),
{
}

/// An empty charge has no resources, and nothing charged.
pub proof fn lemma_charge_init(charge: &mut Charge, r: (), s: int)
    requires
        call_ensures(charge_init, (charge,), r),
        0 <= s < N_SLOTS,
    ensures
        final(charge).trace() is None,
        final(charge).amount()[s] == 0,
{
}

/// A reference to a quota is gone, and so is the quota if it was the last one.
/// The user of the quota loses a reference then.
pub open spec fn loses_quota(v: AcctView, w: AcctView, q: Addr) -> bool {
    &&& v.quotas[q].refs > 1 ==> w == AcctView {
        quotas: v.quotas.insert(q, QuotaView { refs: v.quotas[q].refs - 1, ..v.quotas[q] }),
        ..v
    }
    &&& v.quotas[q].refs <= 1 ==> loses_user(
        AcctView { quotas: v.quotas.remove(q), ..v },
        w,
        v.quotas[q].user,
    )
}

/// A reference to a trace is gone, and so is the trace if it was the last one.
/// Its quota and its actor lose a reference then.
pub open spec fn loses_trace(v: AcctView, w: AcctView, t: Addr) -> bool {
    &&& v.traces[t].refs > 1 ==> w == AcctView {
        traces: v.traces.insert(t, TraceView { refs: v.traces[t].refs - 1, ..v.traces[t] }),
        ..v
    }
    &&& v.traces[t].refs <= 1 ==> exists|x: AcctView| #[trigger]
        loses_quota(AcctView { traces: v.traces.remove(t), ..v }, x, v.traces[t].quota)
            && loses_actor(x, w, v.traces[t].actor)
}

/// The sequence lists the traces on a quota.
pub open spec fn lists_traces(v: AcctView, q: Addr, ts: Seq<Addr>) -> bool {
    &&& ts.no_duplicates()
    &&& forall|t: Addr| #[trigger]
        ts.contains(t) <==> v.traces.contains_key(t) && v.traces[t].quota == q
}

/// An amount was given back, from the trace `t` to its quota, and from there to
/// its user. One active charge of this amount is gone from the trace, and nobody
/// else is affected.
pub open spec fn gives_back(
    v: AcctView,
    x: AcctView,
    t: Addr,
    amount: Seq<Value>,
    n: int,
) -> bool {
    let q = v.traces[t].quota;
    let u = v.quotas[q].user;
    &&& forall|s: int| #![trigger amount[s]]
        0 <= s < N_SLOTS ==> slot_returns(
            (v.users[u].claim, x.users[u].claim),
            (v.quotas[q].claim, x.quotas[q].claim),
            (v.traces[t].claim, x.traces[t].claim),
            n,
            amount[s] as int,
            s,
        )
    &&& x.traces[t].charges.to_multiset() == v.traces[t].charges.to_multiset().remove(amount)
    &&& x.traces[t].charges.len() == v.traces[t].charges.len() - 1
    &&& x.users == v.users.insert(u, UserView { claim: x.users[u].claim, ..v.users[u] })
    &&& x.users[u].claim.claimed == v.maxima
    &&& x.quotas == v.quotas.insert(q, QuotaView { claim: x.quotas[q].claim, ..v.quotas[q] })
    &&& x.traces == v.traces.insert(
        t,
        TraceView { claim: x.traces[t].claim, charges: x.traces[t].charges, ..v.traces[t] },
    )
    &&& x == AcctView { users: x.users, quotas: x.quotas, traces: x.traces, ..v }
}

proof fn lemma_gives_back(
    v: AcctView,
    w: AcctView,
    t: Addr,
    amount: Seq<Value>,
    user: Claim,
    quota: Claim,
    trace: Claim,
    ts: Seq<Addr>,
)
    requires
        v.wf(),
        v.traces.contains_key(t),
        v.traces[t].charges.contains(amount),
        amount.len() == N_SLOTS,
        lists_traces(v, v.traces[t].quota, ts),
        ts.len() <= Value::MAX,
        discharged_from(v, w, t, amount, user, quota, trace),
    ensures
        exists|x: AcctView| #[trigger]
            gives_back(v, x, t, amount, ts.len() as int) && loses_trace(x, w, t),
{
    let q = v.traces[t].quota;
    let u = v.quotas[q].user;
    let charges = v.traces[t].charges;
    let i = charges.index_of(amount);
    let x = v.moved(t, user, quota, trace, charges.remove(i));
    lemma_claims(v, t);
    assert(v.trace_ok(t));
    assert(0 <= i < charges.len() && charges[i] == amount) by {
        let k = choose|k: int| 0 <= k < charges.len() && charges[k] == amount;
        assert(charges[k] == amount);
    }
    assert forall|b: Addr| v.traces.contains_key(b) implies on_quota(q)(#[trigger] v.traces[b])
        == (if ts.contains(b) {
        1int
    } else {
        0
    }) by {}
    assert forall|k: int| 0 <= k < ts.len() implies v.traces.contains_key(#[trigger] ts[k]) by {
        assert(ts.contains(ts[k]));
    }
    lemma_total_count(v.traces, on_quota(q), ts);
    assert(ts.contains(t));
    let n = ts.len() as Value;
    assert forall|s: int| #![trigger amount[s]] 0 <= s < N_SLOTS implies slot_returns(
        (v.users[u].claim, user),
        (v.quotas[q].claim, quota),
        (v.traces[t].claim, trace),
        n as int,
        amount[s] as int,
        s,
    ) by {
        lemma_charged_remove(charges, i, s);
        assert(v.traces[t].claim.claimed[s] == charged(charges, s));
        assert(v.quotas[q].claim.available[s] >= 0);
        lemma_slot_returns(
            (v.users[u].claim, user),
            (v.quotas[q].claim, quota),
            (v.traces[t].claim, trace),
            n,
            amount[s],
            s,
        );
    }
    charges.to_multiset_ensures();
    assert(gives_back(v, x, t, amount, ts.len() as int));
    if x.traces[t].refs <= 1 {
        let y = AcctView { traces: x.traces.remove(t), ..x };
        let z = y.quota_dropped(q);
        assert(loses_quota(y, z, q));
    }
    assert(loses_trace(x, w, t));
}

/// A charge that is discharged gives back exactly what was charged, and is empty
/// afterwards. An empty charge has no effect.
pub proof fn lemma_discharge(acct: &mut Acct, charge: &mut Charge, r: (), ts: Seq<Addr>)
    requires
        old(acct).wf(),
        old(charge).valid(old(acct)@),
        old(charge).amount().len() == N_SLOTS,
        call_ensures(Charge::discharge, (charge, acct), r) || call_ensures(
            charge_deinit,
            (acct, charge),
            r,
        ),
        old(charge).trace() matches Some(t) ==> lists_traces(
            old(acct)@,
            old(acct)@.traces[t].quota,
            ts,
        ),
        ts.len() <= Value::MAX,
    ensures
        final(charge).trace() is None,
        old(charge).trace() is None ==> final(acct)@ == old(acct)@,
        old(charge).trace() matches Some(t) ==> exists|x: AcctView| #[trigger]
            gives_back(old(acct)@, x, t, old(charge).amount(), ts.len() as int) && loses_trace(
                x,
                final(acct)@,
                t,
            ),
{
    old(acct).lemma_wf();
    if let Some(t) = old(charge).trace() {
        let (user, quota, trace) = choose|user: Claim, quota: Claim, trace: Claim| #[trigger]
            discharged_from(
                old(acct)@,
                final(acct)@,
                t,
                old(charge).amount(),
                user,
                quota,
                trace,
            );
        lemma_gives_back(
            old(acct)@,
            final(acct)@,
            t,
            old(charge).amount(),
            user,
            quota,
            trace,
            ts,
        );
    }
}

/// A discharge leaves the record of the amount alone, but a charge that is
/// deinitialized is as good as new.
pub proof fn lemma_charge_deinit(acct: &mut Acct, charge: &mut Charge, r: (), s: int)
    requires
        0 <= s < N_SLOTS,
        call_ensures(charge_deinit, (acct, charge), r),
    ensures
        final(charge).amount()[s] == 0,
{
}

/// A charge tells what was charged, and whether it still is.
pub proof fn lemma_charge_reads(charge: &Charge, r: &[Value; N_SLOTS], b: bool)
    requires
        call_ensures(Charge::resources, (charge,), r),
        call_ensures(Charge::is_charged, (charge,), b),
    ensures
        r@ == charge.amount(),
        b <==> charge.trace() is Some,
{
}

} // verus!
