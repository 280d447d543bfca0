//! Model of the objects of an accounting system.
//!
//! An accounting system is a set of users, of quotas that other users (or the
//! user itself) have on a user, of traces that actors have on a quota, and of
//! actors. The model describes how these refer to each other, how many
//! references they own on each other, and how resources are distributed among
//! them.

use crate::acct::claim::{
    claims_ok, lemma_kept_reserve_zero, slot_charged, slot_discharged, verdict, zero_claim, Claim,
};
use crate::acct::{ChargeError, Id, N_SLOTS, Value};
use crate::util::arena::{Addr, AllocError};
use crate::util::total::{
    lemma_total_bound, lemma_total_insert, lemma_total_remove, lemma_total_zero, total,
};
use vstd::prelude::*;

verus! {

/// Model of a user.
pub struct UserView {
    pub id: Id,
    pub refs: int,
    pub claim: Claim,
}

/// Model of the quota that all actors of the user `id` have on a user.
pub struct QuotaView {
    pub user: Addr,
    pub id: Id,
    pub refs: int,
    pub claim: Claim,
}

/// Model of the trace of an actor on a quota, together with the amounts of all
/// its active charges.
pub struct TraceView {
    pub quota: Addr,
    pub actor: Addr,
    pub refs: int,
    pub claim: Claim,
    pub charges: Seq<Seq<Value>>,
}

/// Model of an actor.
pub struct ActorView {
    pub user: Addr,
    pub refs: int,
}

/// Model of an accounting system.
#[verifier::ext_equal]
pub struct AcctView {
    pub refs: int,
    pub maxima: [Value; N_SLOTS],
    pub users: Map<Addr, UserView>,
    pub quotas: Map<Addr, QuotaView>,
    pub traces: Map<Addr, TraceView>,
    pub actors: Map<Addr, ActorView>,
}

/// The sum of charges in a slot.
pub open spec fn charged(charges: Seq<Seq<Value>>, s: int) -> int
    decreases charges.len(),
{
    if charges.len() == 0 {
        0
    } else {
        charged(charges.drop_last(), s) + charges.last()[s]
    }
}

/// Counts the quotas on a user.
pub open spec fn on_user(u: Addr) -> spec_fn(QuotaView) -> int {
    |q: QuotaView|
        if q.user == u {
            1int
        } else {
            0
        }
}

/// Sums up what quotas have claimed from a user.
pub open spec fn from_user(u: Addr, s: int) -> spec_fn(QuotaView) -> int {
    |q: QuotaView|
        if q.user == u {
            q.claim.claimed[s] as int
        } else {
            0
        }
}

/// Counts the traces on a quota.
pub open spec fn on_quota(q: Addr) -> spec_fn(TraceView) -> int {
    |t: TraceView|
        if t.quota == q {
            1int
        } else {
            0
        }
}

/// Sums up what traces have claimed from a quota.
pub open spec fn from_quota(q: Addr, s: int) -> spec_fn(TraceView) -> int {
    |t: TraceView|
        if t.quota == q {
            t.claim.claimed[s] as int
        } else {
            0
        }
}

/// Counts the traces of an actor.
pub open spec fn by_actor(a: Addr) -> spec_fn(TraceView) -> int {
    |t: TraceView|
        if t.actor == a {
            1int
        } else {
            0
        }
}

/// Counts the actors of a user.
pub open spec fn for_user(u: Addr) -> spec_fn(ActorView) -> int {
    |a: ActorView|
        if a.user == u {
            1int
        } else {
            0
        }
}

impl AcctView {
    /// Number of quotas on a user.
    pub open spec fn n_quotas(self, u: Addr) -> int {
        total(self.quotas, on_user(u))
    }

    /// Number of traces on a quota.
    pub open spec fn n_traces(self, q: Addr) -> int {
        total(self.traces, on_quota(q))
    }

    /// References to the accounting system that are held from outside. Every
    /// user holds one as well.
    pub open spec fn held(self) -> int {
        self.refs - self.users.dom().len()
    }

    /// References to a user that are held from outside. Every quota on the
    /// user, and every actor of the user, holds one as well.
    pub open spec fn user_held(self, u: Addr) -> int {
        self.users[u].refs - self.n_quotas(u) - total(self.actors, for_user(u))
    }

    /// References to a quota that are held from outside. Every trace on the
    /// quota holds one as well.
    pub open spec fn quota_held(self, q: Addr) -> int {
        self.quotas[q].refs - self.n_traces(q)
    }

    /// References to a trace that are held from outside. Every active charge
    /// holds one as well.
    pub open spec fn trace_held(self, t: Addr) -> int {
        self.traces[t].refs - self.traces[t].charges.len()
    }

    /// References to an actor that are held from outside. Every trace of the
    /// actor holds one as well.
    pub open spec fn actor_held(self, a: Addr) -> int {
        self.actors[a].refs - total(self.traces, by_actor(a))
    }

    /// A user is referenced properly, and its resources are either available or
    /// claimed by one of the quotas on it.
    pub open spec fn user_ok(self, u: Addr) -> bool {
        &&& self.users[u].refs > 0
        &&& self.user_held(u) >= 0
        &&& self.users[u].claim.claimed == self.maxima
        &&& forall|s: int| #![trigger self.users[u].claim.available[s]]
            0 <= s < N_SLOTS ==> self.users[u].claim.available[s] + total(
                self.quotas,
                from_user(u, s),
            ) == self.maxima[s]
    }

    /// A quota is referenced properly, and what it has claimed from its user is
    /// either available or claimed by one of the traces on it. If no trace has
    /// claimed anything, neither has the quota.
    pub open spec fn quota_ok(self, q: Addr) -> bool {
        &&& self.users.contains_key(self.quotas[q].user)
        &&& self.quotas[q].refs > 0
        &&& self.quota_held(q) >= 0
        &&& forall|s: int| #![trigger self.quotas[q].claim.available[s]]
            0 <= s < N_SLOTS ==> {
                let granted = total(self.traces, from_quota(q, s));
                &&& self.quotas[q].claim.available[s] + granted == self.quotas[q].claim.claimed[s]
                &&& granted == 0 ==> self.quotas[q].claim.claimed[s] == 0
            }
    }

    /// A trace is referenced properly, and it has claimed exactly what its
    /// active charges amount to.
    pub open spec fn trace_ok(self, t: Addr) -> bool {
        &&& self.quotas.contains_key(self.traces[t].quota)
        &&& self.actors.contains_key(self.traces[t].actor)
        &&& self.traces[t].refs > 0
        &&& self.trace_held(t) >= 0
        &&& forall|s: int| #![trigger self.traces[t].claim.claimed[s]]
            0 <= s < N_SLOTS ==> {
                &&& self.traces[t].claim.claimed[s] == charged(self.traces[t].charges, s)
                &&& self.traces[t].claim.available[s] == 0
            }
    }

    /// An actor is referenced properly.
    pub open spec fn actor_ok(self, a: Addr) -> bool {
        &&& self.users.contains_key(self.actors[a].user)
        &&& self.actors[a].refs > 0
        &&& self.actor_held(a) >= 0
    }

    /// There is at most one user of an ID, one quota of an ID on a user, and
    /// one trace of an actor on a quota.
    pub open spec fn unique(self) -> bool {
        &&& forall|a: Addr, b: Addr| #![trigger self.users[a], self.users[b]]
            self.users.contains_key(a) && self.users.contains_key(b) && self.users[a].id
                == self.users[b].id ==> a == b
        &&& forall|a: Addr, b: Addr| #![trigger self.quotas[a], self.quotas[b]]
            self.quotas.contains_key(a) && self.quotas.contains_key(b) && self.quotas[a].user
                == self.quotas[b].user && self.quotas[a].id == self.quotas[b].id ==> a == b
        &&& forall|a: Addr, b: Addr| #![trigger self.traces[a], self.traces[b]]
            self.traces.contains_key(a) && self.traces.contains_key(b) && self.traces[a].quota
                == self.traces[b].quota && self.traces[a].actor == self.traces[b].actor ==> a == b
    }

    /// There are finitely many objects.
    pub open spec fn finite(self) -> bool {
        &&& self.users.dom().finite()
        &&& self.quotas.dom().finite()
        &&& self.traces.dom().finite()
        &&& self.actors.dom().finite()
    }

    /// The properties that hold at any time.
    pub open spec fn inv(self) -> bool {
        &&& self.finite()
        &&& self.unique()
        &&& self.held() >= 0
        &&& forall|u: Addr| #[trigger] self.users.contains_key(u) ==> self.user_ok(u)
        &&& forall|q: Addr| #[trigger] self.quotas.contains_key(q) ==> self.quota_ok(q)
        &&& forall|t: Addr| #[trigger] self.traces.contains_key(t) ==> self.trace_ok(t)
        &&& forall|a: Addr| #[trigger] self.actors.contains_key(a) ==> self.actor_ok(a)
    }

    /// The properties that hold between operations: quotas exist only for
    /// traces on them, and traces only for active charges.
    pub open spec fn wf(self) -> bool {
        &&& self.inv()
        &&& forall|q: Addr| #[trigger] self.quotas.contains_key(q) ==> self.quota_held(q) == 0
        &&& forall|t: Addr| #[trigger] self.traces.contains_key(t) ==> self.trace_held(t) == 0
    }

    /// No reference count is about to exceed the range of machine integers.
    pub open spec fn countable(self) -> bool {
        &&& self.refs + 2 <= usize::MAX
        &&& forall|u: Addr| #[trigger]
            self.users.contains_key(u) ==> self.users[u].refs + 2 <= usize::MAX
        &&& forall|q: Addr| #[trigger]
            self.quotas.contains_key(q) ==> self.quotas[q].refs + 2 <= usize::MAX
        &&& forall|t: Addr| #[trigger]
            self.traces.contains_key(t) ==> self.traces[t].refs + 2 <= usize::MAX
        &&& forall|a: Addr| #[trigger]
            self.actors.contains_key(a) ==> self.actors[a].refs + 2 <= usize::MAX
    }

    /// There is no user of the given ID.
    pub open spec fn lacks_user(self, id: Id) -> bool {
        forall|u: Addr| #[trigger] self.users.contains_key(u) ==> self.users[u].id != id
    }

    /// There is no quota of the given ID on a user.
    pub open spec fn lacks_quota(self, u: Addr, id: Id) -> bool {
        forall|q: Addr| #[trigger]
            self.quotas.contains_key(q) ==> !(self.quotas[q].user == u && self.quotas[q].id == id)
    }

    /// There is no trace of the given actor on a quota.
    pub open spec fn lacks_trace(self, q: Addr, a: Addr) -> bool {
        forall|t: Addr| #[trigger]
            self.traces.contains_key(t) ==> !(self.traces[t].quota == q && self.traces[t].actor
                == a)
    }

    /// The system after `d` references to a user were acquired.
    pub open spec fn user_counted(self, u: Addr, d: int) -> AcctView {
        AcctView {
            users: self.users.insert(
                u,
                UserView { refs: self.users[u].refs + d, ..self.users[u] },
            ),
            ..self
        }
    }

    /// The system after `d` references to a quota were acquired.
    pub open spec fn quota_counted(self, q: Addr, d: int) -> AcctView {
        AcctView {
            quotas: self.quotas.insert(
                q,
                QuotaView { refs: self.quotas[q].refs + d, ..self.quotas[q] },
            ),
            ..self
        }
    }

    /// The system after `d` references to a trace were acquired.
    pub open spec fn trace_counted(self, t: Addr, d: int) -> AcctView {
        AcctView {
            traces: self.traces.insert(
                t,
                TraceView { refs: self.traces[t].refs + d, ..self.traces[t] },
            ),
            ..self
        }
    }

    /// The system after `d` references to an actor were acquired.
    pub open spec fn actor_counted(self, a: Addr, d: int) -> AcctView {
        AcctView {
            actors: self.actors.insert(
                a,
                ActorView { refs: self.actors[a].refs + d, ..self.actors[a] },
            ),
            ..self
        }
    }

    /// The system after a user was created, with one reference to it.
    pub open spec fn user_added(self, u: Addr, id: Id) -> AcctView {
        AcctView {
            refs: self.refs + 1,
            users: self.users.insert(
                u,
                UserView {
                    id,
                    refs: 1,
                    claim: Claim { available: self.maxima, claimed: self.maxima },
                },
            ),
            ..self
        }
    }

    /// The system after an actor was created, with one reference to it. The
    /// actor takes over a reference to its user.
    pub open spec fn actor_added(self, a: Addr, u: Addr) -> AcctView {
        AcctView { actors: self.actors.insert(a, ActorView { user: u, refs: 1 }), ..self }
    }

    /// The system after a quota was created, with one reference to it.
    pub open spec fn quota_added(self, q: Addr, u: Addr, id: Id) -> AcctView {
        AcctView {
            quotas: self.quotas.insert(
                q,
                QuotaView { user: u, id, refs: 1, claim: zero_claim() },
            ),
            ..self.user_counted(u, 1)
        }
    }

    /// The system after a trace was created, with one reference to it.
    pub open spec fn trace_added(self, t: Addr, q: Addr, a: Addr) -> AcctView {
        AcctView {
            traces: self.traces.insert(
                t,
                TraceView {
                    quota: q,
                    actor: a,
                    refs: 1,
                    claim: zero_claim(),
                    charges: Seq::empty(),
                },
            ),
            ..self.quota_counted(q, 1).actor_counted(a, 1)
        }
    }

    /// The system after a reference to a user was dropped. With the last
    /// reference, the user goes away.
    pub open spec fn user_dropped(self, u: Addr) -> AcctView {
        if self.users[u].refs > 1 {
            self.user_counted(u, -1)
        } else {
            AcctView { refs: self.refs - 1, users: self.users.remove(u), ..self }
        }
    }

    /// The system after a reference to a quota was dropped. With the last
    /// reference, the quota goes away.
    pub open spec fn quota_dropped(self, q: Addr) -> AcctView {
        if self.quotas[q].refs > 1 {
            self.quota_counted(q, -1)
        } else {
            AcctView { quotas: self.quotas.remove(q), ..self }.user_dropped(self.quotas[q].user)
        }
    }

    /// The system after a reference to an actor was dropped. With the last
    /// reference, the actor goes away.
    pub open spec fn actor_dropped(self, a: Addr) -> AcctView {
        if self.actors[a].refs > 1 {
            self.actor_counted(a, -1)
        } else {
            AcctView { actors: self.actors.remove(a), ..self }.user_dropped(self.actors[a].user)
        }
    }

    /// The system after a reference to a trace was dropped. With the last
    /// reference, the trace goes away.
    pub open spec fn trace_dropped(self, t: Addr) -> AcctView {
        if self.traces[t].refs > 1 {
            self.trace_counted(t, -1)
        } else {
            AcctView { traces: self.traces.remove(t), ..self }.quota_dropped(
                self.traces[t].quota,
            ).actor_dropped(self.traces[t].actor)
        }
    }

    /// The quota of the given ID on a user, if there is one.
    pub open spec fn quota_on(self, u: Addr, id: Id) -> Option<Addr> {
        if self.lacks_quota(u, id) {
            None
        } else {
            Some(
                choose|q: Addr| #[trigger]
                    self.quotas.contains_key(q) && self.quotas[q].user == u && self.quotas[q].id
                        == id,
            )
        }
    }

    /// The trace of the given actor on a quota, if there is one.
    pub open spec fn trace_on(self, q: Addr, a: Addr) -> Option<Addr> {
        if self.lacks_trace(q, a) {
            None
        } else {
            Some(
                choose|t: Addr| #[trigger]
                    self.traces.contains_key(t) && self.traces[t].quota == q
                        && self.traces[t].actor == a,
            )
        }
    }

    /// The verdict on a charge on the user `u` with the actor `a` as claimant,
    /// if at most `limit` objects of a type can exist.
    ///
    /// All actors of a user share a quota on `u`. If there is none yet, it takes
    /// part with an empty claim, and so does the trace of the actor.
    pub open spec fn judged(
        self,
        u: Addr,
        a: Addr,
        amount: Seq<Value>,
        limit: usize,
    ) -> Result<(), ChargeError> {
        let id = self.users[self.actors[a].user].id;
        let quota = self.quota_on(u, id);
        let trace = match quota {
            Some(q) => self.trace_on(q, a),
            None => None,
        };
        if quota is None && self.quotas.dom().len() >= limit {
            Err(ChargeError::Alloc(AllocError))
        } else if trace is None && self.traces.dom().len() >= limit {
            Err(ChargeError::Alloc(AllocError))
        } else {
            verdict(
                self.users[u].claim,
                match quota {
                    Some(q) => self.quotas[q].claim,
                    None => zero_claim(),
                },
                match trace {
                    Some(t) => self.traces[t].claim,
                    None => zero_claim(),
                },
                match quota {
                    Some(q) => self.n_quotas(u) as Value,
                    None => (self.n_quotas(u) + 1) as Value,
                },
                amount,
                id != self.users[u].id,
                0,
            )
        }
    }

    /// The system after a reference to the trace `t` of the actor `a` on the
    /// quota `q` was acquired, where `q` is the quota of the user of the actor
    /// on the user `u`. Both are created if they do not exist. A reference to
    /// the quota is only held meanwhile.
    pub open spec fn opened(self, u: Addr, q: Addr, a: Addr, t: Addr) -> AcctView {
        let id = self.users[self.actors[a].user].id;
        let v = if self.quotas.contains_key(q) {
            self.quota_counted(q, 1)
        } else {
            self.quota_added(q, u, id)
        };
        let w = if v.traces.contains_key(t) {
            v.trace_counted(t, 1)
        } else {
            v.trace_added(t, q, a)
        };
        w.quota_counted(q, -1)
    }

    /// The system after the claims of a trace, and of the quota and the user it
    /// belongs to, were replaced together with the list of active charges.
    pub open spec fn moved(
        self,
        t: Addr,
        user: Claim,
        quota: Claim,
        trace: Claim,
        charges: Seq<Seq<Value>>,
    ) -> AcctView {
        let q = self.traces[t].quota;
        let u = self.quotas[q].user;
        AcctView {
            users: self.users.insert(u, UserView { claim: user, ..self.users[u] }),
            quotas: self.quotas.insert(q, QuotaView { claim: quota, ..self.quotas[q] }),
            traces: self.traces.insert(
                t,
                TraceView { claim: trace, charges, ..self.traces[t] },
            ),
            ..self
        }
    }
}

/// References that are held from outside stay valid from one state of the
/// system to another.
pub open spec fn keeps_handles(v: AcctView, w: AcctView) -> bool {
    &&& w.held() == v.held()
    &&& keeps_users(v, w)
    &&& keeps_actors(v, w)
}

/// References to users that are held from outside stay valid.
pub open spec fn keeps_users(v: AcctView, w: AcctView) -> bool {
    forall|u: Addr| #![trigger v.users[u]] #![trigger w.users[u]]
        v.users.contains_key(u) && v.user_held(u) > 0 ==> {
            &&& w.users.contains_key(u)
            &&& w.users[u].id == v.users[u].id
            &&& w.user_held(u) == v.user_held(u)
        }
}

/// References to actors that are held from outside stay valid.
pub open spec fn keeps_actors(v: AcctView, w: AcctView) -> bool {
    forall|a: Addr| #![trigger v.actors[a]] #![trigger w.actors[a]]
        v.actors.contains_key(a) && v.actor_held(a) > 0 ==> {
            &&& w.actors.contains_key(a)
            &&& w.actors[a].user == v.actors[a].user
            &&& w.actor_held(a) == v.actor_held(a)
        }
}

/// Counts and sums are never negative.
pub proof fn lemma_counts(v: AcctView)
    requires
        v.finite(),
    ensures
        forall|u: Addr| #[trigger] v.n_quotas(u) >= 0,
        forall|q: Addr| #[trigger] v.n_traces(q) >= 0,
        forall|u: Addr| #[trigger] total(v.actors, for_user(u)) >= 0,
        forall|a: Addr| #[trigger] total(v.traces, by_actor(a)) >= 0,
{
    assert forall|u: Addr| #[trigger] v.n_quotas(u) >= 0 by {
        lemma_total_bound(v.quotas, on_user(u));
    }
    assert forall|q: Addr| #[trigger] v.n_traces(q) >= 0 by {
        lemma_total_bound(v.traces, on_quota(q));
    }
    assert forall|u: Addr| #[trigger] total(v.actors, for_user(u)) >= 0 by {
        lemma_total_bound(v.actors, for_user(u));
    }
    assert forall|a: Addr| #[trigger] total(v.traces, by_actor(a)) >= 0 by {
        lemma_total_bound(v.traces, by_actor(a));
    }
}

/// Creating a user keeps the system intact.
pub proof fn lemma_user_added(v: AcctView, u: Addr, id: Id)
    requires
        v.inv(),
        !v.users.contains_key(u),
        forall|a: Addr| #[trigger] v.users.contains_key(a) ==> v.users[a].id != id,
    ensures
        v.user_added(u, id).inv(),
        v.user_added(u, id).user_held(u) == 1,
{
    let w = v.user_added(u, id);
    lemma_total_zero(v.quotas, on_user(u));
    lemma_total_zero(v.actors, for_user(u));
    assert forall|s: int| total(v.quotas, #[trigger] from_user(u, s)) == 0 by {
        lemma_total_zero(v.quotas, from_user(u, s));
    }
    assert forall|a: Addr| #[trigger] w.users.contains_key(a) implies w.user_ok(a) by {
        if a != u {
            assert(v.user_ok(a));
            assert(w.user_held(a) == v.user_held(a));
        }
    }
    assert forall|q: Addr| #[trigger] w.quotas.contains_key(q) implies w.quota_ok(q) by {
        assert(v.quota_ok(q));
        assert(w.quota_held(q) == v.quota_held(q));
    }
    assert forall|t: Addr| #[trigger] w.traces.contains_key(t) implies w.trace_ok(t) by {
        assert(v.trace_ok(t));
    }
    assert forall|a: Addr| #[trigger] w.actors.contains_key(a) implies w.actor_ok(a) by {
        assert(v.actor_ok(a));
        assert(w.actor_held(a) == v.actor_held(a));
    }
}

/// Counting references to a user keeps the system intact, as long as no more
/// are dropped than are held.
pub proof fn lemma_user_counted(v: AcctView, u: Addr, d: int)
    requires
        v.inv(),
        v.users.contains_key(u),
        v.user_held(u) + d >= 0,
        v.users[u].refs + d > 0,
    ensures
        v.user_counted(u, d).inv(),
        v.user_counted(u, d).user_held(u) == v.user_held(u) + d,
        forall|b: Addr| b != u ==> #[trigger] v.user_counted(u, d).user_held(b) == v.user_held(b),
{
    let w = v.user_counted(u, d);
    assert(w.users.dom() =~= v.users.dom());
    assert forall|b: Addr| #[trigger] w.users.contains_key(b) implies w.user_ok(b) by {
        assert(v.user_ok(b));
        assert(w.users[b].claim == v.users[b].claim);
    }
    assert forall|q: Addr| #[trigger] w.quotas.contains_key(q) implies w.quota_ok(q) by {
        assert(v.quota_ok(q));
    }
    assert forall|t: Addr| #[trigger] w.traces.contains_key(t) implies w.trace_ok(t) by {
        assert(v.trace_ok(t));
    }
    assert forall|a: Addr| #[trigger] w.actors.contains_key(a) implies w.actor_ok(a) by {
        assert(v.actor_ok(a));
    }
}

/// Counting references to a quota keeps the system intact, as long as no more
/// are dropped than are held.
pub proof fn lemma_quota_counted(v: AcctView, q: Addr, d: int)
    requires
        v.inv(),
        v.quotas.contains_key(q),
        v.quota_held(q) + d >= 0,
        v.quotas[q].refs + d > 0,
    ensures
        v.quota_counted(q, d).inv(),
        v.quota_counted(q, d).quota_held(q) == v.quota_held(q) + d,
        forall|b: Addr| b != q ==> #[trigger] v.quota_counted(q, d).quota_held(b) == v.quota_held(
            b,
        ),
        forall|b: Addr| #[trigger] v.quota_counted(q, d).user_held(b) == v.user_held(b),
        forall|b: Addr| #[trigger] v.quota_counted(q, d).n_quotas(b) == v.n_quotas(b),
{
    let w = v.quota_counted(q, d);
    let n = w.quotas[q];
    assert(w.quotas.dom() =~= v.quotas.dom());
    assert forall|b: Addr| total(w.quotas, #[trigger] on_user(b)) == total(v.quotas, on_user(b)) by {
        lemma_total_insert(v.quotas, on_user(b), q, n);
    }
    assert forall|b: Addr| #[trigger] w.n_quotas(b) == v.n_quotas(b) by {
        assert(total(w.quotas, on_user(b)) == total(v.quotas, on_user(b)));
    }
    assert forall|b: Addr, s: int|
        total(w.quotas, #[trigger] from_user(b, s)) == total(v.quotas, from_user(b, s)) by {
        lemma_total_insert(v.quotas, from_user(b, s), q, n);
    }
    assert forall|b: Addr| #[trigger] w.users.contains_key(b) implies w.user_ok(b) by {
        assert(v.user_ok(b));
    }
    assert forall|b: Addr| #[trigger] w.quotas.contains_key(b) implies w.quota_ok(b) by {
        assert(v.quota_ok(b));
        assert(w.quotas[b].claim == v.quotas[b].claim);
    }
    assert forall|t: Addr| #[trigger] w.traces.contains_key(t) implies w.trace_ok(t) by {
        assert(v.trace_ok(t));
    }
    assert forall|a: Addr| #[trigger] w.actors.contains_key(a) implies w.actor_ok(a) by {
        assert(v.actor_ok(a));
    }
}

/// Counting references to an actor keeps the system intact, as long as no more
/// are dropped than are held.
pub proof fn lemma_actor_counted(v: AcctView, a: Addr, d: int)
    requires
        v.inv(),
        v.actors.contains_key(a),
        v.actor_held(a) + d >= 0,
        v.actors[a].refs + d > 0,
    ensures
        v.actor_counted(a, d).inv(),
        v.actor_counted(a, d).actor_held(a) == v.actor_held(a) + d,
        forall|b: Addr| b != a ==> #[trigger] v.actor_counted(a, d).actor_held(b) == v.actor_held(
            b,
        ),
        forall|b: Addr| #[trigger] v.actor_counted(a, d).user_held(b) == v.user_held(b),
{
    let w = v.actor_counted(a, d);
    let n = w.actors[a];
    assert(w.actors.dom() =~= v.actors.dom());
    assert forall|b: Addr|
        total(w.actors, #[trigger] for_user(b)) == total(v.actors, for_user(b)) by {
        lemma_total_insert(v.actors, for_user(b), a, n);
    }
    assert forall|b: Addr| #[trigger] w.user_held(b) == v.user_held(b) by {
        assert(total(w.actors, for_user(b)) == total(v.actors, for_user(b)));
    }
    assert forall|b: Addr| #[trigger] w.users.contains_key(b) implies w.user_ok(b) by {
        assert(v.user_ok(b));
    }
    assert forall|b: Addr| #[trigger] w.quotas.contains_key(b) implies w.quota_ok(b) by {
        assert(v.quota_ok(b));
    }
    assert forall|t: Addr| #[trigger] w.traces.contains_key(t) implies w.trace_ok(t) by {
        assert(v.trace_ok(t));
    }
    assert forall|b: Addr| #[trigger] w.actors.contains_key(b) implies w.actor_ok(b) by {
        assert(v.actor_ok(b));
    }
}

/// Counting references to a trace keeps the system intact, as long as no more
/// are dropped than are held.
pub proof fn lemma_trace_counted(v: AcctView, t: Addr, d: int)
    requires
        v.inv(),
        v.traces.contains_key(t),
        v.trace_held(t) + d >= 0,
        v.traces[t].refs + d > 0,
    ensures
        v.trace_counted(t, d).inv(),
        forall|b: Addr| #[trigger] v.trace_counted(t, d).quota_held(b) == v.quota_held(b),
        forall|b: Addr| #[trigger] v.trace_counted(t, d).n_traces(b) == v.n_traces(b),
        forall|b: Addr| #[trigger] v.trace_counted(t, d).actor_held(b) == v.actor_held(b),
{
    let w = v.trace_counted(t, d);
    let n = w.traces[t];
    assert(w.traces.dom() =~= v.traces.dom());
    assert forall|b: Addr| #[trigger] w.n_traces(b) == v.n_traces(b) by {
        lemma_total_insert(v.traces, on_quota(b), t, n);
    }
    assert forall|b: Addr| #[trigger] w.actor_held(b) == v.actor_held(b) by {
        lemma_total_insert(v.traces, by_actor(b), t, n);
    }
    assert forall|b: Addr, s: int|
        total(w.traces, #[trigger] from_quota(b, s)) == total(v.traces, from_quota(b, s)) by {
        lemma_total_insert(v.traces, from_quota(b, s), t, n);
    }
    assert forall|b: Addr| #[trigger] w.users.contains_key(b) implies w.user_ok(b) by {
        assert(v.user_ok(b));
    }
    assert forall|b: Addr| #[trigger] w.quotas.contains_key(b) implies w.quota_ok(b) by {
        assert(v.quota_ok(b));
    }
    assert forall|b: Addr| #[trigger] w.traces.contains_key(b) implies w.trace_ok(b) by {
        assert(v.trace_ok(b));
        assert(w.traces[b].claim == v.traces[b].claim);
        assert(w.traces[b].charges == v.traces[b].charges);
    }
    assert forall|b: Addr| #[trigger] w.actors.contains_key(b) implies w.actor_ok(b) by {
        assert(v.actor_ok(b));
    }
}

/// Creating an actor keeps the system intact.
pub proof fn lemma_actor_added(v: AcctView, a: Addr, u: Addr)
    requires
        v.inv(),
        !v.actors.contains_key(a),
        v.users.contains_key(u),
        v.user_held(u) > 0,
    ensures
        v.actor_added(a, u).inv(),
        v.actor_added(a, u).actor_held(a) == 1,
        v.actor_added(a, u).user_held(u) == v.user_held(u) - 1,
        forall|b: Addr| b != u ==> #[trigger] v.actor_added(a, u).user_held(b) == v.user_held(b),
{
    let w = v.actor_added(a, u);
    let n = w.actors[a];
    assert forall|b: Addr|
        total(w.actors, #[trigger] for_user(b)) == total(v.actors, for_user(b)) + if b == u {
            1int
        } else {
            0
        } by {
        lemma_total_insert(v.actors, for_user(b), a, n);
    }
    assert forall|b: Addr| #[trigger] w.user_held(b) == v.user_held(b) - (if b == u {
        1int
    } else {
        0
    }) by {
        assert(total(w.actors, for_user(b)) == total(v.actors, for_user(b)) + if b == u {
            1int
        } else {
            0
        });
    }
    lemma_total_zero(v.traces, by_actor(a));
    assert forall|b: Addr| #[trigger] w.users.contains_key(b) implies w.user_ok(b) by {
        assert(v.user_ok(b));
        assert(w.user_held(b) >= 0);
    }
    assert forall|b: Addr| #[trigger] w.quotas.contains_key(b) implies w.quota_ok(b) by {
        assert(v.quota_ok(b));
    }
    assert forall|b: Addr| #[trigger] w.traces.contains_key(b) implies w.trace_ok(b) by {
        assert(v.trace_ok(b));
    }
    assert forall|b: Addr| #[trigger] w.actors.contains_key(b) implies w.actor_ok(b) by {
        if b != a {
            assert(v.actor_ok(b));
            assert(w.actor_held(b) == v.actor_held(b));
        }
    }
}

/// Creating a quota keeps the system intact.
pub proof fn lemma_quota_added(v: AcctView, q: Addr, u: Addr, id: Id)
    requires
        v.inv(),
        !v.quotas.contains_key(q),
        v.users.contains_key(u),
        forall|b: Addr| #[trigger]
            v.quotas.contains_key(b) ==> !(v.quotas[b].user == u && v.quotas[b].id == id),
    ensures
        v.quota_added(q, u, id).inv(),
        v.quota_added(q, u, id).quota_held(q) == 1,
        forall|b: Addr| b != q ==> #[trigger] v.quota_added(q, u, id).quota_held(b)
            == v.quota_held(b),
        v.quota_added(q, u, id).n_traces(q) == 0,
        v.quota_added(q, u, id).n_quotas(u) == v.n_quotas(u) + 1,
        forall|b: Addr| #[trigger] v.quota_added(q, u, id).user_held(b) == v.user_held(b),
{
    let w = v.quota_added(q, u, id);
    let n = w.quotas[q];
    assert(w.users.dom() =~= v.users.dom());
    assert forall|b: Addr| #[trigger] w.n_quotas(b) == v.n_quotas(b) + (if b == u {
        1int
    } else {
        0
    }) by {
        lemma_total_insert(v.quotas, on_user(b), q, n);
    }
    assert forall|b: Addr, s: int| 0 <= s < N_SLOTS implies total(
        w.quotas,
        #[trigger] from_user(b, s),
    ) == total(v.quotas, from_user(b, s)) by {
        lemma_total_insert(v.quotas, from_user(b, s), q, n);
    }
    lemma_total_zero(v.traces, on_quota(q));
    assert forall|s: int| total(v.traces, #[trigger] from_quota(q, s)) == 0 by {
        lemma_total_zero(v.traces, from_quota(q, s));
    }
    assert forall|b: Addr| #[trigger] w.user_held(b) == v.user_held(b) by {
        assert(w.n_quotas(b) == v.n_quotas(b) + if b == u {
            1int
        } else {
            0
        });
    }
    assert forall|b: Addr| #[trigger] w.users.contains_key(b) implies w.user_ok(b) by {
        assert(v.user_ok(b));
        assert(w.user_held(b) >= 0);
        assert(w.users[b].claim == v.users[b].claim);
    }
    assert forall|b: Addr| #[trigger] w.quotas.contains_key(b) implies w.quota_ok(b) by {
        if b != q {
            assert(v.quota_ok(b));
            assert(w.quota_held(b) == v.quota_held(b));
        }
    }
    assert forall|b: Addr| #[trigger] w.traces.contains_key(b) implies w.trace_ok(b) by {
        assert(v.trace_ok(b));
    }
    assert forall|b: Addr| #[trigger] w.actors.contains_key(b) implies w.actor_ok(b) by {
        assert(v.actor_ok(b));
        assert(w.actor_held(b) == v.actor_held(b));
    }
}

/// Creating a trace keeps the system intact.
pub proof fn lemma_trace_added(v: AcctView, t: Addr, q: Addr, a: Addr)
    requires
        v.inv(),
        !v.traces.contains_key(t),
        v.quotas.contains_key(q),
        v.actors.contains_key(a),
        forall|b: Addr| #[trigger]
            v.traces.contains_key(b) ==> !(v.traces[b].quota == q && v.traces[b].actor == a),
    ensures
        v.trace_added(t, q, a).inv(),
        v.trace_added(t, q, a).trace_held(t) == 1,
        forall|b: Addr| #[trigger] v.trace_added(t, q, a).quota_held(b) == v.quota_held(b),
        forall|b: Addr| #[trigger] v.trace_added(t, q, a).n_quotas(b) == v.n_quotas(b),
        forall|b: Addr| #[trigger] v.trace_added(t, q, a).actor_held(b) == v.actor_held(b),
        v.trace_added(t, q, a).n_traces(q) == v.n_traces(q) + 1,
        forall|b: Addr| #[trigger] v.trace_added(t, q, a).user_held(b) == v.user_held(b),
{
    let w0 = v.quota_counted(q, 1);
    lemma_quota_counted(v, q, 1);
    let w1 = w0.actor_counted(a, 1);
    lemma_actor_counted(w0, a, 1);
    let w = v.trace_added(t, q, a);
    let n = w.traces[t];
    assert forall|b: Addr| #[trigger] w.n_traces(b) == v.n_traces(b) + (if b == q {
        1int
    } else {
        0
    }) by {
        lemma_total_insert(v.traces, on_quota(b), t, n);
    }
    assert forall|b: Addr| #[trigger] w.actor_held(b) == v.actor_held(b) by {
        lemma_total_insert(v.traces, by_actor(b), t, n);
    }
    assert forall|b: Addr| #[trigger] w.quota_held(b) == v.quota_held(b) by {
        assert(w.n_traces(b) == v.n_traces(b) + if b == q {
            1int
        } else {
            0
        });
    }
    assert forall|b: Addr| #[trigger] w.n_quotas(b) == v.n_quotas(b) by {
        assert(w0.n_quotas(b) == v.n_quotas(b));
    }
    assert forall|b: Addr| #[trigger] w.user_held(b) == v.user_held(b) by {
        assert(w1.user_held(b) == w0.user_held(b));
        assert(w0.user_held(b) == v.user_held(b));
    }
    assert forall|b: Addr, s: int| 0 <= s < N_SLOTS implies total(
        w.traces,
        #[trigger] from_quota(b, s),
    ) == total(v.traces, from_quota(b, s)) by {
        lemma_total_insert(v.traces, from_quota(b, s), t, n);
    }
    assert forall|b: Addr| #[trigger] w.users.contains_key(b) implies w.user_ok(b) by {
        assert(w1.user_ok(b));
        assert(w.user_held(b) == w1.user_held(b));
    }
    assert forall|b: Addr| #[trigger] w.quotas.contains_key(b) implies w.quota_ok(b) by {
        assert(w1.quota_ok(b));
        assert(w.quota_held(b) >= 0) by {
            assert(v.quotas.contains_key(b) && v.quota_ok(b));
        }
    }
    assert forall|b: Addr| #[trigger] w.traces.contains_key(b) implies w.trace_ok(b) by {
        if b != t {
            assert(v.trace_ok(b));
        }
    }
    assert forall|b: Addr| #[trigger] w.actors.contains_key(b) implies w.actor_ok(b) by {
        assert(w1.actor_ok(b));
        assert(w.actor_held(b) >= 0) by {
            assert(v.actors.contains_key(b) && v.actor_ok(b));
        }
    }
}

/// Dropping a reference to a user keeps the system intact.
pub proof fn lemma_user_dropped(v: AcctView, u: Addr)
    requires
        v.inv(),
        v.users.contains_key(u),
        v.user_held(u) > 0,
    ensures
        v.user_dropped(u).inv(),
        v.user_dropped(u).held() == v.held(),
        forall|b: Addr| b != u ==> #[trigger] v.user_dropped(u).user_held(b) == v.user_held(b),
        v.users[u].refs > 1 ==> v.user_dropped(u).user_held(u) == v.user_held(u) - 1,
        v.users[u].refs == 1 ==> v.user_held(u) == 1,
{
    let w = v.user_dropped(u);
    lemma_counts(v);
    assert(v.user_ok(u));
    if v.users[u].refs > 1 {
        lemma_user_counted(v, u, -1);
        assert(w.users.dom() =~= v.users.dom());
    } else {
        assert(v.n_quotas(u) == 0);
        lemma_total_bound(v.quotas, on_user(u));
        lemma_total_bound(v.actors, for_user(u));
        assert forall|b: Addr| #[trigger] w.users.contains_key(b) implies w.user_ok(b) by {
            assert(v.user_ok(b));
            assert(w.user_held(b) == v.user_held(b));
        }
        assert forall|q: Addr| #[trigger] w.quotas.contains_key(q) implies w.quota_ok(q) by {
            assert(v.quota_ok(q));
            assert(on_user(u)(v.quotas[q]) <= 0);
            assert(w.quota_held(q) == v.quota_held(q));
        }
        assert forall|t: Addr| #[trigger] w.traces.contains_key(t) implies w.trace_ok(t) by {
            assert(v.trace_ok(t));
        }
        assert forall|a: Addr| #[trigger] w.actors.contains_key(a) implies w.actor_ok(a) by {
            assert(v.actor_ok(a));
            assert(for_user(u)(v.actors[a]) <= 0);
            assert(w.actor_held(a) == v.actor_held(a));
        }
    }
}

/// Dropping a reference to an actor keeps the system intact.
pub proof fn lemma_actor_dropped(v: AcctView, a: Addr)
    requires
        v.inv(),
        v.actors.contains_key(a),
        v.actor_held(a) > 0,
    ensures
        v.actor_dropped(a).inv(),
        v.actor_dropped(a).held() == v.held(),
        v.actors[a].refs == 1 ==> {
            let w = AcctView { actors: v.actors.remove(a), ..v };
            &&& w.inv()
            &&& w.users.contains_key(v.actors[a].user)
            &&& w.user_held(v.actors[a].user) > 0
        },
        forall|b: Addr| v.actor_dropped(a).quotas.contains_key(b)
            ==> #[trigger] v.actor_dropped(a).quota_held(b) == v.quota_held(b),
        keeps_users(v, v.actor_dropped(a)),
        forall|b: Addr| b != a ==> #[trigger] v.actor_dropped(a).actor_held(b) == v.actor_held(b),
        v.actors[a].refs > 1 ==> v.actor_dropped(a).actor_held(a) == v.actor_held(a) - 1,
        v.actors[a].refs == 1 ==> v.actor_held(a) == 1,
{
    lemma_counts(v);
    assert(v.actor_ok(a));
    if v.actors[a].refs > 1 {
        lemma_actor_counted(v, a, -1);
    } else {
        let u = v.actors[a].user;
        let w = AcctView { actors: v.actors.remove(a), ..v };
        assert forall|b: Addr| #[trigger] w.user_held(b) == v.user_held(b) + (if b == u {
            1int
        } else {
            0
        }) by {
            lemma_total_remove(v.actors, for_user(b), a);
        }
        lemma_total_bound(v.traces, by_actor(a));
        assert forall|b: Addr| #[trigger] w.users.contains_key(b) implies w.user_ok(b) by {
            assert(v.user_ok(b));
            assert(w.user_held(b) >= 0);
        }
        assert forall|q: Addr| #[trigger] w.quotas.contains_key(q) implies w.quota_ok(q) by {
            assert(v.quota_ok(q));
            assert(w.quota_held(q) == v.quota_held(q));
        }
        assert forall|t: Addr| #[trigger] w.traces.contains_key(t) implies w.trace_ok(t) by {
            assert(v.trace_ok(t));
            assert(by_actor(a)(v.traces[t]) <= 0);
        }
        assert forall|b: Addr| #[trigger] w.actors.contains_key(b) implies w.actor_ok(b) by {
            assert(v.actor_ok(b));
            assert(w.actor_held(b) == v.actor_held(b));
        }
        assert(v.user_ok(u));
        lemma_user_dropped(w, u);
    }
}

/// Dropping a reference to a quota keeps the system intact.
pub proof fn lemma_quota_dropped(v: AcctView, q: Addr)
    requires
        v.inv(),
        v.quotas.contains_key(q),
        v.quota_held(q) > 0,
    ensures
        v.quota_dropped(q).inv(),
        v.quota_dropped(q).held() == v.held(),
        v.quotas[q].refs == 1 ==> {
            let w = AcctView { quotas: v.quotas.remove(q), ..v };
            &&& w.inv()
            &&& w.users.contains_key(v.quotas[q].user)
            &&& w.user_held(v.quotas[q].user) > 0
        },
        forall|b: Addr| b != q ==> #[trigger] v.quota_dropped(q).quota_held(b) == v.quota_held(b),
        v.quotas[q].refs > 1 ==> v.quota_dropped(q).quota_held(q) == v.quota_held(q) - 1,
        forall|b: Addr| #[trigger] v.quota_dropped(q).actor_held(b) == v.actor_held(b),
        keeps_users(v, v.quota_dropped(q)),
{
    lemma_counts(v);
    assert(v.quota_ok(q));
    if v.quotas[q].refs > 1 {
        lemma_quota_counted(v, q, -1);
    } else {
        let u = v.quotas[q].user;
        let w = AcctView { quotas: v.quotas.remove(q), ..v };
        assert forall|b: Addr| #[trigger] w.user_held(b) == v.user_held(b) + (if b == u {
            1int
        } else {
            0
        }) by {
            lemma_total_remove(v.quotas, on_user(b), q);
        }
        lemma_total_bound(v.traces, on_quota(q));
        assert(v.n_traces(q) == 0);
        assert forall|s: int| 0 <= s < N_SLOTS implies #[trigger] v.quotas[q].claim.claimed[s]
            == 0 by {
            assert forall|t: Addr| v.traces.contains_key(t) implies from_quota(q, s)(
                #[trigger] v.traces[t],
            ) == 0 by {
                assert(on_quota(q)(v.traces[t]) <= 0);
            }
            lemma_total_zero(v.traces, from_quota(q, s));
            assert(v.quotas[q].claim.available[s] + total(v.traces, from_quota(q, s))
                == v.quotas[q].claim.claimed[s]);
        }
        assert forall|b: Addr, s: int| 0 <= s < N_SLOTS implies total(
            w.quotas,
            #[trigger] from_user(b, s),
        ) == total(v.quotas, from_user(b, s)) by {
            lemma_total_remove(v.quotas, from_user(b, s), q);
            assert(v.quotas[q].claim.claimed[s] == 0);
        }
        assert forall|b: Addr| #[trigger] w.users.contains_key(b) implies w.user_ok(b) by {
            assert(v.user_ok(b));
            assert(w.user_held(b) >= 0);
        }
        assert forall|b: Addr| #[trigger] w.quotas.contains_key(b) implies w.quota_ok(b) by {
            assert(v.quota_ok(b));
            assert(w.quota_held(b) == v.quota_held(b));
        }
        assert forall|t: Addr| #[trigger] w.traces.contains_key(t) implies w.trace_ok(t) by {
            assert(v.trace_ok(t));
            assert(on_quota(q)(v.traces[t]) <= 0);
        }
        assert forall|b: Addr| #[trigger] w.actors.contains_key(b) implies w.actor_ok(b) by {
            assert(v.actor_ok(b));
            assert(w.actor_held(b) == v.actor_held(b));
        }
        assert(v.user_ok(u));
        lemma_user_dropped(w, u);
    }
}

/// Dropping a reference to a trace keeps the system intact.
pub proof fn lemma_trace_dropped(v: AcctView, t: Addr)
    requires
        v.inv(),
        v.traces.contains_key(t),
        v.trace_held(t) > 0,
    ensures
        v.trace_dropped(t).inv(),
        v.trace_dropped(t).held() == v.held(),
        v.traces[t].refs == 1 ==> {
            let q = v.traces[t].quota;
            let a = v.traces[t].actor;
            let w = AcctView { traces: v.traces.remove(t), ..v };
            &&& w.inv()
            &&& w.quotas.contains_key(q)
            &&& w.quota_held(q) > 0
            &&& w.quota_dropped(q).inv()
            &&& w.quota_dropped(q).actors.contains_key(a)
            &&& w.quota_dropped(q).actor_held(a) > 0
        },
        forall|b: Addr| v.trace_dropped(t).quotas.contains_key(b) ==> #[trigger] v.trace_dropped(
            t,
        ).quota_held(b) == v.quota_held(b),
        forall|b: Addr| b != t ==> #[trigger] v.trace_dropped(t).trace_held(b) == v.trace_held(b),
        v.traces[t].refs > 1 ==> v.trace_dropped(t).trace_held(t) == v.trace_held(t) - 1,
        keeps_handles(v, v.trace_dropped(t)),
{
    lemma_counts(v);
    assert(v.trace_ok(t));
    if v.traces[t].refs > 1 {
        lemma_trace_counted(v, t, -1);
    } else {
        let q = v.traces[t].quota;
        let a = v.traces[t].actor;
        let w = AcctView { traces: v.traces.remove(t), ..v };
        assert(v.traces[t].charges.len() == 0);
        assert forall|b: Addr| #[trigger] w.quota_held(b) == v.quota_held(b) + (if b == q {
            1int
        } else {
            0
        }) by {
            lemma_total_remove(v.traces, on_quota(b), t);
        }
        assert forall|b: Addr| #[trigger] w.actor_held(b) == v.actor_held(b) + (if b == a {
            1int
        } else {
            0
        }) by {
            lemma_total_remove(v.traces, by_actor(b), t);
        }
        assert forall|b: Addr, s: int| 0 <= s < N_SLOTS implies total(
            w.traces,
            #[trigger] from_quota(b, s),
        ) == total(v.traces, from_quota(b, s)) by {
            lemma_total_remove(v.traces, from_quota(b, s), t);
            assert(v.traces[t].claim.claimed[s] == charged(v.traces[t].charges, s));
        }
        assert forall|b: Addr| #[trigger] w.users.contains_key(b) implies w.user_ok(b) by {
            assert(v.user_ok(b));
            assert(w.user_held(b) == v.user_held(b));
        }
        assert forall|b: Addr| #[trigger] w.quotas.contains_key(b) implies w.quota_ok(b) by {
            assert(v.quota_ok(b));
            assert(w.quota_held(b) >= 0);
        }
        assert forall|b: Addr| #[trigger] w.traces.contains_key(b) implies w.trace_ok(b) by {
            assert(v.trace_ok(b));
        }
        assert forall|b: Addr| #[trigger] w.actors.contains_key(b) implies w.actor_ok(b) by {
            assert(v.actor_ok(b));
            assert(w.actor_held(b) >= 0);
        }
        assert(v.quota_ok(q) && v.actor_ok(a));
        lemma_quota_dropped(w, q);
        let x = w.quota_dropped(q);
        assert(x.actors == w.actors);
        assert(x.actor_held(a) == w.actor_held(a));
        lemma_actor_dropped(x, a);
        let y = x.actor_dropped(a);
        assert(y == v.trace_dropped(t));
        assert forall|b: Addr| y.quotas.contains_key(b) implies #[trigger] y.quota_held(b)
            == v.quota_held(b) by {
            assert(x.quotas.contains_key(b));
            assert(w.quota_held(b) == v.quota_held(b) + if b == q {
                1int
            } else {
                0
            });
            assert(x.quota_held(b) == v.quota_held(b));
        }
    }
}

/// The claims of a trace, its quota, and its user can be replaced without
/// resources of the slot getting lost.
pub open spec fn conserved(
    v: AcctView,
    t: Addr,
    user: Claim,
    quota: Claim,
    trace: Claim,
    charges: Seq<Seq<Value>>,
    s: int,
) -> bool {
    let q = v.traces[t].quota;
    let u = v.quotas[q].user;
    let granted = quota.claimed[s] - quota.available[s];
    &&& user.available[s] + quota.claimed[s] == v.users[u].claim.available[s]
        + v.quotas[q].claim.claimed[s]
    &&& granted - trace.claimed[s] == v.quotas[q].claim.claimed[s]
        - v.quotas[q].claim.available[s] - v.traces[t].claim.claimed[s]
    &&& granted == 0 ==> quota.claimed[s] == 0
    &&& trace.claimed[s] == charged(charges, s)
    &&& trace.available[s] == 0
}

/// Moving resources between the claims of a trace, its quota, and its user
/// keeps the system intact, as long as none get lost.
pub proof fn lemma_moved(
    v: AcctView,
    t: Addr,
    user: Claim,
    quota: Claim,
    trace: Claim,
    charges: Seq<Seq<Value>>,
)
    requires
        v.inv(),
        v.traces.contains_key(t),
        charges.len() <= v.traces[t].refs,
        user.claimed == v.maxima,
        forall|s: int|
            0 <= s < N_SLOTS ==> #[trigger] conserved(v, t, user, quota, trace, charges, s),
    ensures
        v.moved(t, user, quota, trace, charges).inv(),
        v.moved(t, user, quota, trace, charges).held() == v.held(),
        forall|b: Addr| #[trigger] v.moved(t, user, quota, trace, charges).user_held(b)
            == v.user_held(b),
        forall|b: Addr| #[trigger] v.moved(t, user, quota, trace, charges).quota_held(b)
            == v.quota_held(b),
        forall|b: Addr| #[trigger] v.moved(t, user, quota, trace, charges).actor_held(b)
            == v.actor_held(b),
        forall|b: Addr| b != t ==> #[trigger] v.moved(
            t,
            user,
            quota,
            trace,
            charges,
        ).trace_held(b) == v.trace_held(b),
        v.moved(t, user, quota, trace, charges).trace_held(t) == v.traces[t].refs - charges.len(),
{
    let w = v.moved(t, user, quota, trace, charges);
    let q = v.traces[t].quota;
    let u = v.quotas[q].user;
    assert(v.trace_ok(t));
    assert(v.quota_ok(q));
    assert(v.user_ok(u));
    assert(w.users.dom() =~= v.users.dom());
    assert(w.quotas.dom() =~= v.quotas.dom());
    assert(w.traces.dom() =~= v.traces.dom());
    assert forall|b: Addr| #[trigger] w.n_quotas(b) == v.n_quotas(b) by {
        lemma_total_insert(v.quotas, on_user(b), q, w.quotas[q]);
    }
    assert forall|b: Addr| #[trigger] w.n_traces(b) == v.n_traces(b) by {
        lemma_total_insert(v.traces, on_quota(b), t, w.traces[t]);
    }
    assert forall|b: Addr| #[trigger] w.actor_held(b) == v.actor_held(b) by {
        lemma_total_insert(v.traces, by_actor(b), t, w.traces[t]);
    }
    assert forall|b: Addr| #[trigger] w.user_held(b) == v.user_held(b) by {
        assert(w.n_quotas(b) == v.n_quotas(b));
    }
    assert forall|b: Addr| #[trigger] w.quota_held(b) == v.quota_held(b) by {
        assert(w.n_traces(b) == v.n_traces(b));
    }
    assert forall|b: Addr| #[trigger] w.users.contains_key(b) implies w.user_ok(b) by {
        assert(v.user_ok(b));
        assert(w.user_held(b) == v.user_held(b));
        assert forall|s: int| #![trigger w.users[b].claim.available[s]]
            0 <= s < N_SLOTS implies w.users[b].claim.available[s] + total(
            w.quotas,
            from_user(b, s),
        ) == w.maxima[s] by {
            lemma_total_insert(v.quotas, from_user(b, s), q, w.quotas[q]);
            assert(v.users[b].claim.available[s] + total(v.quotas, from_user(b, s))
                == v.maxima[s]);
            assert(conserved(v, t, user, quota, trace, charges, s));
        }
    }
    assert forall|b: Addr| #[trigger] w.quotas.contains_key(b) implies w.quota_ok(b) by {
        assert(v.quota_ok(b));
        assert(w.quota_held(b) == v.quota_held(b));
        assert forall|s: int| #![trigger w.quotas[b].claim.available[s]]
            0 <= s < N_SLOTS implies {
            let granted = total(w.traces, from_quota(b, s));
            &&& w.quotas[b].claim.available[s] + granted == w.quotas[b].claim.claimed[s]
            &&& granted == 0 ==> w.quotas[b].claim.claimed[s] == 0
        } by {
            lemma_total_insert(v.traces, from_quota(b, s), t, w.traces[t]);
            assert(v.quotas[b].claim.available[s] + total(v.traces, from_quota(b, s))
                == v.quotas[b].claim.claimed[s]);
            assert(conserved(v, t, user, quota, trace, charges, s));
        }
    }
    assert forall|b: Addr| #[trigger] w.traces.contains_key(b) implies w.trace_ok(b) by {
        assert(v.trace_ok(b));
        assert forall|s: int| #![trigger w.traces[b].claim.claimed[s]]
            0 <= s < N_SLOTS implies w.traces[b].claim.claimed[s] == charged(
            w.traces[b].charges,
            s,
        ) && w.traces[b].claim.available[s] == 0 by {
            if b == t {
                assert(conserved(v, t, user, quota, trace, charges, s));
            } else {
                assert(v.traces[b].claim.claimed[s] == charged(v.traces[b].charges, s));
            }
        }
    }
    assert forall|b: Addr| #[trigger] w.actors.contains_key(b) implies w.actor_ok(b) by {
        assert(v.actor_ok(b));
        assert(w.actor_held(b) == v.actor_held(b));
    }
}

/// The claims along a trace are in the shape that charges rely on.
pub proof fn lemma_claims(v: AcctView, t: Addr)
    requires
        v.inv(),
        v.traces.contains_key(t),
    ensures
        ({
            let q = v.traces[t].quota;
            let u = v.quotas[q].user;
            &&& v.quotas.contains_key(q)
            &&& v.users.contains_key(u)
            &&& claims_ok(v.users[u].claim, v.quotas[q].claim, v.traces[t].claim)
        }),
{
    let q = v.traces[t].quota;
    let u = v.quotas[q].user;
    assert(v.trace_ok(t));
    assert(v.quota_ok(q));
    assert(v.user_ok(u));
    let (user, quota, trace) = (v.users[u].claim, v.quotas[q].claim, v.traces[t].claim);
    assert forall|s: int| #![trigger trace.available[s]] 0 <= s < N_SLOTS implies {
        &&& trace.available[s] == 0
        &&& trace.claimed[s] <= quota.claimed[s] - quota.available[s]
        &&& user.available[s] + quota.claimed[s] <= Value::MAX
    } by {
        lemma_total_bound(v.traces, from_quota(q, s));
        lemma_total_bound(v.quotas, from_user(u, s));
        assert(from_quota(q, s)(v.traces[t]) == trace.claimed[s]);
        assert(from_user(u, s)(v.quotas[q]) == quota.claimed[s]);
        assert(v.users[u].claim.available[s] + total(v.quotas, from_user(u, s)) == v.maxima[s]);
    }
}

/// A charge is part of the sum of charges, and removing it leaves the rest.
pub proof fn lemma_charged_remove(charges: Seq<Seq<Value>>, i: int, s: int)
    requires
        0 <= i < charges.len(),
    ensures
        charged(charges.remove(i), s) == charged(charges, s) - charges[i][s],
        charged(charges, s) >= charges[i][s],
    decreases charges.len(),
{
    let n = charges.len();
    if i == n - 1 {
        assert(charges.remove(i) =~= charges.drop_last());
        lemma_charged_nat(charges.drop_last(), s);
    } else {
        lemma_charged_remove(charges.drop_last(), i, s);
        assert(charges.remove(i).drop_last() =~= charges.drop_last().remove(i));
        assert(charges.remove(i).last() == charges.last());
        assert(charges.drop_last()[i] == charges[i]);
    }
}

/// A sum of charges is never negative.
proof fn lemma_charged_nat(charges: Seq<Seq<Value>>, s: int)
    ensures
        charged(charges, s) >= 0,
    decreases charges.len(),
{
    if charges.len() > 0 {
        lemma_charged_nat(charges.drop_last(), s);
    }
}

/// A granted charge moves resources such that none get lost.
pub proof fn lemma_charge_moved(
    v: AcctView,
    t: Addr,
    user: Claim,
    quota: Claim,
    trace: Claim,
    n_users: Value,
    amount: Seq<Value>,
    cross_user: bool,
)
    requires
        v.inv(),
        v.traces.contains_key(t),
        v.trace_held(t) > 0,
        user.claimed == v.maxima,
        ({
            let q = v.traces[t].quota;
            let u = v.quotas[q].user;
            &&& verdict(
                v.users[u].claim,
                v.quotas[q].claim,
                v.traces[t].claim,
                n_users,
                amount,
                cross_user,
                0,
            ) is Ok
            &&& forall|s: int| #![trigger amount[s]]
                0 <= s < N_SLOTS ==> slot_charged(
                    (v.users[u].claim, user),
                    (v.quotas[q].claim, quota),
                    (v.traces[t].claim, trace),
                    n_users,
                    amount[s],
                    cross_user,
                    s,
                )
        }),
    ensures
        ({
            let w = v.moved(t, user, quota, trace, v.traces[t].charges.push(amount));
            &&& w.inv()
            &&& w.held() == v.held()
            &&& forall|b: Addr| #[trigger] w.user_held(b) == v.user_held(b)
            &&& forall|b: Addr| #[trigger] w.quota_held(b) == v.quota_held(b)
            &&& forall|b: Addr| #[trigger] w.actor_held(b) == v.actor_held(b)
            &&& forall|b: Addr| b != t ==> #[trigger] w.trace_held(b) == v.trace_held(b)
            &&& w.trace_held(t) == v.trace_held(t) - 1
        }),
{
    let q = v.traces[t].quota;
    let u = v.quotas[q].user;
    let charges = v.traces[t].charges.push(amount);
    lemma_claims(v, t);
    assert(v.trace_ok(t));
    assert(v.quota_ok(q));
    assert(charges.drop_last() =~= v.traces[t].charges);
    assert forall|s: int| 0 <= s < N_SLOTS implies #[trigger] conserved(
        v,
        t,
        user,
        quota,
        trace,
        charges,
        s,
    ) by {
        assert(amount[s] == charges.last()[s]);
        assert(v.quotas[q].claim.available[s] + total(v.traces, from_quota(q, s))
            == v.quotas[q].claim.claimed[s]);
        assert(v.traces[t].claim.claimed[s] == charged(v.traces[t].charges, s));
        lemma_total_bound(v.traces, from_quota(q, s));
        assert(from_quota(q, s)(v.traces[t]) == v.traces[t].claim.claimed[s]);
    }
    lemma_moved(v, t, user, quota, trace, charges);
}

/// A discharge moves resources such that none get lost.
pub proof fn lemma_discharge_moved(
    v: AcctView,
    t: Addr,
    user: Claim,
    quota: Claim,
    trace: Claim,
    n_actors: Value,
    i: int,
)
    requires
        v.inv(),
        v.traces.contains_key(t),
        0 <= i < v.traces[t].charges.len(),
        n_actors > 0,
        user.claimed == v.maxima,
        ({
            let q = v.traces[t].quota;
            let u = v.quotas[q].user;
            forall|s: int| #![trigger v.quotas[q].claim.available[s]]
                0 <= s < N_SLOTS ==> slot_discharged(
                    (v.users[u].claim, user),
                    (v.quotas[q].claim, quota),
                    (v.traces[t].claim, trace),
                    n_actors,
                    v.traces[t].charges[i][s],
                    s,
                )
        }),
    ensures
        ({
            let w = v.moved(t, user, quota, trace, v.traces[t].charges.remove(i));
            &&& w.inv()
            &&& w.held() == v.held()
            &&& forall|b: Addr| #[trigger] w.user_held(b) == v.user_held(b)
            &&& forall|b: Addr| #[trigger] w.quota_held(b) == v.quota_held(b)
            &&& forall|b: Addr| #[trigger] w.actor_held(b) == v.actor_held(b)
            &&& forall|b: Addr| b != t ==> #[trigger] w.trace_held(b) == v.trace_held(b)
            &&& w.trace_held(t) == v.trace_held(t) + 1
        }),
{
    let q = v.traces[t].quota;
    let u = v.quotas[q].user;
    let charges = v.traces[t].charges.remove(i);
    lemma_claims(v, t);
    lemma_kept_reserve_zero(n_actors);
    assert(v.trace_ok(t));
    assert(v.quota_ok(q));
    assert forall|s: int| 0 <= s < N_SLOTS implies #[trigger] conserved(
        v,
        t,
        user,
        quota,
        trace,
        charges,
        s,
    ) by {
        lemma_charged_remove(v.traces[t].charges, i, s);
        assert(v.quotas[q].claim.available[s] + total(v.traces, from_quota(q, s))
            == v.quotas[q].claim.claimed[s]);
        assert(v.traces[t].claim.claimed[s] == charged(v.traces[t].charges, s));
    }
    lemma_moved(v, t, user, quota, trace, charges);
}

/// A quota that was created is gone again once its reference is dropped.
pub proof fn lemma_quota_undone(v: AcctView, q: Addr, u: Addr, id: Id)
    requires
        v.inv(),
        !v.quotas.contains_key(q),
        v.users.contains_key(u),
    ensures
        v.quota_added(q, u, id).quota_dropped(q) == v,
{
    assert(v.user_ok(u));
    assert(v.quota_added(q, u, id).quota_dropped(q) =~= v);
}

/// A trace that was created is gone again once its reference is dropped.
pub proof fn lemma_trace_undone(v: AcctView, t: Addr, q: Addr, a: Addr)
    requires
        v.inv(),
        !v.traces.contains_key(t),
        v.quotas.contains_key(q),
        v.actors.contains_key(a),
    ensures
        v.trace_added(t, q, a).trace_dropped(t) == v,
{
    assert(v.quota_ok(q));
    assert(v.actor_ok(a));
    assert(v.trace_added(t, q, a).trace_dropped(t) =~= v);
}

/// Quotas and traces are identified by what they are for.
pub proof fn lemma_lookup(v: AcctView)
    requires
        v.unique(),
    ensures
        forall|q: Addr| #[trigger]
            v.quotas.contains_key(q) ==> v.quota_on(v.quotas[q].user, v.quotas[q].id) == Some(q),
        forall|t: Addr| #[trigger]
            v.traces.contains_key(t) ==> v.trace_on(v.traces[t].quota, v.traces[t].actor)
                == Some(t),
{
    assert forall|q: Addr| #[trigger] v.quotas.contains_key(q) implies v.quota_on(
        v.quotas[q].user,
        v.quotas[q].id,
    ) == Some(q) by {
        let (u, id) = (v.quotas[q].user, v.quotas[q].id);
        assert(!v.lacks_quota(u, id));
        let b = v.quota_on(u, id)->0;
        assert(v.quotas.contains_key(b) && v.quotas[b].user == u && v.quotas[b].id == id);
    }
    assert forall|t: Addr| #[trigger] v.traces.contains_key(t) implies v.trace_on(
        v.traces[t].quota,
        v.traces[t].actor,
    ) == Some(t) by {
        let (q, a) = (v.traces[t].quota, v.traces[t].actor);
        assert(!v.lacks_trace(q, a));
        let b = v.trace_on(q, a)->0;
        assert(v.traces.contains_key(b) && v.traces[b].quota == q && v.traces[b].actor == a);
    }
}

/// Counting references to the accounting system keeps it intact, as long as no
/// more are dropped than are held.
pub proof fn lemma_refs(v: AcctView, w: AcctView)
    requires
        v.wf(),
        w == (AcctView { refs: w.refs, ..v }),
        w.held() >= 0,
    ensures
        w.wf(),
{
    assert forall|u: Addr| #[trigger] w.users.contains_key(u) implies w.user_ok(u) by {
        assert(v.user_ok(u));
        assert(w.user_held(u) == v.user_held(u));
    }
    assert forall|q: Addr| #[trigger] w.quotas.contains_key(q) implies w.quota_ok(q)
        && w.quota_held(q) == 0 by {
        assert(v.quota_ok(q));
        assert(w.quota_held(q) == v.quota_held(q));
    }
    assert forall|t: Addr| #[trigger] w.traces.contains_key(t) implies w.trace_ok(t)
        && w.trace_held(t) == 0 by {
        assert(v.trace_ok(t));
        assert(w.trace_held(t) == v.trace_held(t));
    }
    assert forall|a: Addr| #[trigger] w.actors.contains_key(a) implies w.actor_ok(a) by {
        assert(v.actor_ok(a));
        assert(w.actor_held(a) == v.actor_held(a));
    }
}

} // verus!
