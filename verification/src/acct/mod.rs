//! Resource accounting.
//!
//! To safely communicate across user boundaries, quotas are applied to pinned
//! resources, so no user can exploit all resources of another. Every operation
//! must be performed on behalf of an actor, and every actor operates on behalf
//! of a user. Whenever an operation claims resources of a foreign user, the
//! accounting system will ensure that a given quota is not exceeded.
//!
//! All actors that operate on behalf of the same user will share the same
//! limits, but a second layer quota ensures that the individual actors are
//! still semi-protected of each other (to protect against misbehaving actors on
//! the same security domain).
//!
//! Actors that operate on behalf of different users (and thus have different
//! security domains) have their interactions limited by a dynamic quota system.
//! This ensures operations that cross security domains cannot exhaust the
//! resources of another user.

pub mod calls;
pub mod capi;
pub mod claim;
pub mod effects;
pub mod fair;
pub mod laws;
pub mod model;
pub mod quota;
mod tree;

pub use crate::acct::capi::{
    acct_get_user, acct_new, acct_ref, acct_unref, actor_charge, actor_new, actor_ref, actor_unref,
    charge_deinit, charge_init, user_ref, user_unref,
};

use core::cmp::Ordering;
use crate::acct::claim::{
    charge_claims, discharge_claims, slot_charged, slot_discharged, verdict, Claim,
};
use crate::acct::model::{
    charged, keeps_handles, keeps_users, lemma_actor_added, lemma_actor_counted,
    lemma_actor_dropped, lemma_charge_moved, lemma_charged_remove, lemma_claims,
    lemma_discharge_moved, lemma_lookup, lemma_quota_added, lemma_quota_counted,
    lemma_quota_dropped, lemma_quota_undone, lemma_refs, lemma_trace_added, lemma_trace_counted,
    lemma_trace_dropped, lemma_trace_undone, lemma_user_added, lemma_user_counted,
    lemma_user_dropped, on_quota, on_user, AcctView, ActorView, QuotaView, TraceView, UserView,
};
use crate::acct::quota::value_from_usize;
use crate::acct::tree::{drop_or_unlink, find_or_insert, keyed, lemma_tree_ok_frame, tree_ok};
use crate::util::arena::{Addr, AllocError, Arena, Object};
use crate::util::field::Field;
use crate::util::rb::{owner_of, unclaimed, Node, Tree};
use crate::util::total::{lemma_total_bound, lemma_total_count};
use crate::util::{order_of, ptr_cmp};
use vstd::prelude::*;

verus! {

/// Representation of user IDs in the accounting system.
pub type Id = u32;

/// Representation of resource counters in the accounting system. Values of type
/// `usize` can always be represented.
pub type Value = u64;

/// Number of resource slots in the accounting system. That is, it defines how
/// many different (and independent) resource types are in use and tracked by
/// the accounting system.
pub const N_SLOTS: usize = 2;

/// Errors that can be raised by a charging operation.
#[derive(Clone, Copy, Debug, PartialEq, Eq, Structural)]
pub enum ChargeError {
    /// Could not allocate required state-tracking.
    Alloc(AllocError),
    /// Charge would exceed the quota of the claiming user.
    UserQuota,
    /// Charge would exceed the quota of the claiming actor.
    ActorQuota,
}

impl From<AllocError> for ChargeError {
    /// Create a charge error from an allocation error.
    ///
    /// This will wrap the allocation error as a [`ChargeError::Alloc`].
    fn from(v: AllocError) -> (r: Self) {
        ChargeError::Alloc(v)
    }
}

impl vstd::std_specs::convert::FromSpecImpl<AllocError> for ChargeError {
    open spec fn obeys_from_spec() -> bool {
        true
    }

    open spec fn from_spec(v: AllocError) -> Self {
        ChargeError::Alloc(v)
    }
}

/// The root context of an independent accounting system.
///
/// All objects of the module are eventually tied to one [`Acct`] object.
/// Different such objects are fully independent.
///
/// The root context is used to gain access to users and actors, and provides
/// the initial resource constraints of the system.
pub struct Acct {
    refs: usize,
    index: Tree<UserAcctRb>,
    index_len: usize,
    maxima: [Value; N_SLOTS],
    users: Arena<User>,
    quotas: Arena<Quota>,
    traces: Arena<Trace>,
    actors: Arena<ActorObject>,
}

struct User {
    acct_rb: Node,
    id: Id,
    inner: UserInner,
}

struct UserInner {
    quotas: Tree<QuotaUserRb>,
    quotas_len: usize,
    claim: Claim,
}

struct Quota {
    user: Addr,
    user_rb: Node,
    id: Id,
    inner: QuotaInner,
}

struct QuotaInner {
    traces: Tree<TraceQuotaRb>,
    traces_len: usize,
    claim: Claim,
}

struct Trace {
    quota: Addr,
    quota_rb: Node,
    actor: Addr,
    claim: Claim,
    charges: Ghost<Seq<Seq<Value>>>,
}

struct ActorObject {
    user: Addr,
}

/// The field `User.acct_rb`.
struct UserAcctRb;

/// The field `Quota.user_rb`.
struct QuotaUserRb;

/// The field `Trace.quota_rb`.
struct TraceQuotaRb;

impl Field for UserAcctRb {
    type Base = User;

    type Type = Node;

    closed spec fn field_of(base: User) -> Node {
        base.acct_rb
    }

    closed spec fn with_field(base: User, v: Node) -> User {
        User { acct_rb: v, ..base }
    }

    proof fn lemma_get_put(base: User, v: Node) {
    }

    proof fn lemma_put_get(base: User) {
    }

    proof fn lemma_put_put(base: User, v: Node, w: Node) {
    }

    fn get(base: &User) -> (r: &Node) {
        &base.acct_rb
    }

    fn set(base: &mut User, v: Node) {
        base.acct_rb = v;
    }
}

impl Field for QuotaUserRb {
    type Base = Quota;

    type Type = Node;

    closed spec fn field_of(base: Quota) -> Node {
        base.user_rb
    }

    closed spec fn with_field(base: Quota, v: Node) -> Quota {
        Quota { user_rb: v, ..base }
    }

    proof fn lemma_get_put(base: Quota, v: Node) {
    }

    proof fn lemma_put_get(base: Quota) {
    }

    proof fn lemma_put_put(base: Quota, v: Node, w: Node) {
    }

    fn get(base: &Quota) -> (r: &Node) {
        &base.user_rb
    }

    fn set(base: &mut Quota, v: Node) {
        base.user_rb = v;
    }
}

impl Field for TraceQuotaRb {
    type Base = Trace;

    type Type = Node;

    closed spec fn field_of(base: Trace) -> Node {
        base.quota_rb
    }

    closed spec fn with_field(base: Trace, v: Node) -> Trace {
        Trace { quota_rb: v, ..base }
    }

    proof fn lemma_get_put(base: Trace, v: Node) {
    }

    proof fn lemma_put_get(base: Trace) {
    }

    proof fn lemma_put_put(base: Trace, v: Node, w: Node) {
    }

    fn get(base: &Trace) -> (r: &Node) {
        &base.quota_rb
    }

    fn set(base: &mut Trace, v: Node) {
        base.quota_rb = v;
    }
}

spec fn user_key() -> spec_fn(User) -> int {
    |v: User| v.id as int
}

spec fn quota_key() -> spec_fn(Quota) -> int {
    |v: Quota| v.id as int
}

spec fn trace_key() -> spec_fn(Trace) -> int {
    |v: Trace| v.actor as int
}

/// The lookup tree of users.
spec fn users_indexed(
    index: Tree<UserAcctRb>,
    index_len: usize,
    users: Map<Addr, Object<User>>,
) -> bool {
    &&& tree_ok::<UserAcctRb>(index, index_len, 0, users, user_key())
    &&& forall|u: Addr| #[trigger]
        users.contains_key(u) ==> owner_of::<UserAcctRb>(users, u) == Some(0usize)
}

/// The lookup trees of quotas.
spec fn quotas_indexed(
    users: Map<Addr, Object<User>>,
    quotas: Map<Addr, Object<Quota>>,
) -> bool {
    &&& forall|u: Addr| #[trigger]
        users.contains_key(u) ==> tree_ok::<QuotaUserRb>(
            users[u].value.inner.quotas,
            users[u].value.inner.quotas_len,
            u,
            quotas,
            quota_key(),
        )
    &&& forall|q: Addr| #[trigger]
        quotas.contains_key(q) ==> owner_of::<QuotaUserRb>(quotas, q) == Some(
            quotas[q].value.user,
        )
}

/// The lookup trees of traces.
spec fn traces_indexed(
    quotas: Map<Addr, Object<Quota>>,
    traces: Map<Addr, Object<Trace>>,
) -> bool {
    &&& forall|q: Addr| #[trigger]
        quotas.contains_key(q) ==> tree_ok::<TraceQuotaRb>(
            quotas[q].value.inner.traces,
            quotas[q].value.inner.traces_len,
            q,
            traces,
            trace_key(),
        )
    &&& forall|t: Addr| #[trigger]
        traces.contains_key(t) ==> owner_of::<TraceQuotaRb>(traces, t) == Some(
            traces[t].value.quota,
        )
}

/// The lookup tree of users does not depend on anything but the IDs of users
/// and their links.
proof fn lemma_users_frame(
    index: Tree<UserAcctRb>,
    index_len: usize,
    m0: Map<Addr, Object<User>>,
    m1: Map<Addr, Object<User>>,
)
    requires
        users_indexed(index, index_len, m0),
        m1.dom() =~= m0.dom(),
        forall|u: Addr| #[trigger]
            m0.contains_key(u) ==> m1[u].value.acct_rb == m0[u].value.acct_rb && m1[u].value.id
                == m0[u].value.id,
    ensures
        users_indexed(index, index_len, m1),
{
    lemma_tree_ok_frame::<UserAcctRb>(index, index_len, 0, m0, m1, user_key());
}

/// The lookup trees of quotas do not depend on anything but these trees, the
/// IDs of quotas, and their links.
proof fn lemma_quotas_frame(
    users0: Map<Addr, Object<User>>,
    users1: Map<Addr, Object<User>>,
    m0: Map<Addr, Object<Quota>>,
    m1: Map<Addr, Object<Quota>>,
)
    requires
        quotas_indexed(users0, m0),
        users1.dom() =~= users0.dom(),
        m1.dom() =~= m0.dom(),
        forall|u: Addr| #[trigger]
            users0.contains_key(u) ==> users1[u].value.inner.quotas
                == users0[u].value.inner.quotas && users1[u].value.inner.quotas_len
                == users0[u].value.inner.quotas_len,
        forall|q: Addr| #[trigger]
            m0.contains_key(q) ==> m1[q].value.user_rb == m0[q].value.user_rb && m1[q].value.id
                == m0[q].value.id && m1[q].value.user == m0[q].value.user,
    ensures
        quotas_indexed(users1, m1),
{
    assert forall|u: Addr| #[trigger] users1.contains_key(u) implies tree_ok::<QuotaUserRb>(
        users1[u].value.inner.quotas,
        users1[u].value.inner.quotas_len,
        u,
        m1,
        quota_key(),
    ) by {
        assert(users0.contains_key(u));
        lemma_tree_ok_frame::<QuotaUserRb>(
            users0[u].value.inner.quotas,
            users0[u].value.inner.quotas_len,
            u,
            m0,
            m1,
            quota_key(),
        );
    }
    assert forall|q: Addr| #[trigger] m1.contains_key(q) implies owner_of::<QuotaUserRb>(m1, q)
        == Some(m1[q].value.user) by {
        assert(m0.contains_key(q));
    }
}

/// The lookup trees of traces do not depend on anything but these trees, the
/// actors of traces, and their links.
proof fn lemma_traces_frame(
    quotas0: Map<Addr, Object<Quota>>,
    quotas1: Map<Addr, Object<Quota>>,
    m0: Map<Addr, Object<Trace>>,
    m1: Map<Addr, Object<Trace>>,
)
    requires
        traces_indexed(quotas0, m0),
        quotas1.dom() =~= quotas0.dom(),
        m1.dom() =~= m0.dom(),
        forall|q: Addr| #[trigger]
            quotas0.contains_key(q) ==> quotas1[q].value.inner.traces
                == quotas0[q].value.inner.traces && quotas1[q].value.inner.traces_len
                == quotas0[q].value.inner.traces_len,
        forall|t: Addr| #[trigger]
            m0.contains_key(t) ==> m1[t].value.quota_rb == m0[t].value.quota_rb
                && m1[t].value.actor == m0[t].value.actor && m1[t].value.quota
                == m0[t].value.quota,
    ensures
        traces_indexed(quotas1, m1),
{
    assert forall|q: Addr| #[trigger] quotas1.contains_key(q) implies tree_ok::<TraceQuotaRb>(
        quotas1[q].value.inner.traces,
        quotas1[q].value.inner.traces_len,
        q,
        m1,
        trace_key(),
    ) by {
        assert(quotas0.contains_key(q));
        lemma_tree_ok_frame::<TraceQuotaRb>(
            quotas0[q].value.inner.traces,
            quotas0[q].value.inner.traces_len,
            q,
            m0,
            m1,
            trace_key(),
        );
    }
    assert forall|t: Addr| #[trigger] m1.contains_key(t) implies owner_of::<TraceQuotaRb>(m1, t)
        == Some(m1[t].value.quota) by {
        assert(m0.contains_key(t));
    }
}

spec fn user_view() -> spec_fn(Object<User>) -> UserView {
    |o: Object<User>|
        UserView { id: o.value.id, refs: o.refs as int, claim: o.value.inner.claim }
}

spec fn quota_view() -> spec_fn(Object<Quota>) -> QuotaView {
    |o: Object<Quota>|
        QuotaView {
            user: o.value.user,
            id: o.value.id,
            refs: o.refs as int,
            claim: o.value.inner.claim,
        }
}

spec fn trace_view() -> spec_fn(Object<Trace>) -> TraceView {
    |o: Object<Trace>|
        TraceView {
            quota: o.value.quota,
            actor: o.value.actor,
            refs: o.refs as int,
            claim: o.value.claim,
            charges: o.value.charges@,
        }
}

spec fn actor_view() -> spec_fn(Object<ActorObject>) -> ActorView {
    |o: Object<ActorObject>| ActorView { user: o.value.user, refs: o.refs as int }
}

impl View for Acct {
    type V = AcctView;

    closed spec fn view(&self) -> AcctView {
        AcctView {
            refs: self.refs as int,
            maxima: self.maxima,
            users: self.users@.map_values(user_view()),
            quotas: self.quotas@.map_values(quota_view()),
            traces: self.traces@.map_values(trace_view()),
            actors: self.actors@.map_values(actor_view()),
        }
    }
}

impl Acct {
    /// All objects can be found in their lookup trees.
    spec fn indexed(&self) -> bool {
        &&& self.users.wf()
        &&& self.quotas.wf()
        &&& self.traces.wf()
        &&& self.actors.wf()
        &&& self.quotas.limit() == self.users.limit()
        &&& self.traces.limit() == self.users.limit()
        &&& self.actors.limit() == self.users.limit()
        &&& users_indexed(self.index, self.index_len, self.users@)
        &&& quotas_indexed(self.users@, self.quotas@)
        &&& traces_indexed(self.quotas@, self.traces@)
    }

    /// The properties that hold at any time.
    spec fn inv(&self) -> bool {
        &&& self.indexed()
        &&& self@.inv()
    }

    /// The accounting system is intact.
    pub closed spec fn wf(&self) -> bool {
        &&& self.indexed()
        &&& self@.wf()
    }

    /// Number of objects of each type that can exist at the same time.
    pub closed spec fn limit(&self) -> usize {
        self.users.limit()
    }

    /// Check whether references to all objects can still be counted.
    pub fn is_countable(&self) -> (r: bool)
        ensures
            r == self@.countable(),
    {
        let bound: usize = usize::MAX - 1;
        let r = self.refs < bound && self.users.refs_below(bound) && self.quotas.refs_below(bound)
            && self.traces.refs_below(bound) && self.actors.refs_below(bound);
        proof {
            let v = self@;
            if r {
                assert forall|u: Addr| #[trigger] v.users.contains_key(u) implies v.users[u].refs
                    + 2 <= usize::MAX by {
                    assert(self.users@[u].refs < bound);
                }
                assert forall|q: Addr| #[trigger] v.quotas.contains_key(q) implies v.quotas[q].refs
                    + 2 <= usize::MAX by {
                    assert(self.quotas@[q].refs < bound);
                }
                assert forall|t: Addr| #[trigger] v.traces.contains_key(t) implies v.traces[t].refs
                    + 2 <= usize::MAX by {
                    assert(self.traces@[t].refs < bound);
                }
                assert forall|b: Addr| #[trigger] v.actors.contains_key(b) implies v.actors[b].refs
                    + 2 <= usize::MAX by {
                    assert(self.actors@[b].refs < bound);
                }
            }
            if v.countable() {
                assert forall|a: Addr| #![trigger self.users@[a]]
                    self.users@.contains_key(a) implies self.users@[a].refs < bound by {
                    assert(v.users.contains_key(a));
                }
                assert forall|a: Addr| #![trigger self.quotas@[a]]
                    self.quotas@.contains_key(a) implies self.quotas@[a].refs < bound by {
                    assert(v.quotas.contains_key(a));
                }
                assert forall|a: Addr| #![trigger self.traces@[a]]
                    self.traces@.contains_key(a) implies self.traces@[a].refs < bound by {
                    assert(v.traces.contains_key(a));
                }
                assert forall|a: Addr| #![trigger self.actors@[a]]
                    self.actors@.contains_key(a) implies self.actors@[a].refs < bound by {
                    assert(v.actors.contains_key(a));
                }
            }
        }
        r
    }

    /// Create a new accounting system.
    ///
    /// All accounting systems are fully independent of each other, and this
    /// object serves as root context for a given accounting system.
    pub fn new(maxima: &[Value; N_SLOTS]) -> (r: Self)
        ensures
            r.wf(),
            r.limit() == usize::MAX,
            r@ == (AcctView {
                refs: 1,
                maxima: *maxima,
                users: Map::empty(),
                quotas: Map::empty(),
                traces: Map::empty(),
                actors: Map::empty(),
            }),
    {
        Self::with_limit(maxima, usize::MAX)
    }

    /// Create a new accounting system, with a limit on the number of users, of
    /// quotas, of traces, and of actors.
    pub fn with_limit(maxima: &[Value; N_SLOTS], limit: usize) -> (r: Self)
        ensures
            r.wf(),
            r.limit() == limit,
            r@ == (AcctView {
                refs: 1,
                maxima: *maxima,
                users: Map::empty(),
                quotas: Map::empty(),
                traces: Map::empty(),
                actors: Map::empty(),
            }),
    {
        let r = Acct {
            refs: 1,
            index: Tree::new(0),
            index_len: 0,
            maxima: *maxima,
            users: Arena::new(limit),
            quotas: Arena::new(limit),
            traces: Arena::new(limit),
            actors: Arena::new(limit),
        };
        assert(unclaimed::<UserAcctRb>(r.users@, 0));
        assert(r@.users =~= Map::empty());
        assert(r@.quotas =~= Map::empty());
        assert(r@.traces =~= Map::empty());
        assert(r@.actors =~= Map::empty());
        r
    }
}

/// Reference to a user in an accounting system.
///
/// A resource system is partitioned into independent users, which operate
/// fully independently, and each have an assigned resource limit.
///
/// An [`Actor`] can then claim resources of a user up to the limit of the
/// user. If the actor is tied to the user it claims from, then it can claim up
/// to the resource limit. If the actor is tied to another user, then its
/// resource claims are subject to a quota.
pub struct UserRef {
    addr: Addr,
}

impl UserRef {
    /// The address of the user.
    pub closed spec fn addr(&self) -> Addr {
        self.addr
    }

    /// The reference is one of those held on the user.
    pub open spec fn valid(&self, v: AcctView) -> bool {
        &&& v.users.contains_key(self.addr())
        &&& v.user_held(self.addr()) > 0
    }
}

impl Acct {
    /// Get a user object for a given user ID.
    ///
    /// Query the accounting system for the user object of the given user ID.
    /// This will always return an existing user object, if there is one.
    /// Otherwise, it will create a new one.
    ///
    /// It is never possible to have two users with the same user ID but
    /// assigned to the same [`Acct`] object. This lookup function ensures that
    /// user objects are always shared.
    pub fn get_user(&mut self, id: Id) -> (r: Result<UserRef, AllocError>)
        requires
            old(self).wf(),
            old(self)@.held() > 0,
            old(self)@.countable(),
        ensures
            final(self).wf(),
            final(self).limit() == old(self).limit(),
            match r {
                Ok(u) => {
                    &&& u.valid(final(self)@)
                    &&& if old(self)@.users.contains_key(u.addr()) {
                        &&& old(self)@.users[u.addr()].id == id
                        &&& final(self)@ == old(self)@.user_counted(u.addr(), 1)
                    } else {
                        &&& old(self)@.lacks_user(id)
                        &&& old(self)@.users.dom().len() < old(self).limit()
                        &&& final(self)@ == old(self)@.user_added(u.addr(), id)
                    }
                },
                Err(_) => {
                    &&& old(self)@.lacks_user(id)
                    &&& old(self)@.users.dom().len() >= old(self).limit()
                    &&& final(self)@ == old(self)@
                },
            },
    {
        let ghost v = self@;
        let ghost m0 = self.users@;
        let ghost index = self.index;
        let order = |ent: &User| -> (o: Ordering)
            ensures
                o == order_of(id - 0, user_key()(*ent)),
            {
                id.cmp(&ent.id)
            };
        let user = User {
            acct_rb: Node::new(),
            id,
            inner: UserInner { quotas: Tree::new(0), quotas_len: 0, claim: Claim::with(&self.maxima) },
        };
        proof {
            assert forall|a: Addr| self.users@.contains_key(a) implies #[trigger] self.users@[a].refs
                < usize::MAX by {
                assert(v.users.contains_key(a));
            }
        }
        let found = find_or_insert::<UserAcctRb, _>(
            &mut self.index,
            &mut self.index_len,
            &mut self.users,
            order,
            user,
            Ghost(user_key()),
            Ghost(id - 0),
        );
        proof {
            assert(v.users.dom() =~= m0.dom());
            let want = id - 0;
            if forall|b: Addr| !keyed::<UserAcctRb>(m0, index@, user_key(), want, b) {
                assert forall|b: Addr| #[trigger] v.users.contains_key(b) implies v.users[b].id
                    != id by {
                    assert(m0.contains_key(b));
                    assert(index@.contains(b));
                    assert(!keyed::<UserAcctRb>(m0, index@, user_key(), want, b));
                }
            }
        }
        let (addr, fresh) = match found {
            Ok(v) => v,
            Err(e) => {
                return Err(e);
            },
        };
        let ghost m1 = self.users@;
        if fresh {
            let user = self.users.get_mut(addr);
            user.inner.quotas = Tree::new(addr);
            self.refs = self.refs + 1;
            proof {
                assert(unclaimed::<QuotaUserRb>(self.quotas@, addr)) by {
                    assert forall|q: Addr| #![trigger self.quotas@[q]]
                        self.quotas@.contains_key(q) implies owner_of::<QuotaUserRb>(
                        self.quotas@,
                        q,
                    ) != Some(addr) by {
                        assert(v.quotas.contains_key(q) && v.quota_ok(q));
                    }
                }
                lemma_users_frame(self.index, self.index_len, m1, self.users@);
                assert(self@ =~= v.user_added(addr, id));
                lemma_user_added(v, addr, id);
            }
        } else {
            proof {
                lemma_users_frame(self.index, self.index_len, m0, self.users@);
                lemma_quotas_frame(m0, self.users@, self.quotas@, self.quotas@);
                assert(self@ =~= v.user_counted(addr, 1));
                lemma_user_counted(v, addr, 1);
            }
        }
        Ok(UserRef { addr })
    }
}

impl Acct {
    /// Drop a reference to a user.
    ///
    /// If this is the last reference, the user is unlinked from the lookup tree
    /// and deallocated.
    fn release_user(&mut self, u: Addr)
        requires
            old(self).inv(),
            old(self)@.users.contains_key(u),
            old(self)@.user_held(u) > 0,
        ensures
            final(self).inv(),
            final(self).limit() == old(self).limit(),
            final(self)@ == old(self)@.user_dropped(u),
    {
        let ghost v = self@;
        let ghost m0 = self.users@;
        proof {
            lemma_user_dropped(v, u);
            assert(m0.contains_key(u));
            assert(m0[u] == m0[u]);
            assert(v.user_ok(u));
        }
        match drop_or_unlink::<UserAcctRb>(
            &mut self.index,
            &mut self.index_len,
            &mut self.users,
            u,
            Ghost(user_key()),
        ) {
            Some(this) => {
                let ghost m1 = self.users@;
                let _ = self.users.remove(this);
                self.refs = self.refs - 1;
                proof {
                    let m2 = self.users@;
                    assert forall|b: Addr| #[trigger] m2.contains_key(b) implies m2[b] == m0[b] by {
                        assert(m1[b] == m0[b]);
                    }
                    lemma_tree_ok_frame::<UserAcctRb>(
                        self.index,
                        self.index_len,
                        0,
                        m1,
                        m2,
                        user_key(),
                    );
                    assert(self@ =~= v.user_dropped(u));
                }
            },
            None => {
                proof {
                    lemma_users_frame(self.index, self.index_len, m0, self.users@);
                    lemma_quotas_frame(m0, self.users@, self.quotas@, self.quotas@);
                    assert(self@ =~= v.user_dropped(u));
                }
            },
        }
    }
}

impl Acct {
    /// Drop a reference to an actor.
    ///
    /// If this is the last reference, the actor is deallocated and drops its
    /// own reference to its user.
    fn release_actor(&mut self, a: Addr)
        requires
            old(self).inv(),
            old(self)@.actors.contains_key(a),
            old(self)@.actor_held(a) > 0,
        ensures
            final(self).inv(),
            final(self).limit() == old(self).limit(),
            final(self)@ == old(self)@.actor_dropped(a),
    {
        let ghost v = self@;
        proof {
            lemma_actor_dropped(v, a);
            assert(self.actors@.contains_key(a));
            assert(v.actor_ok(a));
        }
        if self.actors.drop_unless_unique(a) {
            assert(self@ =~= v.actor_dropped(a));
        } else {
            let actor = self.actors.remove(a);
            assert(self@ =~= (AcctView { actors: v.actors.remove(a), ..v }));
            self.release_user(actor.user);
        }
    }

    /// Drop a reference to a quota.
    ///
    /// If this is the last reference, the quota is unlinked from the lookup
    /// tree of its user and deallocated, and drops its own reference to its
    /// user.
    fn release_quota(&mut self, q: Addr)
        requires
            old(self).inv(),
            old(self)@.quotas.contains_key(q),
            old(self)@.quota_held(q) > 0,
        ensures
            final(self).inv(),
            final(self).limit() == old(self).limit(),
            final(self)@ == old(self)@.quota_dropped(q),
    {
        let ghost v = self@;
        let ghost users0 = self.users@;
        let ghost m0 = self.quotas@;
        proof {
            lemma_quota_dropped(v, q);
            assert(m0.contains_key(q));
            assert(v.quota_ok(q));
            assert(users0.contains_key(m0[q].value.user));
            assert(m0[q] == m0[q]);
        }
        let u = self.quotas.get(q).user;
        let user = self.users.get_mut(u);
        match drop_or_unlink::<QuotaUserRb>(
            &mut user.inner.quotas,
            &mut user.inner.quotas_len,
            &mut self.quotas,
            q,
            Ghost(quota_key()),
        ) {
            Some(this) => {
                let ghost m1 = self.quotas@;
                let _ = self.quotas.remove(this);
                proof {
                    let m2 = self.quotas@;
                    let users2 = self.users@;
                    assert forall|b: Addr| #[trigger] m2.contains_key(b) implies m2[b] == m0[b] by {
                        assert(m1[b] == m0[b]);
                    }
                    assert forall|b: Addr| #[trigger] users2.contains_key(b) implies tree_ok::<
                        QuotaUserRb,
                    >(
                        users2[b].value.inner.quotas,
                        users2[b].value.inner.quotas_len,
                        b,
                        m2,
                        quota_key(),
                    ) by {
                        assert(users0.contains_key(b));
                        if b == u {
                            lemma_tree_ok_frame::<QuotaUserRb>(
                                users2[b].value.inner.quotas,
                                users2[b].value.inner.quotas_len,
                                b,
                                m1,
                                m2,
                                quota_key(),
                            );
                        } else {
                            lemma_tree_ok_frame::<QuotaUserRb>(
                                users2[b].value.inner.quotas,
                                users2[b].value.inner.quotas_len,
                                b,
                                m0,
                                m2,
                                quota_key(),
                            );
                        }
                    }
                    lemma_users_frame(self.index, self.index_len, users0, users2);
                    assert(self@ =~= (AcctView { quotas: v.quotas.remove(q), ..v }));
                }
                self.release_user(u);
            },
            None => {
                proof {
                    lemma_users_frame(self.index, self.index_len, users0, self.users@);
                    lemma_quotas_frame(users0, self.users@, m0, self.quotas@);
                    lemma_traces_frame(m0, self.quotas@, self.traces@, self.traces@);
                    assert(self@ =~= v.quota_dropped(q));
                }
            },
        }
    }
}

impl Acct {
    /// Drop a reference to a trace.
    ///
    /// If this is the last reference, the trace is unlinked from the lookup
    /// tree of its quota and deallocated, and drops its own references to its
    /// quota and its actor.
    fn release_trace(&mut self, t: Addr)
        requires
            old(self).inv(),
            old(self)@.traces.contains_key(t),
            old(self)@.trace_held(t) > 0,
        ensures
            final(self).inv(),
            final(self).limit() == old(self).limit(),
            final(self)@ == old(self)@.trace_dropped(t),
    {
        let ghost v = self@;
        let ghost quotas0 = self.quotas@;
        let ghost m0 = self.traces@;
        proof {
            lemma_trace_dropped(v, t);
            assert(m0.contains_key(t));
            assert(v.trace_ok(t));
            assert(quotas0.contains_key(m0[t].value.quota));
            assert(m0[t] == m0[t]);
        }
        let q = self.traces.get(t).quota;
        let quota = self.quotas.get_mut(q);
        match drop_or_unlink::<TraceQuotaRb>(
            &mut quota.inner.traces,
            &mut quota.inner.traces_len,
            &mut self.traces,
            t,
            Ghost(trace_key()),
        ) {
            Some(this) => {
                let ghost m1 = self.traces@;
                let trace = self.traces.remove(this);
                proof {
                    let m2 = self.traces@;
                    let quotas2 = self.quotas@;
                    assert(m1[t].value.actor == m0[t].value.actor);
                    assert forall|b: Addr| #[trigger] m2.contains_key(b) implies m2[b] == m0[b] by {
                        assert(m1[b] == m0[b]);
                    }
                    assert forall|b: Addr| #[trigger] quotas2.contains_key(b) implies tree_ok::<
                        TraceQuotaRb,
                    >(
                        quotas2[b].value.inner.traces,
                        quotas2[b].value.inner.traces_len,
                        b,
                        m2,
                        trace_key(),
                    ) by {
                        assert(quotas0.contains_key(b));
                        if b == q {
                            lemma_tree_ok_frame::<TraceQuotaRb>(
                                quotas2[b].value.inner.traces,
                                quotas2[b].value.inner.traces_len,
                                b,
                                m1,
                                m2,
                                trace_key(),
                            );
                        } else {
                            lemma_tree_ok_frame::<TraceQuotaRb>(
                                quotas2[b].value.inner.traces,
                                quotas2[b].value.inner.traces_len,
                                b,
                                m0,
                                m2,
                                trace_key(),
                            );
                        }
                    }
                    lemma_quotas_frame(self.users@, self.users@, quotas0, quotas2);
                    assert(self@ =~= (AcctView { traces: v.traces.remove(t), ..v }));
                }
                self.release_quota(q);
                self.release_actor(trace.actor);
            },
            None => {
                proof {
                    lemma_quotas_frame(self.users@, self.users@, quotas0, self.quotas@);
                    lemma_traces_frame(quotas0, self.quotas@, m0, self.traces@);
                    assert(self@ =~= v.trace_dropped(t));
                }
            },
        }
    }

    /// Find a quota object of a user, or create a new one.
    fn get_quota(&mut self, u: Addr, id: Id) -> (r: Result<Addr, AllocError>)
        requires
            old(self).inv(),
            old(self)@.users.contains_key(u),
            old(self)@.countable(),
        ensures
            final(self).inv(),
            final(self).limit() == old(self).limit(),
            match r {
                Ok(q) => if old(self)@.quotas.contains_key(q) {
                    &&& old(self)@.quotas[q].user == u
                    &&& old(self)@.quotas[q].id == id
                    &&& final(self)@ == old(self)@.quota_counted(q, 1)
                } else {
                    &&& old(self)@.lacks_quota(u, id)
                    &&& old(self)@.quotas.dom().len() < old(self).limit()
                    &&& final(self)@ == old(self)@.quota_added(q, u, id)
                },
                Err(_) => {
                    &&& old(self)@.lacks_quota(u, id)
                    &&& old(self)@.quotas.dom().len() >= old(self).limit()
                    &&& final(self)@ == old(self)@
                },
            },
    {
        let ghost v = self@;
        let ghost users0 = self.users@;
        let ghost m0 = self.quotas@;
        let ghost index = users0[u].value.inner.quotas;
        let order = |ent: &Quota| -> (o: Ordering)
            ensures
                o == order_of(id - 0, quota_key()(*ent)),
            {
                id.cmp(&ent.id)
            };
        let quota = Quota {
            user: u,
            user_rb: Node::new(),
            id,
            inner: QuotaInner { traces: Tree::new(0), traces_len: 0, claim: Claim::new() },
        };
        proof {
            assert(users0.contains_key(u));
            assert forall|a: Addr| m0.contains_key(a) implies #[trigger] m0[a].refs < usize::MAX by {
                assert(v.quotas.contains_key(a));
            }
        }
        let user = self.users.get_mut(u);
        let found = find_or_insert::<QuotaUserRb, _>(
            &mut user.inner.quotas,
            &mut user.inner.quotas_len,
            &mut self.quotas,
            order,
            quota,
            Ghost(quota_key()),
            Ghost(id - 0),
        );
        proof {
            assert(v.quotas.dom() =~= m0.dom());
            let want = id - 0;
            if forall|b: Addr| !keyed::<QuotaUserRb>(m0, index@, quota_key(), want, b) {
                assert forall|b: Addr| #[trigger] v.quotas.contains_key(b) implies !(
                v.quotas[b].user == u && v.quotas[b].id == id) by {
                    assert(m0.contains_key(b));
                    assert(!keyed::<QuotaUserRb>(m0, index@, quota_key(), want, b));
                    if v.quotas[b].user == u {
                        assert(owner_of::<QuotaUserRb>(m0, b) == Some(u));
                        assert(index@.contains(b));
                    }
                }
            }
            lemma_users_frame(self.index, self.index_len, users0, self.users@);
        }
        let (addr, fresh) = match found {
            Ok(v) => v,
            Err(e) => {
                proof {
                    lemma_quotas_frame(users0, self.users@, m0, self.quotas@);
                    assert(self@ =~= v);
                }
                return Err(e);
            },
        };
        let ghost m1 = self.quotas@;
        let ghost users1 = self.users@;
        if fresh {
            let quota = self.quotas.get_mut(addr);
            quota.inner.traces = Tree::new(addr);
            self.users.acquire(u);
            proof {
                let m2 = self.quotas@;
                let users2 = self.users@;
                assert(unclaimed::<TraceQuotaRb>(self.traces@, addr)) by {
                    assert forall|t: Addr| #![trigger self.traces@[t]]
                        self.traces@.contains_key(t) implies owner_of::<TraceQuotaRb>(
                        self.traces@,
                        t,
                    ) != Some(addr) by {
                        assert(v.traces.contains_key(t) && v.trace_ok(t));
                    }
                }
                assert forall|b: Addr| #[trigger] users2.contains_key(b) implies tree_ok::<
                    QuotaUserRb,
                >(
                    users2[b].value.inner.quotas,
                    users2[b].value.inner.quotas_len,
                    b,
                    m2,
                    quota_key(),
                ) by {
                    assert(users0.contains_key(b));
                    if b == u {
                        lemma_tree_ok_frame::<QuotaUserRb>(
                            users2[b].value.inner.quotas,
                            users2[b].value.inner.quotas_len,
                            b,
                            m1,
                            m2,
                            quota_key(),
                        );
                    } else {
                        lemma_tree_ok_frame::<QuotaUserRb>(
                            users2[b].value.inner.quotas,
                            users2[b].value.inner.quotas_len,
                            b,
                            m0,
                            m2,
                            quota_key(),
                        );
                    }
                }
                lemma_users_frame(self.index, self.index_len, users1, users2);
                assert(self@ =~= v.quota_added(addr, u, id));
                lemma_quota_added(v, addr, u, id);
            }
        } else {
            proof {
                lemma_quotas_frame(users0, self.users@, m0, self.quotas@);
                lemma_traces_frame(m0, self.quotas@, self.traces@, self.traces@);
                assert(self@ =~= v.quota_counted(addr, 1));
                assert(v.quota_ok(addr));
                lemma_quota_counted(v, addr, 1);
            }
        }
        Ok(addr)
    }
}

impl Acct {
    /// Find a trace object of a quota, or create a new one.
    fn get_trace(&mut self, q: Addr, actor: Addr) -> (r: Result<Addr, AllocError>)
        requires
            old(self).inv(),
            old(self)@.quotas.contains_key(q),
            old(self)@.actors.contains_key(actor),
            old(self)@.quotas[q].refs < usize::MAX,
            old(self)@.actors[actor].refs < usize::MAX,
            forall|t: Addr| #[trigger]
                old(self)@.traces.contains_key(t) ==> old(self)@.traces[t].refs < usize::MAX,
        ensures
            final(self).inv(),
            final(self).limit() == old(self).limit(),
            match r {
                Ok(t) => if old(self)@.traces.contains_key(t) {
                    &&& old(self)@.traces[t].quota == q
                    &&& old(self)@.traces[t].actor == actor
                    &&& final(self)@ == old(self)@.trace_counted(t, 1)
                } else {
                    &&& old(self)@.lacks_trace(q, actor)
                    &&& old(self)@.traces.dom().len() < old(self).limit()
                    &&& final(self)@ == old(self)@.trace_added(t, q, actor)
                },
                Err(_) => {
                    &&& old(self)@.lacks_trace(q, actor)
                    &&& old(self)@.traces.dom().len() >= old(self).limit()
                    &&& final(self)@ == old(self)@
                },
            },
    {
        let ghost v = self@;
        let ghost quotas0 = self.quotas@;
        let ghost m0 = self.traces@;
        let ghost index = quotas0[q].value.inner.traces;
        let order = |ent: &Trace| -> (o: Ordering)
            ensures
                o == order_of(actor - 0, trace_key()(*ent)),
            {
                ptr_cmp(actor, ent.actor)
            };
        let trace = Trace {
            quota: q,
            quota_rb: Node::new(),
            actor,
            claim: Claim::new(),
            charges: Ghost(Seq::empty()),
        };
        proof {
            assert(quotas0.contains_key(q));
            assert forall|a: Addr| m0.contains_key(a) implies #[trigger] m0[a].refs < usize::MAX by {
                assert(v.traces.contains_key(a));
            }
        }
        let quota = self.quotas.get_mut(q);
        let found = find_or_insert::<TraceQuotaRb, _>(
            &mut quota.inner.traces,
            &mut quota.inner.traces_len,
            &mut self.traces,
            order,
            trace,
            Ghost(trace_key()),
            Ghost(actor - 0),
        );
        proof {
            assert(v.traces.dom() =~= m0.dom());
            let want = actor - 0;
            if forall|b: Addr| !keyed::<TraceQuotaRb>(m0, index@, trace_key(), want, b) {
                assert forall|b: Addr| #[trigger] v.traces.contains_key(b) implies !(
                v.traces[b].quota == q && v.traces[b].actor == actor) by {
                    assert(m0.contains_key(b));
                    assert(!keyed::<TraceQuotaRb>(m0, index@, trace_key(), want, b));
                    if v.traces[b].quota == q {
                        assert(owner_of::<TraceQuotaRb>(m0, b) == Some(q));
                        assert(index@.contains(b));
                    }
                }
            }
            lemma_quotas_frame(self.users@, self.users@, quotas0, self.quotas@);
        }
        let (addr, fresh) = match found {
            Ok(v) => v,
            Err(e) => {
                proof {
                    lemma_traces_frame(quotas0, self.quotas@, m0, self.traces@);
                    assert(self@ =~= v);
                }
                return Err(e);
            },
        };
        let ghost m1 = self.traces@;
        let ghost quotas1 = self.quotas@;
        if fresh {
            self.quotas.acquire(q);
            self.actors.acquire(actor);
            proof {
                let quotas2 = self.quotas@;
                assert forall|b: Addr| #[trigger] quotas2.contains_key(b) implies tree_ok::<
                    TraceQuotaRb,
                >(
                    quotas2[b].value.inner.traces,
                    quotas2[b].value.inner.traces_len,
                    b,
                    m1,
                    trace_key(),
                ) by {
                    assert(quotas0.contains_key(b));
                    if b != q {
                        lemma_tree_ok_frame::<TraceQuotaRb>(
                            quotas2[b].value.inner.traces,
                            quotas2[b].value.inner.traces_len,
                            b,
                            m0,
                            m1,
                            trace_key(),
                        );
                    }
                }
                lemma_quotas_frame(self.users@, self.users@, quotas1, quotas2);
                assert(self@ =~= v.trace_added(addr, q, actor));
                lemma_trace_added(v, addr, q, actor);
            }
        } else {
            proof {
                lemma_traces_frame(quotas0, self.quotas@, m0, self.traces@);
                assert(self@ =~= v.trace_counted(addr, 1));
                assert(v.trace_ok(addr));
                lemma_trace_counted(v, addr, 1);
            }
        }
        Ok(addr)
    }
}

/// The lookup trees count their entries.
proof fn lemma_lens(acct: &Acct)
    requires
        acct.inv(),
    ensures
        forall|u: Addr| #[trigger]
            acct.users@.contains_key(u) ==> acct.users@[u].value.inner.quotas_len
                == acct@.n_quotas(u),
        forall|q: Addr| #[trigger]
            acct.quotas@.contains_key(q) ==> acct.quotas@[q].value.inner.traces_len
                == acct@.n_traces(q),
{
    let v = acct@;
    assert forall|u: Addr| #[trigger] acct.users@.contains_key(
        u,
    ) implies acct.users@[u].value.inner.quotas_len == v.n_quotas(u) by {
        let s = acct.users@[u].value.inner.quotas@;
        assert forall|q: Addr| v.quotas.contains_key(q) implies on_user(u)(#[trigger] v.quotas[q])
            == (if s.contains(q) {
            1int
        } else {
            0
        }) by {
            assert(acct.quotas@.contains_key(q));
            assert(owner_of::<QuotaUserRb>(acct.quotas@, q) == Some(acct.quotas@[q].value.user));
        }
        lemma_total_count(v.quotas, on_user(u), s);
    }
    assert forall|q: Addr| #[trigger] acct.quotas@.contains_key(
        q,
    ) implies acct.quotas@[q].value.inner.traces_len == v.n_traces(q) by {
        let s = acct.quotas@[q].value.inner.traces@;
        assert forall|t: Addr| v.traces.contains_key(t) implies on_quota(q)(#[trigger] v.traces[t])
            == (if s.contains(t) {
            1int
        } else {
            0
        }) by {
            assert(acct.traces@.contains_key(t));
            assert(owner_of::<TraceQuotaRb>(acct.traces@, t) == Some(acct.traces@[t].value.quota));
        }
        lemma_total_count(v.traces, on_quota(q), s);
    }
}

impl Acct {
    /// Charge resources along a trace.
    ///
    /// A granted charge takes over a reference to the trace.
    fn charge_trace(
        &mut self,
        u: Addr,
        q: Addr,
        t: Addr,
        amount: &[Value; N_SLOTS],
    ) -> (r: Result<(), ChargeError>)
        requires
            old(self).inv(),
            old(self)@.traces.contains_key(t),
            old(self)@.traces[t].quota == q,
            old(self)@.quotas[q].user == u,
            old(self)@.trace_held(t) > 0,
        ensures
            final(self).inv(),
            final(self).limit() == old(self).limit(),
            r == verdict(
                old(self)@.users[u].claim,
                old(self)@.quotas[q].claim,
                old(self)@.traces[t].claim,
                old(self)@.n_quotas(u) as Value,
                amount@,
                old(self)@.quotas[q].id != old(self)@.users[u].id,
                0,
            ),
            r is Err ==> final(self)@ == old(self)@,
            r is Ok ==> {
                &&& final(self)@ == old(self)@.moved(
                    t,
                    final(self)@.users[u].claim,
                    final(self)@.quotas[q].claim,
                    final(self)@.traces[t].claim,
                    old(self)@.traces[t].charges.push(amount@),
                )
                &&& forall|s: int| #![trigger amount@[s]]
                    0 <= s < N_SLOTS ==> slot_charged(
                        (old(self)@.users[u].claim, final(self)@.users[u].claim),
                        (old(self)@.quotas[q].claim, final(self)@.quotas[q].claim),
                        (old(self)@.traces[t].claim, final(self)@.traces[t].claim),
                        old(self)@.n_quotas(u) as Value,
                        amount@[s],
                        old(self)@.quotas[q].id != old(self)@.users[u].id,
                        s,
                    )
            },
    {
        let ghost v = self@;
        let ghost users0 = self.users@;
        let ghost quotas0 = self.quotas@;
        let ghost traces0 = self.traces@;
        proof {
            lemma_claims(v, t);
            lemma_lens(self);
            assert(users0.contains_key(u) && quotas0.contains_key(q) && traces0.contains_key(t));
            assert(v.user_ok(u));
        }
        let user = self.users.get_mut(u);
        let quota = self.quotas.get_mut(q);
        let trace = self.traces.get_mut(t);
        let cross_user = quota.id != user.id;
        let r = charge_claims(
            &mut user.inner.claim,
            &mut quota.inner.claim,
            &mut trace.claim,
            value_from_usize(user.inner.quotas_len),
            value_from_usize(quota.inner.traces_len),
            amount,
            cross_user,
        );
        if r.is_ok() {
            trace.charges = Ghost(trace.charges@.push(amount@));
        }
        proof {
            lemma_users_frame(self.index, self.index_len, users0, self.users@);
            lemma_quotas_frame(users0, self.users@, quotas0, self.quotas@);
            lemma_traces_frame(quotas0, self.quotas@, traces0, self.traces@);
            if r is Ok {
                assert(self@ =~= v.moved(
                    t,
                    self@.users[u].claim,
                    self@.quotas[q].claim,
                    self@.traces[t].claim,
                    v.traces[t].charges.push(amount@),
                ));
                lemma_charge_moved(
                    v,
                    t,
                    self@.users[u].claim,
                    self@.quotas[q].claim,
                    self@.traces[t].claim,
                    v.n_quotas(u) as Value,
                    amount@,
                    cross_user,
                );
            } else {
                assert(self@ =~= v);
            }
        }
        r
    }
}

/// An object to represent an active resource claim charged on the system.
pub struct Charge {
    trace: Option<Addr>,
    amount: [Value; N_SLOTS],
}

impl Charge {
    /// The trace this is charged on, if anything is charged.
    pub closed spec fn trace(&self) -> Option<Addr> {
        self.trace
    }

    /// The amount of resources that are charged.
    pub closed spec fn amount(&self) -> Seq<Value> {
        self.amount@
    }

    /// The charge is one of the active charges of its trace, unless it is
    /// empty.
    pub open spec fn valid(&self, v: AcctView) -> bool {
        self.trace() matches Some(t) ==> v.traces.contains_key(t) && v.traces[t].charges.contains(
            self.amount(),
        )
    }
}

/// How a granted charge of the user `u` changes the system.
pub open spec fn charged_on(
    v: AcctView,
    w: AcctView,
    u: Addr,
    claimant: Addr,
    charge: Charge,
) -> bool {
    let t = charge.trace()->0;
    let q = w.traces[t].quota;
    let id = v.users[v.actors[claimant].user].id;
    let o = v.opened(u, q, claimant, t);
    &&& charge.trace() is Some
    &&& match v.quota_on(u, id) {
        Some(b) => q == b,
        None => !v.quotas.contains_key(q),
    }
    &&& match v.trace_on(q, claimant) {
        Some(b) => t == b,
        None => !v.traces.contains_key(t),
    }
    &&& w == o.moved(
        t,
        w.users[u].claim,
        w.quotas[q].claim,
        w.traces[t].claim,
        o.traces[t].charges.push(charge.amount()),
    )
    &&& forall|s: int| #![trigger charge.amount()[s]]
        0 <= s < N_SLOTS ==> slot_charged(
            (o.users[u].claim, w.users[u].claim),
            (o.quotas[q].claim, w.quotas[q].claim),
            (o.traces[t].claim, w.traces[t].claim),
            o.n_quotas(u) as Value,
            charge.amount()[s],
            id != v.users[u].id,
            s,
        )
}

impl Acct {
    /// Charge resources on a user with the given actor.
    fn charge_user(&mut self, u: Addr, claimant: Addr, amount: &[Value; N_SLOTS]) -> (r: Result<
        Charge,
        ChargeError,
    >)
        requires
            old(self).wf(),
            old(self)@.users.contains_key(u),
            old(self)@.actors.contains_key(claimant),
            old(self)@.countable(),
        ensures
            final(self).wf(),
            final(self).limit() == old(self).limit(),
            match r {
                Ok(charge) => {
                    &&& old(self)@.judged(u, claimant, amount@, old(self).limit()) is Ok
                    &&& charge.amount() == amount@
                    &&& charged_on(old(self)@, final(self)@, u, claimant, charge)
                    &&& charge.valid(final(self)@)
                    &&& keeps_handles(old(self)@, final(self)@)
                },
                Err(e) => {
                    &&& old(self)@.judged(u, claimant, amount@, old(self).limit())
                        == Err::<(), ChargeError>(e)
                    &&& final(self)@ == old(self)@
                },
            },
    {
        let ghost v = self@;
        proof {
            assert(v.actor_ok(claimant));
            lemma_lookup(v);
        }
        let id = self.users.get(self.actors.get(claimant).user).id;
        let q = match self.get_quota(u, id) {
            Ok(q) => q,
            Err(e) => return Err(ChargeError::from(e)),
        };
        let ghost v1 = self@;
        proof {
            if v.quotas.contains_key(q) {
                assert(v.quota_ok(q));
                lemma_quota_counted(v, q, 1);
                assert(v1.quota_dropped(q) =~= v);
            } else {
                lemma_quota_added(v, q, u, id);
                lemma_quota_undone(v, q, u, id);
                assert forall|t: Addr| #[trigger] v.traces.contains_key(t) implies !(
                v.traces[t].quota == q && v.traces[t].actor == claimant) by {
                    assert(v.trace_ok(t));
                }
            }
        }
        let t = match self.get_trace(q, claimant) {
            Ok(t) => t,
            Err(e) => {
                self.release_quota(q);
                return Err(ChargeError::from(e));
            },
        };
        let ghost v2 = self@;
        proof {
            lemma_lookup(v1);
            if v1.traces.contains_key(t) {
                assert(v1.trace_ok(t));
                lemma_trace_counted(v1, t, 1);
                assert(v2.trace_dropped(t) =~= v1);
            } else {
                lemma_trace_added(v1, t, q, claimant);
                lemma_trace_undone(v1, t, q, claimant);
            }
        }
        match self.charge_trace(u, q, t, amount) {
            Ok(()) => {
                let ghost v3 = self@;
                proof {
                    lemma_charge_moved(
                        v2,
                        t,
                        v3.users[u].claim,
                        v3.quotas[q].claim,
                        v3.traces[t].claim,
                        v2.n_quotas(u) as Value,
                        amount@,
                        v2.quotas[q].id != v2.users[u].id,
                    );
                    lemma_total_bound(v3.traces, on_quota(q));
                    assert(on_quota(q)(v3.traces[t]) == 1);
                    assert(v3.quota_held(q) == 1);
                    lemma_quota_counted(v2, q, -1);
                    lemma_quota_counted(v3, q, -1);
                }
                self.release_quota(q);
                let r = Charge { trace: Some(t), amount: *amount };
                proof {
                    let w = self@;
                    let o = v.opened(u, q, claimant, t);
                    assert(o == v2.quota_counted(q, -1));
                    assert(w =~= o.moved(
                        t,
                        w.users[u].claim,
                        w.quotas[q].claim,
                        w.traces[t].claim,
                        o.traces[t].charges.push(amount@),
                    ));
                    assert(w.traces[t].charges.last() == amount@);
                    assert forall|b: Addr| #[trigger] w.quotas.contains_key(b) implies w.quota_held(
                        b,
                    ) == 0 by {
                        assert(b != q ==> v.quotas.contains_key(b));
                    }
                    assert forall|b: Addr| #[trigger] w.traces.contains_key(b) implies w.trace_held(
                        b,
                    ) == 0 by {
                        assert(v3.trace_held(b) == w.trace_held(b));
                        assert(b != t ==> v.traces.contains_key(b));
                    }
                }
                Ok(r)
            },
            Err(e) => {
                self.release_trace(t);
                self.release_quota(q);
                Err(e)
            },
        }
    }
}

/// How a discharge on the trace `t` changes the system: with resources moved to
/// the new claims, the reference to the trace is dropped.
pub open spec fn discharged_from(
    v: AcctView,
    w: AcctView,
    t: Addr,
    amount: Seq<Value>,
    user: Claim,
    quota: Claim,
    trace: Claim,
) -> bool {
    let q = v.traces[t].quota;
    let u = v.quotas[q].user;
    let charges = v.traces[t].charges;
    &&& user.claimed == v.maxima
    &&& forall|s: int| #![trigger v.quotas[q].claim.available[s]]
        0 <= s < N_SLOTS ==> slot_discharged(
            (v.users[u].claim, user),
            (v.quotas[q].claim, quota),
            (v.traces[t].claim, trace),
            v.n_traces(q) as Value,
            amount[s],
            s,
        )
    &&& w == v.moved(
        t,
        user,
        quota,
        trace,
        charges.remove(charges.index_of(amount)),
    ).trace_dropped(t)
}

impl Acct {
    /// Discharge resources along a trace, and drop the reference to it.
    fn discharge_trace(&mut self, t: Addr, amount: &[Value; N_SLOTS])
        requires
            old(self).wf(),
            old(self)@.traces.contains_key(t),
            old(self)@.traces[t].charges.contains(amount@),
        ensures
            final(self).wf(),
            final(self).limit() == old(self).limit(),
            keeps_handles(old(self)@, final(self)@),
            exists|user: Claim, quota: Claim, trace: Claim| #[trigger]
                discharged_from(old(self)@, final(self)@, t, amount@, user, quota, trace),
    {
        let ghost v = self@;
        let ghost users0 = self.users@;
        let ghost quotas0 = self.quotas@;
        let ghost traces0 = self.traces@;
        let ghost charges = v.traces[t].charges;
        let ghost i = charges.index_of(amount@);
        proof {
            assert(traces0.contains_key(t));
            assert(v.trace_ok(t));
            assert(charges[i] == amount@);
        }
        let q = self.traces.get(t).quota;
        proof {
            assert(v.quota_ok(q));
            assert(quotas0.contains_key(q));
        }
        let u = self.quotas.get(q).user;
        proof {
            assert(users0.contains_key(u));
            assert(v.user_ok(u));
            lemma_claims(v, t);
            lemma_lens(self);
            lemma_total_bound(v.traces, on_quota(q));
            assert(on_quota(q)(v.traces[t]) == 1);
            assert forall|s: int| #![trigger amount@[s]] 0 <= s < N_SLOTS implies amount@[s]
                <= v.traces[t].claim.claimed[s] by {
                lemma_charged_remove(charges, i, s);
                assert(v.traces[t].claim.claimed[s] == charged(charges, s));
            }
        }
        let user = self.users.get_mut(u);
        let quota = self.quotas.get_mut(q);
        let trace = self.traces.get_mut(t);
        discharge_claims(
            &mut user.inner.claim,
            &mut quota.inner.claim,
            &mut trace.claim,
            value_from_usize(quota.inner.traces_len),
            amount,
        );
        trace.charges = Ghost(charges.remove(i));
        let ghost v1 = self@;
        proof {
            lemma_users_frame(self.index, self.index_len, users0, self.users@);
            lemma_quotas_frame(users0, self.users@, quotas0, self.quotas@);
            lemma_traces_frame(quotas0, self.quotas@, traces0, self.traces@);
            assert(v1 =~= v.moved(
                t,
                v1.users[u].claim,
                v1.quotas[q].claim,
                v1.traces[t].claim,
                charges.remove(i),
            ));
            lemma_discharge_moved(
                v,
                t,
                v1.users[u].claim,
                v1.quotas[q].claim,
                v1.traces[t].claim,
                v.n_traces(q) as Value,
                i,
            );
            lemma_trace_dropped(v1, t);
        }
        self.release_trace(t);
        proof {
            let w = self@;
            assert(discharged_from(
                v,
                w,
                t,
                amount@,
                v1.users[u].claim,
                v1.quotas[q].claim,
                v1.traces[t].claim,
            ));
            assert forall|b: Addr| #[trigger] w.quotas.contains_key(b) implies w.quota_held(b)
                == 0 by {
                assert(v.quotas.contains_key(b));
                assert(v1.quota_held(b) == v.quota_held(b));
            }
            assert forall|b: Addr| #[trigger] w.traces.contains_key(b) implies w.trace_held(b)
                == 0 by {
                assert(v.traces.contains_key(b));
                assert(v1.trace_held(b) == v.trace_held(b) + if b == t {
                    1int
                } else {
                    0
                });
            }
        }
    }
}

/// An actor is an entity of the accounting system that can lay claims on
/// resources.
///
/// Actors always operate on behalf of a user. Actors can either claim
/// resources of their own user, or of other users. In case of the latter,
/// the claim is subject to a quota.
///
/// This is a reference to an actor. The actor stays around until all references
/// to it are released.
pub struct Actor {
    addr: Addr,
}

impl UserRef {
    /// Acquire another reference to the same user.
    pub fn acquire(&self, acct: &mut Acct) -> (r: Self)
        requires
            old(acct).wf(),
            self.valid(old(acct)@),
            old(acct)@.countable(),
        ensures
            final(acct).wf(),
            final(acct).limit() == old(acct).limit(),
            final(acct)@ == old(acct)@.user_counted(self.addr(), 1),
            r.addr() == self.addr(),
            r.valid(final(acct)@),
    {
        let ghost v = acct@;
        let ghost m0 = acct.users@;
        let addr = self.addr;
        assert(m0.contains_key(addr));
        acct.users.acquire(addr);
        proof {
            lemma_users_frame(acct.index, acct.index_len, m0, acct.users@);
            lemma_quotas_frame(m0, acct.users@, acct.quotas@, acct.quotas@);
            assert(acct@ =~= v.user_counted(addr, 1));
            assert(v.user_ok(addr));
            lemma_user_counted(v, addr, 1);
        }
        UserRef { addr }
    }

    /// Release the reference.
    ///
    /// If this releases the last reference, the entire user is deallocated.
    pub fn release(self, acct: &mut Acct)
        requires
            old(acct).wf(),
            self.valid(old(acct)@),
        ensures
            final(acct).wf(),
            final(acct).limit() == old(acct).limit(),
            final(acct)@ == old(acct)@.user_dropped(self.addr()),
            final(acct)@.held() == old(acct)@.held(),
            forall|b: Addr| b != self.addr() ==> #[trigger] final(acct)@.user_held(b) == old(
                acct,
            )@.user_held(b),
    {
        let ghost v = acct@;
        proof {
            lemma_user_dropped(v, self.addr);
        }
        acct.release_user(self.addr);
    }

    /// Charge resources on this user with the given actor.
    ///
    /// This fails if a quota would be exceeded, or if the state to track the
    /// charge cannot be allocated. In this case, nothing is changed.
    pub fn charge(&self, acct: &mut Acct, claimant: &Actor, amount: &[Value; N_SLOTS]) -> (r:
        Result<Charge, ChargeError>)
        requires
            old(acct).wf(),
            self.valid(old(acct)@),
            claimant.valid(old(acct)@),
            old(acct)@.countable(),
        ensures
            final(acct).wf(),
            final(acct).limit() == old(acct).limit(),
            match r {
                Ok(charge) => {
                    &&& old(acct)@.judged(self.addr(), claimant.addr(), amount@, old(acct).limit())
                        is Ok
                    &&& charge.amount() == amount@
                    &&& charge.valid(final(acct)@)
                    &&& keeps_handles(old(acct)@, final(acct)@)
                    &&& charged_on(
                        old(acct)@,
                        final(acct)@,
                        self.addr(),
                        claimant.addr(),
                        charge,
                    )
                },
                Err(e) => {
                    &&& old(acct)@.judged(self.addr(), claimant.addr(), amount@, old(acct).limit())
                        == Err::<(), ChargeError>(e)
                    &&& final(acct)@ == old(acct)@
                },
            },
    {
        acct.charge_user(self.addr, claimant.addr, amount)
    }
}

impl Actor {
    /// The address of the actor.
    pub closed spec fn addr(&self) -> Addr {
        self.addr
    }

    /// The reference is one of those held on the actor.
    pub open spec fn valid(&self, v: AcctView) -> bool {
        &&& v.actors.contains_key(self.addr())
        &&& v.actor_held(self.addr()) > 0
    }

    /// Create a new actor assigned to the given user.
    ///
    /// Any amount of actors can be created for a given user, and they can be
    /// shared between different operations, if desired. Actors always operate
    /// on behalf of the user they were created for. As such, actors of
    /// different users never share any quota. Additionally, multiple actors
    /// assigned to the same user will be protected via a second-level quota.
    ///
    /// The reference to the user is taken over by the actor. If the actor
    /// cannot be allocated, it is released.
    pub fn with(acct: &mut Acct, user: UserRef) -> (r: Result<Self, AllocError>)
        requires
            old(acct).wf(),
            user.valid(old(acct)@),
        ensures
            final(acct).wf(),
            final(acct).limit() == old(acct).limit(),
            match r {
                Ok(a) => {
                    &&& old(acct)@.actors.dom().len() < old(acct).limit()
                    &&& !old(acct)@.actors.contains_key(a.addr())
                    &&& final(acct)@ == old(acct)@.actor_added(a.addr(), user.addr())
                    &&& a.valid(final(acct)@)
                    &&& final(acct)@.user_held(user.addr()) == old(acct)@.user_held(user.addr()) - 1
                    &&& forall|b: Addr| b != user.addr() ==> #[trigger] final(acct)@.user_held(b)
                        == old(acct)@.user_held(b)
                },
                Err(_) => {
                    &&& old(acct)@.actors.dom().len() >= old(acct).limit()
                    &&& final(acct)@ == old(acct)@.user_dropped(user.addr())
                },
            },
    {
        let ghost v = acct@;
        assert(v.actors.dom() =~= acct.actors@.dom());
        match acct.actors.insert(ActorObject { user: user.addr }) {
            Ok(addr) => {
                proof {
                    assert(acct@ =~= v.actor_added(addr, user.addr));
                    lemma_actor_added(v, addr, user.addr);
                }
                Ok(Actor { addr })
            },
            Err(e) => {
                assert(acct@ =~= v);
                user.release(acct);
                Err(e)
            },
        }
    }

    /// Acquire another reference to the same actor.
    pub fn acquire(&self, acct: &mut Acct) -> (r: Self)
        requires
            old(acct).wf(),
            self.valid(old(acct)@),
            old(acct)@.countable(),
        ensures
            final(acct).wf(),
            final(acct).limit() == old(acct).limit(),
            final(acct)@ == old(acct)@.actor_counted(self.addr(), 1),
            r.addr() == self.addr(),
            r.valid(final(acct)@),
    {
        let ghost v = acct@;
        let addr = self.addr;
        assert(acct.actors@.contains_key(addr));
        acct.actors.acquire(addr);
        proof {
            assert(acct@ =~= v.actor_counted(addr, 1));
            assert(v.actor_ok(addr));
            lemma_actor_counted(v, addr, 1);
        }
        Actor { addr }
    }

    /// Release the reference.
    ///
    /// If this releases the last reference, the entire actor is deallocated.
    pub fn release(self, acct: &mut Acct)
        requires
            old(acct).wf(),
            self.valid(old(acct)@),
        ensures
            final(acct).wf(),
            final(acct).limit() == old(acct).limit(),
            final(acct)@ == old(acct)@.actor_dropped(self.addr()),
            final(acct)@.held() == old(acct)@.held(),
            keeps_users(old(acct)@, final(acct)@),
            forall|b: Addr| b != self.addr() ==> #[trigger] final(acct)@.actor_held(b) == old(
                acct,
            )@.actor_held(b),
    {
        let ghost v = acct@;
        proof {
            lemma_actor_dropped(v, self.addr);
        }
        acct.release_actor(self.addr);
    }

    /// Charge resources on the user of this actor with the given claimant
    /// actor.
    ///
    /// See [`UserRef::charge()`] for details on the charge operation.
    pub fn charge(&self, acct: &mut Acct, claimant: &Actor, amount: &[Value; N_SLOTS]) -> (r:
        Result<Charge, ChargeError>)
        requires
            old(acct).wf(),
            self.valid(old(acct)@),
            claimant.valid(old(acct)@),
            old(acct)@.countable(),
        ensures
            final(acct).wf(),
            final(acct).limit() == old(acct).limit(),
            ({
                let u = old(acct)@.actors[self.addr()].user;
                match r {
                    Ok(charge) => {
                        &&& old(acct)@.judged(u, claimant.addr(), amount@, old(acct).limit()) is Ok
                        &&& charge.amount() == amount@
                        &&& charge.valid(final(acct)@)
                        &&& keeps_handles(old(acct)@, final(acct)@)
                        &&& charged_on(old(acct)@, final(acct)@, u, claimant.addr(), charge)
                    },
                    Err(e) => {
                        &&& old(acct)@.judged(u, claimant.addr(), amount@, old(acct).limit())
                            == Err::<(), ChargeError>(e)
                        &&& final(acct)@ == old(acct)@
                    },
                }
            }),
    {
        proof {
            assert(acct@.actor_ok(self.addr));
        }
        let u = acct.actors.get(self.addr).user;
        acct.charge_user(u, claimant.addr, amount)
    }
}

impl Charge {
    /// Create an empty charge.
    ///
    /// Discharging it is a no-op.
    pub fn new() -> (r: Self)
        ensures
            r.trace() is None,
            r.amount() == Seq::new(N_SLOTS as nat, |s: int| 0 as Value),
    {
        let r = Charge { trace: None, amount: [0; N_SLOTS] };
        assert(r.amount@ =~= Seq::new(N_SLOTS as nat, |s: int| 0 as Value));
        r
    }

    /// Get the amount of resources of the charge.
    pub fn resources(&self) -> (r: &[Value; N_SLOTS])
        ensures
            r@ == self.amount(),
    {
        &self.amount
    }

    /// Check whether anything is charged.
    pub fn is_charged(&self) -> (r: bool)
        ensures
            r == (self.trace() is Some),
    {
        self.trace.is_some()
    }

    /// Discharge the claimed resources.
    ///
    /// On return, the charge is empty.
    pub fn discharge(&mut self, acct: &mut Acct)
        requires
            old(acct).wf(),
            old(self).valid(old(acct)@),
        ensures
            final(acct).wf(),
            final(acct).limit() == old(acct).limit(),
            keeps_handles(old(acct)@, final(acct)@),
            final(self).trace() is None,
            final(self).amount() == old(self).amount(),
            match old(self).trace() {
                Some(t) => exists|user: Claim, quota: Claim, trace: Claim| #[trigger]
                    discharged_from(
                        old(acct)@,
                        final(acct)@,
                        t,
                        old(self).amount(),
                        user,
                        quota,
                        trace,
                    ),
                None => final(acct)@ == old(acct)@,
            },
    {
        match self.trace.take() {
            Some(t) => acct.discharge_trace(t, &self.amount),
            None => (),
        }
    }
}

impl Acct {
    /// Acquire another reference to the accounting system.
    pub fn acquire(&mut self)
        requires
            old(self).wf(),
            old(self)@.held() > 0,
            old(self)@.countable(),
        ensures
            final(self).wf(),
            final(self).limit() == old(self).limit(),
            final(self)@ == (AcctView { refs: old(self)@.refs + 1, ..old(self)@ }),
    {
        let ghost v = self@;
        self.refs = self.refs + 1;
        proof {
            lemma_refs(v, self@);
        }
    }

    /// Release a reference to the accounting system.
    ///
    /// Returns `true` if this was the last reference. Note that users also own
    /// a reference to the accounting system.
    pub fn release(&mut self) -> (r: bool)
        requires
            old(self).wf(),
            old(self)@.held() > 0,
        ensures
            final(self).wf(),
            final(self).limit() == old(self).limit(),
            final(self)@ == (AcctView { refs: old(self)@.refs - 1, ..old(self)@ }),
            r == (final(self)@.refs == 0),
    {
        let ghost v = self@;
        self.refs = self.refs - 1;
        proof {
            lemma_refs(v, self@);
        }
        self.refs == 0
    }

    /// An intact accounting system has the properties of its model.
    pub proof fn lemma_wf(&self)
        requires
            self.wf(),
        ensures
            self@.wf(),
    {
    }
}

} // verus!
