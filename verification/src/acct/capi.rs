//! Accounting interface for callers that deal in error codes and in references
//! that are possibly null.

use crate::acct::claim::Claim;
use crate::acct::model::{keeps_handles, AcctView};
use crate::acct::{
    charged_on, discharged_from, Acct, Actor, Charge, ChargeError, Id, N_SLOTS, UserRef, Value,
};
use vstd::prelude::*;

verus! {

/// Memory could not be provided (`ENOMEM`).
pub const B1_ACCT_ERROR_OOM: i32 = -12;

/// An argument is not valid (`EINVAL`).
pub const B1_ACCT_ERROR_INVALID: i32 = -22;

/// The quota of a user is exceeded (`EDQUOT`).
pub const B1_ACCT_ERROR_USER_QUOTA: i32 = -122;

/// The quota of an actor is exceeded (`EXFULL`).
pub const B1_ACCT_ERROR_ACTOR_QUOTA: i32 = -54;

/// The error code of a refused charge.
pub open spec fn charge_errno(e: ChargeError) -> i32 {
    match e {
        ChargeError::Alloc(_) => B1_ACCT_ERROR_OOM,
        ChargeError::UserQuota => B1_ACCT_ERROR_USER_QUOTA,
        ChargeError::ActorQuota => B1_ACCT_ERROR_ACTOR_QUOTA,
    }
}

/// Create a new accounting system.
pub fn acct_new(maxima: &[Value; N_SLOTS]) -> (r: Acct)
    ensures
        r.wf(),
        r.limit() == usize::MAX,
        r@ == (AcctView {
            refs: 1,
            maxima: *maxima,
            users: Map::empty(),
            quotas: Map::empty(),
            traces: Map::empty(),
            actors: Map::empty(),
        }),
{
    Acct::new(maxima)
}

/// Create a new reference to an accounting system.
///
/// This increases the reference count of the accounting system by one. If
/// `None` is passed, this is a no-op.
pub fn acct_ref(this: Option<&mut Acct>)
    requires
        this matches Some(a) ==> {
            &&& a.wf()
            &&& a@.held() > 0
            &&& a@.countable()
        },
    ensures
        this matches Some(a) ==> {
            &&& final(a).wf()
            &&& final(a).limit() == a.limit()
            &&& final(a)@ == (AcctView { refs: a@.refs + 1, ..a@ })
        },
{
    match this {
        Some(a) => a.acquire(),
        None => (),
    }
}

/// Drop a reference to an accounting system.
///
/// This decreases the reference count of the accounting system by one. If
/// `None` is passed, this is a no-op. If this drops the last reference, nothing
/// is left in the accounting system, and `true` is returned.
///
/// Note that users, and thereby actors, also own a reference to the accounting
/// system.
pub fn acct_unref(this: Option<&mut Acct>) -> (r: bool)
    requires
        this matches Some(a) ==> {
            &&& a.wf()
            &&& a@.held() > 0
        },
    ensures
        this matches Some(a) ==> {
            &&& final(a).wf()
            &&& final(a).limit() == a.limit()
            &&& final(a)@ == (AcctView { refs: a@.refs - 1, ..a@ })
            &&& r == (final(a)@.refs == 0)
        },
        this is None ==> !r,
{
    match this {
        Some(a) => a.release(),
        None => false,
    }
}

/// Create a new actor for a given user.
///
/// This always creates a new actor, which will act on behalf of the given user.
///
/// This can return `ENOMEM` on failure.
pub fn actor_new(acct: &mut Acct, user: &UserRef) -> (r: Result<Actor, i32>)
    requires
        old(acct).wf(),
        user.valid(old(acct)@),
        old(acct)@.countable(),
    ensures
        final(acct).wf(),
        final(acct).limit() == old(acct).limit(),
        match r {
            Ok(a) => {
                &&& old(acct)@.actors.dom().len() < old(acct).limit()
                &&& !old(acct)@.actors.contains_key(a.addr())
                &&& final(acct)@ == old(acct)@.user_counted(user.addr(), 1).actor_added(
                    a.addr(),
                    user.addr(),
                )
                &&& a.valid(final(acct)@)
            },
            Err(e) => {
                &&& old(acct)@.actors.dom().len() >= old(acct).limit()
                &&& e == B1_ACCT_ERROR_OOM
                &&& final(acct)@ == old(acct)@
            },
        },
{
    let ghost v = acct@;
    let user_ref = user.acquire(acct);
    match Actor::with(acct, user_ref) {
        Ok(a) => Ok(a),
        Err(_) => {
            proof {
                old(acct).lemma_wf();
                assert(v.user_ok(user.addr()));
                assert(acct@ =~= v);
            }
            Err(B1_ACCT_ERROR_OOM)
        },
    }
}

/// Create a new reference to an actor.
///
/// This increases the reference count of the actor by one. If `None` is passed,
/// this is a no-op.
///
/// This always returns a reference to the same actor as was passed.
pub fn actor_ref(acct: &mut Acct, this: Option<&Actor>) -> (r: Option<Actor>)
    requires
        old(acct).wf(),
        old(acct)@.countable(),
        this matches Some(a) ==> a.valid(old(acct)@),
    ensures
        final(acct).wf(),
        final(acct).limit() == old(acct).limit(),
        match this {
            Some(a) => {
                &&& r is Some
                &&& r->0.addr() == a.addr()
                &&& r->0.valid(final(acct)@)
                &&& final(acct)@ == old(acct)@.actor_counted(a.addr(), 1)
            },
            None => r is None && final(acct)@ == old(acct)@,
        },
{
    match this {
        Some(a) => Some(a.acquire(acct)),
        None => None,
    }
}

/// Drop a reference to an actor.
///
/// This decreases the reference count of the actor by one. If `None` is passed,
/// this is a no-op. If this drops the last reference, the entire actor is
/// deallocated.
///
/// This always returns `None`.
pub fn actor_unref(acct: &mut Acct, this: Option<Actor>) -> (r: Option<Actor>)
    requires
        old(acct).wf(),
        this matches Some(a) ==> a.valid(old(acct)@),
    ensures
        final(acct).wf(),
        final(acct).limit() == old(acct).limit(),
        r is None,
        final(acct)@ == match this {
            Some(a) => old(acct)@.actor_dropped(a.addr()),
            None => old(acct)@,
        },
{
    match this {
        Some(a) => a.release(acct),
        None => (),
    }
    None
}

/// Charge an actor.
///
/// Charge the actor `this` for the resource amount given in `amount`. The
/// claimant actor is given as `claimant`. The charge is recorded in `charge`.
///
/// If `charge` is already used, this will return `EINVAL`. If the user quota is
/// exceeded, this will return `EDQUOT`. If the actor quota is exceeded, this
/// will return `EXFULL`.
pub fn actor_charge(
    acct: &mut Acct,
    this: &Actor,
    charge: &mut Charge,
    claimant: &Actor,
    amount: &[Value; N_SLOTS],
) -> (r: i32)
    requires
        old(acct).wf(),
        this.valid(old(acct)@),
        claimant.valid(old(acct)@),
        old(acct)@.countable(),
    ensures
        final(acct).wf(),
        final(acct).limit() == old(acct).limit(),
        keeps_handles(old(acct)@, final(acct)@),
        ({
            let u = old(acct)@.actors[this.addr()].user;
            let verdict = old(acct)@.judged(u, claimant.addr(), amount@, old(acct).limit());
            &&& r == if old(charge).trace() is Some {
                B1_ACCT_ERROR_INVALID
            } else if verdict is Err {
                charge_errno(verdict->Err_0)
            } else {
                0
            }
            &&& r == 0 ==> {
                &&& final(charge).amount() == amount@
                &&& final(charge).valid(final(acct)@)
                &&& charged_on(
                    old(acct)@,
                    final(acct)@,
                    u,
                    claimant.addr(),
                    *final(charge),
                )
            }
            &&& r != 0 ==> *final(charge) == *old(charge) && final(acct)@ == old(acct)@
        }),
{
    if charge.is_charged() {
        B1_ACCT_ERROR_INVALID
    } else {
        match this.charge(acct, claimant, amount) {
            Ok(v) => {
                *charge = v;
                0
            },
            Err(ChargeError::Alloc(_)) => B1_ACCT_ERROR_OOM,
            Err(ChargeError::UserQuota) => B1_ACCT_ERROR_USER_QUOTA,
            Err(ChargeError::ActorQuota) => B1_ACCT_ERROR_ACTOR_QUOTA,
        }
    }
}

/// Get a user object from an accounting system.
///
/// This either creates a new user object, or returns the existing user object
/// for the given ID in this accounting system.
///
/// This can return `ENOMEM` on failure.
pub fn acct_get_user(this: &mut Acct, id: Id) -> (r: Result<UserRef, i32>)
    requires
        old(this).wf(),
        old(this)@.held() > 0,
        old(this)@.countable(),
    ensures
        final(this).wf(),
        final(this).limit() == old(this).limit(),
        match r {
            Ok(u) => {
                &&& u.valid(final(this)@)
                &&& if old(this)@.users.contains_key(u.addr()) {
                    &&& old(this)@.users[u.addr()].id == id
                    &&& final(this)@ == old(this)@.user_counted(u.addr(), 1)
                } else {
                    &&& old(this)@.lacks_user(id)
                    &&& old(this)@.users.dom().len() < old(this).limit()
                    &&& final(this)@ == old(this)@.user_added(u.addr(), id)
                }
            },
            Err(e) => {
                &&& e == B1_ACCT_ERROR_OOM
                &&& old(this)@.lacks_user(id)
                &&& old(this)@.users.dom().len() >= old(this).limit()
                &&& final(this)@ == old(this)@
            },
        },
{
    match this.get_user(id) {
        Ok(u) => Ok(u),
        Err(_) => Err(B1_ACCT_ERROR_OOM),
    }
}

/// Create a new reference to a user.
///
/// This increases the reference count of the user by one. If `None` is passed,
/// this is a no-op.
///
/// This always returns a reference to the same user as was passed.
pub fn user_ref(acct: &mut Acct, this: Option<&UserRef>) -> (r: Option<UserRef>)
    requires
        old(acct).wf(),
        old(acct)@.countable(),
        this matches Some(u) ==> u.valid(old(acct)@),
    ensures
        final(acct).wf(),
        final(acct).limit() == old(acct).limit(),
        match this {
            Some(u) => {
                &&& r is Some
                &&& r->0.addr() == u.addr()
                &&& r->0.valid(final(acct)@)
                &&& final(acct)@ == old(acct)@.user_counted(u.addr(), 1)
            },
            None => r is None && final(acct)@ == old(acct)@,
        },
{
    match this {
        Some(u) => Some(u.acquire(acct)),
        None => None,
    }
}

/// Drop a reference to a user.
///
/// This decreases the reference count of the user by one. If `None` is passed,
/// this is a no-op. If this drops the last reference, the entire user is
/// deallocated.
///
/// This always returns `None`.
pub fn user_unref(acct: &mut Acct, this: Option<UserRef>) -> (r: Option<UserRef>)
    requires
        old(acct).wf(),
        this matches Some(u) ==> u.valid(old(acct)@),
    ensures
        final(acct).wf(),
        final(acct).limit() == old(acct).limit(),
        r is None,
        final(acct)@ == match this {
            Some(u) => old(acct)@.user_dropped(u.addr()),
            None => old(acct)@,
        },
{
    match this {
        Some(u) => u.release(acct),
        None => (),
    }
    None
}

/// Initialize a charge object.
///
/// Any previous value is leaked and replaced.
///
/// On return, the charge object will be cleared and contain no charge. Any
/// discharge operation will thus be a no-op, unless the object is charged in
/// between.
pub fn charge_init(this: &mut Charge)
    ensures
        final(this).trace() is None,
        final(this).amount() == Seq::new(N_SLOTS as nat, |s: int| 0 as Value),
{
    *this = Charge::new();
}

/// Deinitialize a charge object.
///
/// Any charges are discharged and the object is put into a freshly initialized
/// state, ready to be re-used or dropped.
pub fn charge_deinit(acct: &mut Acct, this: &mut Charge)
    requires
        old(acct).wf(),
        old(this).valid(old(acct)@),
    ensures
        final(acct).wf(),
        final(acct).limit() == old(acct).limit(),
        keeps_handles(old(acct)@, final(acct)@),
        final(this).trace() is None,
        final(this).amount() == Seq::new(N_SLOTS as nat, |s: int| 0 as Value),
        match old(this).trace() {
            Some(t) => exists|user: Claim, quota: Claim, trace: Claim| #[trigger]
                discharged_from(
                    old(acct)@,
                    final(acct)@,
                    t,
                    old(this).amount(),
                    user,
                    quota,
                    trace,
                ),
            None => final(acct)@ == old(acct)@,
        },
{
    this.discharge(acct);
    charge_init(this);
}

} // verus!
