use bus1::acct::capi::{
    acct_get_user, acct_new, acct_ref, acct_unref, actor_charge, actor_new, actor_ref, actor_unref,
    charge_deinit, charge_init, user_ref, user_unref, B1_ACCT_ERROR_ACTOR_QUOTA,
    B1_ACCT_ERROR_INVALID, B1_ACCT_ERROR_OOM, B1_ACCT_ERROR_USER_QUOTA,
};
use bus1::acct::{Acct, Actor, Charge, ChargeError, N_SLOTS};
use bus1::util::arena::AllocError;

#[test]
fn basic() {
    let mut acct = Acct::new(&[1024; N_SLOTS]);
    let u0 = acct.get_user(0).unwrap();
    let u1 = acct.get_user(1).unwrap();
    let u2 = acct.get_user(2).unwrap();
    let r = u0.acquire(&mut acct);
    let u0a0 = Actor::with(&mut acct, r).unwrap();
    let r = u0.acquire(&mut acct);
    let u0a1 = Actor::with(&mut acct, r).unwrap();
    let r = u1.acquire(&mut acct);
    let u1a0 = Actor::with(&mut acct, r).unwrap();
    let r = u1.acquire(&mut acct);
    let u1a1 = Actor::with(&mut acct, r).unwrap();
    let r = u2.acquire(&mut acct);
    let u2a0 = Actor::with(&mut acct, r).unwrap();
    let r = u2.acquire(&mut acct);
    let u2a1 = Actor::with(&mut acct, r).unwrap();

    // Perform a self-charge and verify that half of the resources is the
    // maximum that can be requested. Also verify that this grants full
    // access to all user resources (i.e., requests of other users always
    // fail).
    // Then verify that releasing a chunk allows reclaiming the resources.
    {
        let mut c0 = u0a0.charge(&mut acct, &u0a0, &[256; N_SLOTS]).unwrap();
        let mut c1 = u0a0.charge(&mut acct, &u0a0, &[256; N_SLOTS]).unwrap();
        assert!(u0a0.charge(&mut acct, &u0a0, &[1; N_SLOTS]).is_err());
        assert!(u0a0.charge(&mut acct, &u1a0, &[1; N_SLOTS]).is_err());

        c1.discharge(&mut acct);
        let mut c2 = u0a0.charge(&mut acct, &u0a0, &[256; N_SLOTS]).unwrap();

        c2.discharge(&mut acct);
        c0.discharge(&mut acct);
    }

    // Perform a self-charge with two actors, and verify the first gets
    // half, and the second gets half of that. Also ensure foreign actors
    // cannot claim anything, since this series requires the full resource
    // set of the user.
    {
        let mut c0 = u0a0.charge(&mut acct, &u0a0, &[512; N_SLOTS]).unwrap();
        assert!(u0a0.charge(&mut acct, &u0a0, &[1; N_SLOTS]).is_err());
        assert!(u0a0.charge(&mut acct, &u1a0, &[1; N_SLOTS]).is_err());

        let mut c1 = u0a0.charge(&mut acct, &u0a1, &[256; N_SLOTS]).unwrap();
        assert!(u0a0.charge(&mut acct, &u0a0, &[1; N_SLOTS]).is_err());
        assert!(u0a0.charge(&mut acct, &u0a1, &[1; N_SLOTS]).is_err());

        c1.discharge(&mut acct);
        c0.discharge(&mut acct);
    }

    // Perform a foreign-charge with two actors of the same UID, and verify
    // that they share the foreign charge (i.e., the second charge is half
    // of the first charge, if both charge to their limit).
    // Then perform a foreign-charge of another two actors of yet another
    // UID. Again, charge to their limit (which must be non-zero, since the
    // quota separates them from the previous charges) and verify it is
    // the expected limit.
    {
        let mut c0 = u0a0.charge(&mut acct, &u1a0, &[128; N_SLOTS]).unwrap();
        assert!(u0a0.charge(&mut acct, &u1a0, &[1; N_SLOTS]).is_err());
        let mut c1 = u0a0.charge(&mut acct, &u1a1, &[64; N_SLOTS]).unwrap();
        assert!(u0a0.charge(&mut acct, &u1a0, &[1; N_SLOTS]).is_err());
        let mut c2 = u0a0.charge(&mut acct, &u2a0, &[42; N_SLOTS]).unwrap();
        assert!(u0a0.charge(&mut acct, &u2a0, &[1; N_SLOTS]).is_err());
        let mut c3 = u0a0.charge(&mut acct, &u2a1, &[21; N_SLOTS]).unwrap();
        assert!(u0a0.charge(&mut acct, &u2a1, &[1; N_SLOTS]).is_err());

        c3.discharge(&mut acct);
        c2.discharge(&mut acct);
        c1.discharge(&mut acct);
        c0.discharge(&mut acct);
    }

    for a in [u0a0, u0a1, u1a0, u1a1, u2a0, u2a1] {
        a.release(&mut acct);
    }
    for u in [u0, u1, u2] {
        u.release(&mut acct);
    }
    // Nothing refers to the accounting system, anymore.
    assert!(acct.release());
}

#[test]
fn users_are_shared_by_id() {
    let mut acct = Acct::new(&[1024; N_SLOTS]);
    let u0 = acct.get_user(5).unwrap();
    let u1 = acct.get_user(5).unwrap();
    assert_eq!(charge_all(&mut acct, &u0, &u1), (Ok(()), Err(ChargeError::UserQuota)));
    u0.release(&mut acct);
    u1.release(&mut acct);
}

// Charge one half of the resources of a user via one reference, and then a
// single resource via the other one, on behalf of the same actor.
fn charge_all(
    acct: &mut Acct,
    u0: &bus1::acct::UserRef,
    u1: &bus1::acct::UserRef,
) -> (Result<(), ChargeError>, Result<(), ChargeError>) {
    let r = u0.acquire(acct);
    let actor = Actor::with(acct, r).unwrap();
    let mut c0 = match u0.charge(acct, &actor, &[512; N_SLOTS]) {
        Ok(c) => c,
        Err(e) => panic!("{:?}", e),
    };
    let second = match u1.charge(acct, &actor, &[1; N_SLOTS]) {
        Ok(_) => Ok(()),
        Err(e) => Err(e),
    };
    c0.discharge(acct);
    actor.release(acct);
    (Ok(()), second)
}

#[test]
fn quotas_are_told_apart() {
    let mut acct = Acct::new(&[1024; N_SLOTS]);
    let u0 = acct.get_user(0).unwrap();
    let u1 = acct.get_user(1).unwrap();
    let r = u0.acquire(&mut acct);
    let a0 = Actor::with(&mut acct, r).unwrap();
    let r = u1.acquire(&mut acct);
    let a1 = Actor::with(&mut acct, r).unwrap();

    // A foreign actor is limited by the quota of the user.
    assert_eq!(
        a0.charge(&mut acct, &a1, &[1024; N_SLOTS]).err(),
        Some(ChargeError::UserQuota),
    );
    // Of the remaining resources, an actor never gets more than one half.
    assert_eq!(
        a0.charge(&mut acct, &a0, &[513; N_SLOTS]).err(),
        Some(ChargeError::UserQuota),
    );
    // Requests that are out of range exceed the quota of the actor already.
    assert_eq!(
        a0.charge(&mut acct, &a0, &[u64::MAX; N_SLOTS]).err(),
        Some(ChargeError::ActorQuota),
    );
    // A refused charge leaves everything as it was.
    let mut c = a0.charge(&mut acct, &a0, &[512; N_SLOTS]).unwrap();
    assert!(c.is_charged());
    c.discharge(&mut acct);
    assert!(!c.is_charged());
    // A charge of nothing is always possible.
    let mut c = a0.charge(&mut acct, &a1, &[0; N_SLOTS]).unwrap();
    c.discharge(&mut acct);
}

#[test]
fn discharge_undoes_charge() {
    let mut acct = Acct::new(&[100; N_SLOTS]);
    assert!(acct.is_countable());
    let u0 = acct.get_user(0).unwrap();
    let r = u0.acquire(&mut acct);
    let a0 = Actor::with(&mut acct, r).unwrap();
    for _ in 0..1000 {
        let mut c = a0.charge(&mut acct, &a0, &[50; N_SLOTS]).unwrap();
        c.discharge(&mut acct);
        // Discharging again is a no-op.
        c.discharge(&mut acct);
    }
}

#[test]
fn memory_is_limited() {
    let mut acct = Acct::with_limit(&[1024; N_SLOTS], 1);
    let u0 = acct.get_user(0).unwrap();
    assert!(matches!(acct.get_user(1), Err(AllocError)));
    // An existing user can always be looked up.
    let again = acct.get_user(0).unwrap();
    let a0 = Actor::with(&mut acct, again).unwrap();
    let second = u0.acquire(&mut acct);
    assert!(matches!(Actor::with(&mut acct, second), Err(AllocError)));

    // A released user makes room for another one.
    a0.release(&mut acct);
    u0.release(&mut acct);
    let u1 = acct.get_user(1).unwrap();
    u1.release(&mut acct);
    assert!(acct.release());
}

#[test]
fn charge_runs_out_of_memory() {
    // Not only users and actors, but also quotas and traces are limited.
    let mut acct = Acct::with_limit(&[1024; N_SLOTS], 2);
    let u0 = acct.get_user(0).unwrap();
    let u1 = acct.get_user(1).unwrap();
    let r = u0.acquire(&mut acct);
    let a0 = Actor::with(&mut acct, r).unwrap();
    let r = u1.acquire(&mut acct);
    let a1 = Actor::with(&mut acct, r).unwrap();

    let mut c0 = u0.charge(&mut acct, &a0, &[1; N_SLOTS]).unwrap();
    let mut c1 = u0.charge(&mut acct, &a1, &[1; N_SLOTS]).unwrap();
    assert_eq!(
        u1.charge(&mut acct, &a0, &[1; N_SLOTS]).err(),
        Some(ChargeError::Alloc(AllocError)),
    );
    c1.discharge(&mut acct);
    let mut c2 = u1.charge(&mut acct, &a0, &[1; N_SLOTS]).unwrap();
    c2.discharge(&mut acct);
    c0.discharge(&mut acct);
}

#[test]
fn error_codes() {
    let mut acct = acct_new(&[1024; N_SLOTS]);
    acct_ref(Some(&mut acct));
    acct_ref(None);
    assert!(!acct_unref(Some(&mut acct)));
    assert!(!acct_unref(None));

    let u0 = acct_get_user(&mut acct, 0).ok().unwrap();
    let u1 = acct_get_user(&mut acct, 1).ok().unwrap();
    let a0 = actor_new(&mut acct, &u0).ok().unwrap();
    let a1 = actor_new(&mut acct, &u1).ok().unwrap();
    let again = actor_ref(&mut acct, Some(&a0));
    assert!(again.is_some());
    assert!(actor_ref(&mut acct, None).is_none());
    assert!(actor_unref(&mut acct, again).is_none());
    let again = user_ref(&mut acct, Some(&u0));
    assert!(user_unref(&mut acct, again).is_none());
    assert!(user_unref(&mut acct, None).is_none());

    let mut charge = Charge::new();
    charge_init(&mut charge);
    let quota = actor_charge(&mut acct, &a0, &mut charge, &a1, &[1024; N_SLOTS]);
    assert_eq!(quota, B1_ACCT_ERROR_USER_QUOTA);
    assert_eq!(quota, -122);
    let quota = actor_charge(&mut acct, &a0, &mut charge, &a0, &[u64::MAX; N_SLOTS]);
    assert_eq!(quota, B1_ACCT_ERROR_ACTOR_QUOTA);
    assert_eq!(quota, -54);
    assert_eq!(actor_charge(&mut acct, &a0, &mut charge, &a0, &[512; N_SLOTS]), 0);
    let used = actor_charge(&mut acct, &a0, &mut charge, &a0, &[0; N_SLOTS]);
    assert_eq!(used, B1_ACCT_ERROR_INVALID);
    assert_eq!(used, -22);
    charge_deinit(&mut acct, &mut charge);
    assert!(!charge.is_charged());

    let mut tiny = Acct::with_limit(&[1; N_SLOTS], 0);
    assert_eq!(acct_get_user(&mut tiny, 0).err(), Some(B1_ACCT_ERROR_OOM));
    assert_eq!(B1_ACCT_ERROR_OOM, -12);
}

#[test]
fn deinitialized_charge_is_fresh() {
    let mut acct = acct_new(&[1024; N_SLOTS]);
    let u0 = acct_get_user(&mut acct, 0).ok().unwrap();
    let a0 = actor_new(&mut acct, &u0).ok().unwrap();

    let mut charge = Charge::new();
    charge_init(&mut charge);
    assert_eq!(actor_charge(&mut acct, &a0, &mut charge, &a0, &[1; N_SLOTS]), 0);
    assert!(charge.is_charged());
    assert_eq!(charge.resources(), &[1; N_SLOTS]);

    // The object is as good as a new one.
    charge_deinit(&mut acct, &mut charge);
    assert!(!charge.is_charged());
    assert_eq!(charge.resources(), &[0; N_SLOTS]);
    assert_eq!(actor_charge(&mut acct, &a0, &mut charge, &a0, &[512; N_SLOTS]), 0);
    charge_deinit(&mut acct, &mut charge);
    charge_deinit(&mut acct, &mut charge);
    assert_eq!(charge.resources(), &[0; N_SLOTS]);
}
