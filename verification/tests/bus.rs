use bus1::acct::{Acct, Actor, N_SLOTS};
use bus1::bus::capi::{
    handle_begin, handle_end, handle_get_userdata, handle_ref, handle_set_userdata, handle_unref,
    message_shared_new, message_shared_ref, message_shared_unref, node_begin, node_end,
    node_get_userdata, node_ref, node_set_userdata, node_unref, op_commit, op_free, op_new,
    op_release_handle, op_release_node, op_send_message, peer_begin, peer_end, peer_new,
    peer_new_handle, peer_new_node, peer_peek, peer_pop, peer_readable, peer_ref, peer_unref,
    ENOMEM, ENOTRECOVERABLE,
};
use bus1::bus::txnode::TxNodeRef;
use bus1::bus::{Bus, Handle, MessageError, MessageShared, Op, Peek, Peer};
use bus1::util::arena::AllocError;

struct Setup {
    acct: Acct,
    bus: Bus,
}

impl Setup {
    fn new() -> Self {
        Setup::with_limit(usize::MAX)
    }

    fn with_limit(limit: usize) -> Self {
        Setup { acct: Acct::new(&[1024; N_SLOTS]), bus: Bus::with_limit(limit) }
    }

    fn actor(&mut self) -> Actor {
        let user = self.acct.get_user(0).unwrap();
        Actor::with(&mut self.acct, user).unwrap()
    }

    fn peer(&mut self) -> usize {
        let actor = self.actor();
        let p = peer_new(&mut self.bus, actor).ok().unwrap();
        peer_begin(&self.bus, p);
        p
    }

    // Create a node of `owner`, and a handle of `other` to it.
    fn node(&mut self, owner: usize, other: usize) -> (usize, usize) {
        let (n, h) = peer_new_node(&mut self.bus, owner, other).unwrap();
        node_begin(&self.bus, n);
        handle_begin(&mut self.bus, h);
        (n, h)
    }

    fn shared(&mut self, data: &[u8]) -> usize {
        message_shared_new(&mut self.bus, data.to_vec()).unwrap()
    }

    // Send a message, and commit it.
    fn send(&mut self, from: usize, to: usize, data: &[u8]) -> Vec<usize> {
        let op = op_new(&mut self.bus, from).unwrap();
        let shared = self.shared(data);
        assert_eq!(op_send_message(&mut self.bus, op, to, &Vec::new(), shared), 0);
        let actors = message_shared_unref(&mut self.bus, Some(shared));
        assert!(actors.is_empty());
        self.commit(op)
    }

    fn commit(&mut self, op: usize) -> Vec<usize> {
        let outcome = op_commit(&mut self.bus, op);
        self.release(outcome.actors);
        outcome.wakes
    }

    fn release(&mut self, actors: Vec<Actor>) {
        for a in actors {
            a.release(&mut self.acct);
        }
    }

    // Receive a message, and return the node it was sent to and its data.
    fn receive(&mut self, p: usize) -> Option<(usize, Vec<u8>)> {
        let r = match peer_peek(&mut self.bus, p) {
            Some(Peek::User { node, data, .. }) => Some((node, data.clone())),
            _ => None,
        };
        let actors = peer_pop(&mut self.bus, p);
        self.release(actors);
        r
    }
}

#[test]
fn messages_are_received_in_order() {
    let mut s = Setup::new();
    let p0 = s.peer();
    let p1 = s.peer();
    let (n, h) = s.node(p1, p0);

    assert!(!peer_readable(&s.bus, p1));
    assert!(peer_peek(&mut s.bus, p1).is_none());

    assert_eq!(s.send(p0, h, b"a"), vec![p1]);
    assert_eq!(s.send(p0, h, b"b"), vec![p1]);
    assert!(peer_readable(&s.bus, p1));
    assert!(!peer_readable(&s.bus, p0));

    assert_eq!(s.receive(p1), Some((n, b"a".to_vec())));
    // What arrives in between does not overtake.
    assert_eq!(s.send(p0, h, b"c"), vec![p1]);
    assert_eq!(s.receive(p1), Some((n, b"b".to_vec())));
    assert_eq!(s.receive(p1), Some((n, b"c".to_vec())));
    assert_eq!(s.receive(p1), None);
}

#[test]
fn peek_is_stable() {
    let mut s = Setup::new();
    let p0 = s.peer();
    let p1 = s.peer();
    let (_, h) = s.node(p1, p0);
    s.send(p0, h, b"a");
    s.send(p0, h, b"b");
    for _ in 0..3 {
        match peer_peek(&mut s.bus, p1) {
            Some(Peek::User { data, .. }) => assert_eq!(data, b"a"),
            _ => panic!("no message"),
        }
    }
}

#[test]
fn operations_are_atomic() {
    let mut s = Setup::new();
    let p0 = s.peer();
    let p1 = s.peer();
    let p2 = s.peer();
    let (n1, h1) = s.node(p1, p0);
    let (n2, h2) = s.node(p2, p0);

    let op = op_new(&mut s.bus, p0).unwrap();
    let shared = s.shared(b"x");
    assert_eq!(op_send_message(&mut s.bus, op, h1, &Vec::new(), shared), 0);
    assert_eq!(op_send_message(&mut s.bus, op, h2, &Vec::new(), shared), 0);
    assert_eq!(op_send_message(&mut s.bus, op, h1, &Vec::new(), shared), 0);

    // Nothing is visible before the commit.
    assert!(!peer_readable(&s.bus, p1));
    assert!(peer_peek(&mut s.bus, p1).is_none());
    assert!(peer_peek(&mut s.bus, p2).is_none());

    let mut wakes = s.commit(op);
    wakes.sort();
    let mut expected = vec![p1, p1, p2];
    expected.sort();
    assert_eq!(wakes, expected);
    assert_eq!(s.receive(p1), Some((n1, b"x".to_vec())));
    assert_eq!(s.receive(p1), Some((n1, b"x".to_vec())));
    assert_eq!(s.receive(p1), None);
    assert_eq!(s.receive(p2), Some((n2, b"x".to_vec())));
    assert_eq!(s.receive(p2), None);
}

#[test]
fn operations_keep_messages_in_order() {
    let mut s = Setup::new();
    let p0 = s.peer();
    let p1 = s.peer();
    let p2 = s.peer();
    let (n1, h1) = s.node(p1, p0);
    let (n2, h2) = s.node(p2, p0);

    let op = op_new(&mut s.bus, p0).unwrap();
    for (h, data) in [(h2, b"1"), (h1, b"2"), (h2, b"3"), (h1, b"4")] {
        let shared = s.shared(data);
        assert_eq!(op_send_message(&mut s.bus, op, h, &Vec::new(), shared), 0);
    }
    s.commit(op);
    assert_eq!(s.receive(p1), Some((n1, b"2".to_vec())));
    assert_eq!(s.receive(p1), Some((n1, b"4".to_vec())));
    assert_eq!(s.receive(p2), Some((n2, b"1".to_vec())));
    assert_eq!(s.receive(p2), Some((n2, b"3".to_vec())));
}

#[test]
fn dropped_operations_have_no_effect() {
    let mut s = Setup::new();
    let p0 = s.peer();
    let p1 = s.peer();
    let (n, h) = s.node(p1, p0);
    let op = op_new(&mut s.bus, p1).unwrap();
    op_release_node(&mut s.bus, op, n);
    let actors = op_free(&mut s.bus, Some(op));
    assert!(actors.is_empty());
    assert!(op_free(&mut s.bus, None).is_empty());
    assert!(!peer_readable(&s.bus, p0));

    // The node can be released by another operation.
    let op = op_new(&mut s.bus, p1).unwrap();
    op_release_node(&mut s.bus, op, n);
    assert_eq!(s.commit(op), vec![p0]);
    match peer_peek(&mut s.bus, p0) {
        Some(Peek::NodeRelease { handle }) => assert_eq!(handle, h),
        _ => panic!("no notification"),
    }
}

#[test]
fn release_of_a_node_notifies_handle_owners() {
    let mut s = Setup::new();
    let p0 = s.peer();
    let p1 = s.peer();
    let p2 = s.peer();
    let (n, h0) = s.node(p2, p0);
    let h1 = peer_new_handle(&mut s.bus, p1, h0).unwrap();
    handle_begin(&mut s.bus, h1);
    handle_begin(&mut s.bus, h1);
    // A handle that is not linked is not notified.
    let _ = peer_new_handle(&mut s.bus, p1, h0).unwrap();

    // Only the owner can release a node.
    let op = op_new(&mut s.bus, p0).unwrap();
    op_release_node(&mut s.bus, op, n);
    assert_eq!(s.commit(op), Vec::<usize>::new());

    let op = op_new(&mut s.bus, p2).unwrap();
    op_release_node(&mut s.bus, op, n);
    op_release_node(&mut s.bus, op, n);
    let mut wakes = s.commit(op);
    wakes.sort();
    let mut expected = vec![p0, p1];
    expected.sort();
    assert_eq!(wakes, expected);
    match peer_peek(&mut s.bus, p0) {
        Some(Peek::NodeRelease { handle }) => assert_eq!(handle, h0),
        _ => panic!("no notification"),
    }
    match peer_peek(&mut s.bus, p1) {
        Some(Peek::NodeRelease { handle }) => assert_eq!(handle, h1),
        _ => panic!("no notification"),
    }
    // The handles are no longer linked.
    assert!(handle_end(&s.bus, h0));
    assert!(handle_end(&s.bus, h1));
    node_end(&s.bus, n);
}

#[test]
fn release_of_a_handle_notifies_the_node_owner() {
    let mut s = Setup::new();
    let p0 = s.peer();
    let p1 = s.peer();
    let (n, h) = s.node(p1, p0);
    assert!(!handle_end(&s.bus, h));

    // Only the owner can release a handle.
    let op = op_new(&mut s.bus, p1).unwrap();
    op_release_handle(&mut s.bus, op, h);
    assert_eq!(s.commit(op), Vec::<usize>::new());
    assert!(!handle_end(&s.bus, h));

    let op = op_new(&mut s.bus, p0).unwrap();
    op_release_handle(&mut s.bus, op, h);
    op_release_handle(&mut s.bus, op, h);
    assert_eq!(s.commit(op), vec![p1]);
    assert!(handle_end(&s.bus, h));
    match peer_peek(&mut s.bus, p1) {
        Some(Peek::HandleRelease { node }) => assert_eq!(node, n),
        _ => panic!("no notification"),
    }

    // A notification that is still pending is not queued again.
    let op = op_new(&mut s.bus, p0).unwrap();
    op_release_handle(&mut s.bus, op, h);
    assert_eq!(s.commit(op), Vec::<usize>::new());
}

#[test]
fn messages_transfer_handles() {
    let mut s = Setup::new();
    let p0 = s.peer();
    let p1 = s.peer();
    let p2 = s.peer();
    let (_, h1) = s.node(p1, p0);
    let (n2, h2) = s.node(p2, p0);

    let op = op_new(&mut s.bus, p0).unwrap();
    let shared = s.shared(b"");
    assert_eq!(op_send_message(&mut s.bus, op, h1, &vec![h2, h2], shared), 0);
    s.commit(op);
    let transfers = match peer_peek(&mut s.bus, p1) {
        Some(Peek::User { transfers, .. }) => transfers.clone(),
        _ => panic!("no message"),
    };
    assert_eq!(transfers.len(), 2);
    assert_ne!(transfers[0], transfers[1]);
    for t in &transfers {
        // The handles are new ones, are owned by the receiver, and are linked.
        assert_ne!(*t, h2);
        assert!(Peer::owns_handle(&s.bus, p1, *t));
        assert!(!handle_end(&s.bus, *t));
    }

    // They are valid for as long as the receiver keeps them.
    handle_ref(&mut s.bus, Some(transfers[0]));
    let actors = peer_pop(&mut s.bus, p1);
    assert!(actors.is_empty());
    assert_eq!(s.send(p1, transfers[0], b"hello"), vec![p2]);
    assert_eq!(s.receive(p2), Some((n2, b"hello".to_vec())));
}

#[test]
fn foreign_handles_are_refused() {
    let mut s = Setup::new();
    let p0 = s.peer();
    let p1 = s.peer();
    let (_, h0) = s.node(p1, p0);
    let (_, h1) = s.node(p0, p1);
    let op = op_new(&mut s.bus, p0).unwrap();
    let shared = s.shared(b"x");

    assert_eq!(
        op_send_message(&mut s.bus, op, h1, &Vec::new(), shared),
        ENOTRECOVERABLE,
    );
    assert_eq!(
        op_send_message(&mut s.bus, op, h0, &vec![h0, h1], shared),
        ENOTRECOVERABLE,
    );
    assert_eq!(ENOTRECOVERABLE, -131);
    assert_eq!(
        Op::send_message(&mut s.bus, op, h1, Vec::new(), shared),
        Err(MessageError::HandleForeign),
    );
    assert_eq!(s.commit(op), Vec::<usize>::new());
}

#[test]
fn memory_of_a_bus_is_limited() {
    let mut s = Setup::with_limit(2);
    let p0 = s.peer();
    let p1 = s.peer();
    let actor = s.actor();
    match peer_new(&mut s.bus, actor) {
        Ok(_) => panic!("unexpected peer"),
        Err((e, actor)) => {
            assert_eq!(e, ENOMEM);
            actor.release(&mut s.acct);
        },
    }
    assert_eq!(ENOMEM, -12);
    let (_, h) = s.node(p1, p0);
    let g = peer_new_handle(&mut s.bus, p0, h).unwrap();
    assert_eq!(peer_new_handle(&mut s.bus, p0, h), Err(ENOMEM));
    assert_eq!(peer_new_node(&mut s.bus, p0, p1), Err(ENOMEM));
    // Both peers have a transaction for their shutdown.
    assert_eq!(op_new(&mut s.bus, p0), Err(ENOMEM));
    let a = s.shared(b"a");
    assert_eq!(s.bus.shared_users(a), 1);
    let _ = s.shared(b"b");
    assert_eq!(message_shared_new(&mut s.bus, Vec::new()), Err(ENOMEM));

    // Released memory is available again.
    assert!(message_shared_unref(&mut s.bus, Some(a)).is_empty());
    let _ = s.shared(b"c");
    assert!(handle_unref(&mut s.bus, Some(g)).is_empty());
    assert!(peer_new_handle(&mut s.bus, p0, h).is_ok());
}

#[test]
fn memory_of_messages_is_limited() {
    let mut s = Setup::with_limit(4);
    let p0 = s.peer();
    let p1 = s.peer();
    let (_, h) = s.node(p1, p0);
    let op = op_new(&mut s.bus, p0).unwrap();
    let shared = s.shared(b"x");
    // There is space for three more handles.
    assert_eq!(op_send_message(&mut s.bus, op, h, &vec![h, h, h, h], shared), ENOMEM);
    assert_eq!(op_send_message(&mut s.bus, op, h, &vec![h, h, h], shared), 0);
    for _ in 0..3 {
        assert_eq!(op_send_message(&mut s.bus, op, h, &Vec::new(), shared), 0);
    }
    assert_eq!(op_send_message(&mut s.bus, op, h, &Vec::new(), shared), ENOMEM);
    assert_eq!(
        Op::send_message(&mut s.bus, op, h, Vec::new(), shared),
        Err(MessageError::from(AllocError)),
    );
    // Messages are deallocated once they are received.
    assert_eq!(s.commit(op).len(), 4);
    for _ in 0..4 {
        assert!(s.receive(p1).is_some());
    }
    for _ in 0..100 {
        assert_eq!(s.send(p0, h, b"y"), vec![p1]);
        assert!(s.receive(p1).is_some());
    }
}

#[test]
fn shutdown_discards_messages() {
    let mut s = Setup::new();
    let p0 = s.peer();
    let p1 = s.peer();
    let (_, h) = s.node(p1, p0);
    let (n0, g) = s.node(p0, p0);

    let op = op_new(&mut s.bus, p0).unwrap();
    let shared = s.shared(b"x");
    assert_eq!(op_send_message(&mut s.bus, op, h, &vec![g], shared), 0);
    s.commit(op);

    // The handle that was transferred is released on behalf of the peer.
    let outcome = peer_end(&mut s.bus, p1);
    assert_eq!(outcome.wakes, vec![p0]);
    assert!(outcome.actors.is_empty());
    match peer_peek(&mut s.bus, p0) {
        Some(Peek::HandleRelease { node }) => assert_eq!(node, n0),
        _ => panic!("no notification"),
    }
    assert!(peer_peek(&mut s.bus, p1).is_none());

    // Nothing arrives, anymore.
    assert_eq!(s.send(p0, h, b"y"), Vec::<usize>::new());
    assert!(peer_peek(&mut s.bus, p1).is_none());

    // Another shutdown is a no-op.
    assert!(peer_end(&mut s.bus, p1).wakes.is_empty());
}

#[test]
fn shutdown_discards_what_was_looked_at() {
    let mut s = Setup::new();
    let p0 = s.peer();
    let p1 = s.peer();
    let (_, h) = s.node(p1, p0);
    let (n0, g) = s.node(p0, p0);

    // One message is ready, another one is still queued.
    let op = op_new(&mut s.bus, p0).unwrap();
    let shared = s.shared(b"a");
    assert_eq!(op_send_message(&mut s.bus, op, h, &vec![g], shared), 0);
    s.commit(op);
    let transfers = match peer_peek(&mut s.bus, p1) {
        Some(Peek::User { transfers, .. }) => transfers.clone(),
        _ => panic!("no message"),
    };
    assert_eq!(transfers.len(), 1);
    assert!(!handle_end(&s.bus, transfers[0]));
    s.send(p0, h, b"b");

    // Both are gone, and the handle is released.
    let outcome = peer_end(&mut s.bus, p1);
    assert_eq!(outcome.wakes, vec![p0]);
    assert!(outcome.actors.is_empty());
    assert!(peer_peek(&mut s.bus, p1).is_none());
    match peer_peek(&mut s.bus, p0) {
        Some(Peek::HandleRelease { node }) => assert_eq!(node, n0),
        _ => panic!("no notification"),
    }
    assert!(peer_pop(&mut s.bus, p0).is_empty());
    assert!(peer_peek(&mut s.bus, p0).is_none());
    assert!(peer_pop(&mut s.bus, p1).is_empty());
    assert!(peer_peek(&mut s.bus, p1).is_none());
}

#[test]
fn discarded_messages_link_no_handles() {
    let mut s = Setup::new();
    let p0 = s.peer();
    let p1 = s.peer();
    let (_, h) = s.node(p1, p0);
    let (n, g) = s.node(p0, p0);

    // The peer is shut down after the message was sent, but before the commit.
    let op = op_new(&mut s.bus, p0).unwrap();
    let shared = s.shared(b"x");
    assert_eq!(op_send_message(&mut s.bus, op, h, &vec![g], shared), 0);
    assert!(peer_end(&mut s.bus, p1).wakes.is_empty());
    assert_eq!(s.commit(op), Vec::<usize>::new());
    assert!(!peer_readable(&s.bus, p1));
    assert!(peer_peek(&mut s.bus, p1).is_none());

    // Only the handle of the sender is linked.
    let op = op_new(&mut s.bus, p0).unwrap();
    op_release_node(&mut s.bus, op, n);
    assert_eq!(s.commit(op), vec![p0]);
}

#[test]
fn operations_are_received_by_kind() {
    let mut s = Setup::new();
    let p0 = s.peer();
    let p1 = s.peer();
    let (n1, h1) = s.node(p1, p0);
    let (n0, h0) = s.node(p0, p1);

    let op = op_new(&mut s.bus, p0).unwrap();
    op_release_handle(&mut s.bus, op, h1);
    op_release_node(&mut s.bus, op, n0);
    for data in [b"a", b"b", b"c"] {
        let shared = s.shared(data);
        assert_eq!(op_send_message(&mut s.bus, op, h1, &Vec::new(), shared), 0);
    }
    assert!(peer_peek(&mut s.bus, p1).is_none());
    assert_eq!(s.commit(op), vec![p1; 5]);

    assert_eq!(s.receive(p1), Some((n1, b"a".to_vec())));
    assert_eq!(s.receive(p1), Some((n1, b"b".to_vec())));
    assert_eq!(s.receive(p1), Some((n1, b"c".to_vec())));
    assert!(matches!(
        peer_peek(&mut s.bus, p1),
        Some(Peek::NodeRelease { handle }) if handle == h0
    ));
    peer_pop(&mut s.bus, p1);
    assert!(matches!(
        peer_peek(&mut s.bus, p1),
        Some(Peek::HandleRelease { node }) if node == n1
    ));
    peer_pop(&mut s.bus, p1);
    assert!(peer_peek(&mut s.bus, p1).is_none());
}

#[test]
fn released_handles_are_not_notified() {
    let mut s = Setup::new();
    let p0 = s.peer();
    let p1 = s.peer();
    let (n, h) = s.node(p1, p0);

    let op = op_new(&mut s.bus, p0).unwrap();
    op_release_handle(&mut s.bus, op, h);
    assert_eq!(s.commit(op), vec![p1]);
    assert!(handle_end(&s.bus, h));

    let op = op_new(&mut s.bus, p1).unwrap();
    op_release_node(&mut s.bus, op, n);
    assert_eq!(s.commit(op), Vec::<usize>::new());
    assert!(peer_peek(&mut s.bus, p0).is_none());
    match peer_peek(&mut s.bus, p1) {
        Some(Peek::HandleRelease { node }) => assert_eq!(node, n),
        _ => panic!("no notification"),
    }
}

#[test]
fn handles_can_be_released_again() {
    let mut s = Setup::new();
    let p0 = s.peer();
    let p1 = s.peer();
    let (n, h) = s.node(p1, p0);

    // The notification stays with its first transaction, which is committed.
    for _ in 0..2 {
        let op = op_new(&mut s.bus, p0).unwrap();
        op_release_handle(&mut s.bus, op, h);
        assert_eq!(s.commit(op), vec![p1]);
        match peer_peek(&mut s.bus, p1) {
            Some(Peek::HandleRelease { node }) => assert_eq!(node, n),
            _ => panic!("no notification"),
        }
        peer_pop(&mut s.bus, p1);
        assert!(peer_peek(&mut s.bus, p1).is_none());
    }
}

#[test]
fn unused_objects_are_deallocated() {
    let mut s = Setup::with_limit(1);
    let p = s.peer();
    let (n, h) = s.node(p, p);

    // A handle that is linked stays for as long as its node, and vice versa.
    assert!(node_unref(&mut s.bus, Some(n)).is_empty());
    assert!(handle_unref(&mut s.bus, Some(h)).is_empty());
    assert!(peer_unref(&mut s.bus, Some(p)).is_empty());
    assert!(Peer::owns_node(&s.bus, p, n));

    // Without links, everything is gone.
    let mut t = Setup::with_limit(1);
    let p = t.peer();
    assert_eq!(peer_ref(&mut t.bus, Some(p)), Some(p));
    let (n, h) = peer_new_node(&mut t.bus, p, p).unwrap();
    assert_eq!(node_ref(&mut t.bus, Some(n)), Some(n));
    assert_eq!(t.bus.peer_users(p), 2);
    assert_eq!(t.bus.node_users(n), 2);
    assert_eq!(t.bus.handle_users(h), 1);
    assert!(node_unref(&mut t.bus, Some(n)).is_empty());
    assert!(node_unref(&mut t.bus, Some(n)).is_empty());
    assert!(peer_unref(&mut t.bus, Some(p)).is_empty());
    assert!(peer_unref(&mut t.bus, Some(p)).is_empty());
    assert_eq!(t.bus.node_users(n), 0);
    assert!(t.bus.has_node(n) && t.bus.has_peer(p));
    let actors = handle_unref(&mut t.bus, Some(h));
    assert_eq!(actors.len(), 1);
    assert!(!t.bus.has_node(n) && !t.bus.has_peer(p) && !t.bus.has_handle(h));
    t.release(actors);
    let again = t.peer();
    assert!(peer_new_node(&mut t.bus, again, again).is_ok());
    assert!(t.bus.reclaim().is_empty());
}

#[test]
fn null_references_are_ignored() {
    let mut bus = Bus::new();
    assert_eq!(peer_ref(&mut bus, None), None);
    assert!(peer_unref(&mut bus, None).is_empty());
    assert_eq!(node_ref(&mut bus, None), None);
    assert!(node_unref(&mut bus, None).is_empty());
    assert_eq!(handle_ref(&mut bus, None), None);
    assert!(handle_unref(&mut bus, None).is_empty());
    assert_eq!(message_shared_ref(&mut bus, None), None);
    assert!(message_shared_unref(&mut bus, None).is_empty());
}

#[test]
fn userdata_is_kept() {
    let mut s = Setup::new();
    let p = s.peer();
    let (n, h) = s.node(p, p);
    assert_eq!(node_get_userdata(&s.bus, n), 0);
    assert_eq!(handle_get_userdata(&s.bus, h), 0);
    node_set_userdata(&mut s.bus, n, 71);
    handle_set_userdata(&mut s.bus, h, 72);
    assert_eq!(node_get_userdata(&s.bus, n), 71);
    assert_eq!(handle_get_userdata(&s.bus, h), 72);
}

#[test]
fn references_to_queued_objects() {
    let mut s = Setup::new();
    let p = s.peer();
    let (_, h) = s.node(p, p);
    for r in [TxNodeRef::new_release_node(h), TxNodeRef::new_release_handle(h)] {
        let e = r.acquire(&s.bus);
        assert_eq!(TxNodeRef::release(&s.bus, e), r);
        assert_eq!(r.as_user(), None);
    }
    assert_eq!(TxNodeRef::new_user(3).as_user(), Some(3));
    assert_eq!(TxNodeRef::new_user(3).as_release_node(), None);
    assert_eq!(TxNodeRef::new_release_node(h).as_release_node(), Some(h));
    assert_eq!(TxNodeRef::new_release_node(h).as_release_handle(), None);
    assert_eq!(TxNodeRef::new_release_handle(h).as_release_handle(), Some(h));
    assert_ne!(
        TxNodeRef::new_release_node(h).acquire(&s.bus),
        TxNodeRef::new_release_handle(h).acquire(&s.bus),
    );
}

#[test]
fn peers_can_be_used_directly() {
    let mut s = Setup::new();
    let a0 = s.actor();
    let a1 = s.actor();
    let p0 = Peer::new(&mut s.bus, a0).ok().unwrap();
    let p1 = Peer::new(&mut s.bus, a1).ok().unwrap();
    let (n, h) = Peer::create_node(&mut s.bus, p1, p0).unwrap();
    let g = Peer::create_handle(&mut s.bus, p0, h).unwrap();
    Handle::begin(&mut s.bus, h);
    assert!(Peer::owns_node(&s.bus, p1, n));
    assert!(!Peer::owns_node(&s.bus, p0, n));
    assert!(Peer::owns_handle(&s.bus, p0, g));

    let shared = MessageShared::with(&mut s.bus, b"x".to_vec()).unwrap();
    let op = Op::new(&mut s.bus, p0).unwrap();
    assert_eq!(Op::send_message(&mut s.bus, op, g, Vec::new(), shared), Ok(()));
    assert_eq!(Op::commit(&mut s.bus, op), vec![p1]);
    assert!(Peer::readable(&s.bus, p1));
    assert!(matches!(Peer::peek(&mut s.bus, p1), Some(Peek::User { .. })));
    Peer::pop(&mut s.bus, p1);
    assert!(Peer::peek(&mut s.bus, p1).is_none());

    let op = Op::new(&mut s.bus, p0).unwrap();
    Op::release_handle(&mut s.bus, op, h);
    Op::free(&mut s.bus, op);
    assert!(!Handle::end(&s.bus, h));
    assert!(Peer::end(&mut s.bus, p1).is_empty());

    // Without users, only the linked handle keeps things alive.
    assert_eq!(s.bus.peer_users(p0), 0);
    assert_eq!(s.bus.handle_users(g), 0);
    assert!(s.bus.reclaim().is_empty());
    assert!(s.bus.has_peer(p0) && s.bus.has_peer(p1) && s.bus.has_node(n));
    assert!(s.bus.has_handle(h) && !s.bus.has_handle(g));
    assert!(!s.bus.has_shared(shared) && !s.bus.has_op(op));
    assert!(s.bus.is_operable());
}
