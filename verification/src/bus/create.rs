//! Creation of objects.

use crate::acct::Actor;
use crate::bus::frame::{lemma_nodes_frame, lemma_ops_frame, lemma_queues_frame};
use crate::bus::model::{
    handle_created, lemma_handle_added, lemma_message_added, lemma_node_added, lemma_ok,
    lemma_op_added, lemma_peer_added, lemma_shared_added, lemma_tx_added, lemma_unmoved,
    lemma_wrapped, message_created, BusView, TxNodeKind,
};
use crate::bus::{
    handle_view, message_view, node_view, Bus, Handle, HandleNodeRb, HandleOpRb, Message,
    MessageOpRb, MessageShared, Node, NodeOpRb, Op, Peer, PeerLocked, Tx, TxNode,
};
use crate::util::arena::{Addr, AllocError};
use crate::util::{lll, rb, slist};
use vstd::prelude::*;

verus! {

impl Tx {
    /// Create a transaction.
    pub(super) fn new(bus: &mut Bus) -> (r: Result<Addr, AllocError>)
        requires
            old(bus).sound(),
        ensures
            final(bus).sound(),
            final(bus).limit() == old(bus).limit(),
            match r {
                Ok(t) => {
                    &&& old(bus)@.txs.dom().len() < old(bus).limit()
                    &&& !old(bus)@.txs.contains_key(t)
                    &&& final(bus)@ == old(bus)@.tx_added(t)
                },
                Err(_) => {
                    &&& old(bus)@.txs.dom().len() >= old(bus).limit()
                    &&& final(bus)@ == old(bus)@
                },
            },
    {
        let ghost v = bus@;
        assert(v.txs.dom() =~= bus.txs@.dom());
        match bus.txs.insert(Tx { committed: false }) {
            Ok(t) => {
                proof {
                    assert(bus@ =~= v.tx_added(t));
                    lemma_tx_added(v, t);
                }
                Ok(t)
            },
            Err(e) => {
                assert(bus@ =~= v);
                Err(e)
            },
        }
    }
}

impl Peer {
    /// Create a new peer on behalf of an actor.
    ///
    /// If this fails, the actor is handed back.
    pub fn new(bus: &mut Bus, actor: Actor) -> (r: Result<Addr, (AllocError, Actor)>)
        requires
            old(bus).wf(),
        ensures
            final(bus).wf(),
            final(bus).limit() == old(bus).limit(),
            match r {
                Ok(p) => {
                    &&& old(bus)@.txs.dom().len() < old(bus).limit()
                    &&& old(bus)@.peers.dom().len() < old(bus).limit()
                    &&& !old(bus)@.peers.contains_key(p)
                    &&& !old(bus)@.txs.contains_key(final(bus)@.peers[p].shutdown)
                    &&& final(bus)@ == old(bus)@.tx_added(
                        final(bus)@.peers[p].shutdown,
                    ).peer_added(p, actor.addr(), final(bus)@.peers[p].shutdown)
                },
                Err((_, a)) => {
                    &&& old(bus)@.txs.dom().len() >= old(bus).limit()
                        || old(bus)@.peers.dom().len() >= old(bus).limit()
                    &&& a == actor
                    &&& final(bus)@ == old(bus)@
                },
            },
    {
        let ghost v = bus@;
        assert(v.peers.dom() =~= bus.peers@.dom());
        if bus.peers.is_full() {
            return Err((AllocError, actor));
        }
        let tx = match Tx::new(bus) {
            Ok(t) => t,
            Err(e) => return Err((e, actor)),
        };
        let ghost v1 = bus@;
        let ghost peers0 = bus.peers@;
        assert(v1.peers.dom() =~= peers0.dom());
        let ghost addr = actor.addr();
        let peer = Peer {
            actor,
            queue: lll::List::new(),
            queue_committed: 0,
            notified: Ghost(0),
            shutdown: tx,
            inner: PeerLocked {
                queue_ready: slist::List::new(),
                queue_busy: slist::List::new(),
            },
        };
        match bus.peers.insert(peer) {
            Ok(p) => {
                proof {
                    lemma_queues_frame(peers0, bus.peers@, bus.tx_nodes@, bus.tx_nodes@);
                    assert(bus@ =~= v1.peer_added(p, addr, tx));
                    lemma_wrapped(0);
                    lemma_peer_added(v1, p, addr, tx);
                    lemma_unmoved(v, bus@);
                }
                Ok(p)
            },
            Err(_) => vstd::pervasive::unreached(),
        }
    }
}

impl Node {
    /// Create a new node with the given owner.
    pub(super) fn new(bus: &mut Bus, owner: Addr) -> (r: Result<Addr, AllocError>)
        requires
            old(bus).sound(),
            old(bus)@.peers.contains_key(owner),
        ensures
            final(bus).sound(),
            final(bus).limit() == old(bus).limit(),
            match r {
                Ok(n) => {
                    &&& old(bus)@.nodes.dom().len() < old(bus).limit()
                    &&& !old(bus)@.nodes.contains_key(n)
                    &&& final(bus)@ == old(bus)@.node_added(n, owner)
                },
                Err(_) => {
                    &&& old(bus)@.nodes.dom().len() >= old(bus).limit()
                    &&& final(bus)@ == old(bus)@
                },
            },
    {
        let ghost v = bus@;
        let ghost nodes0 = bus.nodes@;
        assert(v.nodes.dom() =~= nodes0.dom());
        let node = Node {
            addr: 0,
            owner,
            userdata: 0,
            op_rb: rb::Node::new(),
            handles: rb::Tree::new(0),
        };
        match bus.nodes.insert(node) {
            Ok(n) => {
                let node = bus.nodes.get_mut(n);
                node.addr = n;
                node.handles = rb::Tree::new(n);
                proof {
                    assert(rb::unclaimed::<HandleNodeRb>(bus.handles@, n)) by {
                        assert forall|h: Addr| #![trigger bus.handles@[h]]
                            bus.handles@.contains_key(h) implies rb::owner_of::<HandleNodeRb>(
                            bus.handles@,
                            h,
                        ) != Some(n) by {
                            assert(v.handles.contains_key(h));
                            lemma_ok(v);
                            assert(v.handle_ok(h));
                        }
                    }
                    lemma_nodes_frame(nodes0, bus.nodes@, bus.handles@, bus.handles@);
                    lemma_ops_frame(
                        bus.ops@,
                        bus.ops@,
                        bus.messages@,
                        bus.messages@,
                        nodes0,
                        bus.nodes@,
                        bus.handles@,
                        bus.handles@,
                    );
                    assert(bus@ =~= v.node_added(n, owner));
                    lemma_node_added(v, n, owner);
                }
                Ok(n)
            },
            Err(e) => {
                assert(bus@ =~= v);
                Err(e)
            },
        }
    }
}

impl TxNode {
    /// Create an entry of the given kind.
    pub(super) fn new(kind: TxNodeKind, base: Addr) -> (r: Self)
        ensures
            r.kind == kind,
            r.base == base,
            !r.peer_link.linked(),
            r.tx is None,
    {
        TxNode { kind, base, peer_link: lll::Node::new(), tx: None }
    }
}

impl Handle {
    /// Create a new handle to a node, with the given owner.
    pub(super) fn new(bus: &mut Bus, node: Addr, owner: Addr) -> (r: Result<Addr, AllocError>)
        requires
            old(bus).sound(),
            old(bus)@.nodes.contains_key(node),
            old(bus)@.peers.contains_key(owner),
        ensures
            final(bus).sound(),
            final(bus).limit() == old(bus).limit(),
            match r {
                Ok(h) => {
                    &&& !old(bus)@.handles_full(old(bus).limit())
                    &&& handle_created(old(bus)@, final(bus)@, h, node, owner)
                },
                Err(_) => {
                    &&& old(bus)@.handles_full(old(bus).limit())
                    &&& final(bus)@ == old(bus)@
                },
            },
    {
        let ghost v = bus@;
        let ghost handles0 = bus.handles@;
        let ghost tx_nodes0 = bus.tx_nodes@;
        proof {
            assert(v.handles.dom() =~= handles0.dom());
            assert(v.tx_nodes.dom() =~= tx_nodes0.dom());
            bus.tx_nodes.lemma_finite();
        }
        if bus.tx_nodes.available() < 2 {
            return Err(AllocError);
        }
        let handle = Handle {
            node,
            owner,
            userdata: 0,
            node_rb: rb::Node::new(),
            op_rb: rb::Node::new(),
            release_node: 0,
            release_handle: 0,
        };
        let h = match bus.handles.insert(handle) {
            Ok(h) => h,
            Err(e) => {
                assert(bus@.handles =~= v.handles);
                return Err(e);
            },
        };
        let e = match bus.tx_nodes.insert(TxNode::new(TxNodeKind::ReleaseNode, h)) {
            Ok(e) => e,
            Err(_) => vstd::pervasive::unreached(),
        };
        assert(bus.tx_nodes@.dom() =~= tx_nodes0.dom().insert(e));
        let f = match bus.tx_nodes.insert(TxNode::new(TxNodeKind::ReleaseHandle, h)) {
            Ok(f) => f,
            Err(_) => vstd::pervasive::unreached(),
        };
        let handle = bus.handles.get_mut(h);
        handle.release_node = e;
        handle.release_handle = f;
        proof {
            lemma_queues_frame(bus.peers@, bus.peers@, tx_nodes0, bus.tx_nodes@);
            lemma_nodes_frame(bus.nodes@, bus.nodes@, handles0, bus.handles@);
            lemma_ops_frame(
                bus.ops@,
                bus.ops@,
                bus.messages@,
                bus.messages@,
                bus.nodes@,
                bus.nodes@,
                handles0,
                bus.handles@,
            );
            assert(bus@.handles =~= v.handle_added(h, e, f, node, owner).handles);
            assert(bus@.tx_nodes =~= v.handle_added(h, e, f, node, owner).tx_nodes);
            lemma_handle_added(v, h, e, f, node, owner);
        }
        Ok(h)
    }
}

impl MessageShared {
    /// Create data to be shared by messages.
    pub fn with(bus: &mut Bus, data: Vec<u8>) -> (r: Result<Addr, AllocError>)
        requires
            old(bus).wf(),
        ensures
            final(bus).wf(),
            final(bus).limit() == old(bus).limit(),
            match r {
                Ok(s) => {
                    &&& old(bus)@.shareds.dom().len() < old(bus).limit()
                    &&& !old(bus)@.shareds.contains_key(s)
                    &&& final(bus)@ == old(bus)@.shared_added(s, data@)
                },
                Err(_) => {
                    &&& old(bus)@.shareds.dom().len() >= old(bus).limit()
                    &&& final(bus)@ == old(bus)@
                },
            },
    {
        let ghost v = bus@;
        assert(v.shareds.dom() =~= bus.shareds@.dom());
        match bus.shareds.insert(MessageShared { data }) {
            Ok(s) => {
                proof {
                    assert(bus@.shareds =~= v.shared_added(s, data@).shareds);
                    lemma_shared_added(v, s, data@);
                    lemma_unmoved(v, bus@);
                }
                Ok(s)
            },
            Err(e) => {
                assert(bus@.shareds =~= v.shareds);
                Err(e)
            },
        }
    }
}

impl Message {
    /// Create a message that is sent via a handle.
    pub(super) fn with(bus: &mut Bus, via: Addr, transfers: Vec<Addr>, shared: Addr) -> (r: Result<
        Addr,
        AllocError,
    >)
        requires
            old(bus).sound(),
            old(bus)@.handles.contains_key(via),
            old(bus)@.shareds.contains_key(shared),
            forall|i: int| #![trigger transfers@[i]]
                0 <= i < transfers@.len() ==> old(bus)@.handles.contains_key(transfers@[i]),
        ensures
            final(bus).sound(),
            final(bus).limit() == old(bus).limit(),
            match r {
                Ok(m) => {
                    &&& !old(bus)@.messages_full(old(bus).limit())
                    &&& message_created(old(bus)@, final(bus)@, m, via, transfers@, shared)
                },
                Err(_) => {
                    &&& old(bus)@.messages_full(old(bus).limit())
                    &&& final(bus)@ == old(bus)@
                },
            },
    {
        let ghost v = bus@;
        let ghost messages0 = bus.messages@;
        let ghost tx_nodes0 = bus.tx_nodes@;
        proof {
            assert(v.messages.dom() =~= messages0.dom());
            assert(v.tx_nodes.dom() =~= tx_nodes0.dom());
            bus.tx_nodes.lemma_finite();
        }
        if bus.tx_nodes.is_full() {
            return Err(AllocError);
        }
        let message = Message { via, transfers, shared, op_rb: rb::Node::new(), tx_node: 0 };
        let m = match bus.messages.insert(message) {
            Ok(m) => m,
            Err(e) => {
                assert(bus@.messages =~= v.messages);
                return Err(e);
            },
        };
        let e = match bus.tx_nodes.insert(TxNode::new(TxNodeKind::User, m)) {
            Ok(e) => e,
            Err(_) => vstd::pervasive::unreached(),
        };
        let message = bus.messages.get_mut(m);
        message.tx_node = e;
        proof {
            lemma_queues_frame(bus.peers@, bus.peers@, tx_nodes0, bus.tx_nodes@);
            lemma_ops_frame(
                bus.ops@,
                bus.ops@,
                messages0,
                bus.messages@,
                bus.nodes@,
                bus.nodes@,
                bus.handles@,
                bus.handles@,
            );
            let w = v.message_added(m, e, via, transfers@, shared);
            assert(bus@.messages =~= w.messages);
            assert(bus@.tx_nodes =~= w.tx_nodes);
            lemma_message_added(v, m, e, via, transfers@, shared);
        }
        Ok(m)
    }
}

impl Op {
    /// Create an operation of a peer, as part of an existing transaction.
    pub(super) fn with(bus: &mut Bus, operator: Addr, tx: Addr) -> (r: Addr)
        requires
            old(bus).sound(),
            old(bus)@.peers.contains_key(operator),
            old(bus)@.txs.contains_key(tx),
            old(bus)@.ops.dom().len() < usize::MAX,
        ensures
            final(bus).sound(),
            final(bus).limit() == old(bus).limit(),
            !old(bus)@.ops.contains_key(r),
            final(bus)@ == old(bus)@.op_added(r, operator, tx),
    {
        let ghost v = bus@;
        let ghost ops0 = bus.ops@;
        assert(v.ops.dom() =~= ops0.dom());
        let op = Op {
            operator,
            tx,
            messages: rb::Tree::new(0),
            nodes: rb::Tree::new(0),
            handles: rb::Tree::new(0),
        };
        let o = match bus.ops.insert(op) {
            Ok(o) => o,
            Err(_) => vstd::pervasive::unreached(),
        };
        let op = bus.ops.get_mut(o);
        op.messages = rb::Tree::new(o);
        op.nodes = rb::Tree::new(o);
        op.handles = rb::Tree::new(o);
        proof {
            lemma_unclaimed(bus, v, o);
            assert(bus@.ops =~= v.op_added(o, operator, tx).ops);
            lemma_op_added(v, o, operator, tx);
        }
        o
    }

    /// Create an operation of a peer.
    pub fn new(bus: &mut Bus, operator: Addr) -> (r: Result<Addr, AllocError>)
        requires
            old(bus).wf(),
            old(bus)@.peers.contains_key(operator),
        ensures
            final(bus).wf(),
            final(bus).limit() == old(bus).limit(),
            match r {
                Ok(o) => {
                    &&& !old(bus)@.ops_full(old(bus).limit())
                    &&& !old(bus)@.ops.contains_key(o)
                    &&& !old(bus)@.txs.contains_key(final(bus)@.ops[o].tx)
                    &&& final(bus)@ == old(bus)@.tx_added(final(bus)@.ops[o].tx).op_added(
                        o,
                        operator,
                        final(bus)@.ops[o].tx,
                    )
                },
                Err(_) => {
                    &&& old(bus)@.ops_full(old(bus).limit())
                    &&& final(bus)@ == old(bus)@
                },
            },
    {
        let ghost v = bus@;
        assert(v.ops.dom() =~= bus.ops@.dom());
        if bus.ops.is_full() {
            return Err(AllocError);
        }
        let tx = match Tx::new(bus) {
            Ok(t) => t,
            Err(e) => return Err(e),
        };
        let o = Op::with(bus, operator, tx);
        proof {
            lemma_unmoved(v, bus@);
        }
        Ok(o)
    }
}

/// Nothing is tagged as part of an operation that does not exist.
proof fn lemma_unclaimed(bus: &Bus, v: BusView, o: Addr)
    requires
        v.intact(),
        !v.ops.contains_key(o),
        v.messages == bus.messages@.map_values(message_view()),
        v.nodes == bus.nodes@.map_values(node_view()),
        v.handles == bus.handles@.map_values(handle_view()),
    ensures
        rb::unclaimed::<MessageOpRb>(bus.messages@, o),
        rb::unclaimed::<NodeOpRb>(bus.nodes@, o),
        rb::unclaimed::<HandleOpRb>(bus.handles@, o),
{
    lemma_ok(v);
    assert forall|m: Addr| #![trigger bus.messages@[m]] bus.messages@.contains_key(m) implies
        rb::owner_of::<MessageOpRb>(bus.messages@, m) != Some(o) by {
        assert(v.messages.contains_key(m));
        assert(v.message_ok(m));
    }
    assert forall|n: Addr| #![trigger bus.nodes@[n]] bus.nodes@.contains_key(n) implies
        rb::owner_of::<NodeOpRb>(bus.nodes@, n) != Some(o) by {
        assert(v.nodes.contains_key(n));
        assert(v.node_ok(n));
    }
    assert forall|h: Addr| #![trigger bus.handles@[h]] bus.handles@.contains_key(h) implies
        rb::owner_of::<HandleOpRb>(bus.handles@, h) != Some(o) by {
        assert(v.handles.contains_key(h));
        assert(v.handle_ok(h));
    }
}

impl Peer {
    /// Check whether a node is owned by a peer.
    pub fn owns_node(bus: &Bus, this: Addr, node: Addr) -> (r: bool)
        requires
            bus.wf(),
            bus@.nodes.contains_key(node),
        ensures
            r == (bus@.nodes[node].owner == this),
    {
        bus.nodes.get(node).owner == this
    }

    /// Check whether a handle is owned by a peer.
    pub fn owns_handle(bus: &Bus, this: Addr, handle: Addr) -> (r: bool)
        requires
            bus.wf(),
            bus@.handles.contains_key(handle),
        ensures
            r == (bus@.handles[handle].owner == this),
    {
        bus.handles.get(handle).owner == this
    }

    /// Create a new node, together with a first handle to it that is owned by
    /// the other peer.
    pub fn create_node(bus: &mut Bus, this: Addr, other: Addr) -> (r: Result<
        (Addr, Addr),
        AllocError,
    >)
        requires
            old(bus).wf(),
            old(bus)@.peers.contains_key(this),
            old(bus)@.peers.contains_key(other),
        ensures
            final(bus).wf(),
            final(bus).limit() == old(bus).limit(),
            match r {
                Ok((n, h)) => {
                    &&& old(bus)@.nodes.dom().len() < old(bus).limit()
                    &&& !old(bus)@.handles_full(old(bus).limit())
                    &&& !old(bus)@.nodes.contains_key(n)
                    &&& handle_created(
                        old(bus)@.node_added(n, this),
                        final(bus)@,
                        h,
                        n,
                        other,
                    )
                },
                Err(_) => {
                    &&& old(bus)@.nodes.dom().len() >= old(bus).limit() || old(
                        bus,
                    )@.handles_full(old(bus).limit())
                    &&& final(bus)@ == old(bus)@
                },
            },
    {
        let ghost v = bus@;
        proof {
            assert(v.handles.dom() =~= bus.handles@.dom());
            assert(v.tx_nodes.dom() =~= bus.tx_nodes@.dom());
        }
        if bus.handles.is_full() || bus.tx_nodes.available() < 2 {
            return Err(AllocError);
        }
        let n = match Node::new(bus, this) {
            Ok(n) => n,
            Err(e) => return Err(e),
        };
        match Handle::new(bus, n, other) {
            Ok(h) => {
                proof {
                    lemma_unmoved(v, bus@);
                }
                Ok((n, h))
            },
            Err(_) => vstd::pervasive::unreached(),
        }
    }

    /// Create a new handle to the node of another handle.
    pub fn create_handle(bus: &mut Bus, this: Addr, from: Addr) -> (r: Result<Addr, AllocError>)
        requires
            old(bus).wf(),
            old(bus)@.peers.contains_key(this),
            old(bus)@.handles.contains_key(from),
        ensures
            final(bus).wf(),
            final(bus).limit() == old(bus).limit(),
            match r {
                Ok(h) => {
                    &&& !old(bus)@.handles_full(old(bus).limit())
                    &&& handle_created(
                        old(bus)@,
                        final(bus)@,
                        h,
                        old(bus)@.handles[from].node,
                        this,
                    )
                },
                Err(_) => {
                    &&& old(bus)@.handles_full(old(bus).limit())
                    &&& final(bus)@ == old(bus)@
                },
            },
    {
        proof {
            lemma_ok(bus@);
            assert(bus@.handle_ok(from));
        }
        let ghost v = bus@;
        let node = bus.handles.get(from).node;
        let r = Handle::new(bus, node, this);
        proof {
            lemma_unmoved(v, bus@);
        }
        r
    }
}

} // verus!
