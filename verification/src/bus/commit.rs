//! Committing operations.
//!
//! Once everything in an operation is queued on the receiving peers, its
//! transaction is marked as committed. From then on, peers might start
//! dequeueing, but no other transaction can jump this one, anymore. The order is
//! then settled. What is left to do is to update the links of handles, and to
//! wake the remote peers.

use crate::bus::delivery::lemma_commit_is_settled;
use crate::bus::frame::{lemma_ops_frame, lemma_queues_frame};
use crate::bus::model::{
    all_in, committed_as, lemma_cleared, lemma_dest, lemma_enqueued, lemma_handle_linked,
    lemma_handle_queued, lemma_message_queued, lemma_notified, lemma_ok, lemma_op_removed,
    lemma_similar, lemma_similar_trans, lemma_tx_committed, lemma_unmoved, lemma_wrapped,
    op_committed, same_ops, similar, BusView, TxNodeKind,
};
use crate::bus::txnode::TxNodeRef;
use crate::bus::{peer_view, queues_linked, Bus, Handle, Node, Op, Peer, TxNode, TxNodePeerLink};
use crate::util::arena::{Addr, Object};
use crate::util::lll;
use crate::util::slist::{lemma_chain_frame, Ptr};
use vstd::prelude::*;

verus! {

impl TxNode {
    /// Attach an entry to a transaction, unless it is part of one already.
    fn set_tx(&mut self, tx: Addr)
        ensures
            *final(self) == (TxNode {
                tx: if old(self).tx is None {
                    Some(tx)
                } else {
                    old(self).tx
                },
                ..*old(self)
            }),
    {
        if self.tx.is_none() {
            self.tx = Some(tx);
        }
    }
}

impl Bus {
    /// Get the peer that an entry is queued on.
    fn dest(&self, e: Addr) -> (r: Addr)
        requires
            self.sound(),
            self@.tx_nodes.contains_key(e),
        ensures
            r == self@.dest(e),
            self@.peers.contains_key(r),
    {
        proof {
            lemma_ok(self@);
            lemma_dest(self@, e);
            assert(self@.tx_node_ok(e));
        }
        let node = self.tx_nodes.get(e);
        match node.kind {
            TxNodeKind::User => {
                let m = node.base;
                assert(self@.message_ok(m));
                let h = self.messages.get(m).via;
                assert(self@.handle_ok(h));
                self.nodes.get(self.handles.get(h).node).owner
            },
            TxNodeKind::ReleaseNode => self.handles.get(node.base).owner,
            TxNodeKind::ReleaseHandle => {
                let h = node.base;
                assert(self@.handle_ok(h));
                self.nodes.get(self.handles.get(h).node).owner
            },
        }
    }

    /// Attach an entry to a transaction and queue it on the receiving peer.
    ///
    /// Returns whether the entry was queued.
    fn enqueue(&mut self, tx: Addr, e: Addr) -> (r: bool)
        requires
            old(self).sound(),
            old(self)@.tx_nodes.contains_key(e),
            old(self)@.txs.contains_key(tx),
        ensures
            final(self).sound(),
            final(self).limit() == old(self).limit(),
            final(self)@ == old(self)@.enqueued(tx, e),
            r == old(self)@.queueable(e),
    {
        let ghost v = self@;
        let ghost peers0 = self.peers@;
        let ghost m0 = self.tx_nodes@;
        let to = self.dest(e);
        proof {
            assert(m0.contains_key(e));
            assert(peers0.contains_key(to));
        }
        let node = self.tx_nodes.get_mut(e);
        node.set_tx(tx);
        let ghost m1 = self.tx_nodes@;
        proof {
            lemma_queues_frame(peers0, peers0, m0, m1);
        }
        let peer = self.peers.get_mut(to);
        let r = peer.queue.try_link_front(&mut self.tx_nodes, e);
        proof {
            let m2 = self.tx_nodes@;
            lemma_dest(v, e);
            lemma_ok(v);
            lemma_stored_frame(v, peers0, self.peers@, m1, m2, to, e);
            assert(self@.peers =~= v.enqueued(tx, e).peers);
            assert(self@.tx_nodes =~= v.enqueued(tx, e).tx_nodes);
            lemma_enqueued(v, tx, e);
        }
        r.is_ok()
    }
}

/// Queueing an entry does not affect other lists.
proof fn lemma_stored_frame(
    v: BusView,
    peers0: Map<Addr, Object<Peer>>,
    peers1: Map<Addr, Object<Peer>>,
    m0: Map<Addr, Object<TxNode>>,
    m1: Map<Addr, Object<TxNode>>,
    p: Addr,
    e: Addr,
)
    requires
        v.intact(),
        v.peers == peers0.map_values(peer_view()),
        queues_linked(peers0, m0),
        peers0.contains_key(p),
        m0.contains_key(e),
        peers1.dom() =~= peers0.dom(),
        forall|b: Addr| b != p && #[trigger] peers0.contains_key(b) ==> peers1[b] == peers0[b],
        peers1[p].value.inner == peers0[p].value.inner,
        peers1[p].value.queue.wf(m1),
        m1 == m0 || lll::stored::<TxNodePeerLink>(m0, m1, e, peers0[p].value.queue.first())
            && m0[e].value.peer_link.next == Ptr::Null,
    ensures
        queues_linked(peers1, m1),
        m1.dom() == m0.dom(),
        forall|b: Addr| #[trigger]
            m0.contains_key(b) ==> {
                &&& m1[b].value.kind == m0[b].value.kind
                &&& m1[b].value.base == m0[b].value.base
                &&& m1[b].value.tx == m0[b].value.tx
                &&& b != e ==> m1[b] == m0[b]
            },
{
    lemma_ok(v);
    assert forall|b: Addr| #[trigger] m0.contains_key(b) implies {
        &&& m1.contains_key(b)
        &&& m1[b].value == (TxNode { peer_link: m1[b].value.peer_link, ..m0[b].value })
        &&& b != e ==> m1[b] == m0[b]
    } by {
        assert(m1[b].value == m1[b].value);
    }
    assert forall|b: Addr| #[trigger] peers1.contains_key(b) implies {
        &&& peers1[b].value.queue.wf(m1)
        &&& peers1[b].value.inner.queue_ready.wf(m1)
        &&& peers1[b].value.inner.queue_busy.wf(m1)
    } by {
        assert(peers0.contains_key(b));
        let peer = peers0[b].value;
        let ready = peer.inner.queue_ready;
        let busy = peer.inner.queue_busy;
        lemma_chain_frame::<TxNodePeerLink>(m0, m1, ready.first(), ready@);
        lemma_chain_frame::<TxNodePeerLink>(m0, m1, busy.first(), busy@);
        if b != p && !peer.queue.sealed() {
            lemma_chain_frame::<TxNodePeerLink>(m0, m1, peer.queue.first(), peer.queue@);
        }
    }
}

impl Op {
    /// Attach all messages of an operation to its transaction, and queue them
    /// on the respective receiving peer.
    fn queue_messages(bus: &mut Bus, this: Addr)
        requires
            old(bus).sound(),
            old(bus)@.ops.contains_key(this),
        ensures
            final(bus).sound(),
            final(bus).limit() == old(bus).limit(),
            final(bus)@ == old(bus)@.messages_queued(this, old(bus)@.ops[this].messages),
            similar(old(bus)@, final(bus)@),
            same_ops(old(bus)@, final(bus)@, this),
            final(bus)@.ops[this].nodes == old(bus)@.ops[this].nodes,
            final(bus)@.ops[this].handles == old(bus)@.ops[this].handles,
    {
        let ghost v = bus@;
        let ghost s = v.ops[this].messages;
        let op = bus.ops.get(this);
        let tx = op.tx;
        let messages = op.messages.to_vec();
        let mut k: usize = 0;
        proof {
            lemma_ok(v);
            assert(v.op_ok(this));
        }
        while k < messages.len()
            invariant
                messages@ == s,
                s.no_duplicates(),
                k <= s.len(),
                bus.sound(),
                bus.limit() == old(bus).limit(),
                bus@ == v.messages_queued(this, s.take(k as int)),
                similar(v, bus@),
                same_ops(v, bus@, this),
                bus@.ops.contains_key(this),
                bus@.ops[this].tx == tx,
                bus@.ops[this].nodes == v.ops[this].nodes,
                bus@.ops[this].handles == v.ops[this].handles,
                forall|j: int| #![trigger s[j]]
                    k <= j < s.len() ==> bus@.ops[this].messages.contains(s[j]),
            decreases s.len() - k,
        {
            let m = messages[k];
            let ghost w = bus@;
            proof {
                assert(s[k as int] == m);
                assert(w.ops[this].messages.contains(m));
                lemma_message_queued(w, this, m);
                lemma_ok(w);
                assert(w.op_ok(this));
                let t = w.ops[this].messages;
                assert(t[t.index_of(m)] == m);
                assert(w.messages.contains_key(m));
                assert(w.message_ok(m));
                assert(s.take(k + 1).drop_last() =~= s.take(k as int));
                assert(s.take(k + 1).last() == m);
                lemma_similar_trans(v, w, w.message_queued(this, m));
            }
            let e = TxNodeRef::new_user(m).lookup(bus);
            if !bus.enqueue(tx, e) {
                Op::unlink_message(bus, this, m);
            }
            k += 1;
        }
        assert(s.take(k as int) =~= s);
    }

    /// Notify the owners of all handles to a node about its release.
    fn queue_owners(bus: &mut Bus, this: Addr, node: Addr)
        requires
            old(bus).sound(),
            old(bus)@.ops.contains_key(this),
            old(bus)@.nodes.contains_key(node),
        ensures
            final(bus).sound(),
            final(bus).limit() == old(bus).limit(),
            final(bus)@ == old(bus)@.owners_queued(this, old(bus)@.nodes[node].handles),
            similar(old(bus)@, final(bus)@),
            final(bus)@.ops == old(bus)@.ops,
            final(bus)@.nodes == old(bus)@.nodes,
            final(bus)@.handles == old(bus)@.handles,
    {
        let ghost v = bus@;
        let ghost s = v.nodes[node].handles;
        let tx = bus.ops.get(this).tx;
        let handles = bus.nodes.get(node).handles.to_vec();
        let mut k: usize = 0;
        proof {
            lemma_ok(v);
            assert(v.node_ok(node));
            assert(v.op_ok(this));
        }
        while k < handles.len()
            invariant
                handles@ == s,
                k <= s.len(),
                v.intact(),
                v.ops[this].tx == tx,
                v.txs.contains_key(tx),
                all_in(s, v.handles.dom()),
                bus.sound(),
                bus.limit() == old(bus).limit(),
                bus@ == v.owners_queued(this, s.take(k as int)),
                similar(v, bus@),
                bus@.ops == v.ops,
                bus@.nodes == v.nodes,
                bus@.handles == v.handles,
            decreases s.len() - k,
        {
            let h = handles[k];
            let ghost w = bus@;
            proof {
                assert(s[k as int] == h);
                assert(v.handles.contains_key(h));
                lemma_ok(w);
                assert(w.handle_ok(h));
                assert(s.take(k + 1).drop_last() =~= s.take(k as int));
                assert(s.take(k + 1).last() == h);
                lemma_enqueued(w, tx, w.handles[h].release_node);
                lemma_similar_trans(v, w, w.enqueued(tx, w.handles[h].release_node));
            }
            let e = TxNodeRef::new_release_node(h).lookup(bus);
            let _ = bus.enqueue(tx, e);
            k += 1;
        }
        assert(s.take(k as int) =~= s);
    }

    /// Notify the owners of all handles to the nodes of an operation about the
    /// release of these.
    fn queue_nodes(bus: &mut Bus, this: Addr)
        requires
            old(bus).sound(),
            old(bus)@.ops.contains_key(this),
        ensures
            final(bus).sound(),
            final(bus).limit() == old(bus).limit(),
            final(bus)@ == old(bus)@.nodes_queued(this, old(bus)@.ops[this].nodes),
            similar(old(bus)@, final(bus)@),
            final(bus)@.ops == old(bus)@.ops,
    {
        let ghost v = bus@;
        let ghost s = v.ops[this].nodes;
        let nodes = bus.ops.get(this).nodes.to_vec();
        let mut k: usize = 0;
        proof {
            lemma_ok(v);
            assert(v.op_ok(this));
        }
        while k < nodes.len()
            invariant
                nodes@ == s,
                k <= s.len(),
                v.ops.contains_key(this),
                all_in(s, v.nodes.dom()),
                bus.sound(),
                bus.limit() == old(bus).limit(),
                bus@ == v.nodes_queued(this, s.take(k as int)),
                similar(v, bus@),
                bus@.ops == v.ops,
            decreases s.len() - k,
        {
            let n = nodes[k];
            let ghost w = bus@;
            proof {
                assert(s[k as int] == n);
                assert(v.nodes.contains_key(n));
                assert(s.take(k + 1).drop_last() =~= s.take(k as int));
                assert(s.take(k + 1).last() == n);
            }
            Op::queue_owners(bus, this, n);
            proof {
                lemma_similar_trans(v, w, bus@);
            }
            k += 1;
        }
        assert(s.take(k as int) =~= s);
    }

    /// Attach all handles of an operation to its transaction, and queue their
    /// release on the respective receiving peer.
    fn queue_handles(bus: &mut Bus, this: Addr)
        requires
            old(bus).sound(),
            old(bus)@.ops.contains_key(this),
        ensures
            final(bus).sound(),
            final(bus).limit() == old(bus).limit(),
            final(bus)@ == old(bus)@.handles_queued(this, old(bus)@.ops[this].handles),
            similar(old(bus)@, final(bus)@),
            same_ops(old(bus)@, final(bus)@, this),
            final(bus)@.ops[this].nodes == old(bus)@.ops[this].nodes,
            final(bus)@.ops[this].messages == old(bus)@.ops[this].messages,
    {
        let ghost v = bus@;
        let ghost s = v.ops[this].handles;
        let op = bus.ops.get(this);
        let tx = op.tx;
        let handles = op.handles.to_vec();
        let mut k: usize = 0;
        proof {
            lemma_ok(v);
            assert(v.op_ok(this));
        }
        while k < handles.len()
            invariant
                handles@ == s,
                s.no_duplicates(),
                k <= s.len(),
                bus.sound(),
                bus.limit() == old(bus).limit(),
                bus@ == v.handles_queued(this, s.take(k as int)),
                similar(v, bus@),
                same_ops(v, bus@, this),
                bus@.ops.contains_key(this),
                bus@.ops[this].tx == tx,
                bus@.ops[this].nodes == v.ops[this].nodes,
                bus@.ops[this].messages == v.ops[this].messages,
                forall|j: int| #![trigger s[j]]
                    k <= j < s.len() ==> bus@.ops[this].handles.contains(s[j]),
            decreases s.len() - k,
        {
            let h = handles[k];
            let ghost w = bus@;
            proof {
                assert(s[k as int] == h);
                assert(w.ops[this].handles.contains(h));
                lemma_handle_queued(w, this, h);
                lemma_ok(w);
                assert(w.op_ok(this));
                let t = w.ops[this].handles;
                assert(t[t.index_of(h)] == h);
                assert(w.handles.contains_key(h));
                assert(w.handle_ok(h));
                assert(s.take(k + 1).drop_last() =~= s.take(k as int));
                assert(s.take(k + 1).last() == h);
                lemma_similar_trans(v, w, w.handle_queued(this, h));
            }
            let e = TxNodeRef::new_release_handle(h).lookup(bus);
            if !bus.enqueue(tx, e) {
                Op::unlink_handle(bus, this, h);
            } else {
                Handle::unlink(bus, h);
            }
            k += 1;
        }
        assert(s.take(k as int) =~= s);
    }

    /// Attach everything in an operation to its transaction, and queue it on the
    /// respective receiving peer.
    ///
    /// What cannot be queued since the receiving peer was shut down is no longer
    /// part of the operation.
    fn queue(bus: &mut Bus, this: Addr)
        requires
            old(bus).sound(),
            old(bus)@.ops.contains_key(this),
        ensures
            final(bus).sound(),
            final(bus).limit() == old(bus).limit(),
            final(bus)@ == old(bus)@.op_queued(this),
            similar(old(bus)@, final(bus)@),
            same_ops(old(bus)@, final(bus)@, this),
            final(bus)@.ops[this].nodes == old(bus)@.ops[this].nodes,
    {
        let ghost v = bus@;
        Op::queue_messages(bus, this);
        let ghost v1 = bus@;
        Op::queue_nodes(bus, this);
        let ghost v2 = bus@;
        Op::queue_handles(bus, this);
        proof {
            lemma_similar_trans(v, v1, v2);
            lemma_similar_trans(v, v2, bus@);
        }
    }
}

impl Peer {
    /// Count another committed entry that can be received by a peer.
    fn notify(bus: &mut Bus, this: Addr)
        requires
            old(bus).sound(),
            old(bus)@.peers.contains_key(this),
        ensures
            final(bus).sound(),
            final(bus).limit() == old(bus).limit(),
            final(bus)@ == old(bus)@.notified(this),
    {
        let ghost v = bus@;
        let ghost peers0 = bus.peers@;
        assert(peers0.contains_key(this));
        let peer = bus.peers.get_mut(this);
        peer.queue_committed = peer.queue_committed.wrapping_add(1);
        peer.notified = Ghost(peer.notified@ + 1);
        proof {
            lemma_wrapped(v.peers[this].committed);
            lemma_queues_frame(peers0, bus.peers@, bus.tx_nodes@, bus.tx_nodes@);
            assert(bus@.peers =~= v.notified(this).peers);
            lemma_notified(v, this);
        }
    }

    /// Notify a series of peers.
    fn notify_all(bus: &mut Bus, peers: &Vec<Addr>)
        requires
            old(bus).sound(),
            all_in(peers@, old(bus)@.peers.dom()),
        ensures
            final(bus).sound(),
            final(bus).limit() == old(bus).limit(),
            final(bus)@ == old(bus)@.all_notified(peers@),
            final(bus)@.ops == old(bus)@.ops,
    {
        let ghost v = bus@;
        let ghost s = peers@;
        let mut k: usize = 0;
        assert(s.take(0) =~= Seq::<Addr>::empty());
        while k < peers.len()
            invariant
                s == peers@,
                k <= s.len(),
                all_in(s, v.peers.dom()),
                bus.sound(),
                bus.limit() == old(bus).limit(),
                bus@ == v.all_notified(s.take(k as int)),
                bus@.peers.dom() =~= v.peers.dom(),
                bus@.ops == v.ops,
            decreases s.len() - k,
        {
            let p = peers[k];
            proof {
                assert(s[k as int] == p);
                assert(v.peers.contains_key(p));
                assert(s.take(k + 1).drop_last() =~= s.take(k as int));
                assert(s.take(k + 1).last() == p);
            }
            Peer::notify(bus, p);
            k += 1;
        }
        assert(s.take(k as int) =~= s);
    }
}

impl Op {
    /// Link all handles that are transferred by a message.
    fn link_transfers(bus: &mut Bus, m: Addr)
        requires
            old(bus).sound(),
            old(bus)@.messages.contains_key(m),
        ensures
            final(bus).sound(),
            final(bus).limit() == old(bus).limit(),
            final(bus)@ == old(bus)@.handles_linked(old(bus)@.messages[m].transfers),
            similar(old(bus)@, final(bus)@),
            final(bus)@.messages == old(bus)@.messages,
            final(bus)@.ops == old(bus)@.ops,
    {
        let ghost v = bus@;
        let ghost s = v.messages[m].transfers;
        let mut k: usize = 0;
        proof {
            lemma_ok(v);
            assert(v.message_ok(m));
            assert(s.take(0) =~= Seq::<Addr>::empty());
            assert(bus.messages@.contains_key(m));
        }
        while k < bus.messages.get(m).transfers.len()
            invariant
                k <= s.len(),
                s == v.messages[m].transfers,
                v.messages.contains_key(m),
                all_in(s, v.handles.dom()),
                bus.sound(),
                bus.limit() == old(bus).limit(),
                bus@ == v.handles_linked(s.take(k as int)),
                similar(v, bus@),
                bus@.messages == v.messages,
                bus@.ops == v.ops,
                bus.messages@.contains_key(m),
                bus.messages@[m].value.transfers@ == s,
            decreases s.len() - k,
        {
            let t = bus.messages.get(m).transfers[k];
            let ghost w = bus@;
            proof {
                assert(s[k as int] == t);
                assert(v.handles.contains_key(t));
                assert(s.take(k + 1).drop_last() =~= s.take(k as int));
                assert(s.take(k + 1).last() == t);
                if !w.handles[t].linked {
                    lemma_handle_linked(w, t);
                }
            }
            Handle::link(bus, t);
            proof {
                assert(similar(w, bus@));
                lemma_similar_trans(v, w, bus@);
                assert(bus@.messages.contains_key(m));
                assert(bus@.messages[m] == v.messages[m]);
            }
            k += 1;
        }
        assert(s.take(k as int) =~= s);
    }

    /// Link all handles that are transferred by a series of messages.
    fn link_all_transfers(bus: &mut Bus, messages: &Vec<Addr>)
        requires
            old(bus).sound(),
            all_in(messages@, old(bus)@.messages.dom()),
        ensures
            final(bus).sound(),
            final(bus).limit() == old(bus).limit(),
            final(bus)@ == old(bus)@.transfers_linked(messages@),
            similar(old(bus)@, final(bus)@),
            final(bus)@.ops == old(bus)@.ops,
    {
        let ghost v = bus@;
        let ghost s = messages@;
        let mut k: usize = 0;
        assert(s.take(0) =~= Seq::<Addr>::empty());
        while k < messages.len()
            invariant
                s == messages@,
                k <= s.len(),
                all_in(s, v.messages.dom()),
                bus.sound(),
                bus.limit() == old(bus).limit(),
                bus@ == v.transfers_linked(s.take(k as int)),
                similar(v, bus@),
                bus@.messages == v.messages,
                bus@.ops == v.ops,
            decreases s.len() - k,
        {
            let m = messages[k];
            let ghost w = bus@;
            proof {
                assert(s[k as int] == m);
                assert(v.messages.contains_key(m));
                assert(s.take(k + 1).drop_last() =~= s.take(k as int));
                assert(s.take(k + 1).last() == m);
            }
            Op::link_transfers(bus, m);
            proof {
                lemma_similar_trans(v, w, bus@);
            }
            k += 1;
        }
        assert(s.take(k as int) =~= s);
    }
}

impl Node {
    /// Unlink all handles from a series of nodes, and hand them out in no
    /// particular order.
    fn clear_all(bus: &mut Bus, nodes: &Vec<Addr>) -> (r: Vec<Addr>)
        requires
            old(bus).sound(),
            all_in(nodes@, old(bus)@.nodes.dom()),
            nodes@.no_duplicates(),
        ensures
            final(bus).sound(),
            final(bus).limit() == old(bus).limit(),
            final(bus)@ == old(bus)@.nodes_cleared(nodes@),
            r@.no_duplicates(),
            forall|h: Addr| #[trigger]
                r@.contains(h) <==> old(bus)@.handles.contains_key(h) && old(bus)@.handles[h].linked
                    && nodes@.contains(old(bus)@.handles[h].node),
            similar(old(bus)@, final(bus)@),
            final(bus)@.ops == old(bus)@.ops,
    {
        let ghost v = bus@;
        let ghost s = nodes@;
        let mut r: Vec<Addr> = Vec::new();
        let mut k: usize = 0;
        assert(s.take(0) =~= Seq::<Addr>::empty());
        while k < nodes.len()
            invariant
                s == nodes@,
                s.no_duplicates(),
                k <= s.len(),
                v.intact(),
                all_in(s, v.nodes.dom()),
                bus.sound(),
                bus.limit() == old(bus).limit(),
                bus@ == v.nodes_cleared(s.take(k as int)),
                similar(v, bus@),
                bus@.ops == v.ops,
                forall|h: Addr| #[trigger]
                    v.handles.contains_key(h) ==> bus@.handles[h].linked == (v.handles[h].linked
                        && !s.take(k as int).contains(v.handles[h].node)),
                r@.no_duplicates(),
                forall|h: Addr| #[trigger]
                    r@.contains(h) <==> v.handles.contains_key(h) && v.handles[h].linked && s.take(
                        k as int,
                    ).contains(v.handles[h].node),
            decreases s.len() - k,
        {
            let n = nodes[k];
            let ghost w = bus@;
            let ghost r0 = r@;
            proof {
                assert(s[k as int] == n);
                assert(v.nodes.contains_key(n));
                assert(s.take(k + 1).drop_last() =~= s.take(k as int));
                assert(s.take(k + 1).last() == n);
                lemma_ok(w);
                assert(w.node_ok(n));
            }
            let mut handles = Node::clear(bus, n);
            let ghost hs = handles@;
            r.append(&mut handles);
            proof {
                lemma_similar_trans(v, w, bus@);
                lemma_cleared(v, w, s, k as int, r0, hs);
                assert(r@ =~= r0 + hs);
            }
            k += 1;
        }
        assert(s.take(k as int) =~= s);
        r
    }
}

impl Op {
    /// Collect the peers that a series of messages is sent to.
    fn collect_messages(bus: &Bus, messages: &Vec<Addr>, wakes: &mut Vec<Addr>)
        requires
            bus.sound(),
            all_in(messages@, bus@.messages.dom()),
            all_in(old(wakes)@, bus@.peers.dom()),
        ensures
            all_in(final(wakes)@, bus@.peers.dom()),
            final(wakes)@ == old(wakes)@ + messages@.map_values(|a: Addr| bus@.message_dest(a)),
    {
        let ghost s = messages@;
        let ghost f = |a: Addr| bus@.message_dest(a);
        let mut k: usize = 0;
        proof {
            lemma_ok(bus@);
            assert(wakes@ =~= old(wakes)@ + s.take(0).map_values(f));
        }
        while k < messages.len()
            invariant
                s == messages@,
                f == |a: Addr| bus@.message_dest(a),
                k <= s.len(),
                bus.sound(),
                all_in(s, bus@.messages.dom()),
                all_in(wakes@, bus@.peers.dom()),
                wakes@ == old(wakes)@ + s.take(k as int).map_values(f),
            decreases s.len() - k,
        {
            let a = messages[k];
            proof {
                lemma_ok(bus@);
                assert(s[k as int] == a);
                assert(bus@.messages.contains_key(a));
            }
            assert(bus@.message_ok(a));
            let via = bus.messages.get(a).via;
            assert(bus@.handle_ok(via));
            let node = bus.handles.get(via).node;
            wakes.push(bus.nodes.get(node).owner);
            proof {
                assert(s.take(k + 1).map_values(f) =~= s.take(k as int).map_values(f).push(f(a)));
                assert(wakes@ =~= old(wakes)@ + s.take(k + 1).map_values(f));
            }
            k += 1;
        }
        assert(s.take(k as int) =~= s);
    }

    /// Collect the owners of a series of handles.
    fn collect_owners(bus: &Bus, handles: &Vec<Addr>, wakes: &mut Vec<Addr>)
        requires
            bus.sound(),
            all_in(handles@, bus@.handles.dom()),
            all_in(old(wakes)@, bus@.peers.dom()),
        ensures
            all_in(final(wakes)@, bus@.peers.dom()),
            final(wakes)@ == old(wakes)@ + handles@.map_values(|a: Addr| bus@.handles[a].owner),
    {
        let ghost s = handles@;
        let ghost f = |a: Addr| bus@.handles[a].owner;
        let mut k: usize = 0;
        proof {
            lemma_ok(bus@);
            assert(wakes@ =~= old(wakes)@ + s.take(0).map_values(f));
        }
        while k < handles.len()
            invariant
                s == handles@,
                f == |a: Addr| bus@.handles[a].owner,
                k <= s.len(),
                bus.sound(),
                all_in(s, bus@.handles.dom()),
                all_in(wakes@, bus@.peers.dom()),
                wakes@ == old(wakes)@ + s.take(k as int).map_values(f),
            decreases s.len() - k,
        {
            let a = handles[k];
            proof {
                lemma_ok(bus@);
                assert(s[k as int] == a);
                assert(bus@.handles.contains_key(a));
            }
            assert(bus@.handle_ok(a));
            wakes.push(bus.handles.get(a).owner);
            proof {
                assert(s.take(k + 1).map_values(f) =~= s.take(k as int).map_values(f).push(f(a)));
                assert(wakes@ =~= old(wakes)@ + s.take(k + 1).map_values(f));
            }
            k += 1;
        }
        assert(s.take(k as int) =~= s);
    }

    /// Collect the peers that a series of handles leads to.
    fn collect_handles(bus: &Bus, handles: &Vec<Addr>, wakes: &mut Vec<Addr>)
        requires
            bus.sound(),
            all_in(handles@, bus@.handles.dom()),
            all_in(old(wakes)@, bus@.peers.dom()),
        ensures
            all_in(final(wakes)@, bus@.peers.dom()),
            final(wakes)@ == old(wakes)@ + handles@.map_values(|a: Addr| bus@.handle_dest(a)),
    {
        let ghost s = handles@;
        let ghost f = |a: Addr| bus@.handle_dest(a);
        let mut k: usize = 0;
        proof {
            lemma_ok(bus@);
            assert(wakes@ =~= old(wakes)@ + s.take(0).map_values(f));
        }
        while k < handles.len()
            invariant
                s == handles@,
                f == |a: Addr| bus@.handle_dest(a),
                k <= s.len(),
                bus.sound(),
                all_in(s, bus@.handles.dom()),
                all_in(wakes@, bus@.peers.dom()),
                wakes@ == old(wakes)@ + s.take(k as int).map_values(f),
            decreases s.len() - k,
        {
            let a = handles[k];
            proof {
                lemma_ok(bus@);
                assert(s[k as int] == a);
                assert(bus@.handles.contains_key(a));
            }
            assert(bus@.handle_ok(a));
            let node = bus.handles.get(a).node;
            wakes.push(bus.nodes.get(node).owner);
            proof {
                assert(s.take(k + 1).map_values(f) =~= s.take(k as int).map_values(f).push(f(a)));
                assert(wakes@ =~= old(wakes)@ + s.take(k + 1).map_values(f));
            }
            k += 1;
        }
        assert(s.take(k as int) =~= s);
    }

    /// Mark the transaction of an operation as committed.
    fn settle(bus: &mut Bus, this: Addr)
        requires
            old(bus).sound(),
            old(bus)@.ops.contains_key(this),
        ensures
            final(bus).sound(),
            final(bus).limit() == old(bus).limit(),
            final(bus)@ == old(bus)@.tx_committed(old(bus)@.ops[this].tx),
            similar(old(bus)@, final(bus)@),
    {
        let ghost v = bus@;
        proof {
            lemma_ok(v);
            assert(v.op_ok(this));
        }
        let tx = bus.ops.get(this).tx;
        bus.txs.get_mut(tx).committed = true;
        proof {
            assert(bus@.txs =~= v.tx_committed(tx).txs);
            lemma_tx_committed(v, tx);
        }
    }

    /// Deallocate an operation that has nothing left in it.
    fn remove(bus: &mut Bus, this: Addr)
        requires
            old(bus).sound(),
            old(bus)@.ops.contains_key(this),
            old(bus)@.ops[this].messages.len() == 0,
            old(bus)@.ops[this].nodes.len() == 0,
            old(bus)@.ops[this].handles.len() == 0,
        ensures
            final(bus).sound(),
            final(bus).limit() == old(bus).limit(),
            final(bus)@ == old(bus)@.op_removed(this),
    {
        let ghost v = bus@;
        let ghost ops0 = bus.ops@;
        assert(ops0.contains_key(this));
        bus.ops.remove(this);
        proof {
            lemma_ops_frame(
                ops0,
                bus.ops@,
                bus.messages@,
                bus.messages@,
                bus.nodes@,
                bus.nodes@,
                bus.handles@,
                bus.handles@,
            );
            assert(bus@.ops =~= v.op_removed(this).ops);
            lemma_op_removed(v, this);
        }
    }

    /// Drop an operation, without committing it.
    pub fn free(bus: &mut Bus, this: Addr)
        requires
            old(bus).wf(),
            old(bus)@.ops.contains_key(this),
        ensures
            final(bus).wf(),
            final(bus).limit() == old(bus).limit(),
            final(bus)@ == old(bus)@.op_freed(this),
    {
        let ghost v = bus@;
        Op::clear_messages(bus, this);
        Op::clear_nodes(bus, this);
        Op::clear_handles(bus, this);
        Op::remove(bus, this);
        proof {
            lemma_unmoved(v, bus@);
        }
    }

    /// Commit an operation.
    ///
    /// Everything in the operation is queued on the receiving peers, and is
    /// committed at once. Peers that were shut down do not receive anything. The
    /// operation is gone afterwards.
    ///
    /// Returns the peers to be woken up, once for everything they were notified
    /// about.
    #[verifier::rlimit(40)]
    pub fn commit(bus: &mut Bus, this: Addr) -> (r: Vec<Addr>)
        requires
            old(bus).wf(),
            old(bus)@.ops.contains_key(this),
        ensures
            final(bus).wf(),
            final(bus).limit() == old(bus).limit(),
            op_committed(old(bus)@, final(bus)@, this, r@),
    {
        let ghost v = bus@;
        // Attach everything to the transaction and queue it on the respective
        // receiving peer.
        Op::queue(bus, this);
        let ghost q = bus@;
        // Mark the transaction as committed. From then on, peers might start
        // dequeueing, but no other transaction can jump this one, anymore. The
        // order is then settled.
        Op::settle(bus, this);
        let ghost a = bus@;
        // With everything queued and committed, update the links of handles and
        // collect the remote peers.
        let mut wakes: Vec<Addr> = Vec::new();
        let ms = Op::clear_messages(bus, this);
        let ghost a1 = bus@;
        proof {
            lemma_similar_trans(v, q, a);
            lemma_similar_trans(v, a, a1);
        }
        Op::collect_messages(bus, &ms, &mut wakes);
        Op::link_all_transfers(bus, &ms);
        let ghost b = bus@;
        let ns = Op::clear_nodes(bus, this);
        let ghost b1 = bus@;
        let rs = Node::clear_all(bus, &ns);
        let ghost c = bus@;
        proof {
            lemma_similar_trans(v, a1, b);
            lemma_similar_trans(v, b, b1);
            lemma_similar_trans(v, b1, c);
            assert forall|i: int| #![trigger rs@[i]] 0 <= i < rs@.len() implies v.handles.contains_key(
                rs@[i],
            ) by {
                assert(rs@.contains(rs@[i]));
            }
        }
        Op::collect_owners(bus, &rs, &mut wakes);
        let hs = Op::clear_handles(bus, this);
        let ghost d = bus@;
        proof {
            lemma_similar_trans(v, c, d);
        }
        Op::collect_handles(bus, &hs, &mut wakes);
        proof {
            lemma_dests(v, a1, ms@);
            lemma_dests(v, c, rs@);
            lemma_dests(v, d, hs@);
        }
        Peer::notify_all(bus, &wakes);
        Op::remove(bus, this);
        proof {
            assert(b == a.op_messages_cleared(this).transfers_linked(ms@));
            assert(c == b.op_nodes_cleared(this).nodes_cleared(ns@));
            assert forall|h: Addr| #[trigger] rs@.contains(h) <==> b.handles.contains_key(h)
                && b.handles[h].linked && a.ops[this].nodes.contains(b.handles[h].node) by {
                assert(b1.handles == b.handles);
            }
            assert(committed_as(v, bus@, this, wakes@, ms@, ns@, rs@, hs@));
            lemma_commit_is_settled(v, bus@, this, wakes@);
        }
        wakes
    }
}

/// Where messages and handles lead to does not depend on links.
proof fn lemma_dests(v: BusView, w: BusView, s: Seq<Addr>)
    requires
        v.intact(),
        similar(v, w),
    ensures
        all_in(s, v.messages.dom()) ==> s.map_values(|a: Addr| w.message_dest(a)) == s.map_values(
            |a: Addr| v.message_dest(a),
        ),
        all_in(s, v.handles.dom()) ==> s.map_values(|a: Addr| w.handle_dest(a)) == s.map_values(
            |a: Addr| v.handle_dest(a),
        ) && s.map_values(|a: Addr| w.handles[a].owner) == s.map_values(
            |a: Addr| v.handles[a].owner,
        ),
{
    lemma_similar(v, w);
    if all_in(s, v.messages.dom()) {
        assert forall|i: int| #![trigger s[i]] 0 <= i < s.len() implies w.message_dest(s[i])
            == v.message_dest(s[i]) by {
            assert(v.messages.contains_key(s[i]));
        }
        assert(s.map_values(|a: Addr| w.message_dest(a)) =~= s.map_values(
            |a: Addr| v.message_dest(a),
        ));
    }
    if all_in(s, v.handles.dom()) {
        assert forall|i: int| #![trigger s[i]] 0 <= i < s.len() implies w.handle_dest(s[i])
            == v.handle_dest(s[i]) && w.handles[s[i]].owner == v.handles[s[i]].owner by {
            assert(v.handles.contains_key(s[i]));
        }
        assert(s.map_values(|a: Addr| w.handle_dest(a)) =~= s.map_values(
            |a: Addr| v.handle_dest(a),
        ));
        assert(s.map_values(|a: Addr| w.handles[a].owner) =~= s.map_values(
            |a: Addr| v.handles[a].owner,
        ));
    }
}

} // verus!
