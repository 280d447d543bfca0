//! Shutdown of peers.

use crate::bus::delivery::lemma_drained_is_settled;
use crate::bus::frame::{lemma_list_apart, lemma_peer_apart};
use crate::bus::model::{
    all_in, ended_as, lemma_add_contains, lemma_drained, lemma_lists, lemma_ok, lemma_similar_trans,
    lemma_unmoved, peer_ended, similar, BusView,
};
use crate::bus::txnode::TxNodeRef;
use crate::bus::{peer_view, queues_linked, tx_node_view, Bus, Op, Peer, TxNode, TxNodePeerLink};
use crate::util::arena::{Addr, Object};
use crate::util::slist::Ptr;
use crate::util::slist;
use vstd::prelude::*;

verus! {

impl Peer {
    /// Seal the queue of a peer and take everything off the peer: first what is
    /// on the queue, newest entries first, then what is ready, and last what is
    /// not committed yet.
    fn drain(bus: &mut Bus, this: Addr) -> (r: Vec<Addr>)
        requires
            old(bus).sound(),
            old(bus)@.peers.contains_key(this),
        ensures
            final(bus).sound(),
            final(bus).limit() == old(bus).limit(),
            final(bus)@ == old(bus)@.drained(this),
            r@ == old(bus)@.lists(this),
    {
        let ghost v = bus@;
        let ghost peers0 = bus.peers@;
        let ghost m0 = bus.tx_nodes@;
        let ghost queue = v.peers[this].queue;
        let ghost ready = v.peers[this].ready;
        let ghost busy = v.peers[this].busy;
        proof {
            lemma_lists(v, this);
            assert(peers0.contains_key(this));
        }
        let peer = bus.peers.get_mut(this);
        let mut q = peer.queue.seal(&bus.tx_nodes);
        let mut r = q.clear_with(&mut bus.tx_nodes);
        let ghost m1 = bus.tx_nodes@;
        proof {
            lemma_list_apart(m0, m1, peers0[this].value.inner.queue_ready, queue.to_set());
            lemma_list_apart(m0, m1, peers0[this].value.inner.queue_busy, queue.to_set());
        }
        let mut s = peer.inner.queue_ready.clear_with(&mut bus.tx_nodes);
        let ghost m2 = bus.tx_nodes@;
        proof {
            lemma_list_apart(m1, m2, peers0[this].value.inner.queue_busy, ready.to_set());
        }
        let mut t = peer.inner.queue_busy.clear_with(&mut bus.tx_nodes);
        r.append(&mut s);
        r.append(&mut t);
        proof {
            let peers1 = bus.peers@;
            let m3 = bus.tx_nodes@;
            lemma_drained(v, this);
            lemma_drain_links(v, m0, m1, m2, m3, this);
            lemma_drain_frame(v, peers0, peers1, m0, m3, this);
            assert(bus@.peers =~= v.drained(this).peers);
        }
        r
    }
}

/// Clearing the lists of a peer one after the other clears all of them.
proof fn lemma_drain_links(
    v: BusView,
    m0: Map<Addr, Object<TxNode>>,
    m1: Map<Addr, Object<TxNode>>,
    m2: Map<Addr, Object<TxNode>>,
    m3: Map<Addr, Object<TxNode>>,
    p: Addr,
)
    requires
        v.intact(),
        v.peers.contains_key(p),
        v.tx_nodes == m0.map_values(tx_node_view()),
        slist::relinked::<TxNodePeerLink>(m0, m1, v.peers[p].queue.to_set()),
        slist::relinked::<TxNodePeerLink>(m1, m2, v.peers[p].ready.to_set()),
        slist::relinked::<TxNodePeerLink>(m2, m3, v.peers[p].busy.to_set()),
        forall|i: int| #![trigger v.peers[p].queue[i]]
            0 <= i < v.peers[p].queue.len() ==> slist::next_of::<TxNodePeerLink>(
                m1,
                v.peers[p].queue[i],
            ) == Ptr::Null,
        forall|i: int| #![trigger v.peers[p].ready[i]]
            0 <= i < v.peers[p].ready.len() ==> slist::next_of::<TxNodePeerLink>(
                m2,
                v.peers[p].ready[i],
            ) == Ptr::Null,
        forall|i: int| #![trigger v.peers[p].busy[i]]
            0 <= i < v.peers[p].busy.len() ==> slist::next_of::<TxNodePeerLink>(
                m3,
                v.peers[p].busy[i],
            ) == Ptr::Null,
    ensures
        slist::relinked::<TxNodePeerLink>(m0, m3, v.lists(p).to_set()),
        forall|e: Addr| #[trigger]
            v.lists(p).contains(e) ==> m3[e].value.peer_link.next == Ptr::Null,
{
    let peer = v.peers[p];
    let all = v.lists(p).to_set();
    lemma_lists(v, p);
    lemma_add_contains(peer.queue, peer.ready);
    lemma_add_contains(peer.queue + peer.ready, peer.busy);
    assert forall|e: Addr| all.contains(e) <==> peer.queue.contains(e) || peer.ready.contains(e)
        || peer.busy.contains(e) by {
        assert(all.contains(e) <==> v.lists(p).contains(e));
    }
    slist::lemma_relinked_more::<TxNodePeerLink>(m0, m1, peer.queue.to_set(), all);
    slist::lemma_relinked_more::<TxNodePeerLink>(m1, m2, peer.ready.to_set(), all);
    slist::lemma_relinked_more::<TxNodePeerLink>(m2, m3, peer.busy.to_set(), all);
    slist::lemma_relinked_trans::<TxNodePeerLink>(m0, m1, m2, all);
    slist::lemma_relinked_trans::<TxNodePeerLink>(m0, m2, m3, all);
    assert forall|e: Addr| #[trigger] v.lists(p).contains(e) implies m3[e].value.peer_link.next
        == Ptr::Null by {
        assert(m0.contains_key(e) && m1.contains_key(e) && m2.contains_key(e)) by {
            assert(v.tx_nodes.contains_key(e));
        }
        if peer.queue.contains(e) {
            let i = choose|i: int| 0 <= i < peer.queue.len() && peer.queue[i] == e;
            assert(slist::next_of::<TxNodePeerLink>(m1, peer.queue[i]) == Ptr::Null);
            assert(m2[e] == m1[e]);
            assert(m3[e] == m2[e]);
        } else if peer.ready.contains(e) {
            let i = choose|i: int| 0 <= i < peer.ready.len() && peer.ready[i] == e;
            assert(slist::next_of::<TxNodePeerLink>(m2, peer.ready[i]) == Ptr::Null);
            assert(m3[e] == m2[e]);
        } else {
            let i = choose|i: int| 0 <= i < peer.busy.len() && peer.busy[i] == e;
            assert(slist::next_of::<TxNodePeerLink>(m3, peer.busy[i]) == Ptr::Null);
        }
    }
}

/// Emptying the lists of a peer does not affect other lists.
proof fn lemma_drain_frame(
    v: BusView,
    peers0: Map<Addr, Object<Peer>>,
    peers1: Map<Addr, Object<Peer>>,
    m0: Map<Addr, Object<TxNode>>,
    m1: Map<Addr, Object<TxNode>>,
    p: Addr,
)
    requires
        v.intact(),
        v.peers == peers0.map_values(peer_view()),
        v.tx_nodes == m0.map_values(tx_node_view()),
        queues_linked(peers0, m0),
        peers0.contains_key(p),
        peers1.dom() =~= peers0.dom(),
        forall|b: Addr| b != p && #[trigger] peers0.contains_key(b) ==> peers1[b] == peers0[b],
        peers1[p].value.queue.sealed(),
        peers1[p].value.queue@ == Seq::<Addr>::empty(),
        peers1[p].value.inner.queue_ready@ == Seq::<Addr>::empty(),
        peers1[p].value.inner.queue_busy@ == Seq::<Addr>::empty(),
        peers1[p].value.inner.queue_ready.first() == Ptr::End,
        peers1[p].value.inner.queue_busy.first() == Ptr::End,
        forall|e: Addr| #[trigger]
            v.lists(p).contains(e) ==> m1[e].value.peer_link.next == Ptr::Null,
        slist::relinked::<TxNodePeerLink>(m0, m1, v.lists(p).to_set()),
    ensures
        queues_linked(peers1, m1),
        m1.map_values(tx_node_view()) == v.drained(p).tx_nodes,
{
    let all = v.lists(p);
    lemma_ok(v);
    assert(v.peers.contains_key(p) && v.peer_ok(p));
    assert forall|b: Addr| #[trigger] m0.contains_key(b) implies {
        &&& m1.contains_key(b)
        &&& m1[b].value == (TxNode { peer_link: m1[b].value.peer_link, ..m0[b].value })
        &&& !all.contains(b) ==> m1[b] == m0[b]
    } by {
        assert(m1[b].value == m1[b].value);
    }
    assert forall|e: Addr| #[trigger] all.contains(e) implies v.tx_nodes.contains_key(e) && v.dest(
        e,
    ) == p && v.tx_nodes[e].queued by {
        let i = choose|i: int| 0 <= i < all.len() && all[i] == e;
        assert(v.tx_nodes.contains_key(v.lists(p)[i]));
    }
    assert forall|b: Addr| #[trigger] peers1.contains_key(b) implies {
        &&& peers1[b].value.queue.wf(m1)
        &&& peers1[b].value.inner.queue_ready.wf(m1)
        &&& peers1[b].value.inner.queue_busy.wf(m1)
    } by {
        assert(peers0.contains_key(b));
        if b != p {
            lemma_peer_apart(v, peers0, m0, m1, b, all.to_set());
        }
    }
    assert forall|e: Addr| #[trigger] m0.contains_key(e) implies tx_node_view()(m1[e])
        == v.drained(p).tx_nodes[e] by {
        assert(v.tx_nodes.contains_key(e));
    }
    assert(m1.map_values(tx_node_view()) =~= v.drained(p).tx_nodes);
}

impl Op {
    /// Release all handles that are transferred by a message.
    fn release_transfers(bus: &mut Bus, this: Addr, m: Addr)
        requires
            old(bus).wf(),
            old(bus)@.ops.contains_key(this),
            old(bus)@.messages.contains_key(m),
        ensures
            final(bus).wf(),
            final(bus).limit() == old(bus).limit(),
            final(bus)@ == old(bus)@.handles_released(this, old(bus)@.messages[m].transfers),
            similar(old(bus)@, final(bus)@),
            final(bus)@.ops.dom() =~= old(bus)@.ops.dom(),
    {
        let ghost v = bus@;
        let ghost s = v.messages[m].transfers;
        let mut k: usize = 0;
        proof {
            lemma_ok(v);
            assert(v.message_ok(m));
            assert(s.take(0) =~= Seq::<Addr>::empty());
            assert(bus.messages@.contains_key(m));
        }
        while k < bus.messages.get(m).transfers.len()
            invariant
                k <= s.len(),
                s == v.messages[m].transfers,
                v.messages.contains_key(m),
                v.ops.contains_key(this),
                all_in(s, v.handles.dom()),
                bus.wf(),
                bus.limit() == old(bus).limit(),
                bus@ == v.handles_released(this, s.take(k as int)),
                similar(v, bus@),
                bus@.ops.dom() =~= v.ops.dom(),
                bus.messages@.contains_key(m),
                bus.messages@[m].value.transfers@ == s,
            decreases s.len() - k,
        {
            let t = bus.messages.get(m).transfers[k];
            let ghost w = bus@;
            proof {
                assert(s[k as int] == t);
                assert(v.handles.contains_key(t));
                assert(s.take(k + 1).drop_last() =~= s.take(k as int));
                assert(s.take(k + 1).last() == t);
            }
            Op::release_handle(bus, this, t);
            proof {
                assert(similar(w, bus@));
                lemma_similar_trans(v, w, bus@);
                assert(bus@.messages.contains_key(m));
                assert(bus@.messages[m].transfers == v.messages[m].transfers);
            }
            k += 1;
        }
        assert(s.take(k as int) =~= s);
    }

    /// Release all handles that are transferred by a series of entries.
    fn release_all_transfers(bus: &mut Bus, this: Addr, entries: &Vec<Addr>)
        requires
            old(bus).wf(),
            old(bus)@.ops.contains_key(this),
            all_in(entries@, old(bus)@.tx_nodes.dom()),
        ensures
            final(bus).wf(),
            final(bus).limit() == old(bus).limit(),
            final(bus)@ == old(bus)@.transfers_released(this, entries@),
            similar(old(bus)@, final(bus)@),
            final(bus)@.ops.dom() =~= old(bus)@.ops.dom(),
    {
        let ghost v = bus@;
        let ghost s = entries@;
        let mut k: usize = 0;
        assert(s.take(0) =~= Seq::<Addr>::empty());
        while k < entries.len()
            invariant
                s == entries@,
                k <= s.len(),
                v.ops.contains_key(this),
                all_in(s, v.tx_nodes.dom()),
                bus.wf(),
                bus.limit() == old(bus).limit(),
                bus@ == v.transfers_released(this, s.take(k as int)),
                similar(v, bus@),
                bus@.ops.dom() =~= v.ops.dom(),
            decreases s.len() - k,
        {
            let e = entries[k];
            let ghost w = bus@;
            proof {
                assert(s[k as int] == e);
                assert(v.tx_nodes.contains_key(e));
                assert(s.take(k + 1).drop_last() =~= s.take(k as int));
                assert(s.take(k + 1).last() == e);
                lemma_ok(w);
                assert(w.tx_node_ok(e));
            }
            if let Some(m) = TxNodeRef::release(bus, e).as_user() {
                Op::release_transfers(bus, this, m);
            }
            proof {
                lemma_similar_trans(v, w, bus@);
            }
            k += 1;
        }
        assert(s.take(k as int) =~= s);
    }
}

impl Peer {
    /// Called when the owner of the peer considers it set up.
    ///
    /// Given that peers are standalone, there is nothing to be done here. As
    /// long as the caller did not expose it, they still retain full control.
    pub fn begin(bus: &Bus, this: Addr)
        requires
            bus.wf(),
            bus@.peers.contains_key(this),
    {
    }

    /// Shutdown operations on a peer.
    ///
    /// Generally, a peer can simply be dropped without any shutdown. As long as
    /// all nodes are released, the peer can no longer be reached. However, due
    /// to the parallel nature of the bus, there might be messages being about to
    /// be queued on this peer, even though the involved nodes have been
    /// released. This might leave circular references hanging, if those messages
    /// carry handles (as those handles carry a peer reference themselves).
    ///
    /// To prevent this scenario, a shutdown will seal the queue of a peer and
    /// ensure any ongoing transactions will discard the messages destined to
    /// this peer (as well as any already queued messages).
    ///
    /// Usually, the peer should not longer be used for bus operations after a
    /// shutdown, and any nodes should have been released before.
    ///
    /// Returns the peers to be woken up.
    pub fn end(bus: &mut Bus, this: Addr) -> (r: Vec<Addr>)
        requires
            old(bus).wf(),
            old(bus)@.peers.contains_key(this),
            old(bus)@.ops.dom().len() < usize::MAX,
        ensures
            final(bus).wf(),
            final(bus).limit() == old(bus).limit(),
            peer_ended(old(bus)@, final(bus)@, this, r@),
    {
        let ghost v = bus@;
        proof {
            lemma_ok(v);
            assert(v.peer_ok(this));
        }
        let tx = bus.peers.get(this).shutdown;
        let op = Op::with(bus, this, tx);
        let ghost a = bus@;
        assert(a.peers == v.peers);
        proof {
            lemma_unmoved(v, a);
            lemma_drained_is_settled(a, this);
        }
        // Discard all messages that are currently queued, and properly release
        // the handles in them.
        let entries = Peer::drain(bus, this);
        proof {
            assert forall|i: int| #![trigger entries@[i]]
                0 <= i < entries@.len() implies bus@.tx_nodes.contains_key(entries@[i]) by {
                assert(v.lists(this)[i] == entries@[i]);
            }
        }
        Op::release_all_transfers(bus, op, &entries);
        let r = Op::commit(bus, op);
        assert(ended_as(v, bus@, this, r@, op));
        r
    }
}

} // verus!
