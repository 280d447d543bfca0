//! Reclaiming objects.
//!
//! An object stays allocated as long as it has users, or as long as another
//! object refers to it. Messages refer to handles and to shared data, handles
//! refer to their node and their owner, nodes refer to their owner, and all that
//! takes part in a transaction refers to it. A handle that is linked into its
//! node, as well as everything that is queued on a peer or is part of an
//! operation, is referred to as well.

use crate::acct::Actor;
use crate::bus::model::{lemma_ok, lemma_unmoved, BusView, TxNodeKind};
use crate::bus::{
    handle_view, message_view, node_view, nodes_linked, ops_linked, peer_view, queues_linked,
    shared_view, tx_node_view, tx_view, Bus, Handle, HandleNodeRb, HandleOpRb, Message, MessageOpRb,
    Node, NodeOpRb, Op, Peer, TxNode, TxNodePeerLink,
};
use crate::util::arena::{Addr, Object};
use crate::util::slist::Ptr;
use crate::util::{rb, slist};
use vstd::prelude::*;

verus! {

/// The part of a map with the given keys.
pub open spec fn keep<V>(m: Map<Addr, V>, f: spec_fn(Addr) -> bool) -> Map<Addr, V> {
    Map::new(|a: Addr| m.contains_key(a) && f(a), |a: Addr| m[a])
}

impl BusView {
    /// Something refers to a message.
    pub open spec fn message_held(self, m: Addr) -> bool {
        ||| self.messages[m].op is Some
        ||| self.tx_nodes[self.messages[m].tx_node].queued
    }

    /// A message refers to a handle.
    pub open spec fn handle_referred(self, h: Addr) -> bool {
        exists|m: Addr| #[trigger]
            self.messages.contains_key(m) && (self.messages[m].via == h
                || self.messages[m].transfers.contains(h))
    }

    /// A handle has users, or something refers to it.
    pub open spec fn handle_held(self, h: Addr) -> bool {
        ||| self.handles[h].users > 0
        ||| self.handles[h].linked
        ||| self.handles[h].op is Some
        ||| self.tx_nodes[self.handles[h].release_node].queued
        ||| self.tx_nodes[self.handles[h].release_handle].queued
        ||| self.handle_referred(h)
    }

    /// A handle refers to a node.
    pub open spec fn node_referred(self, n: Addr) -> bool {
        exists|h: Addr| #[trigger] self.handles.contains_key(h) && self.handles[h].node == n
    }

    /// A node has users, or something refers to it.
    pub open spec fn node_held(self, n: Addr) -> bool {
        ||| self.nodes[n].users > 0
        ||| self.nodes[n].op is Some
        ||| self.node_referred(n)
    }

    /// A peer is the owner of a node.
    pub open spec fn node_owner(self, p: Addr) -> bool {
        exists|n: Addr| #[trigger] self.nodes.contains_key(n) && self.nodes[n].owner == p
    }

    /// A peer is the owner of a handle.
    pub open spec fn handle_owner(self, p: Addr) -> bool {
        exists|h: Addr| #[trigger] self.handles.contains_key(h) && self.handles[h].owner == p
    }

    /// A peer is the operator of an operation.
    pub open spec fn operator(self, p: Addr) -> bool {
        exists|o: Addr| #[trigger] self.ops.contains_key(o) && self.ops[o].operator == p
    }

    /// A node, a handle, or an operation refers to a peer.
    pub open spec fn peer_referred(self, p: Addr) -> bool {
        ||| self.node_owner(p)
        ||| self.handle_owner(p)
        ||| self.operator(p)
    }

    /// A peer has users, or something refers to it.
    pub open spec fn peer_held(self, p: Addr) -> bool {
        ||| self.peers[p].users > 0
        ||| self.peer_referred(p)
    }

    /// A message refers to shared data.
    pub open spec fn shared_referred(self, s: Addr) -> bool {
        exists|m: Addr| #[trigger] self.messages.contains_key(m) && self.messages[m].shared == s
    }

    /// Shared data has users, or something refers to it.
    pub open spec fn shared_held(self, s: Addr) -> bool {
        ||| self.shareds[s].users > 0
        ||| self.shared_referred(s)
    }

    /// A transaction is the one of the shutdown of a peer.
    pub open spec fn shutdown_tx(self, t: Addr) -> bool {
        exists|p: Addr| #[trigger] self.peers.contains_key(p) && self.peers[p].shutdown == t
    }

    /// A transaction is the one of an operation.
    pub open spec fn op_tx(self, t: Addr) -> bool {
        exists|o: Addr| #[trigger] self.ops.contains_key(o) && self.ops[o].tx == t
    }

    /// An entry is part of a transaction.
    pub open spec fn entry_tx(self, t: Addr) -> bool {
        exists|e: Addr| #[trigger] self.tx_nodes.contains_key(e) && self.tx_nodes[e].tx == Some(t)
    }

    /// A peer, an operation, or an entry refers to a transaction.
    pub open spec fn tx_referred(self, t: Addr) -> bool {
        ||| self.shutdown_tx(t)
        ||| self.op_tx(t)
        ||| self.entry_tx(t)
    }

    /// The bus without messages that nothing refers to.
    pub open spec fn messages_reclaimed(self) -> BusView {
        BusView {
            messages: keep(self.messages, |m: Addr| self.message_held(m)),
            tx_nodes: keep(
                self.tx_nodes,
                |e: Addr|
                    self.tx_nodes[e].kind == TxNodeKind::User ==> self.message_held(
                        self.tx_nodes[e].base,
                    ),
            ),
            ..self
        }
    }

    /// The bus without handles that nothing refers to.
    pub open spec fn handles_reclaimed(self) -> BusView {
        BusView {
            handles: keep(self.handles, |h: Addr| self.handle_held(h)),
            tx_nodes: keep(
                self.tx_nodes,
                |e: Addr|
                    self.tx_nodes[e].kind != TxNodeKind::User ==> self.handle_held(
                        self.tx_nodes[e].base,
                    ),
            ),
            ..self
        }
    }

    /// The bus without nodes that nothing refers to.
    pub open spec fn nodes_reclaimed(self) -> BusView {
        BusView { nodes: keep(self.nodes, |n: Addr| self.node_held(n)), ..self }
    }

    /// The bus without peers that nothing refers to.
    pub open spec fn peers_reclaimed(self) -> BusView {
        BusView { peers: keep(self.peers, |p: Addr| self.peer_held(p)), ..self }
    }

    /// The bus without shared data that nothing refers to.
    pub open spec fn shareds_reclaimed(self) -> BusView {
        BusView { shareds: keep(self.shareds, |s: Addr| self.shared_held(s)), ..self }
    }

    /// The bus without transactions that nothing refers to.
    pub open spec fn txs_reclaimed(self) -> BusView {
        BusView { txs: keep(self.txs, |t: Addr| self.tx_referred(t)), ..self }
    }

    /// The bus without objects that nothing refers to.
    ///
    /// What is referred to by an object that is reclaimed might be reclaimed as
    /// well, and hence objects are reclaimed in the order in which they refer to
    /// each other.
    pub open spec fn reclaimed(self) -> BusView {
        self.messages_reclaimed().handles_reclaimed().nodes_reclaimed().peers_reclaimed()
            .shareds_reclaimed().txs_reclaimed()
    }

    /// Everything has users, or is referred to.
    pub open spec fn tidy(self) -> bool {
        &&& forall|m: Addr| #[trigger] self.messages.contains_key(m) ==> self.message_held(m)
        &&& forall|h: Addr| #[trigger] self.handles.contains_key(h) ==> self.handle_held(h)
        &&& forall|n: Addr| #[trigger] self.nodes.contains_key(n) ==> self.node_held(n)
        &&& forall|p: Addr| #[trigger] self.peers.contains_key(p) ==> self.peer_held(p)
        &&& forall|s: Addr| #[trigger] self.shareds.contains_key(s) ==> self.shared_held(s)
        &&& forall|t: Addr| #[trigger] self.txs.contains_key(t) ==> self.tx_referred(t)
    }
}

/// A part of a map.
spec fn part<V>(m: Map<Addr, V>, n: Map<Addr, V>) -> bool {
    forall|a: Addr| #[trigger] n.contains_key(a) ==> m.contains_key(a) && n[a] == m[a]
}

/// A part of a bus, in which everything that is referred to still exists.
spec fn self_contained(v: BusView, w: BusView) -> bool {
    &&& part(v.peers, w.peers)
    &&& part(v.nodes, w.nodes)
    &&& part(v.handles, w.handles)
    &&& part(v.messages, w.messages)
    &&& part(v.shareds, w.shareds)
    &&& part(v.txs, w.txs)
    &&& part(v.tx_nodes, w.tx_nodes)
    &&& w.ops == v.ops
    &&& forall|p: Addr| #[trigger]
        w.peers.contains_key(p) ==> w.txs.contains_key(v.peers[p].shutdown)
    &&& forall|n: Addr| #[trigger]
        w.nodes.contains_key(n) ==> w.peers.contains_key(v.nodes[n].owner)
    &&& forall|h: Addr| #[trigger]
        v.handles.contains_key(h) && v.handles[h].linked ==> w.handles.contains_key(h)
    &&& forall|h: Addr| #[trigger]
        w.handles.contains_key(h) ==> {
            &&& w.nodes.contains_key(v.handles[h].node)
            &&& w.peers.contains_key(v.handles[h].owner)
            &&& w.tx_nodes.contains_key(v.handles[h].release_node)
            &&& w.tx_nodes.contains_key(v.handles[h].release_handle)
        }
    &&& forall|m: Addr| #[trigger]
        w.messages.contains_key(m) ==> {
            &&& w.handles.contains_key(v.messages[m].via)
            &&& w.shareds.contains_key(v.messages[m].shared)
            &&& w.tx_nodes.contains_key(v.messages[m].tx_node)
            &&& forall|i: int| #![trigger v.messages[m].transfers[i]]
                0 <= i < v.messages[m].transfers.len() ==> w.handles.contains_key(
                    v.messages[m].transfers[i],
                )
        }
    &&& forall|e: Addr| #[trigger]
        v.tx_nodes.contains_key(e) && v.tx_nodes[e].queued ==> w.tx_nodes.contains_key(e)
    &&& forall|e: Addr| #[trigger]
        w.tx_nodes.contains_key(e) ==> {
            &&& v.tx_nodes[e].tx matches Some(t) ==> w.txs.contains_key(t)
            &&& match v.tx_nodes[e].kind {
                TxNodeKind::User => w.messages.contains_key(v.tx_nodes[e].base),
                _ => w.handles.contains_key(v.tx_nodes[e].base),
            }
        }
    &&& forall|o: Addr| #[trigger]
        v.ops.contains_key(o) ==> {
            &&& w.peers.contains_key(v.ops[o].operator)
            &&& w.txs.contains_key(v.ops[o].tx)
        }
    &&& forall|m: Addr| #[trigger]
        v.messages.contains_key(m) && v.messages[m].op is Some ==> w.messages.contains_key(m)
    &&& forall|n: Addr| #[trigger]
        v.nodes.contains_key(n) && v.nodes[n].op is Some ==> w.nodes.contains_key(n)
    &&& forall|h: Addr| #[trigger]
        v.handles.contains_key(h) && v.handles[h].op is Some ==> w.handles.contains_key(h)
}

/// A part of a bus that is self-contained is intact.
proof fn lemma_self_contained(v: BusView, w: BusView)
    requires
        v.intact(),
        self_contained(v, w),
    ensures
        w.intact(),
{
    lemma_ok(v);
    assert forall|h: Addr| #[trigger] w.handles.contains_key(h) implies w.handle_dest(h)
        == v.handle_dest(h) by {
        assert(v.handles.contains_key(h));
    }
    assert forall|m: Addr| #[trigger] w.messages.contains_key(m) implies w.message_dest(m)
        == v.message_dest(m) by {
        assert(v.messages.contains_key(m));
    }
    assert forall|e: Addr| #[trigger] w.tx_nodes.contains_key(e) implies w.dest(e) == v.dest(e)
        && w.peers.contains_key(v.dest(e)) by {
        assert(v.tx_nodes.contains_key(e) && v.tx_node_ok(e));
    }
    assert forall|p: Addr| #[trigger] w.peers.contains_key(p) implies w.peer_ok(p) by {
        assert(v.peers.contains_key(p) && v.peer_ok(p));
        assert(w.lists(p) == v.lists(p));
        let s = v.lists(p);
        assert forall|i: int| #![trigger s[i]] 0 <= i < s.len() implies w.tx_nodes.contains_key(
            s[i],
        ) by {
            assert(v.tx_nodes.contains_key(v.lists(p)[i]));
        }
    }
    assert forall|n: Addr| #[trigger] w.nodes.contains_key(n) implies w.node_ok(n) by {
        assert(v.nodes.contains_key(n) && v.node_ok(n));
        let s = v.nodes[n].handles;
        assert forall|i: int| #![trigger s[i]] 0 <= i < s.len() implies w.handles.contains_key(
            s[i],
        ) by {
            assert(v.handles.contains_key(s[i]));
        }
        assert(w.link_keys(s) =~= v.link_keys(s));
    }
    assert forall|h: Addr| #[trigger] w.handles.contains_key(h) implies w.handle_ok(h) by {
        assert(v.handles.contains_key(h) && v.handle_ok(h));
    }
    assert forall|m: Addr| #[trigger] w.messages.contains_key(m) implies w.message_ok(m) by {
        assert(v.messages.contains_key(m) && v.message_ok(m));
    }
    assert forall|e: Addr| #[trigger] w.tx_nodes.contains_key(e) implies w.tx_node_ok(e) by {
        assert(v.tx_nodes.contains_key(e) && v.tx_node_ok(e));
        assert(w.lists(v.dest(e)) == v.lists(v.dest(e)));
    }
    assert forall|o: Addr| #[trigger] w.ops.contains_key(o) implies w.op_ok(o) by {
        assert(v.ops.contains_key(o) && v.op_ok(o));
        let op = v.ops[o];
        assert forall|i: int| #![trigger op.messages[i]]
            0 <= i < op.messages.len() implies w.messages.contains_key(op.messages[i]) by {
            assert(v.messages.contains_key(op.messages[i]));
        }
        assert forall|i: int| #![trigger op.nodes[i]]
            0 <= i < op.nodes.len() implies w.nodes.contains_key(op.nodes[i]) by {
            assert(v.nodes.contains_key(op.nodes[i]));
        }
        assert forall|i: int| #![trigger op.handles[i]]
            0 <= i < op.handles.len() implies w.handles.contains_key(op.handles[i]) by {
            assert(v.handles.contains_key(op.handles[i]));
        }
        assert(w.message_keys(op.messages) =~= v.message_keys(op.messages)) by {
            assert forall|i: int| 0 <= i < op.messages.len() implies w.message_keys(
                op.messages,
            )[i] == v.message_keys(op.messages)[i] by {
                assert(w.messages.contains_key(op.messages[i]));
            }
        }
        assert(w.node_keys(op.nodes) =~= v.node_keys(op.nodes));
        assert(w.handle_keys(op.handles) =~= v.handle_keys(op.handles)) by {
            assert forall|i: int| 0 <= i < op.handles.len() implies w.handle_keys(op.handles)[i]
                == v.handle_keys(op.handles)[i] by {
                assert(w.handles.contains_key(op.handles[i]));
            }
        }
    }
    reveal(BusView::intact);
}

/// Reclaiming messages keeps the bus intact.
pub proof fn lemma_messages_reclaimed(v: BusView)
    requires
        v.intact(),
    ensures
        v.messages_reclaimed().intact(),
{
    let w = v.messages_reclaimed();
    lemma_ok(v);
    assert forall|h: Addr| #[trigger] w.handles.contains_key(h) implies w.tx_nodes.contains_key(
        v.handles[h].release_node,
    ) && w.tx_nodes.contains_key(v.handles[h].release_handle) by {
        assert(v.handle_ok(h));
    }
    assert forall|m: Addr| #[trigger] w.messages.contains_key(m) implies v.message_ok(m)
        && w.tx_nodes.contains_key(v.messages[m].tx_node) by {
        assert(v.messages.contains_key(m));
    }
    assert forall|e: Addr| #[trigger] v.tx_nodes.contains_key(e) && v.tx_nodes[e].queued implies
        w.tx_nodes.contains_key(e) by {
        assert(v.tx_node_ok(e));
    }
    assert forall|e: Addr| #[trigger] w.tx_nodes.contains_key(e) implies v.tx_node_ok(e) by {
        assert(v.tx_nodes.contains_key(e));
    }
    lemma_self_contained(v, w);
}

/// Reclaiming handles keeps the bus intact.
pub proof fn lemma_handles_reclaimed(v: BusView)
    requires
        v.intact(),
    ensures
        v.handles_reclaimed().intact(),
{
    let w = v.handles_reclaimed();
    lemma_ok(v);
    assert forall|h: Addr| #[trigger] w.handles.contains_key(h) implies v.handle_ok(h)
        && w.tx_nodes.contains_key(v.handles[h].release_node) && w.tx_nodes.contains_key(
        v.handles[h].release_handle,
    ) by {
        assert(v.handles.contains_key(h));
    }
    assert forall|m: Addr| #[trigger] w.messages.contains_key(m) implies {
        &&& v.message_ok(m)
        &&& w.handles.contains_key(v.messages[m].via)
        &&& w.tx_nodes.contains_key(v.messages[m].tx_node)
        &&& forall|i: int| #![trigger v.messages[m].transfers[i]]
            0 <= i < v.messages[m].transfers.len() ==> w.handles.contains_key(
                v.messages[m].transfers[i],
            )
    } by {
        assert(v.messages.contains_key(m));
        assert(v.message_ok(m));
        assert forall|i: int| #![trigger v.messages[m].transfers[i]]
            0 <= i < v.messages[m].transfers.len() implies w.handles.contains_key(
            v.messages[m].transfers[i],
        ) by {
            assert(v.messages[m].transfers.contains(v.messages[m].transfers[i]));
        }
    }
    assert forall|e: Addr| #[trigger] v.tx_nodes.contains_key(e) && v.tx_nodes[e].queued implies
        w.tx_nodes.contains_key(e) by {
        assert(v.tx_node_ok(e));
    }
    assert forall|e: Addr| #[trigger] w.tx_nodes.contains_key(e) implies v.tx_node_ok(e) by {
        assert(v.tx_nodes.contains_key(e));
    }
    lemma_self_contained(v, w);
}

/// Reclaiming nodes keeps the bus intact.
pub proof fn lemma_nodes_reclaimed(v: BusView)
    requires
        v.intact(),
    ensures
        v.nodes_reclaimed().intact(),
{
    let w = v.nodes_reclaimed();
    lemma_ok(v);
    assert forall|h: Addr| #[trigger] w.handles.contains_key(h) implies v.handle_ok(h)
        && w.nodes.contains_key(v.handles[h].node) by {
        assert(v.handles.contains_key(h));
    }
    assert forall|n: Addr| #[trigger] w.nodes.contains_key(n) implies v.node_ok(n) by {
        assert(v.nodes.contains_key(n));
    }
    assert forall|m: Addr| #[trigger] w.messages.contains_key(m) implies v.message_ok(m) by {}
    assert forall|e: Addr| #[trigger] w.tx_nodes.contains_key(e) implies v.tx_node_ok(e) by {}
    lemma_self_contained(v, w);
}

/// Reclaiming peers keeps the bus intact.
pub proof fn lemma_peers_reclaimed(v: BusView)
    requires
        v.intact(),
    ensures
        v.peers_reclaimed().intact(),
{
    let w = v.peers_reclaimed();
    lemma_ok(v);
    assert forall|p: Addr| #[trigger] w.peers.contains_key(p) implies v.peer_ok(p) by {
        assert(v.peers.contains_key(p));
    }
    assert forall|h: Addr| #[trigger] w.handles.contains_key(h) implies v.handle_ok(h)
        && w.peers.contains_key(v.handles[h].owner) by {
        assert(v.handles.contains_key(h));
    }
    assert forall|n: Addr| #[trigger] w.nodes.contains_key(n) implies v.node_ok(n)
        && w.peers.contains_key(v.nodes[n].owner) by {
        assert(v.nodes.contains_key(n));
    }
    assert forall|o: Addr| #[trigger] v.ops.contains_key(o) implies v.op_ok(o)
        && w.peers.contains_key(v.ops[o].operator) by {}
    assert forall|m: Addr| #[trigger] w.messages.contains_key(m) implies v.message_ok(m) by {}
    assert forall|e: Addr| #[trigger] w.tx_nodes.contains_key(e) implies v.tx_node_ok(e) by {}
    lemma_self_contained(v, w);
}

/// Reclaiming shared data keeps the bus intact.
pub proof fn lemma_shareds_reclaimed(v: BusView)
    requires
        v.intact(),
    ensures
        v.shareds_reclaimed().intact(),
{
    let w = v.shareds_reclaimed();
    lemma_ok(v);
    assert forall|m: Addr| #[trigger] w.messages.contains_key(m) implies v.message_ok(m)
        && w.shareds.contains_key(v.messages[m].shared) by {
        assert(v.messages.contains_key(m));
    }
    assert forall|e: Addr| #[trigger] w.tx_nodes.contains_key(e) implies v.tx_node_ok(e) by {}
    assert forall|h: Addr| #[trigger] w.handles.contains_key(h) implies v.handle_ok(h) by {}
    lemma_self_contained(v, w);
}

/// Reclaiming transactions keeps the bus intact.
pub proof fn lemma_txs_reclaimed(v: BusView)
    requires
        v.intact(),
    ensures
        v.txs_reclaimed().intact(),
{
    let w = v.txs_reclaimed();
    lemma_ok(v);
    assert forall|p: Addr| #[trigger] w.peers.contains_key(p) implies w.txs.contains_key(
        v.peers[p].shutdown,
    ) by {
        assert(v.peers.contains_key(p) && v.peer_ok(p));
    }
    assert forall|o: Addr| #[trigger] v.ops.contains_key(o) implies w.peers.contains_key(
        v.ops[o].operator,
    ) && w.txs.contains_key(v.ops[o].tx) by {
        assert(v.op_ok(o));
    }
    assert forall|m: Addr| #[trigger] w.messages.contains_key(m) implies v.message_ok(m) by {}
    assert forall|h: Addr| #[trigger] w.handles.contains_key(h) implies v.handle_ok(h) by {}
    assert forall|e: Addr| #[trigger] w.tx_nodes.contains_key(e) implies v.tx_node_ok(e) && (
    v.tx_nodes[e].tx matches Some(t) ==> w.txs.contains_key(t)) by {
        assert(v.tx_nodes.contains_key(e) && v.tx_node_ok(e));
    }
    lemma_self_contained(v, w);
}

/// Lists of peers are not affected by changes to what is not queued.
proof fn lemma_queues_kept(
    peers0: Map<Addr, Object<Peer>>,
    peers1: Map<Addr, Object<Peer>>,
    m0: Map<Addr, Object<TxNode>>,
    m1: Map<Addr, Object<TxNode>>,
)
    requires
        queues_linked(peers0, m0),
        part(peers0, peers1),
        forall|e: Addr| #[trigger]
            m0.contains_key(e) && m0[e].value.peer_link.next != Ptr::Null ==> m1.contains_key(e)
                && m1[e] == m0[e],
    ensures
        queues_linked(peers1, m1),
{
    assert forall|p: Addr| #[trigger] peers1.contains_key(p) implies {
        &&& peers1[p].value.queue.wf(m1)
        &&& peers1[p].value.inner.queue_ready.wf(m1)
        &&& peers1[p].value.inner.queue_busy.wf(m1)
    } by {
        assert(peers0.contains_key(p));
        let peer = peers0[p].value;
        if !peer.queue.sealed() {
            lemma_chain_kept(m0, m1, peer.queue.first(), peer.queue@);
        }
        lemma_chain_kept(m0, m1, peer.inner.queue_ready.first(), peer.inner.queue_ready@);
        lemma_chain_kept(m0, m1, peer.inner.queue_busy.first(), peer.inner.queue_busy@);
    }
}

proof fn lemma_chain_kept(
    m0: Map<Addr, Object<TxNode>>,
    m1: Map<Addr, Object<TxNode>>,
    first: Ptr,
    s: Seq<Addr>,
)
    requires
        slist::chain::<TxNodePeerLink>(m0, first, s),
        forall|e: Addr| #[trigger]
            m0.contains_key(e) && m0[e].value.peer_link.next != Ptr::Null ==> m1.contains_key(e)
                && m1[e] == m0[e],
    ensures
        slist::chain::<TxNodePeerLink>(m1, first, s),
{
    assert forall|i: int| #![trigger s[i]] 0 <= i < s.len() implies m1.contains_key(s[i])
        && slist::next_of::<TxNodePeerLink>(m1, s[i]) == slist::next_of::<TxNodePeerLink>(
        m0,
        s[i],
    ) by {
        assert(m0.contains_key(s[i]));
        assert(slist::next_of::<TxNodePeerLink>(m0, s[i]) == slist::ptr_at(s, i + 1));
    }
    slist::lemma_chain_frame::<TxNodePeerLink>(m0, m1, first, s);
}

/// Trees of nodes are not affected by changes to what is not linked.
proof fn lemma_nodes_kept(
    nodes0: Map<Addr, Object<Node>>,
    nodes1: Map<Addr, Object<Node>>,
    m0: Map<Addr, Object<Handle>>,
    m1: Map<Addr, Object<Handle>>,
)
    requires
        nodes_linked(nodes0, m0),
        part(nodes0, nodes1),
        part(m0, m1),
        forall|h: Addr| #[trigger]
            m0.contains_key(h) && m0[h].value.node_rb.owner is Some ==> m1.contains_key(h),
    ensures
        nodes_linked(nodes1, m1),
{
    assert forall|h: Addr| #[trigger] m1.contains_key(h) implies m1[h].value.node_rb.owner is None
        || m1[h].value.node_rb.owner == Some(m1[h].value.node) by {
        assert(m0.contains_key(h));
    }
    assert forall|n: Addr| #[trigger] nodes1.contains_key(n) implies {
        &&& nodes1[n].value.addr == n
        &&& nodes1[n].value.handles.wf(m1)
        &&& nodes1[n].value.handles.owner() == n
    } by {
        assert(nodes0.contains_key(n));
        rb::lemma_tree_frame::<HandleNodeRb>(&nodes0[n].value.handles, m0, m1);
    }
}

/// Trees of operations are not affected by changes to what is not linked.
proof fn lemma_ops_kept(
    ops: Map<Addr, Object<Op>>,
    messages0: Map<Addr, Object<Message>>,
    messages1: Map<Addr, Object<Message>>,
    nodes0: Map<Addr, Object<Node>>,
    nodes1: Map<Addr, Object<Node>>,
    handles0: Map<Addr, Object<Handle>>,
    handles1: Map<Addr, Object<Handle>>,
)
    requires
        ops_linked(ops, messages0, nodes0, handles0),
        part(messages0, messages1),
        part(nodes0, nodes1),
        part(handles0, handles1),
        forall|m: Addr| #[trigger]
            messages0.contains_key(m) && messages0[m].value.op_rb.owner is Some
                ==> messages1.contains_key(m),
        forall|n: Addr| #[trigger]
            nodes0.contains_key(n) && nodes0[n].value.op_rb.owner is Some ==> nodes1.contains_key(
                n,
            ),
        forall|h: Addr| #[trigger]
            handles0.contains_key(h) && handles0[h].value.op_rb.owner is Some
                ==> handles1.contains_key(h),
    ensures
        ops_linked(ops, messages1, nodes1, handles1),
{
    assert forall|o: Addr| #[trigger] ops.contains_key(o) implies {
        &&& ops[o].value.messages.wf(messages1)
        &&& ops[o].value.nodes.wf(nodes1)
        &&& ops[o].value.handles.wf(handles1)
    } by {
        let op = ops[o].value;
        rb::lemma_tree_frame::<MessageOpRb>(&op.messages, messages0, messages1);
        rb::lemma_tree_frame::<NodeOpRb>(&op.nodes, nodes0, nodes1);
        rb::lemma_tree_frame::<HandleOpRb>(&op.handles, handles0, handles1);
    }
}

impl Bus {
    /// Reclaim all messages that nothing refers to.
    fn reclaim_messages(&mut self)
        requires
            old(self).sound(),
        ensures
            final(self).sound(),
            final(self).limit() == old(self).limit(),
            final(self)@ == old(self)@.messages_reclaimed(),
    {
        let ghost v = self@;
        let ghost m0 = self.messages@;
        let ghost t0 = self.tx_nodes@;
        let n = self.messages.bound();
        let mut k: usize = 0;
        proof {
            assert(keep(m0, |m: Addr| m >= 0 || v.message_held(m)) =~= m0);
            assert(keep(
                t0,
                |e: Addr|
                    t0[e].value.kind == TxNodeKind::User ==> t0[e].value.base >= 0
                        || v.message_held(t0[e].value.base),
            ) =~= t0);
        }
        while k < n
            invariant
                k <= n,
                v.intact(),
                v.messages == m0.map_values(message_view()),
                v.tx_nodes == t0.map_values(tx_node_view()),
                forall|m: Addr| #[trigger] m0.contains_key(m) ==> m < n,
                self.messages.wf(),
                self.tx_nodes.wf(),
                self.messages.limit() == old(self).messages.limit(),
                self.tx_nodes.limit() == old(self).tx_nodes.limit(),
                self.messages@ == keep(m0, |m: Addr| m >= k || v.message_held(m)),
                self.tx_nodes@ == keep(
                    t0,
                    |e: Addr|
                        t0[e].value.kind == TxNodeKind::User ==> t0[e].value.base >= k
                            || v.message_held(t0[e].value.base),
                ),
                self.peers == old(self).peers,
                self.nodes == old(self).nodes,
                self.handles == old(self).handles,
                self.shareds == old(self).shareds,
                self.txs == old(self).txs,
                self.ops == old(self).ops,
            decreases n - k,
        {
            proof {
                lemma_ok(v);
            }
            if self.messages.contains(k) {
                proof {
                    assert(m0.contains_key(k));
                    assert(v.messages.contains_key(k));
                    assert(v.message_ok(k));
                    assert(t0.contains_key(m0[k].value.tx_node));
                }
                let m = self.messages.get(k);
                let e = m.tx_node;
                if !m.op_rb.is_linked() && !self.tx_nodes.get(e).peer_link.is_linked() {
                    self.messages.remove(k);
                    self.tx_nodes.remove(e);
                    proof {
                        assert(!v.message_held(k));
                        assert forall|f: Addr| #[trigger] t0.contains_key(f)
                            && t0[f].value.kind == TxNodeKind::User && t0[f].value.base
                            == k implies f == e by {
                            assert(v.tx_nodes.contains_key(f) && v.tx_node_ok(f));
                        }
                    }
                } else {
                    assert(v.message_held(k));
                }
            } else {
                assert forall|f: Addr| #[trigger] t0.contains_key(f) && t0[f].value.kind
                    == TxNodeKind::User && t0[f].value.base == k implies v.message_held(k) by {
                    assert(v.tx_nodes.contains_key(f));
                    assert(v.tx_node_ok(f));
                    assert(m0.contains_key(k));
                }
            }
            k += 1;
            proof {
                assert(self.messages@ =~= keep(m0, |m: Addr| m >= k || v.message_held(m)));
                assert(self.tx_nodes@ =~= keep(
                    t0,
                    |e: Addr|
                        t0[e].value.kind == TxNodeKind::User ==> t0[e].value.base >= k
                            || v.message_held(t0[e].value.base),
                ));
            }
        }
        proof {
            lemma_ok(v);
            let w = v.messages_reclaimed();
            assert forall|e: Addr| #[trigger] t0.contains_key(e) implies v.tx_nodes.contains_key(e)
                && v.tx_node_ok(e) && (t0[e].value.kind == TxNodeKind::User
                ==> t0[e].value.base < n) by {
                assert(v.tx_nodes.contains_key(e));
                if t0[e].value.kind == TxNodeKind::User {
                    assert(m0.contains_key(t0[e].value.base));
                }
            }
            assert(self@.messages =~= w.messages);
            assert(self@.tx_nodes =~= w.tx_nodes);
            lemma_queues_kept(self.peers@, self.peers@, t0, self.tx_nodes@);
            lemma_ops_kept(
                self.ops@,
                m0,
                self.messages@,
                self.nodes@,
                self.nodes@,
                self.handles@,
                self.handles@,
            );
            lemma_messages_reclaimed(v);
        }
    }
}

/// Addresses below the given bound were marked if one of the others relates to
/// them.
spec fn marked(
    m0: Seq<bool>,
    m1: Seq<bool>,
    r: spec_fn(Addr, Addr) -> bool,
    bound: int,
) -> bool {
    &&& m1.len() == m0.len()
    &&& forall|a: Addr| #![trigger m1[a as int]]
        a < m1.len() ==> m1[a as int] == (m0[a as int] || exists|s: Addr|
            s < bound && #[trigger] r(s, a))
}

proof fn lemma_mark(
    m0: Seq<bool>,
    m1: Seq<bool>,
    m2: Seq<bool>,
    r: spec_fn(Addr, Addr) -> bool,
    k: Addr,
)
    requires
        marked(m0, m1, r, k as int),
        m2.len() == m1.len(),
        forall|a: Addr| #![trigger m2[a as int]]
            a < m2.len() ==> m2[a as int] == (m1[a as int] || r(k, a)),
    ensures
        marked(m0, m2, r, k + 1),
{
    assert forall|a: Addr| #![trigger m2[a as int]] a < m2.len() implies m2[a as int] == (
    m0[a as int] || exists|s: Addr| s < k + 1 && #[trigger] r(s, a)) by {
        assert(m1[a as int] == (m0[a as int] || exists|s: Addr| s < k && #[trigger] r(s, a)));
        if exists|s: Addr| s < k + 1 && #[trigger] r(s, a) {
            let s = choose|s: Addr| s < k + 1 && #[trigger] r(s, a);
            assert(s == k || s < k && r(s, a));
        }
    }
}

/// Mark an address.
fn mark(marks: &mut Vec<bool>, a: Addr)
    ensures
        final(marks)@ == if a < old(marks)@.len() {
            old(marks)@.update(a as int, true)
        } else {
            old(marks)@
        },
{
    if a < marks.len() {
        marks.set(a, true);
    }
}

impl Bus {
    /// Mark the nodes of all handles.
    fn mark_nodes(&self, marks: &mut Vec<bool>)
        requires
            self.sound(),
        ensures
            final(marks)@.len() == old(marks)@.len(),
            forall|a: Addr| #![trigger final(marks)@[a as int]]
                a < final(marks)@.len() ==> final(marks)@[a as int] == (old(marks)@[a as int]
                    || self@.node_referred(a)),
    {
        let ghost m0 = marks@;
        let ghost r = |s: Addr, a: Addr|
            self@.handles.contains_key(s) && self@.handles[s].node == a;
        let n = self.handles.bound();
        let mut k: usize = 0;
        while k < n
            invariant
                k <= n,
                r == |s: Addr, a: Addr| self@.handles.contains_key(s) && self@.handles[s].node == a,
                forall|s: Addr| #[trigger] self.handles@.contains_key(s) ==> s < n,
                marked(m0, marks@, r, k as int),
            decreases n - k,
        {
            let ghost m1 = marks@;
            assert(self.handles@.contains_key(k) == self@.handles.contains_key(k));
            if self.handles.contains(k) {
                mark(marks, self.handles.get(k).node);
            }
            proof {
                lemma_mark(m0, m1, marks@, r, k);
            }
            k += 1;
        }
        proof {
            assert forall|a: Addr| #![trigger marks@[a as int]]
                a < marks@.len() implies marks@[a as int] == (m0[a as int]
                || self@.node_referred(a)) by {
                if self@.node_referred(a) {
                    let s = choose|s: Addr| #[trigger]
                        self@.handles.contains_key(s) && self@.handles[s].node == a;
                    assert(self.handles@.contains_key(s));
                    assert(r(s, a));
                }
            }
        }
    }

    /// Mark the owners of all nodes.
    fn mark_node_owners(&self, marks: &mut Vec<bool>)
        requires
            self.sound(),
        ensures
            final(marks)@.len() == old(marks)@.len(),
            forall|a: Addr| #![trigger final(marks)@[a as int]]
                a < final(marks)@.len() ==> final(marks)@[a as int] == (old(marks)@[a as int]
                    || self@.node_owner(a)),
    {
        let ghost m0 = marks@;
        let ghost r = |s: Addr, a: Addr| self@.nodes.contains_key(s) && self@.nodes[s].owner == a;
        let n = self.nodes.bound();
        let mut k: usize = 0;
        while k < n
            invariant
                k <= n,
                r == |s: Addr, a: Addr| self@.nodes.contains_key(s) && self@.nodes[s].owner == a,
                forall|s: Addr| #[trigger] self.nodes@.contains_key(s) ==> s < n,
                marked(m0, marks@, r, k as int),
            decreases n - k,
        {
            let ghost m1 = marks@;
            assert(self.nodes@.contains_key(k) == self@.nodes.contains_key(k));
            if self.nodes.contains(k) {
                mark(marks, self.nodes.get(k).owner);
            }
            proof {
                lemma_mark(m0, m1, marks@, r, k);
            }
            k += 1;
        }
        proof {
            assert forall|a: Addr| #![trigger marks@[a as int]]
                a < marks@.len() implies marks@[a as int] == (m0[a as int]
                || self@.node_owner(a)) by {
                if self@.node_owner(a) {
                    let s = choose|s: Addr| #[trigger]
                        self@.nodes.contains_key(s) && self@.nodes[s].owner == a;
                    assert(self.nodes@.contains_key(s));
                    assert(r(s, a));
                }
            }
        }
    }

    /// Mark the owners of all handles.
    fn mark_handle_owners(&self, marks: &mut Vec<bool>)
        requires
            self.sound(),
        ensures
            final(marks)@.len() == old(marks)@.len(),
            forall|a: Addr| #![trigger final(marks)@[a as int]]
                a < final(marks)@.len() ==> final(marks)@[a as int] == (old(marks)@[a as int]
                    || self@.handle_owner(a)),
    {
        let ghost m0 = marks@;
        let ghost r = |s: Addr, a: Addr|
            self@.handles.contains_key(s) && self@.handles[s].owner == a;
        let n = self.handles.bound();
        let mut k: usize = 0;
        while k < n
            invariant
                k <= n,
                r == |s: Addr, a: Addr|
                    self@.handles.contains_key(s) && self@.handles[s].owner == a,
                forall|s: Addr| #[trigger] self.handles@.contains_key(s) ==> s < n,
                marked(m0, marks@, r, k as int),
            decreases n - k,
        {
            let ghost m1 = marks@;
            assert(self.handles@.contains_key(k) == self@.handles.contains_key(k));
            if self.handles.contains(k) {
                mark(marks, self.handles.get(k).owner);
            }
            proof {
                lemma_mark(m0, m1, marks@, r, k);
            }
            k += 1;
        }
        proof {
            assert forall|a: Addr| #![trigger marks@[a as int]]
                a < marks@.len() implies marks@[a as int] == (m0[a as int]
                || self@.handle_owner(a)) by {
                if self@.handle_owner(a) {
                    let s = choose|s: Addr| #[trigger]
                        self@.handles.contains_key(s) && self@.handles[s].owner == a;
                    assert(self.handles@.contains_key(s));
                    assert(r(s, a));
                }
            }
        }
    }

    /// Mark the operators of all operations.
    fn mark_operators(&self, marks: &mut Vec<bool>)
        requires
            self.sound(),
        ensures
            final(marks)@.len() == old(marks)@.len(),
            forall|a: Addr| #![trigger final(marks)@[a as int]]
                a < final(marks)@.len() ==> final(marks)@[a as int] == (old(marks)@[a as int]
                    || self@.operator(a)),
    {
        let ghost m0 = marks@;
        let ghost r = |s: Addr, a: Addr| self@.ops.contains_key(s) && self@.ops[s].operator == a;
        let n = self.ops.bound();
        let mut k: usize = 0;
        while k < n
            invariant
                k <= n,
                r == |s: Addr, a: Addr| self@.ops.contains_key(s) && self@.ops[s].operator == a,
                forall|s: Addr| #[trigger] self.ops@.contains_key(s) ==> s < n,
                marked(m0, marks@, r, k as int),
            decreases n - k,
        {
            let ghost m1 = marks@;
            assert(self.ops@.contains_key(k) == self@.ops.contains_key(k));
            if self.ops.contains(k) {
                mark(marks, self.ops.get(k).operator);
            }
            proof {
                lemma_mark(m0, m1, marks@, r, k);
            }
            k += 1;
        }
        proof {
            assert forall|a: Addr| #![trigger marks@[a as int]]
                a < marks@.len() implies marks@[a as int] == (m0[a as int]
                || self@.operator(a)) by {
                if self@.operator(a) {
                    let s = choose|s: Addr| #[trigger]
                        self@.ops.contains_key(s) && self@.ops[s].operator == a;
                    assert(self.ops@.contains_key(s));
                    assert(r(s, a));
                }
            }
        }
    }

    /// Mark the data of all messages.
    fn mark_shareds(&self, marks: &mut Vec<bool>)
        requires
            self.sound(),
        ensures
            final(marks)@.len() == old(marks)@.len(),
            forall|a: Addr| #![trigger final(marks)@[a as int]]
                a < final(marks)@.len() ==> final(marks)@[a as int] == (old(marks)@[a as int]
                    || self@.shared_referred(a)),
    {
        let ghost m0 = marks@;
        let ghost r = |s: Addr, a: Addr|
            self@.messages.contains_key(s) && self@.messages[s].shared == a;
        let n = self.messages.bound();
        let mut k: usize = 0;
        while k < n
            invariant
                k <= n,
                r == |s: Addr, a: Addr|
                    self@.messages.contains_key(s) && self@.messages[s].shared == a,
                forall|s: Addr| #[trigger] self.messages@.contains_key(s) ==> s < n,
                marked(m0, marks@, r, k as int),
            decreases n - k,
        {
            let ghost m1 = marks@;
            assert(self.messages@.contains_key(k) == self@.messages.contains_key(k));
            if self.messages.contains(k) {
                mark(marks, self.messages.get(k).shared);
            }
            proof {
                lemma_mark(m0, m1, marks@, r, k);
            }
            k += 1;
        }
        proof {
            assert forall|a: Addr| #![trigger marks@[a as int]]
                a < marks@.len() implies marks@[a as int] == (m0[a as int]
                || self@.shared_referred(a)) by {
                if self@.shared_referred(a) {
                    let s = choose|s: Addr| #[trigger]
                        self@.messages.contains_key(s) && self@.messages[s].shared == a;
                    assert(self.messages@.contains_key(s));
                    assert(r(s, a));
                }
            }
        }
    }

    /// Mark the shutdown transactions of all peers.
    fn mark_shutdowns(&self, marks: &mut Vec<bool>)
        requires
            self.sound(),
        ensures
            final(marks)@.len() == old(marks)@.len(),
            forall|a: Addr| #![trigger final(marks)@[a as int]]
                a < final(marks)@.len() ==> final(marks)@[a as int] == (old(marks)@[a as int]
                    || self@.shutdown_tx(a)),
    {
        let ghost m0 = marks@;
        let ghost r = |s: Addr, a: Addr|
            self@.peers.contains_key(s) && self@.peers[s].shutdown == a;
        let n = self.peers.bound();
        let mut k: usize = 0;
        while k < n
            invariant
                k <= n,
                r == |s: Addr, a: Addr| self@.peers.contains_key(s) && self@.peers[s].shutdown == a,
                forall|s: Addr| #[trigger] self.peers@.contains_key(s) ==> s < n,
                marked(m0, marks@, r, k as int),
            decreases n - k,
        {
            let ghost m1 = marks@;
            assert(self.peers@.contains_key(k) == self@.peers.contains_key(k));
            if self.peers.contains(k) {
                mark(marks, self.peers.get(k).shutdown);
            }
            proof {
                lemma_mark(m0, m1, marks@, r, k);
            }
            k += 1;
        }
        proof {
            assert forall|a: Addr| #![trigger marks@[a as int]]
                a < marks@.len() implies marks@[a as int] == (m0[a as int]
                || self@.shutdown_tx(a)) by {
                if self@.shutdown_tx(a) {
                    let s = choose|s: Addr| #[trigger]
                        self@.peers.contains_key(s) && self@.peers[s].shutdown == a;
                    assert(self.peers@.contains_key(s));
                    assert(r(s, a));
                }
            }
        }
    }

    /// Mark the transactions of all operations.
    fn mark_op_txs(&self, marks: &mut Vec<bool>)
        requires
            self.sound(),
        ensures
            final(marks)@.len() == old(marks)@.len(),
            forall|a: Addr| #![trigger final(marks)@[a as int]]
                a < final(marks)@.len() ==> final(marks)@[a as int] == (old(marks)@[a as int]
                    || self@.op_tx(a)),
    {
        let ghost m0 = marks@;
        let ghost r = |s: Addr, a: Addr| self@.ops.contains_key(s) && self@.ops[s].tx == a;
        let n = self.ops.bound();
        let mut k: usize = 0;
        while k < n
            invariant
                k <= n,
                r == |s: Addr, a: Addr| self@.ops.contains_key(s) && self@.ops[s].tx == a,
                forall|s: Addr| #[trigger] self.ops@.contains_key(s) ==> s < n,
                marked(m0, marks@, r, k as int),
            decreases n - k,
        {
            let ghost m1 = marks@;
            assert(self.ops@.contains_key(k) == self@.ops.contains_key(k));
            if self.ops.contains(k) {
                mark(marks, self.ops.get(k).tx);
            }
            proof {
                lemma_mark(m0, m1, marks@, r, k);
            }
            k += 1;
        }
        proof {
            assert forall|a: Addr| #![trigger marks@[a as int]]
                a < marks@.len() implies marks@[a as int] == (m0[a as int]
                || self@.op_tx(a)) by {
                if self@.op_tx(a) {
                    let s = choose|s: Addr| #[trigger]
                        self@.ops.contains_key(s) && self@.ops[s].tx == a;
                    assert(self.ops@.contains_key(s));
                    assert(r(s, a));
                }
            }
        }
    }

    /// Mark the transactions of all entries.
    fn mark_txs(&self, marks: &mut Vec<bool>)
        requires
            self.sound(),
        ensures
            final(marks)@.len() == old(marks)@.len(),
            forall|a: Addr| #![trigger final(marks)@[a as int]]
                a < final(marks)@.len() ==> final(marks)@[a as int] == (old(marks)@[a as int]
                    || self@.entry_tx(a)),
    {
        let ghost m0 = marks@;
        let ghost r = |s: Addr, a: Addr|
            self@.tx_nodes.contains_key(s) && self@.tx_nodes[s].tx == Some(a);
        let n = self.tx_nodes.bound();
        let mut k: usize = 0;
        while k < n
            invariant
                k <= n,
                r == |s: Addr, a: Addr|
                    self@.tx_nodes.contains_key(s) && self@.tx_nodes[s].tx == Some(a),
                forall|s: Addr| #[trigger] self.tx_nodes@.contains_key(s) ==> s < n,
                marked(m0, marks@, r, k as int),
            decreases n - k,
        {
            let ghost m1 = marks@;
            assert(self.tx_nodes@.contains_key(k) == self@.tx_nodes.contains_key(k));
            if self.tx_nodes.contains(k) {
                match self.tx_nodes.get(k).tx {
                    Some(t) => mark(marks, t),
                    None => (),
                }
            }
            proof {
                lemma_mark(m0, m1, marks@, r, k);
            }
            k += 1;
        }
        proof {
            assert forall|a: Addr| #![trigger marks@[a as int]]
                a < marks@.len() implies marks@[a as int] == (m0[a as int]
                || self@.entry_tx(a)) by {
                if self@.entry_tx(a) {
                    let s = choose|s: Addr| #[trigger]
                        self@.tx_nodes.contains_key(s) && self@.tx_nodes[s].tx == Some(a);
                    assert(self.tx_nodes@.contains_key(s));
                    assert(r(s, a));
                }
            }
        }
    }

    /// Reclaim all nodes that nothing refers to.
    fn reclaim_nodes(&mut self)
        requires
            old(self).sound(),
        ensures
            final(self).sound(),
            final(self).limit() == old(self).limit(),
            final(self)@ == old(self)@.nodes_reclaimed(),
    {
        let ghost v = self@;
        let ghost m0 = self.nodes@;
        let n = self.nodes.bound();
        let mut marks: Vec<bool> = vec![false; n];
        self.mark_nodes(&mut marks);
        proof {
            assert forall|a: Addr| #[trigger] m0.contains_key(a) implies marks@[a as int]
                == v.node_referred(a) by {
                assert(a < n);
            }
            assert(keep(m0, |a: Addr| a >= 0 || v.node_held(a)) =~= m0);
        }
        let mut k: usize = 0;
        while k < n
            invariant
                k <= n,
                n == marks@.len(),
                v.nodes == m0.map_values(node_view()),
                forall|a: Addr| #[trigger]
                    m0.contains_key(a) ==> a < n && m0[a].refs >= 1 && marks@[a as int]
                        == v.node_referred(a),
                self.nodes.wf(),
                self.nodes.limit() == old(self).nodes.limit(),
                self.nodes@ == keep(m0, |a: Addr| a >= k || v.node_held(a)),
                self.peers == old(self).peers,
                self.handles == old(self).handles,
                self.messages == old(self).messages,
                self.shareds == old(self).shareds,
                self.txs == old(self).txs,
                self.tx_nodes == old(self).tx_nodes,
                self.ops == old(self).ops,
            decreases n - k,
        {
            if self.nodes.contains(k) && self.nodes.refs(k) == 1
                && !self.nodes.get(k).op_rb.is_linked() && !marks[k] {
                self.nodes.remove(k);
            }
            k += 1;
            assert(self.nodes@ =~= keep(m0, |a: Addr| a >= k || v.node_held(a)));
        }
        proof {
            assert(self@.nodes =~= v.nodes_reclaimed().nodes);
            lemma_nodes_kept(m0, self.nodes@, self.handles@, self.handles@);
            lemma_ops_kept(
                self.ops@,
                self.messages@,
                self.messages@,
                m0,
                self.nodes@,
                self.handles@,
                self.handles@,
            );
            lemma_nodes_reclaimed(v);
        }
    }

    /// Reclaim all shared data that nothing refers to.
    fn reclaim_shareds(&mut self)
        requires
            old(self).sound(),
        ensures
            final(self).sound(),
            final(self).limit() == old(self).limit(),
            final(self)@ == old(self)@.shareds_reclaimed(),
    {
        let ghost v = self@;
        let ghost m0 = self.shareds@;
        let n = self.shareds.bound();
        let mut marks: Vec<bool> = vec![false; n];
        self.mark_shareds(&mut marks);
        proof {
            assert forall|a: Addr| #[trigger] m0.contains_key(a) implies marks@[a as int]
                == v.shared_referred(a) by {
                assert(a < n);
            }
            assert(keep(m0, |a: Addr| a >= 0 || v.shared_held(a)) =~= m0);
        }
        let mut k: usize = 0;
        while k < n
            invariant
                k <= n,
                n == marks@.len(),
                v.shareds == m0.map_values(shared_view()),
                forall|a: Addr| #[trigger]
                    m0.contains_key(a) ==> a < n && m0[a].refs >= 1 && marks@[a as int]
                        == v.shared_referred(a),
                self.shareds.wf(),
                self.shareds.limit() == old(self).shareds.limit(),
                self.shareds@ == keep(m0, |a: Addr| a >= k || v.shared_held(a)),
                self.peers == old(self).peers,
                self.nodes == old(self).nodes,
                self.handles == old(self).handles,
                self.messages == old(self).messages,
                self.txs == old(self).txs,
                self.tx_nodes == old(self).tx_nodes,
                self.ops == old(self).ops,
            decreases n - k,
        {
            if self.shareds.contains(k) && self.shareds.refs(k) == 1 && !marks[k] {
                self.shareds.remove(k);
            }
            k += 1;
            assert(self.shareds@ =~= keep(m0, |a: Addr| a >= k || v.shared_held(a)));
        }
        proof {
            assert(self@.shareds =~= v.shareds_reclaimed().shareds);
            lemma_shareds_reclaimed(v);
        }
    }

    /// Reclaim all transactions that nothing refers to.
    fn reclaim_txs(&mut self)
        requires
            old(self).sound(),
        ensures
            final(self).sound(),
            final(self).limit() == old(self).limit(),
            final(self)@ == old(self)@.txs_reclaimed(),
    {
        let ghost v = self@;
        let ghost m0 = self.txs@;
        let n = self.txs.bound();
        let mut marks: Vec<bool> = vec![false; n];
        self.mark_shutdowns(&mut marks);
        self.mark_op_txs(&mut marks);
        self.mark_txs(&mut marks);
        proof {
            assert forall|a: Addr| #[trigger] m0.contains_key(a) implies marks@[a as int]
                == v.tx_referred(a) by {
                assert(a < n);
            }
            assert(keep(m0, |a: Addr| a >= 0 || v.tx_referred(a)) =~= m0);
        }
        let mut k: usize = 0;
        while k < n
            invariant
                k <= n,
                n == marks@.len(),
                v.txs == m0.map_values(tx_view()),
                forall|a: Addr| #[trigger]
                    m0.contains_key(a) ==> a < n && marks@[a as int]
                        == v.tx_referred(a),
                self.txs.wf(),
                self.txs.limit() == old(self).txs.limit(),
                self.txs@ == keep(m0, |a: Addr| a >= k || v.tx_referred(a)),
                self.peers == old(self).peers,
                self.nodes == old(self).nodes,
                self.handles == old(self).handles,
                self.messages == old(self).messages,
                self.shareds == old(self).shareds,
                self.tx_nodes == old(self).tx_nodes,
                self.ops == old(self).ops,
            decreases n - k,
        {
            if self.txs.contains(k) && !marks[k] {
                self.txs.remove(k);
            }
            k += 1;
            assert(self.txs@ =~= keep(m0, |a: Addr| a >= k || v.tx_referred(a)));
        }
        proof {
            assert(self@.txs =~= v.txs_reclaimed().txs);
            lemma_txs_reclaimed(v);
        }
    }
}

impl Bus {
    /// Mark the handles that messages refer to.
    fn mark_handles(&self, marks: &mut Vec<bool>)
        requires
            self.sound(),
        ensures
            final(marks)@.len() == old(marks)@.len(),
            forall|a: Addr| #![trigger final(marks)@[a as int]]
                a < final(marks)@.len() ==> final(marks)@[a as int] == (old(marks)@[a as int]
                    || self@.handle_referred(a)),
    {
        let ghost m0 = marks@;
        let ghost r = |s: Addr, a: Addr|
            self@.messages.contains_key(s) && (self@.messages[s].via == a
                || self@.messages[s].transfers.contains(a));
        let n = self.messages.bound();
        let mut k: usize = 0;
        while k < n
            invariant
                k <= n,
                r == |s: Addr, a: Addr|
                    self@.messages.contains_key(s) && (self@.messages[s].via == a
                        || self@.messages[s].transfers.contains(a)),
                forall|s: Addr| #[trigger] self.messages@.contains_key(s) ==> s < n,
                marked(m0, marks@, r, k as int),
            decreases n - k,
        {
            let ghost m1 = marks@;
            assert(self.messages@.contains_key(k) == self@.messages.contains_key(k));
            if self.messages.contains(k) {
                let message = self.messages.get(k);
                mark(marks, message.via);
                mark_all(marks, &message.transfers);
            }
            proof {
                lemma_mark(m0, m1, marks@, r, k);
            }
            k += 1;
        }
        proof {
            assert forall|a: Addr| #![trigger marks@[a as int]]
                a < marks@.len() implies marks@[a as int] == (m0[a as int]
                || self@.handle_referred(a)) by {
                if self@.handle_referred(a) {
                    let s = choose|s: Addr| #[trigger]
                        self@.messages.contains_key(s) && (self@.messages[s].via == a
                            || self@.messages[s].transfers.contains(a));
                    assert(self.messages@.contains_key(s));
                    assert(r(s, a));
                }
            }
        }
    }

    /// Reclaim all handles that nothing refers to.
    fn reclaim_handles(&mut self)
        requires
            old(self).sound(),
        ensures
            final(self).sound(),
            final(self).limit() == old(self).limit(),
            final(self)@ == old(self)@.handles_reclaimed(),
    {
        let ghost v = self@;
        let ghost m0 = self.handles@;
        let ghost t0 = self.tx_nodes@;
        let n = self.handles.bound();
        let mut marks: Vec<bool> = vec![false; n];
        self.mark_handles(&mut marks);
        proof {
            lemma_ok(v);
            assert forall|a: Addr| #[trigger] m0.contains_key(a) implies marks@[a as int]
                == v.handle_referred(a) by {
                assert(a < n);
            }
            assert(keep(m0, |a: Addr| a >= 0 || v.handle_held(a)) =~= m0);
            assert(keep(
                t0,
                |e: Addr|
                    t0[e].value.kind != TxNodeKind::User ==> t0[e].value.base >= 0
                        || v.handle_held(t0[e].value.base),
            ) =~= t0);
        }
        let mut k: usize = 0;
        while k < n
            invariant
                k <= n,
                n == marks@.len(),
                v.intact(),
                v.handles == m0.map_values(handle_view()),
                v.tx_nodes == t0.map_values(tx_node_view()),
                forall|a: Addr| #[trigger]
                    m0.contains_key(a) ==> a < n && m0[a].refs >= 1 && marks@[a as int]
                        == v.handle_referred(a),
                self.handles.wf(),
                self.tx_nodes.wf(),
                self.handles.limit() == old(self).handles.limit(),
                self.tx_nodes.limit() == old(self).tx_nodes.limit(),
                self.handles@ == keep(m0, |a: Addr| a >= k || v.handle_held(a)),
                self.tx_nodes@ == keep(
                    t0,
                    |e: Addr|
                        t0[e].value.kind != TxNodeKind::User ==> t0[e].value.base >= k
                            || v.handle_held(t0[e].value.base),
                ),
                self.peers == old(self).peers,
                self.nodes == old(self).nodes,
                self.messages == old(self).messages,
                self.shareds == old(self).shareds,
                self.txs == old(self).txs,
                self.ops == old(self).ops,
            decreases n - k,
        {
            proof {
                lemma_ok(v);
            }
            if self.handles.contains(k) {
                proof {
                    assert(m0.contains_key(k));
                    assert(v.handles.contains_key(k));
                    assert(v.handle_ok(k));
                    assert(t0.contains_key(m0[k].value.release_node));
                    assert(t0.contains_key(m0[k].value.release_handle));
                }
                let h = self.handles.get(k);
                let e = h.release_node;
                let f = h.release_handle;
                if self.handles.refs(k) == 1 && !h.node_rb.is_linked() && !h.op_rb.is_linked()
                    && !self.tx_nodes.get(e).peer_link.is_linked()
                    && !self.tx_nodes.get(f).peer_link.is_linked() && !marks[k] {
                    self.handles.remove(k);
                    self.tx_nodes.remove(e);
                    self.tx_nodes.remove(f);
                    proof {
                        assert(!v.handle_held(k));
                        assert forall|x: Addr| #[trigger] t0.contains_key(x)
                            && t0[x].value.kind != TxNodeKind::User && t0[x].value.base
                            == k implies x == e || x == f by {
                            assert(v.tx_nodes.contains_key(x));
                            assert(v.tx_node_ok(x));
                        }
                    }
                } else {
                    assert(v.handle_held(k));
                }
            } else {
                assert forall|x: Addr| #[trigger] t0.contains_key(x) && t0[x].value.kind
                    != TxNodeKind::User && t0[x].value.base == k implies v.handle_held(k) by {
                    assert(v.tx_nodes.contains_key(x));
                    assert(v.tx_node_ok(x));
                    assert(m0.contains_key(k));
                }
            }
            k += 1;
            proof {
                assert(self.handles@ =~= keep(m0, |a: Addr| a >= k || v.handle_held(a)));
                assert(self.tx_nodes@ =~= keep(
                    t0,
                    |e: Addr|
                        t0[e].value.kind != TxNodeKind::User ==> t0[e].value.base >= k
                            || v.handle_held(t0[e].value.base),
                ));
            }
        }
        proof {
            lemma_ok(v);
            let w = v.handles_reclaimed();
            assert forall|e: Addr| #[trigger] t0.contains_key(e) implies v.tx_nodes.contains_key(e)
                && v.tx_node_ok(e) && (t0[e].value.kind != TxNodeKind::User
                ==> t0[e].value.base < n) by {
                assert(v.tx_nodes.contains_key(e));
                assert(v.tx_node_ok(e));
                if t0[e].value.kind != TxNodeKind::User {
                    assert(m0.contains_key(t0[e].value.base));
                }
            }
            assert(self@.handles =~= w.handles);
            assert(self@.tx_nodes =~= w.tx_nodes);
            lemma_queues_kept(self.peers@, self.peers@, t0, self.tx_nodes@);
            lemma_nodes_kept(self.nodes@, self.nodes@, m0, self.handles@);
            lemma_ops_kept(
                self.ops@,
                self.messages@,
                self.messages@,
                self.nodes@,
                self.nodes@,
                m0,
                self.handles@,
            );
            lemma_handles_reclaimed(v);
        }
    }

    /// Reclaim all peers that nothing refers to, and hand out their actors.
    fn reclaim_peers(&mut self) -> (r: Vec<Actor>)
        requires
            old(self).sound(),
        ensures
            final(self).sound(),
            final(self).limit() == old(self).limit(),
            final(self)@ == old(self)@.peers_reclaimed(),
            actors_released(old(self)@, final(self)@, r@.map_values(|a: Actor| a.addr())),
    {
        let ghost v = self@;
        let ghost m0 = self.peers@;
        let n = self.peers.bound();
        let mut marks: Vec<bool> = vec![false; n];
        self.mark_node_owners(&mut marks);
        self.mark_handle_owners(&mut marks);
        self.mark_operators(&mut marks);
        let mut r: Vec<Actor> = Vec::new();
        let ghost mut ps: Seq<Addr> = Seq::empty();
        proof {
            assert forall|a: Addr| #[trigger] m0.contains_key(a) implies marks@[a as int]
                == v.peer_referred(a) by {
                assert(a < n);
            }
            assert(keep(m0, |a: Addr| a >= 0 || v.peer_held(a)) =~= m0);
        }
        let mut k: usize = 0;
        while k < n
            invariant
                k <= n,
                n == marks@.len(),
                v.peers == m0.map_values(peer_view()),
                forall|a: Addr| #[trigger]
                    m0.contains_key(a) ==> a < n && m0[a].refs >= 1 && marks@[a as int]
                        == v.peer_referred(a),
                self.peers.wf(),
                self.peers.limit() == old(self).peers.limit(),
                self.peers@ == keep(m0, |a: Addr| a >= k || v.peer_held(a)),
                self.nodes == old(self).nodes,
                self.handles == old(self).handles,
                self.messages == old(self).messages,
                self.shareds == old(self).shareds,
                self.txs == old(self).txs,
                self.tx_nodes == old(self).tx_nodes,
                self.ops == old(self).ops,
                ps.no_duplicates(),
                forall|p: Addr| #[trigger]
                    ps.contains(p) <==> m0.contains_key(p) && p < k && !v.peer_held(p),
                ps.len() == r@.len(),
                forall|i: int| #![trigger ps[i]]
                    0 <= i < ps.len() ==> r@[i].addr() == v.peers[ps[i]].actor,
            decreases n - k,
        {
            if self.peers.contains(k) && self.peers.refs(k) == 1 && !marks[k] {
                assert(m0.contains_key(k));
                let peer = self.peers.remove(k);
                r.push(peer.actor);
                proof {
                    let qs = ps.push(k);
                    assert forall|p: Addr| #[trigger] qs.contains(p) <==> ps.contains(p) || p
                        == k by {
                        assert(qs[ps.len() as int] == k);
                        if ps.contains(p) {
                            let i = choose|i: int| 0 <= i < ps.len() && ps[i] == p;
                            assert(qs[i] == p);
                        }
                    }
                    assert(!ps.contains(k));
                    ps = qs;
                }
            } else {
                assert(m0.contains_key(k) ==> v.peer_held(k));
            }
            k += 1;
            assert(self.peers@ =~= keep(m0, |a: Addr| a >= k || v.peer_held(a)));
        }
        proof {
            assert(self@.peers =~= v.peers_reclaimed().peers);
            lemma_queues_kept(m0, self.peers@, self.tx_nodes@, self.tx_nodes@);
            lemma_peers_reclaimed(v);
            assert(r@.map_values(|a: Actor| a.addr()) =~= ps.map_values(
                |p: Addr| v.peers[p].actor,
            ));
            assert(released_by(v, self@, r@.map_values(|a: Actor| a.addr()), ps));
        }
        r
    }

    /// Reclaim all objects that nothing refers to.
    ///
    /// Returns the actors of all peers that were reclaimed. They are to be
    /// released by the caller.
    pub fn reclaim(&mut self) -> (r: Vec<Actor>)
        requires
            old(self).wf(),
        ensures
            final(self).wf(),
            final(self).limit() == old(self).limit(),
            final(self)@ == old(self)@.reclaimed(),
            actors_released(old(self)@, final(self)@, r@.map_values(|a: Actor| a.addr())),
    {
        let ghost v = self@;
        self.reclaim_messages();
        self.reclaim_handles();
        self.reclaim_nodes();
        let ghost v3 = self@;
        let r = self.reclaim_peers();
        let ghost v4 = self@;
        self.reclaim_shareds();
        self.reclaim_txs();
        proof {
            let actors = r@.map_values(|a: Actor| a.addr());
            let ps = choose|ps: Seq<Addr>| #[trigger] released_by(v3, v4, actors, ps);
            assert(released_by(v, self@, actors, ps));
            lemma_unmoved(v, self@);
        }
        r
    }
}

/// Mark a series of addresses.
fn mark_all(marks: &mut Vec<bool>, s: &Vec<Addr>)
    ensures
        final(marks)@.len() == old(marks)@.len(),
        forall|a: Addr| #![trigger final(marks)@[a as int]]
            a < final(marks)@.len() ==> final(marks)@[a as int] == (old(marks)@[a as int]
                || s@.contains(a)),
{
    let ghost m0 = marks@;
    let mut k: usize = 0;
    while k < s.len()
        invariant
            k <= s@.len(),
            marks@.len() == m0.len(),
            forall|a: Addr| #![trigger marks@[a as int]]
                a < marks@.len() ==> marks@[a as int] == (m0[a as int] || s@.take(
                    k as int,
                ).contains(a)),
        decreases s@.len() - k,
    {
        let ghost m1 = marks@;
        mark(marks, s[k]);
        proof {
            let t = s@.take(k + 1);
            assert forall|a: Addr| #![trigger marks@[a as int]]
                a < marks@.len() implies marks@[a as int] == (m0[a as int] || t.contains(a)) by {
                assert(m1[a as int] == (m0[a as int] || s@.take(k as int).contains(a)));
                assert(t[k as int] == s@[k as int]);
                if s@.take(k as int).contains(a) {
                    let i = choose|i: int| 0 <= i < k && s@.take(k as int)[i] == a;
                    assert(t[i] == a);
                }
                if t.contains(a) {
                    let i = choose|i: int| 0 <= i < t.len() && t[i] == a;
                    if i < k {
                        assert(s@.take(k as int)[i] == a);
                    }
                }
            }
        }
        k += 1;
    }
    assert(s@.take(k as int) =~= s@);
}

/// The given actors are those of the peers that are gone.
pub open spec fn actors_released(v: BusView, w: BusView, actors: Seq<Addr>) -> bool {
    exists|ps: Seq<Addr>| #[trigger] released_by(v, w, actors, ps)
}

/// The given actors are those of the given peers, which are gone.
pub open spec fn released_by(v: BusView, w: BusView, actors: Seq<Addr>, ps: Seq<Addr>) -> bool {
    &&& ps.no_duplicates()
    &&& forall|p: Addr| #[trigger]
        ps.contains(p) <==> v.peers.contains_key(p) && !w.peers.contains_key(p)
    &&& actors == ps.map_values(|p: Addr| v.peers[p].actor)
}

} // verus!
