//! Independence of lists and trees.
//!
//! Lists and trees of a bus are linked through the objects in them. They are not
//! affected by changes to other objects.

use crate::bus::model::{lemma_add_contains, lemma_ok, BusView};
use crate::bus::{
    nodes_linked, ops_linked, peer_view, queues_linked, tx_node_view, Handle, HandleNodeRb,
    HandleOpRb, Message, MessageOpRb, Node, NodeOpRb, Op, Peer, TxNode, TxNodePeerLink,
};
use crate::util::arena::{Addr, Object};
use crate::util::slist::lemma_chain_frame;
use crate::util::{rb, slist};
use vstd::prelude::*;

verus! {

/// The lists of peers do not depend on anything but these lists, and the links
/// of entries.
pub(super) proof fn lemma_queues_frame(
    peers0: Map<Addr, Object<Peer>>,
    peers1: Map<Addr, Object<Peer>>,
    m0: Map<Addr, Object<TxNode>>,
    m1: Map<Addr, Object<TxNode>>,
)
    requires
        queues_linked(peers0, m0),
        forall|p: Addr| #[trigger]
            peers1.contains_key(p) ==> {
                ||| peers0.contains_key(p) && peers1[p].value.queue == peers0[p].value.queue
                    && peers1[p].value.inner == peers0[p].value.inner
                ||| peers1[p].value.queue.wf(m1) && peers1[p].value.inner.queue_ready.wf(m1)
                    && peers1[p].value.inner.queue_busy.wf(m1)
            },
        forall|e: Addr| #[trigger]
            m0.contains_key(e) ==> m1.contains_key(e) && m1[e].value.peer_link
                == m0[e].value.peer_link,
    ensures
        queues_linked(peers1, m1),
{
    assert forall|p: Addr| #[trigger] peers1.contains_key(p) implies {
        &&& peers1[p].value.queue.wf(m1)
        &&& peers1[p].value.inner.queue_ready.wf(m1)
        &&& peers1[p].value.inner.queue_busy.wf(m1)
    } by {
        if peers0.contains_key(p) && peers1[p].value.queue == peers0[p].value.queue
            && peers1[p].value.inner == peers0[p].value.inner {
            let peer = peers0[p].value;
            assert(peer.queue.wf(m0));
            if !peer.queue.sealed() {
                lemma_chain_frame::<TxNodePeerLink>(m0, m1, peer.queue.first(), peer.queue@);
            }
            let ready = peer.inner.queue_ready;
            lemma_chain_frame::<TxNodePeerLink>(m0, m1, ready.first(), ready@);
            let busy = peer.inner.queue_busy;
            lemma_chain_frame::<TxNodePeerLink>(m0, m1, busy.first(), busy@);
        }
    }
}

/// The trees of nodes do not depend on anything but these trees, and the links
/// of handles.
pub(super) proof fn lemma_nodes_frame(
    nodes0: Map<Addr, Object<Node>>,
    nodes1: Map<Addr, Object<Node>>,
    m0: Map<Addr, Object<Handle>>,
    m1: Map<Addr, Object<Handle>>,
)
    requires
        nodes_linked(nodes0, m0),
        forall|n: Addr| #[trigger]
            nodes1.contains_key(n) ==> {
                &&& nodes1[n].value.addr == n
                &&& {
                    ||| nodes0.contains_key(n) && nodes1[n].value.handles
                        == nodes0[n].value.handles
                    ||| nodes1[n].value.handles.wf(m1) && nodes1[n].value.handles.owner() == n
                }
            },
        forall|h: Addr| #[trigger]
            m0.contains_key(h) ==> m1.contains_key(h) && m1[h].value.node_rb
                == m0[h].value.node_rb && m1[h].value.node == m0[h].value.node,
        forall|h: Addr| #[trigger]
            m1.contains_key(h) ==> m0.contains_key(h) || m1[h].value.node_rb.owner is None,
    ensures
        nodes_linked(nodes1, m1),
{
    assert forall|n: Addr| #[trigger] nodes1.contains_key(n) implies
        nodes1[n].value.handles.wf(m1) && nodes1[n].value.handles.owner() == n by {
        if nodes0.contains_key(n) && nodes1[n].value.handles == nodes0[n].value.handles {
            rb::lemma_tree_frame::<HandleNodeRb>(&nodes0[n].value.handles, m0, m1);
        }
    }
    assert forall|h: Addr| #[trigger] m1.contains_key(h) implies m1[h].value.node_rb.owner is None
        || m1[h].value.node_rb.owner == Some(m1[h].value.node) by {
        assert(m0.contains_key(h) ==> m1[h].value.node == m0[h].value.node);
    }
}

/// The trees of operations do not depend on anything but these trees, and the
/// links of what is in them.
pub(super) proof fn lemma_ops_frame(
    ops0: Map<Addr, Object<Op>>,
    ops1: Map<Addr, Object<Op>>,
    messages0: Map<Addr, Object<Message>>,
    messages1: Map<Addr, Object<Message>>,
    nodes0: Map<Addr, Object<Node>>,
    nodes1: Map<Addr, Object<Node>>,
    handles0: Map<Addr, Object<Handle>>,
    handles1: Map<Addr, Object<Handle>>,
)
    requires
        ops_linked(ops0, messages0, nodes0, handles0),
        forall|o: Addr| #[trigger]
            ops1.contains_key(o) ==> ops0.contains_key(o) && ops1[o].value.messages
                == ops0[o].value.messages && ops1[o].value.nodes == ops0[o].value.nodes
                && ops1[o].value.handles == ops0[o].value.handles,
        forall|m: Addr| #[trigger]
            messages0.contains_key(m) ==> messages1.contains_key(m) && messages1[m].value.op_rb
                == messages0[m].value.op_rb,
        forall|m: Addr| #[trigger]
            messages1.contains_key(m) ==> messages0.contains_key(m)
                || messages1[m].value.op_rb.owner is None,
        forall|n: Addr| #[trigger]
            nodes0.contains_key(n) ==> nodes1.contains_key(n) && nodes1[n].value.op_rb
                == nodes0[n].value.op_rb,
        forall|n: Addr| #[trigger]
            nodes1.contains_key(n) ==> nodes0.contains_key(n) || nodes1[n].value.op_rb.owner is None,
        forall|h: Addr| #[trigger]
            handles0.contains_key(h) ==> handles1.contains_key(h) && handles1[h].value.op_rb
                == handles0[h].value.op_rb,
        forall|h: Addr| #[trigger]
            handles1.contains_key(h) ==> handles0.contains_key(h)
                || handles1[h].value.op_rb.owner is None,
    ensures
        ops_linked(ops1, messages1, nodes1, handles1),
{
    assert forall|o: Addr| #[trigger] ops1.contains_key(o) implies {
        &&& ops1[o].value.messages.wf(messages1)
        &&& ops1[o].value.messages.owner() == o
        &&& ops1[o].value.nodes.wf(nodes1)
        &&& ops1[o].value.nodes.owner() == o
        &&& ops1[o].value.handles.wf(handles1)
        &&& ops1[o].value.handles.owner() == o
    } by {
        let op = ops0[o].value;
        assert(ops0.contains_key(o));
        rb::lemma_tree_frame::<MessageOpRb>(&op.messages, messages0, messages1);
        rb::lemma_tree_frame::<NodeOpRb>(&op.nodes, nodes0, nodes1);
        rb::lemma_tree_frame::<HandleOpRb>(&op.handles, handles0, handles1);
    }
}

/// Moving an entry between two lists does not affect another one.
pub(super) proof fn lemma_list_apart(
    m0: Map<Addr, Object<TxNode>>,
    m1: Map<Addr, Object<TxNode>>,
    list: slist::List<TxNodePeerLink>,
    touched: Set<Addr>,
)
    requires
        list.wf(m0),
        slist::relinked::<TxNodePeerLink>(m0, m1, touched),
        forall|a: Addr| #[trigger] list@.contains(a) ==> !touched.contains(a),
    ensures
        list.wf(m1),
{
    assert forall|i: int| #![trigger list@[i]] 0 <= i < list@.len() implies m1.contains_key(
        list@[i],
    ) && m1[list@[i]] == m0[list@[i]] by {
        assert(list@.contains(list@[i]));
    }
    lemma_chain_frame::<TxNodePeerLink>(m0, m1, list.first(), list@);
}

/// Changes to entries of other peers do not affect the lists of a peer.
pub(super) proof fn lemma_peer_apart(
    v: BusView,
    peers: Map<Addr, Object<Peer>>,
    m0: Map<Addr, Object<TxNode>>,
    m1: Map<Addr, Object<TxNode>>,
    p: Addr,
    touched: Set<Addr>,
)
    requires
        v.intact(),
        v.peers == peers.map_values(peer_view()),
        v.tx_nodes == m0.map_values(tx_node_view()),
        queues_linked(peers, m0),
        peers.contains_key(p),
        slist::relinked::<TxNodePeerLink>(m0, m1, touched),
        forall|e: Addr| #[trigger] touched.contains(e) ==> v.dest(e) != p,
    ensures
        peers[p].value.queue.wf(m1),
        peers[p].value.inner.queue_ready.wf(m1),
        peers[p].value.inner.queue_busy.wf(m1),
{
    lemma_ok(v);
    assert(v.peers.contains_key(p) && v.peer_ok(p));
    let peer = v.peers[p];
    let s = v.lists(p);
    lemma_add_contains(peer.queue, peer.ready);
    lemma_add_contains(peer.queue + peer.ready, peer.busy);
    assert forall|e: Addr| #[trigger] s.contains(e) implies !touched.contains(e) && m0.contains_key(
        e,
    ) && m1.contains_key(e) && m1[e] == m0[e] by {
        let j = choose|j: int| 0 <= j < s.len() && s[j] == e;
        assert(v.tx_nodes.contains_key(s[j]));
        assert(v.dest(s[j]) == p);
    }
    let ready = peers[p].value.inner.queue_ready;
    let busy = peers[p].value.inner.queue_busy;
    let queue = peers[p].value.queue;
    assert forall|i: int| #![trigger ready@[i]] 0 <= i < ready@.len() implies m1.contains_key(
        ready@[i],
    ) && m1[ready@[i]] == m0[ready@[i]] by {
        assert(ready@.contains(ready@[i]));
        assert(s.contains(ready@[i]));
    }
    lemma_chain_frame::<TxNodePeerLink>(m0, m1, ready.first(), ready@);
    assert forall|i: int| #![trigger busy@[i]] 0 <= i < busy@.len() implies m1.contains_key(
        busy@[i],
    ) && m1[busy@[i]] == m0[busy@[i]] by {
        assert(busy@.contains(busy@[i]));
        assert(s.contains(busy@[i]));
    }
    lemma_chain_frame::<TxNodePeerLink>(m0, m1, busy.first(), busy@);
    if !queue.sealed() {
        assert forall|i: int| #![trigger queue@[i]] 0 <= i < queue@.len() implies m1.contains_key(
            queue@[i],
        ) && m1[queue@[i]] == m0[queue@[i]] by {
            assert(queue@.contains(queue@[i]));
            assert(s.contains(queue@[i]));
        }
        lemma_chain_frame::<TxNodePeerLink>(m0, m1, queue.first(), queue@);
    }
}

} // verus!
