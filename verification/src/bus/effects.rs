//! What a commit does to a bus, in terms of what is part of the operation.

use crate::bus::calls::lemma_peek;
use crate::bus::capi::peer_peek;
use crate::bus::laws::{
    lemma_all_notified, lemma_commit_keeps_intact, lemma_commit_queues, lemma_linked_stays,
    lemma_linked_stays_all, lemma_nodes_cleared_ok, lemma_notifies, lemma_others_stay_unlinked,
    lemma_rearranged_in, lemma_transfers_linked, lemma_transfers_linked_ok, occurrences,
};
use crate::bus::model::{
    all_in, committed_as, lemma_add_contains, lemma_dest, lemma_filter_once, lemma_ok,
    lemma_op_messages_cleared, lemma_op_nodes_cleared, lemma_tx_committed, op_committed, BusView,
    HandleView, MessageView, NodeView, PeerView, TxNodeKind,
};
use crate::bus::order::{lemma_node_entries, lemma_op_entries, lemma_op_entry, lemma_op_queued};
use crate::bus::{Bus, Op, Peek, Peer};
use crate::util::arena::Addr;
use vstd::prelude::*;

verus! {

/// The peer that a handle leads to.
pub open spec fn target(v: BusView, h: Addr) -> Addr {
    v.nodes[v.handles[h].node].owner
}

/// A message of an operation that can be delivered: the peer it is sent to was
/// not shut down, and the message was not delivered before.
pub open spec fn delivers(v: BusView, o: Addr, m: Addr) -> bool {
    &&& v.ops[o].messages.contains(m)
    &&& !v.peers[target(v, v.messages[m].via)].sealed
    &&& !v.tx_nodes[v.messages[m].tx_node].queued
}

/// A handle that the owner of its node can be notified about, if it is released
/// by an operation.
pub open spec fn lets_go(v: BusView, o: Addr, h: Addr) -> bool {
    &&& v.ops[o].handles.contains(h)
    &&& !v.peers[target(v, h)].sealed
    &&& !v.tx_nodes[v.handles[h].release_handle].queued
}

/// A handle to a node that is released by an operation, whose owner can be
/// notified about it.
pub open spec fn disconnects(v: BusView, o: Addr, h: Addr) -> bool {
    &&& v.handles.contains_key(h)
    &&& v.handles[h].linked
    &&& v.ops[o].nodes.contains(v.handles[h].node)
    &&& !v.peers[v.handles[h].owner].sealed
    &&& !v.tx_nodes[v.handles[h].release_node].queued
}

/// A handle is transferred by a message that can be delivered.
pub open spec fn hands_over(v: BusView, o: Addr, h: Addr) -> bool {
    exists|m: Addr| #[trigger] delivers(v, o, m) && v.messages[m].transfers.contains(h)
}

/// A handle is linked once its operation is delivered, unless the node is
/// released.
pub open spec fn connected(v: BusView, o: Addr, h: Addr) -> bool {
    hands_over(v, o, h) || v.handles[h].linked && !lets_go(v, o, h)
}

/// An entry arrives at a peer as part of an operation: it is the entry of a
/// message to the peer, the notification to the owner of a handle, or the one to
/// the owner of a node.
pub open spec fn arrives(v: BusView, o: Addr, p: Addr, e: Addr) -> bool {
    let base = v.tx_nodes[e].base;
    match v.tx_nodes[e].kind {
        TxNodeKind::User => delivers(v, o, base) && v.messages[base].tx_node == e && target(
            v,
            v.messages[base].via,
        ) == p,
        TxNodeKind::ReleaseNode => disconnects(v, o, base) && v.handles[base].release_node == e
            && v.handles[base].owner == p,
        TxNodeKind::ReleaseHandle => lets_go(v, o, base) && v.handles[base].release_handle == e
            && target(v, base) == p,
    }
}

/// How a commit affects handles, nodes, and messages. Handles that are
/// transferred are linked, handles that are released are not, and neither are
/// handles to nodes that are released.
pub open spec fn relinks(v: BusView, w: BusView, o: Addr) -> bool {
    &&& w.handles.dom() == v.handles.dom()
    &&& forall|h: Addr| #[trigger]
        v.handles.contains_key(h) ==> w.handles[h] == (HandleView {
            linked: connected(v, o, h) && !v.ops[o].nodes.contains(v.handles[h].node),
            op: if v.ops[o].handles.contains(h) {
                None
            } else {
                v.handles[h].op
            },
            ..v.handles[h]
        })
    &&& w.nodes.dom() == v.nodes.dom()
    &&& forall|n: Addr| #[trigger]
        v.nodes.contains_key(n) ==> {
            &&& w.nodes[n] == (NodeView {
                handles: w.nodes[n].handles,
                op: if v.ops[o].nodes.contains(n) {
                    None
                } else {
                    v.nodes[n].op
                },
                ..v.nodes[n]
            })
            &&& w.nodes[n].handles.no_duplicates()
            &&& forall|i: int, j: int| #![trigger w.nodes[n].handles[i], w.nodes[n].handles[j]]
                0 <= i < j < w.nodes[n].handles.len() ==> w.handles[w.nodes[n].handles[i]].owner
                    <= w.handles[w.nodes[n].handles[j]].owner
            &&& forall|h: Addr| #[trigger]
                w.nodes[n].handles.contains(h) <==> w.handles.contains_key(h)
                    && w.handles[h].linked && w.handles[h].node == n
        }
    &&& w.messages.dom() == v.messages.dom()
    &&& forall|m: Addr| #[trigger]
        v.messages.contains_key(m) ==> w.messages[m] == (MessageView {
            op: if v.ops[o].messages.contains(m) {
                None
            } else {
                v.messages[m].op
            },
            ..v.messages[m]
        })
    &&& w.shareds == v.shareds
    &&& w.ops == v.ops.remove(o)
}

/// Objects are the same, but for what is queued, and how they are linked.
spec fn steady(v: BusView, w: BusView) -> bool {
    &&& w.shareds == v.shareds
    &&& forall|m: Addr| #[trigger]
        v.messages.contains_key(m) ==> w.messages.contains_key(m) && w.messages[m]
            == (MessageView { op: w.messages[m].op, ..v.messages[m] })
    &&& forall|n: Addr| #[trigger]
        v.nodes.contains_key(n) ==> w.nodes.contains_key(n) && w.nodes[n] == (NodeView {
            handles: w.nodes[n].handles,
            op: w.nodes[n].op,
            ..v.nodes[n]
        })
    &&& forall|h: Addr| #[trigger]
        v.handles.contains_key(h) ==> w.handles.contains_key(h) && w.handles[h] == (HandleView {
            linked: w.handles[h].linked,
            op: w.handles[h].op,
            ..v.handles[h]
        })
}

proof fn lemma_messages_steady(v: BusView, o: Addr, s: Seq<Addr>)
    ensures
        steady(v, v.messages_queued(o, s)),
    decreases s.len(),
{
    if s.len() > 0 {
        lemma_messages_steady(v, o, s.drop_last());
    }
}

proof fn lemma_owners_steady(v: BusView, o: Addr, s: Seq<Addr>)
    ensures
        steady(v, v.owners_queued(o, s)),
    decreases s.len(),
{
    if s.len() > 0 {
        lemma_owners_steady(v, o, s.drop_last());
    }
}

proof fn lemma_nodes_steady(v: BusView, o: Addr, s: Seq<Addr>)
    ensures
        steady(v, v.nodes_queued(o, s)),
    decreases s.len(),
{
    if s.len() > 0 {
        let w = v.nodes_queued(o, s.drop_last());
        lemma_nodes_steady(v, o, s.drop_last());
        lemma_owners_steady(w, o, w.nodes[s.last()].handles);
    }
}

proof fn lemma_handles_steady(v: BusView, o: Addr, s: Seq<Addr>)
    ensures
        steady(v, v.handles_queued(o, s)),
    decreases s.len(),
{
    if s.len() > 0 {
        lemma_handles_steady(v, o, s.drop_last());
    }
}

proof fn lemma_links_steady(v: BusView, s: Seq<Addr>)
    ensures
        steady(v, v.handles_linked(s)),
    decreases s.len(),
{
    if s.len() > 0 {
        lemma_links_steady(v, s.drop_last());
    }
}

proof fn lemma_transfers_steady(v: BusView, s: Seq<Addr>)
    ensures
        steady(v, v.transfers_linked(s)),
    decreases s.len(),
{
    if s.len() > 0 {
        let w = v.transfers_linked(s.drop_last());
        lemma_transfers_steady(v, s.drop_last());
        lemma_links_steady(w, w.messages[s.last()].transfers);
    }
}

proof fn lemma_cleared_steady(v: BusView, s: Seq<Addr>)
    ensures
        steady(v, v.nodes_cleared(s)),
    decreases s.len(),
{
    if s.len() > 0 {
        lemma_cleared_steady(v, s.drop_last());
    }
}

proof fn lemma_commit_steady(v: BusView, w: BusView, o: Addr, wakes: Seq<Addr>)
    requires
        op_committed(v, w, o, wakes),
    ensures
        steady(v, w),
{
    let (ms, ns, rs, hs) = choose|ms: Seq<Addr>, ns: Seq<Addr>, rs: Seq<Addr>, hs: Seq<Addr>|
        #[trigger] committed_as(v, w, o, wakes, ms, ns, rs, hs);
    let v1 = v.messages_queued(o, v.ops[o].messages);
    let v2 = v1.nodes_queued(o, v1.ops[o].nodes);
    let a = v.op_queued(o).tx_committed(v.ops[o].tx);
    let a1 = a.op_messages_cleared(o);
    let b = a1.transfers_linked(ms);
    let b1 = b.op_nodes_cleared(o);
    let c = b1.nodes_cleared(ns);
    let d = c.op_handles_cleared(o);
    lemma_messages_steady(v, o, v.ops[o].messages);
    lemma_nodes_steady(v1, o, v1.ops[o].nodes);
    lemma_handles_steady(v2, o, v2.ops[o].handles);
    assert(steady(v, a));
    assert(steady(v, a1));
    lemma_transfers_steady(a1, ms);
    assert(steady(v, b));
    assert(steady(v, b1));
    lemma_cleared_steady(b1, ns);
    assert(steady(v, c));
    assert(steady(v, d));
    lemma_all_notified(d, wakes);
}

/// Handles that are transferred are linked.
proof fn lemma_is_linked(v: BusView, s: Seq<Addr>, h: Addr)
    requires
        s.contains(h),
    ensures
        v.handles_linked(s).handles[h].linked,
    decreases s.len(),
{
    let t = s.drop_last();
    if s.last() != h {
        let i = choose|i: int| 0 <= i < s.len() && s[i] == h;
        assert(t[i] == h);
        lemma_is_linked(v, t, h);
    }
}

proof fn lemma_transfer_is_linked(v: BusView, s: Seq<Addr>, m: Addr, h: Addr)
    requires
        s.contains(m),
        v.messages[m].transfers.contains(h),
    ensures
        v.transfers_linked(s).handles[h].linked,
    decreases s.len(),
{
    let t = s.drop_last();
    let w = v.transfers_linked(t);
    let hs = w.messages[s.last()].transfers;
    lemma_transfers_linked(v, t);
    if s.last() == m {
        lemma_is_linked(w, hs, h);
    } else {
        let i = choose|i: int| 0 <= i < s.len() && s[i] == m;
        assert(t[i] == m);
        lemma_transfer_is_linked(v, t, m, h);
        lemma_linked_stays(w, hs, h);
    }
}

/// Clearing nodes affects only handles to these nodes.
proof fn lemma_cleared_links(v: BusView, s: Seq<Addr>, h: Addr)
    requires
        v.intact(),
        all_in(s, v.nodes.dom()),
        v.handles.contains_key(h),
    ensures
        v.nodes_cleared(s).handles[h].linked == (v.handles[h].linked && !s.contains(
            v.handles[h].node,
        )),
    decreases s.len(),
{
    let n = v.handles[h].node;
    if s.len() > 0 {
        let t = s.drop_last();
        let w = v.nodes_cleared(t);
        assert forall|i: int| #![trigger t[i]] 0 <= i < t.len() implies v.nodes.contains_key(
            t[i],
        ) by {
            assert(s[i] == t[i]);
        }
        lemma_cleared_links(v, t, h);
        lemma_nodes_cleared_ok(v, t);
        lemma_ok(w);
        assert(s[s.len() - 1] == s.last());
        assert(w.nodes.contains_key(s.last()));
        assert(w.node_ok(s.last()));
        assert(w.handle_ok(h));
        assert(s.contains(n) <==> t.contains(n) || s.last() == n) by {
            if s.contains(n) {
                let i = choose|i: int| 0 <= i < s.len() && s[i] == n;
                if i < t.len() {
                    assert(t[i] == n);
                }
            }
            if t.contains(n) {
                let i = choose|i: int| 0 <= i < t.len() && t[i] == n;
                assert(s[i] == n);
            }
        }
        let hs = w.nodes[s.last()].handles;
        if hs.contains(h) {
            let i = choose|i: int| 0 <= i < hs.len() && hs[i] == h;
            assert(w.handles[hs[i]].node == s.last());
        }
    }
}

/// Whether a handle is linked before and after the nodes of an operation are
/// cleared.
proof fn lemma_linked_after(
    v: BusView,
    w: BusView,
    o: Addr,
    wakes: Seq<Addr>,
    ms: Seq<Addr>,
    ns: Seq<Addr>,
    rs: Seq<Addr>,
    hs: Seq<Addr>,
    h: Addr,
)
    requires
        v.intact(),
        v.ops.contains_key(o),
        committed_as(v, w, o, wakes, ms, ns, rs, hs),
        v.handles.contains_key(h),
    ensures
        rs.contains(h) <==> connected(v, o, h) && v.ops[o].nodes.contains(v.handles[h].node),
        w.handles[h].linked == (connected(v, o, h) && !v.ops[o].nodes.contains(
            v.handles[h].node,
        )),
{
    let op = v.ops[o];
    let tx = op.tx;
    let q = v.op_queued(o);
    let a = q.tx_committed(tx);
    let a1 = a.op_messages_cleared(o);
    let b = a1.transfers_linked(ms);
    let b1 = b.op_nodes_cleared(o);
    let c = b1.nodes_cleared(ns);
    let d = c.op_handles_cleared(o);
    lemma_ok(v);
    assert(v.op_ok(o));
    assert(v.handle_ok(h));
    lemma_op_queued(v, o);
    lemma_ok(q);
    assert(q.op_ok(o));
    lemma_tx_committed(q, tx);
    lemma_ok(a);
    assert(a.op_ok(o));
    lemma_op_messages_cleared(a, o);
    assert(all_in(a.ops[o].messages, a.messages.dom()));
    lemma_rearranged_in(ms, a.ops[o].messages, a.messages.dom());
    assert(all_in(ms, a1.messages.dom()));
    assert(a1.handles[h].linked == (v.handles[h].linked && !lets_go(v, o, h)));
    if hands_over(v, o, h) {
        let m = choose|m: Addr| #[trigger]
            delivers(v, o, m) && v.messages[m].transfers.contains(h);
        let i = choose|i: int| 0 <= i < op.messages.len() && op.messages[i] == m;
        assert(v.messages.contains_key(op.messages[i]));
        assert(v.message_ok(m));
        assert(v.queueable(v.messages[m].tx_node));
        assert(a.ops[o].messages.contains(m));
        assert(ms.contains(m));
        assert(a1.messages[m].transfers == v.messages[m].transfers);
        lemma_transfer_is_linked(a1, ms, m, h);
    } else if a1.handles[h].linked {
        lemma_linked_stays_all(a1, ms, h);
    } else {
        assert forall|k: int| #![trigger ms[k]] 0 <= k < ms.len() implies
            !a1.messages[ms[k]].transfers.contains(h) by {
            assert(ms.contains(ms[k]));
            let m = ms[k];
            assert(a.ops[o].messages.contains(m));
            let i = choose|i: int| 0 <= i < op.messages.len() && op.messages[i] == m;
            assert(v.messages.contains_key(op.messages[i]));
            assert(v.message_ok(m));
            assert(delivers(v, o, m));
        }
        lemma_others_stay_unlinked(a1, ms, h);
    }
    assert(b.handles[h].linked == connected(v, o, h));
    lemma_transfers_linked(a1, ms);
    lemma_transfers_linked_ok(a1, ms);
    lemma_op_nodes_cleared(b, o);
    lemma_rearranged_in(ns, a.ops[o].nodes, a.nodes.dom());
    assert(all_in(ns, b1.nodes.dom()));
    assert(b1.handles.contains_key(h));
    lemma_cleared_links(b1, ns, h);
    lemma_nodes_cleared_ok(b1, ns);
    lemma_all_notified(d, wakes);
}

/// A commit relinks handles, and changes nothing else about objects.
proof fn lemma_relinks(v: BusView, w: BusView, o: Addr, wakes: Seq<Addr>)
    requires
        v.intact(),
        v.ops.contains_key(o),
        op_committed(v, w, o, wakes),
    ensures
        relinks(v, w, o),
{
    let (ms, ns, rs, hs) = choose|ms: Seq<Addr>, ns: Seq<Addr>, rs: Seq<Addr>, hs: Seq<Addr>|
        #[trigger] committed_as(v, w, o, wakes, ms, ns, rs, hs);
    lemma_commit_keeps_intact(v, w, o, wakes);
    lemma_commit_steady(v, w, o, wakes);
    lemma_ok(v);
    lemma_ok(w);
    assert(v.op_ok(o));
    assert(w.ops =~= v.ops.remove(o));
    assert forall|h: Addr| #[trigger] v.handles.contains_key(h) implies w.handles[h] == (
    HandleView {
        linked: connected(v, o, h) && !v.ops[o].nodes.contains(v.handles[h].node),
        op: if v.ops[o].handles.contains(h) {
            None
        } else {
            v.handles[h].op
        },
        ..v.handles[h]
    }) by {
        lemma_linked_after(v, w, o, wakes, ms, ns, rs, hs, h);
        lemma_handle_op(v, w, o, h);
    }
    assert forall|n: Addr| #[trigger] v.nodes.contains_key(n) implies {
        &&& w.nodes[n] == (NodeView {
            handles: w.nodes[n].handles,
            op: if v.ops[o].nodes.contains(n) {
                None
            } else {
                v.nodes[n].op
            },
            ..v.nodes[n]
        })
        &&& w.nodes[n].handles.no_duplicates()
        &&& forall|i: int, j: int| #![trigger w.nodes[n].handles[i], w.nodes[n].handles[j]]
            0 <= i < j < w.nodes[n].handles.len() ==> w.handles[w.nodes[n].handles[i]].owner
                <= w.handles[w.nodes[n].handles[j]].owner
        &&& forall|h: Addr| #[trigger]
            w.nodes[n].handles.contains(h) <==> w.handles.contains_key(h) && w.handles[h].linked
                && w.handles[h].node == n
    } by {
        lemma_node_op(v, w, o, n);
        assert(w.node_ok(n));
        let keys = w.link_keys(w.nodes[n].handles);
        assert forall|i: int, j: int| #![trigger w.nodes[n].handles[i], w.nodes[n].handles[j]]
            0 <= i < j < w.nodes[n].handles.len() implies w.handles[w.nodes[n].handles[i]].owner
            <= w.handles[w.nodes[n].handles[j]].owner by {
            assert(keys[i] <= keys[j]);
        }
        assert forall|h: Addr| #[trigger]
            w.nodes[n].handles.contains(h) <==> w.handles.contains_key(h) && w.handles[h].linked
                && w.handles[h].node == n by {
            if w.handles.contains_key(h) {
                assert(w.handle_ok(h));
            }
        }
    }
    assert forall|m: Addr| #[trigger] v.messages.contains_key(m) implies w.messages[m] == (
    MessageView {
        op: if v.ops[o].messages.contains(m) {
            None
        } else {
            v.messages[m].op
        },
        ..v.messages[m]
    }) by {
        lemma_message_op(v, w, o, m);
    }
}

proof fn lemma_handle_op(v: BusView, w: BusView, o: Addr, h: Addr)
    requires
        v.intact(),
        w.intact(),
        v.ops.contains_key(o),
        w.ops == v.ops.remove(o),
        v.handles.contains_key(h),
        w.handles.contains_key(h),
    ensures
        w.handles[h].op == if v.ops[o].handles.contains(h) {
            None
        } else {
            v.handles[h].op
        },
{
    lemma_ok(v);
    lemma_ok(w);
    assert(v.handle_ok(h));
    assert(w.handle_ok(h));
    assert(v.op_ok(o));
    if let Some(b) = v.handles[h].op {
        if b != o {
            assert(w.ops.contains_key(b));
            assert(w.op_ok(b));
            assert(!v.ops[o].handles.contains(h));
        }
    }
    if let Some(b) = w.handles[h].op {
        assert(v.ops.contains_key(b));
        assert(v.op_ok(b));
    }
}

proof fn lemma_node_op(v: BusView, w: BusView, o: Addr, n: Addr)
    requires
        v.intact(),
        w.intact(),
        v.ops.contains_key(o),
        w.ops == v.ops.remove(o),
        v.nodes.contains_key(n),
        w.nodes.contains_key(n),
    ensures
        w.nodes[n].op == if v.ops[o].nodes.contains(n) {
            None
        } else {
            v.nodes[n].op
        },
{
    lemma_ok(v);
    lemma_ok(w);
    assert(v.node_ok(n));
    assert(w.node_ok(n));
    assert(v.op_ok(o));
    if let Some(b) = v.nodes[n].op {
        if b != o {
            assert(w.ops.contains_key(b));
            assert(w.op_ok(b));
            assert(!v.ops[o].nodes.contains(n));
        }
    }
    if let Some(b) = w.nodes[n].op {
        assert(v.ops.contains_key(b));
        assert(v.op_ok(b));
    }
}

proof fn lemma_message_op(v: BusView, w: BusView, o: Addr, m: Addr)
    requires
        v.intact(),
        w.intact(),
        v.ops.contains_key(o),
        w.ops == v.ops.remove(o),
        v.messages.contains_key(m),
        w.messages.contains_key(m),
    ensures
        w.messages[m].op == if v.ops[o].messages.contains(m) {
            None
        } else {
            v.messages[m].op
        },
{
    lemma_ok(v);
    lemma_ok(w);
    assert(v.message_ok(m));
    assert(w.message_ok(m));
    assert(v.op_ok(o));
    if let Some(b) = v.messages[m].op {
        if b != o {
            assert(w.ops.contains_key(b));
            assert(w.op_ok(b));
            assert(!v.ops[o].messages.contains(m));
        }
    }
    if let Some(b) = w.messages[m].op {
        assert(v.ops.contains_key(b));
        assert(v.op_ok(b));
    }
}

/// An entry comes before another one in an operation: messages before
/// notifications about nodes, and these before notifications about handles. Each
/// of these come in the order of the operation, and the handles to a node in the
/// order of their owners.
pub open spec fn precedes(v: BusView, o: Addr, a: Addr, b: Addr) -> bool {
    let (x, y) = (v.tx_nodes[a], v.tx_nodes[b]);
    match (x.kind, y.kind) {
        (TxNodeKind::User, TxNodeKind::User) => comes_before(v.ops[o].messages, x.base, y.base),
        (TxNodeKind::User, _) => true,
        (_, TxNodeKind::User) => false,
        (TxNodeKind::ReleaseNode, TxNodeKind::ReleaseNode) => {
            let (m, n) = (v.handles[x.base].node, v.handles[y.base].node);
            ||| comes_before(v.ops[o].nodes, m, n)
            ||| m == n && comes_before(v.nodes[n].handles, x.base, y.base)
        },
        (TxNodeKind::ReleaseNode, _) => true,
        (_, TxNodeKind::ReleaseNode) => false,
        (TxNodeKind::ReleaseHandle, TxNodeKind::ReleaseHandle) => comes_before(
            v.ops[o].handles,
            x.base,
            y.base,
        ),
    }
}

/// An element of a sequence comes before another one.
pub open spec fn comes_before(s: Seq<Addr>, a: Addr, b: Addr) -> bool {
    exists|i: int, j: int| #![trigger s[i], s[j]] 0 <= i < j < s.len() && s[i] == a && s[j] == b
}

/// Whatever arrives at a peer is queued in front of what is queued already, the
/// newest first.
pub open spec fn joins(v: BusView, w: BusView, o: Addr, p: Addr) -> bool {
    exists|news: Seq<Addr>| #[trigger] joined_by(v, w, o, p, news)
}

/// The given entries were queued on a peer.
pub open spec fn joined_by(v: BusView, w: BusView, o: Addr, p: Addr, news: Seq<Addr>) -> bool {
    &&& w.peers[p].queue == news + v.peers[p].queue
    &&& news.no_duplicates()
    &&& forall|e: Addr| #[trigger]
        news.contains(e) <==> v.tx_nodes.contains_key(e) && arrives(v, o, p, e)
    &&& forall|i: int, j: int| #![trigger news[i], news[j]]
        0 <= i < j < news.len() ==> precedes(v, o, news[j], news[i])
}

/// An entry arrives at one of the peers.
pub open spec fn is_delivered(v: BusView, o: Addr, e: Addr) -> bool {
    exists|p: Addr| #[trigger] arrives(v, o, p, e)
}

/// An entry is part of an operation.
pub open spec fn is_part(v: BusView, o: Addr, e: Addr) -> bool {
    let base = v.tx_nodes[e].base;
    match v.tx_nodes[e].kind {
        TxNodeKind::User => v.ops[o].messages.contains(base),
        TxNodeKind::ReleaseNode => v.handles[base].linked && v.ops[o].nodes.contains(
            v.handles[base].node,
        ),
        TxNodeKind::ReleaseHandle => v.ops[o].handles.contains(base),
    }
}

/// How a commit affects what is queued: everything that can be delivered is
/// queued, and is part of the transaction of the operation, which is committed.
/// Peers are notified as often as they are woken up.
pub open spec fn fills(v: BusView, w: BusView, o: Addr, wakes: Seq<Addr>) -> bool {
    &&& w.peers.dom() == v.peers.dom()
    &&& forall|p: Addr| #[trigger]
        v.peers.contains_key(p) ==> {
            &&& joins(v, w, o, p)
            &&& w.peers[p] == (PeerView {
                queue: w.peers[p].queue,
                committed: v.peers[p].committed + wakes.to_multiset().count(p),
                ..v.peers[p]
            })
        }
    &&& w.txs == v.txs.insert(v.ops[o].tx, true)
    &&& w.tx_nodes.dom() == v.tx_nodes.dom()
    &&& forall|e: Addr| #[trigger]
        v.tx_nodes.contains_key(e) ==> {
            &&& w.tx_nodes[e].kind == v.tx_nodes[e].kind
            &&& w.tx_nodes[e].base == v.tx_nodes[e].base
            &&& w.tx_nodes[e].queued <==> v.tx_nodes[e].queued || is_delivered(v, o, e)
            &&& v.tx_nodes[e].tx is Some || !is_part(v, o, e) ==> w.tx_nodes[e].tx
                == v.tx_nodes[e].tx
            &&& v.tx_nodes[e].tx is None && is_part(v, o, e) ==> w.tx_nodes[e].tx == Some(
                v.ops[o].tx,
            )
        }
}

/// A peer is woken up if a message, or a notification about a handle, arrives at
/// it, or if one of its handles is connected to a node that is released.
pub open spec fn has_reason(v: BusView, o: Addr, p: Addr) -> bool {
    ||| exists|m: Addr| #[trigger] delivers(v, o, m) && target(v, v.messages[m].via) == p
    ||| exists|h: Addr| #[trigger]
        v.handles.contains_key(h) && connected(v, o, h) && v.ops[o].nodes.contains(
            v.handles[h].node,
        ) && v.handles[h].owner == p
    ||| exists|h: Addr| #[trigger] lets_go(v, o, h) && target(v, h) == p
}

/// Exactly those with a reason are woken up, and once for each reason.
pub open spec fn awakes(v: BusView, o: Addr, wakes: Seq<Addr>) -> bool {
    &&& forall|p: Addr| #[trigger] wakes.contains(p) <==> has_reason(v, o, p)
    &&& exists|ms: Seq<Addr>, rs: Seq<Addr>, hs: Seq<Addr>| #[trigger]
        woken_by(v, o, wakes, ms, rs, hs)
}

/// Peers are woken up for the given messages, the given handles to nodes that are
/// released, and the given handles that are released.
pub open spec fn woken_by(
    v: BusView,
    o: Addr,
    wakes: Seq<Addr>,
    ms: Seq<Addr>,
    rs: Seq<Addr>,
    hs: Seq<Addr>,
) -> bool {
    &&& ms.no_duplicates() && rs.no_duplicates() && hs.no_duplicates()
    &&& forall|m: Addr| #[trigger] ms.contains(m) <==> delivers(v, o, m)
    &&& forall|h: Addr| #[trigger]
        rs.contains(h) <==> v.handles.contains_key(h) && connected(v, o, h)
            && v.ops[o].nodes.contains(v.handles[h].node)
    &&& forall|h: Addr| #[trigger] hs.contains(h) <==> lets_go(v, o, h)
    &&& wakes.len() == ms.len() + rs.len() + hs.len()
    &&& forall|i: int| #![trigger ms[i]]
        0 <= i < ms.len() ==> wakes[i] == target(v, v.messages[ms[i]].via)
    &&& forall|i: int| #![trigger rs[i]]
        0 <= i < rs.len() ==> wakes[ms.len() + i] == v.handles[rs[i]].owner
    &&& forall|i: int| #![trigger hs[i]]
        0 <= i < hs.len() ==> wakes[ms.len() + rs.len() + i] == target(v, hs[i])
}

/// Everything that a commit does.
pub open spec fn transmits(v: BusView, w: BusView, o: Addr, wakes: Seq<Addr>) -> bool {
    &&& relinks(v, w, o)
    &&& fills(v, w, o, wakes)
    &&& awakes(v, o, wakes)
}

proof fn lemma_occurrences(s: Seq<Addr>, a: Addr)
    ensures
        occurrences(s, a) == s.to_multiset().count(a),
    decreases s.len(),
{
    broadcast use vstd::seq_lib::group_to_multiset_ensures;

    if s.len() > 0 {
        let t = s.drop_last();
        lemma_occurrences(t, a);
        assert(s =~= t.push(s.last()));
    }
}

proof fn lemma_filter_order(s: Seq<Addr>, f: spec_fn(Addr) -> bool, x: int, y: int)
    requires
        s.no_duplicates(),
        0 <= x < y < s.filter(f).len(),
    ensures
        exists|i: int, j: int| #![trigger s[i], s[j]]
            0 <= i < j < s.len() && s[i] == s.filter(f)[x] && s[j] == s.filter(f)[y],
    decreases s.len(),
{
    reveal(Seq::filter);
    let t = s.drop_last();
    let u = t.filter(f);
    lemma_filter_once(t, f);
    if f(s.last()) && y == u.len() {
        assert(u.contains(u[x]));
        let i = choose|i: int| 0 <= i < t.len() && t[i] == u[x];
        assert(s[i] == u[x] && s[s.len() - 1] == s.last());
    } else {
        lemma_filter_order(t, f, x, y);
        let (i, j) = choose|i: int, j: int| #![trigger t[i], t[j]]
            0 <= i < j < t.len() && t[i] == u[x] && t[j] == u[y];
        assert(s[i] == t[i] && s[j] == t[j]);
    }
}

proof fn lemma_notifications_precede(v: BusView, s: Seq<Addr>, i: int, j: int)
    requires
        v.intact(),
        s.no_duplicates(),
        all_in(s, v.nodes.dom()),
        0 <= i < j < v.node_entries(s).len(),
    ensures
        ({
            let (x, y) = (
                v.tx_nodes[v.node_entries(s)[i]].base,
                v.tx_nodes[v.node_entries(s)[j]].base,
            );
            let (m, n) = (v.handles[x].node, v.handles[y].node);
            ||| comes_before(s, m, n)
            ||| m == n && comes_before(v.nodes[n].handles, x, y)
        }),
    decreases s.len(),
{
    let t = s.drop_last();
    let n = s.last();
    let hs = v.nodes[n].handles;
    let (a, b, c) = (v.node_entries(t), v.owner_entries(hs), v.node_entries(s));
    assert(c =~= a + b);
    assert(s[s.len() - 1] == n);
    assert forall|k: int| #![trigger t[k]] 0 <= k < t.len() implies v.nodes.contains_key(t[k]) by {
        assert(s[k] == t[k]);
    }
    assert(t.no_duplicates());
    lemma_ok(v);
    assert(v.node_ok(n));
    lemma_node_entries(v, t);
    if j < a.len() {
        assert(c[i] == a[i] && c[j] == a[j]);
        lemma_notifications_precede(v, t, i, j);
        let (x, y) = (v.tx_nodes[a[i]].base, v.tx_nodes[a[j]].base);
        let (p, q) = (v.handles[x].node, v.handles[y].node);
        if comes_before(t, p, q) {
            let (k, l) = choose|k: int, l: int| #![trigger t[k], t[l]]
                0 <= k < l < t.len() && t[k] == p && t[l] == q;
            assert(s[k] == p && s[l] == q);
        }
    } else {
        let l = j - a.len();
        assert(c[j] == b[l]);
        assert(v.handles.contains_key(hs[l]));
        assert(v.handle_ok(hs[l]));
        if i < a.len() {
            assert(c[i] == a[i]);
            let p = v.handles[v.tx_nodes[a[i]].base].node;
            assert(t.contains(p));
            let k = choose|k: int| 0 <= k < t.len() && t[k] == p;
            assert(s[k] == p);
        } else {
            let k = i - a.len();
            assert(c[i] == b[k]);
            assert(v.handles.contains_key(hs[k]));
            assert(v.handle_ok(hs[k]));
            assert(comes_before(hs, hs[k], hs[l]));
        }
    }
}

proof fn lemma_entries_precede(v: BusView, o: Addr, i: int, j: int)
    requires
        v.intact(),
        v.ops.contains_key(o),
        0 <= i < j < v.op_entries(o).len(),
    ensures
        precedes(v, o, v.op_entries(o)[i], v.op_entries(o)[j]),
{
    let op = v.ops[o];
    let a = v.message_entries(op.messages);
    let b = v.node_entries(op.nodes);
    let c = v.handle_entries(op.handles);
    let s = v.op_entries(o);
    lemma_ok(v);
    assert(v.op_ok(o));
    lemma_node_entries(v, op.nodes);
    assert forall|k: int| #![trigger s[k]] 0 <= k < s.len() implies {
        &&& k < a.len() ==> v.tx_nodes[s[k]].kind == TxNodeKind::User && v.tx_nodes[s[k]].base
            == op.messages[k]
        &&& a.len() <= k < a.len() + b.len() ==> v.tx_nodes[s[k]].kind == TxNodeKind::ReleaseNode
        &&& k >= a.len() + b.len() ==> v.tx_nodes[s[k]].kind == TxNodeKind::ReleaseHandle
            && v.tx_nodes[s[k]].base == op.handles[k - a.len() - b.len()]
    } by {
        if k < a.len() {
            assert(s[k] == a[k]);
            assert(v.messages.contains_key(op.messages[k]));
            assert(v.message_ok(op.messages[k]));
        } else if k < a.len() + b.len() {
            assert(s[k] == b[k - a.len()]);
        } else {
            let n = k - a.len() - b.len();
            assert(s[k] == c[n]);
            assert(v.handles.contains_key(op.handles[n]));
            assert(v.handle_ok(op.handles[n]));
        }
    }
    let (x, y) = (v.tx_nodes[s[i]], v.tx_nodes[s[j]]);
    if j < a.len() {
        assert(comes_before(op.messages, x.base, y.base));
    } else if a.len() <= i && j < a.len() + b.len() {
        assert(s[i] == b[i - a.len()] && s[j] == b[j - a.len()]);
        lemma_notifications_precede(v, op.nodes, i - a.len(), j - a.len());
    } else if i >= a.len() + b.len() {
        let (m, n) = (i - a.len() - b.len(), j - a.len() - b.len());
        assert(op.handles[m] == x.base && op.handles[n] == y.base);
        assert(comes_before(op.handles, x.base, y.base));
    }
}

/// Which entries are part of an operation, and which of them arrive.
proof fn lemma_arrival(v: BusView, o: Addr, e: Addr)
    requires
        v.intact(),
        v.ops.contains_key(o),
        v.tx_nodes.contains_key(e),
    ensures
        v.op_entries(o).contains(e) <==> is_part(v, o, e),
        forall|p: Addr| #[trigger]
            arrives(v, o, p, e) <==> v.op_entries(o).contains(e) && v.arrives_fn(p)(e),
        is_delivered(v, o, e) <==> v.op_entries(o).contains(e) && v.queueable(e),
{
    let op = v.ops[o];
    let base = v.tx_nodes[e].base;
    let a = v.message_entries(op.messages);
    let b = v.node_entries(op.nodes);
    let c = v.handle_entries(op.handles);
    lemma_ok(v);
    assert(v.op_ok(o));
    assert(v.tx_node_ok(e));
    lemma_add_contains(a, b);
    lemma_add_contains(a + b, c);
    if v.op_entries(o).contains(e) {
        lemma_op_entry(v, o, e);
    }
    if is_part(v, o, e) {
        match v.tx_nodes[e].kind {
            TxNodeKind::User => {
                let i = choose|i: int| 0 <= i < op.messages.len() && op.messages[i] == base;
                assert(a[i] == e);
            },
            TxNodeKind::ReleaseNode => {
                lemma_notifies(v, op.nodes, v.handles[base].node, base);
            },
            TxNodeKind::ReleaseHandle => {
                let i = choose|i: int| 0 <= i < op.handles.len() && op.handles[i] == base;
                assert(c[i] == e);
            },
        }
    }
    assert forall|p: Addr| #[trigger]
        arrives(v, o, p, e) <==> v.op_entries(o).contains(e) && v.arrives_fn(p)(e) by {}
    if v.op_entries(o).contains(e) && v.queueable(e) {
        assert(v.arrives_fn(v.dest(e))(e));
        assert(arrives(v, o, v.dest(e), e));
    }
}

proof fn lemma_joins(v: BusView, w: BusView, o: Addr, p: Addr)
    requires
        v.intact(),
        v.ops.contains_key(o),
        w.peers[p].queue == v.filled(p, v.op_entries(o)).queue,
    ensures
        joins(v, w, o, p),
{
    let s = v.op_entries(o);
    let f = v.arrives_fn(p);
    let t = s.filter(f);
    let news = t.reverse();
    lemma_op_entries(v, o);
    lemma_filter_once(s, f);
    assert forall|e: Addr| #[trigger] news.contains(e) <==> t.contains(e) by {
        if news.contains(e) {
            let i = choose|i: int| 0 <= i < news.len() && news[i] == e;
            assert(t[t.len() - 1 - i] == e);
        }
        if t.contains(e) {
            let i = choose|i: int| 0 <= i < t.len() && t[i] == e;
            assert(news[t.len() - 1 - i] == e);
        }
    }
    assert forall|e: Addr| #[trigger] news.contains(e) <==> v.tx_nodes.contains_key(e) && arrives(
        v,
        o,
        p,
        e,
    ) by {
        if s.contains(e) {
            let i = choose|i: int| 0 <= i < s.len() && s[i] == e;
            assert(v.tx_nodes.contains_key(s[i]));
        }
        if v.tx_nodes.contains_key(e) {
            lemma_arrival(v, o, e);
            assert(arrives(v, o, p, e) <==> s.contains(e) && f(e));
        }
    }
    assert forall|i: int, j: int| #![trigger news[i], news[j]]
        0 <= i < j < news.len() implies precedes(v, o, news[j], news[i]) by {
        let n = t.len() as int;
        lemma_filter_order(s, f, n - 1 - j, n - 1 - i);
        let (x, y) = choose|x: int, y: int| #![trigger s[x], s[y]]
            0 <= x < y < s.len() && s[x] == t[n - 1 - j] && s[y] == t[n - 1 - i];
        lemma_entries_precede(v, o, x, y);
    }
    assert(joined_by(v, w, o, p, news));
}

proof fn lemma_fills(v: BusView, w: BusView, o: Addr, wakes: Seq<Addr>)
    requires
        v.intact(),
        v.ops.contains_key(o),
        op_committed(v, w, o, wakes),
    ensures
        fills(v, w, o, wakes),
{
    lemma_commit_keeps_intact(v, w, o, wakes);
    lemma_commit_queues(v, w, o, wakes);
    assert forall|p: Addr| #[trigger] v.peers.contains_key(p) implies {
        &&& joins(v, w, o, p)
        &&& w.peers[p] == (PeerView {
            queue: w.peers[p].queue,
            committed: v.peers[p].committed + wakes.to_multiset().count(p),
            ..v.peers[p]
        })
    } by {
        lemma_occurrences(wakes, p);
        lemma_joins(v, w, o, p);
    }
    assert forall|e: Addr| #[trigger] v.tx_nodes.contains_key(e) implies {
        &&& w.tx_nodes[e].kind == v.tx_nodes[e].kind
        &&& w.tx_nodes[e].base == v.tx_nodes[e].base
        &&& w.tx_nodes[e].queued <==> v.tx_nodes[e].queued || is_delivered(v, o, e)
        &&& v.tx_nodes[e].tx is Some || !is_part(v, o, e) ==> w.tx_nodes[e].tx == v.tx_nodes[e].tx
        &&& v.tx_nodes[e].tx is None && is_part(v, o, e) ==> w.tx_nodes[e].tx == Some(v.ops[o].tx)
    } by {
        lemma_arrival(v, o, e);
    }
}

proof fn lemma_awakes(v: BusView, w: BusView, o: Addr, wakes: Seq<Addr>)
    requires
        v.intact(),
        v.ops.contains_key(o),
        op_committed(v, w, o, wakes),
    ensures
        awakes(v, o, wakes),
{
    let (ms, ns, rs, hs) = choose|ms: Seq<Addr>, ns: Seq<Addr>, rs: Seq<Addr>, hs: Seq<Addr>|
        #[trigger] committed_as(v, w, o, wakes, ms, ns, rs, hs);
    let op = v.ops[o];
    let a = v.op_queued(o).tx_committed(op.tx);
    let b = a.op_messages_cleared(o).transfers_linked(ms);
    lemma_op_queued(v, o);
    lemma_ok(v);
    assert(v.op_ok(o));
    assert forall|m: Addr| #[trigger] ms.contains(m) <==> delivers(v, o, m) by {
        assert(ms.contains(m) <==> a.ops[o].messages.contains(m));
        if op.messages.contains(m) {
            let i = choose|i: int| 0 <= i < op.messages.len() && op.messages[i] == m;
            assert(v.messages.contains_key(op.messages[i]));
            assert(v.message_ok(m));
        }
    }
    assert forall|h: Addr| #[trigger] hs.contains(h) <==> lets_go(v, o, h) by {
        assert(hs.contains(h) <==> a.ops[o].handles.contains(h));
        if op.handles.contains(h) {
            let i = choose|i: int| 0 <= i < op.handles.len() && op.handles[i] == h;
            assert(v.handles.contains_key(op.handles[i]));
            assert(v.handle_ok(h));
        }
    }
    assert forall|h: Addr| #[trigger] rs.contains(h) implies v.handles.contains_key(h) by {
        lemma_tx_committed(v.op_queued(o), op.tx);
        lemma_ok(v.op_queued(o));
        assert(v.op_queued(o).op_ok(o));
        lemma_op_messages_cleared(a, o);
        lemma_ok(a);
        assert(a.op_ok(o));
        assert(all_in(a.ops[o].messages, a.messages.dom()));
        lemma_rearranged_in(ms, a.ops[o].messages, a.messages.dom());
        lemma_transfers_linked_ok(a.op_messages_cleared(o), ms);
    }
    let (x, y, z) = (
        ms.map_values(|m: Addr| v.message_dest(m)),
        rs.map_values(|h: Addr| v.handles[h].owner),
        hs.map_values(|h: Addr| v.handle_dest(h)),
    );
    lemma_add_contains(x, y);
    lemma_add_contains(x + y, z);
    assert forall|h: Addr| #[trigger] rs.contains(h) <==> v.handles.contains_key(h) && connected(
        v,
        o,
        h,
    ) && op.nodes.contains(v.handles[h].node) by {
        if v.handles.contains_key(h) {
            lemma_linked_after(v, w, o, wakes, ms, ns, rs, hs, h);
        }
    }
    assert(woken_by(v, o, wakes, ms, rs, hs));
    assert forall|p: Addr| #[trigger] wakes.contains(p) <==> has_reason(v, o, p) by {
        if x.contains(p) {
            let i = choose|i: int| 0 <= i < x.len() && x[i] == p;
            assert(ms.contains(ms[i]));
            assert(delivers(v, o, ms[i]));
        }
        if y.contains(p) {
            let i = choose|i: int| 0 <= i < y.len() && y[i] == p;
            assert(rs.contains(rs[i]));
            assert(v.handles.contains_key(rs[i]));
            lemma_linked_after(v, w, o, wakes, ms, ns, rs, hs, rs[i]);
        }
        if z.contains(p) {
            let i = choose|i: int| 0 <= i < z.len() && z[i] == p;
            assert(hs.contains(hs[i]));
            assert(lets_go(v, o, hs[i]));
        }
        if exists|m: Addr| #[trigger] delivers(v, o, m) && target(v, v.messages[m].via) == p {
            let m = choose|m: Addr| #[trigger]
                delivers(v, o, m) && target(v, v.messages[m].via) == p;
            assert(ms.contains(m));
            let i = choose|i: int| 0 <= i < ms.len() && ms[i] == m;
            assert(x[i] == p);
        }
        if exists|h: Addr| #[trigger] lets_go(v, o, h) && target(v, h) == p {
            let h = choose|h: Addr| #[trigger] lets_go(v, o, h) && target(v, h) == p;
            assert(hs.contains(h));
            let i = choose|i: int| 0 <= i < hs.len() && hs[i] == h;
            assert(z[i] == p);
        }
        if exists|h: Addr| #[trigger]
            v.handles.contains_key(h) && connected(v, o, h) && op.nodes.contains(v.handles[h].node)
                && v.handles[h].owner == p {
            let h = choose|h: Addr| #[trigger]
                v.handles.contains_key(h) && connected(v, o, h) && op.nodes.contains(
                    v.handles[h].node,
                ) && v.handles[h].owner == p;
            lemma_linked_after(v, w, o, wakes, ms, ns, rs, hs, h);
            let i = choose|i: int| 0 <= i < rs.len() && rs[i] == h;
            assert(y[i] == p);
        }
    }
}

/// A commit delivers everything that is part of an operation, and nothing else.
pub proof fn lemma_transmits(v: BusView, w: BusView, o: Addr, wakes: Seq<Addr>)
    requires
        v.intact(),
        v.ops.contains_key(o),
        op_committed(v, w, o, wakes),
    ensures
        transmits(v, w, o, wakes),
{
    lemma_relinks(v, w, o, wakes);
    lemma_fills(v, w, o, wakes);
    lemma_awakes(v, w, o, wakes);
}

/// A commit delivers everything that is part of an operation, and nothing else.
pub proof fn lemma_commit(bus: &mut Bus, this: Addr, r: Vec<Addr>)
    requires
        old(bus).wf(),
        old(bus)@.ops.contains_key(this),
        call_ensures(Op::commit, (bus, this), r),
    ensures
        transmits(old(bus)@, final(bus)@, this, r@),
{
    old(bus).lemma_wf();
    lemma_transmits(old(bus)@, final(bus)@, this, r@);
}

/// Every handle that is transferred by a message is linked once the message is
/// delivered, and its node knows about it, unless the same operation releases
/// that node.
pub proof fn lemma_commit_links(bus: &mut Bus, this: Addr, r: Vec<Addr>, m: Addr, h: Addr)
    requires
        old(bus).wf(),
        old(bus)@.ops.contains_key(this),
        call_ensures(Op::commit, (bus, this), r),
        old(bus)@.ops[this].messages.contains(m),
        ({
            let v = old(bus)@;
            let p = v.nodes[v.handles[v.messages[m].via].node].owner;
            !v.peers[p].sealed && !v.tx_nodes[v.messages[m].tx_node].queued
        }),
        old(bus)@.messages[m].transfers.contains(h),
        !old(bus)@.ops[this].nodes.contains(old(bus)@.handles[h].node),
    ensures
        final(bus)@.handles[h].linked,
        final(bus)@.nodes[final(bus)@.handles[h].node].handles.contains(h),
        final(bus)@.handles[h].node == old(bus)@.handles[h].node,
{
    let v = old(bus)@;
    lemma_commit(bus, this, r);
    old(bus).lemma_wf();
    lemma_ok(v);
    assert(v.op_ok(this));
    let ms = v.ops[this].messages;
    let i = choose|i: int| 0 <= i < ms.len() && ms[i] == m;
    assert(v.messages.contains_key(ms[i]));
    assert(v.message_ok(m));
    let hs = v.messages[m].transfers;
    let j = choose|j: int| 0 <= j < hs.len() && hs[j] == h;
    assert(v.handles.contains_key(hs[j]));
    assert(v.handle_ok(h));
    assert(delivers(v, this, m));
    assert(hands_over(v, this, h));
    assert(v.nodes.contains_key(v.handles[h].node));
}

/// Every message arrives at the owner of the node it was sent to, who is woken
/// up, and with the same data and handles it was sent with.
pub proof fn lemma_commit_delivers(bus: &mut Bus, this: Addr, r: Vec<Addr>, m: Addr)
    requires
        old(bus).wf(),
        old(bus)@.ops.contains_key(this),
        call_ensures(Op::commit, (bus, this), r),
        old(bus)@.ops[this].messages.contains(m),
        ({
            let v = old(bus)@;
            let p = v.nodes[v.handles[v.messages[m].via].node].owner;
            !v.peers[p].sealed && !v.tx_nodes[v.messages[m].tx_node].queued
        }),
    ensures
        ({
            let (v, w) = (old(bus)@, final(bus)@);
            let p = v.nodes[v.handles[v.messages[m].via].node].owner;
            let e = v.messages[m].tx_node;
            &&& w.peers[p].queue.contains(e)
            &&& w.tx_nodes[e].queued
            &&& w.tx_nodes[e].tx matches Some(t) && w.txs[t]
            &&& r@.contains(p)
            &&& w.peers[p].committed > v.peers[p].committed
            &&& w.messages[m].via == v.messages[m].via
            &&& w.messages[m].transfers == v.messages[m].transfers
            &&& w.shareds[w.messages[m].shared].data == v.shareds[v.messages[m].shared].data
        }),
{
    let v = old(bus)@;
    lemma_commit(bus, this, r);
    old(bus).lemma_wf();
    lemma_ok(v);
    assert(v.op_ok(this));
    let ms = v.ops[this].messages;
    let i = choose|i: int| 0 <= i < ms.len() && ms[i] == m;
    assert(v.messages.contains_key(ms[i]));
    assert(v.message_ok(m));
    let e = v.messages[m].tx_node;
    let p = v.nodes[v.handles[v.messages[m].via].node].owner;
    lemma_dest(v, e);
    assert(delivers(v, this, m));
    assert(arrives(v, this, p, e));
    assert(joins(v, final(bus)@, this, p));
    let news = choose|news: Seq<Addr>| #[trigger] joined_by(v, final(bus)@, this, p, news);
    assert(news.contains(e));
    lemma_add_contains(news, v.peers[p].queue);
    assert(has_reason(v, this, p));
    assert(r@.contains(p));
    reveal(BusView::settled);
    broadcast use vstd::seq_lib::group_to_multiset_ensures;

}

/// Data is received as it was sent: if a message is what its receiver gets to
/// see right after it was committed, then the receiver sees the node it was sent
/// to, the data it was sent with, and the handles that were transferred.
pub proof fn lemma_received_as_sent<'a>(
    bus: &mut Bus,
    next: &'a mut Bus,
    this: Addr,
    peer: Addr,
    m: Addr,
    wakes: Vec<Addr>,
    r: Option<Peek<'a>>,
)
    requires
        old(bus).wf(),
        old(bus)@.ops.contains_key(this),
        old(bus)@.ops[this].messages.contains(m),
        call_ensures(Op::commit, (bus, this), wakes),
        old(next).wf(),
        old(next)@ == final(bus)@,
        old(next)@.peers.contains_key(peer),
        call_ensures(Peer::peek, (next, peer), r) || call_ensures(peer_peek, (next, peer), r),
        r is Some,
        final(next)@.peers[peer].ready[0] == old(bus)@.messages[m].tx_node,
    ensures
        ({
            let v = old(bus)@;
            let message = v.messages[m];
            &&& r matches Some(Peek::User { node, transfers, data }) && {
                &&& node == v.handles[message.via].node
                &&& v.nodes[node].owner == peer
                &&& transfers@ == message.transfers
                &&& data@ == v.shareds[message.shared].data
            }
        }),
{
    let v = old(bus)@;
    old(bus).lemma_wf();
    lemma_commit(bus, this, wakes);
    lemma_peek(next, peer, r);
    lemma_ok(v);
    assert(v.op_ok(this));
    let ms = v.ops[this].messages;
    let i = choose|i: int| 0 <= i < ms.len() && ms[i] == m;
    assert(v.messages.contains_key(ms[i]));
    assert(v.message_ok(m));
    assert(v.handle_ok(v.messages[m].via));
    assert(v.nodes.contains_key(v.handles[v.messages[m].via].node));
    assert(v.tx_nodes.contains_key(v.messages[m].tx_node));
    assert(final(next)@.tx_nodes == old(next)@.tx_nodes);
}

} // verus!
