//! What is delivered to peers.
//!
//! Everything that is queued on a peer is received by it, in order and exactly
//! once, unless the peer is shut down. What is destined for a peer that was shut
//! down is discarded.

use crate::bus::laws::{
    lemma_all_notified, lemma_cleared_stays_unlinked, lemma_commit_appends,
    lemma_commit_keeps_intact, lemma_commit_queues, lemma_handle_owner_is_woken,
    lemma_node_owner_is_woken, lemma_nodes_cleared_ok, lemma_others_stay_unlinked,
    lemma_prefetch_keeps_entries, lemma_rearranged_in, lemma_receiver_is_woken,
    lemma_reclaimed_is_tidy, lemma_released_handle_is_unlinked, lemma_sealed_peer_is_left_alone,
    lemma_transfers_linked, lemma_transfers_linked_ok, lemma_transfers_released, occurrences,
};
use crate::bus::model::{
    all_in, committed_as, ended_as, lemma_drained, lemma_filter_once, lemma_lists, lemma_ok,
    lemma_op_added, lemma_op_messages_cleared, lemma_op_nodes_cleared, lemma_place_bounds,
    lemma_popped, lemma_prefetched, lemma_similar, lemma_similar_trans, lemma_tx_committed,
    lemma_unmoved, lemma_wrapped, op_committed, peer_ended, place, sent_as, similar, BusView,
    TxNodeKind,
};
use crate::bus::order::{lemma_op_entries, lemma_op_entry, lemma_op_queued};
use crate::bus::receive::lemma_filter_same;
use crate::util::arena::Addr;
use vstd::prelude::*;

verus! {

/// Everyone on whom anything is queued is woken up.
pub proof fn lemma_queued_is_woken(v: BusView, w: BusView, o: Addr, wakes: Seq<Addr>, e: Addr)
    requires
        v.intact(),
        v.ops.contains_key(o),
        op_committed(v, w, o, wakes),
        v.op_entries(o).contains(e),
        v.queueable(e),
    ensures
        wakes.contains(v.dest(e)),
{
    lemma_op_entry(v, o, e);
    let base = v.tx_nodes[e].base;
    let op = v.ops[o];
    match v.tx_nodes[e].kind {
        TxNodeKind::User => {
            lemma_receiver_is_woken(v, w, o, wakes, base);
        },
        TxNodeKind::ReleaseNode => {
            if op.handles.contains(base) && v.queueable(v.handles[base].release_handle) {
                // Both the node and the handle belong to the operator.
                lemma_ok(v);
                assert(v.op_ok(o));
                let i = choose|i: int| 0 <= i < op.handles.len() && op.handles[i] == base;
                assert(v.handles[op.handles[i]].owner == op.operator);
                let n = v.handles[base].node;
                let j = choose|j: int| 0 <= j < op.nodes.len() && op.nodes[j] == n;
                assert(v.nodes[op.nodes[j]].owner == op.operator);
                lemma_node_owner_is_woken(v, w, o, wakes, base);
            } else {
                lemma_handle_owner_is_woken(v, w, o, wakes, base);
            }
        },
        TxNodeKind::ReleaseHandle => {
            lemma_node_owner_is_woken(v, w, o, wakes, base);
        },
    }
}

/// What does not occur in a sequence occurs zero times.
proof fn lemma_never_occurs(s: Seq<Addr>, a: Addr)
    requires
        !s.contains(a),
    ensures
        occurrences(s, a) == 0,
    decreases s.len(),
{
    if s.len() > 0 {
        let t = s.drop_last();
        assert(!t.contains(a)) by {
            if t.contains(a) {
                let i = choose|i: int| 0 <= i < t.len() && t[i] == a;
                assert(s[i] == a);
            }
        }
        assert(s[s.len() - 1] == s.last());
        lemma_never_occurs(t, a);
    }
}

/// What occurs in a sequence occurs at least once, and not more often than the
/// sequence is long.
proof fn lemma_occurs(s: Seq<Addr>, a: Addr)
    ensures
        s.contains(a) ==> occurrences(s, a) > 0,
        occurrences(s, a) <= s.len(),
    decreases s.len(),
{
    if s.len() > 0 {
        let t = s.drop_last();
        lemma_occurs(t, a);
        if s.contains(a) && s.last() != a {
            let i = choose|i: int| 0 <= i < s.len() && s[i] == a;
            assert(t[i] == a);
        }
    }
}

/// A message to a peer that was shut down is discarded: the peer is not affected
/// at all, unless it holds handles to nodes that are released by the same
/// operation. The latter are counted, though they cannot be received either.
pub proof fn lemma_discarded_is_not_counted(
    v: BusView,
    w: BusView,
    o: Addr,
    wakes: Seq<Addr>,
    p: Addr,
)
    requires
        v.intact(),
        v.ops.contains_key(o),
        op_committed(v, w, o, wakes),
        v.peers.contains_key(p),
        v.peers[p].sealed,
        forall|h: Addr| #[trigger]
            v.handles.contains_key(h) && v.handles[h].owner == p ==> !v.ops[o].nodes.contains(
                v.handles[h].node,
            ),
    ensures
        w.peers[p] == v.peers[p],
        !wakes.contains(p),
{
    let (ms, ns, rs, hs) = choose|ms: Seq<Addr>, ns: Seq<Addr>, rs: Seq<Addr>, hs: Seq<Addr>|
        #[trigger] committed_as(v, w, o, wakes, ms, ns, rs, hs);
    let q = v.op_queued(o);
    let tx = v.ops[o].tx;
    let a = q.tx_committed(tx);
    let a1 = a.op_messages_cleared(o);
    lemma_ok(v);
    assert(v.op_ok(o));
    lemma_op_queued(v, o);
    lemma_ok(q);
    assert(q.op_ok(o));
    lemma_tx_committed(q, tx);
    lemma_op_messages_cleared(a, o);
    lemma_ok(a);
    assert(a.op_ok(o));
    assert(all_in(a.ops[o].messages, a.messages.dom()));
    lemma_rearranged_in(ms, a.ops[o].messages, a.messages.dom());
    assert(all_in(ms, a1.messages.dom()));
    lemma_transfers_linked_ok(a1, ms);
    if wakes.contains(p) {
        let i = choose|i: int| 0 <= i < wakes.len() && wakes[i] == p;
        if i < ms.len() {
            let m = ms[i];
            assert(ms.contains(m));
            assert(q.ops[o].messages.contains(m));
            assert(v.queueable(v.messages[m].tx_node));
            let s = v.ops[o].messages;
            let j = choose|j: int| 0 <= j < s.len() && s[j] == m;
            assert(v.messages.contains_key(s[j]));
            assert(v.message_ok(m));
        } else if i < ms.len() + rs.len() {
            let h = rs[i - ms.len()];
            assert(rs.contains(h));
            assert(v.handles.contains_key(h));
        } else {
            let h = hs[i - ms.len() - rs.len()];
            assert(hs.contains(h));
            assert(q.ops[o].handles.contains(h));
            assert(v.queueable(v.handles[h].release_handle));
            let s = v.ops[o].handles;
            let j = choose|j: int| 0 <= j < s.len() && s[j] == h;
            assert(v.handles.contains_key(s[j]));
            assert(v.handle_ok(h));
        }
        assert(false);
    }
    lemma_never_occurs(wakes, p);
    lemma_commit_queues(v, w, o, wakes);
    lemma_commit_appends(v, w, o, wakes, p);
    lemma_sealed_peer_is_left_alone(v, w, o, wakes, p);
    assert(v.peer_ok(p));
    assert(w.peers[p].queue =~= v.peers[p].queue);
}

/// The handles that are transferred by a message to a peer that was shut down
/// are not linked, unless another message of the operation transfers them.
pub proof fn lemma_discarded_is_not_linked(
    v: BusView,
    w: BusView,
    o: Addr,
    wakes: Seq<Addr>,
    h: Addr,
)
    requires
        v.intact(),
        v.ops.contains_key(o),
        op_committed(v, w, o, wakes),
        v.handles.contains_key(h),
        !v.handles[h].linked,
        forall|m: Addr| #[trigger]
            v.ops[o].messages.contains(m) && v.messages[m].transfers.contains(h)
                ==> v.peers[v.message_dest(m)].sealed,
    ensures
        !w.handles[h].linked,
{
    let (ms, ns, rs, hs) = choose|ms: Seq<Addr>, ns: Seq<Addr>, rs: Seq<Addr>, hs: Seq<Addr>|
        #[trigger] committed_as(v, w, o, wakes, ms, ns, rs, hs);
    let q = v.op_queued(o);
    let tx = v.ops[o].tx;
    let a = q.tx_committed(tx);
    let a1 = a.op_messages_cleared(o);
    let b = a1.transfers_linked(ms);
    let b1 = b.op_nodes_cleared(o);
    let c = b1.nodes_cleared(ns);
    lemma_ok(v);
    assert(v.op_ok(o));
    lemma_op_queued(v, o);
    assert(!q.handles[h].linked) by {
        if v.ops[o].handles.contains(h) {
            assert(v.queueable(v.handles[h].release_handle) || !v.queueable(
                v.handles[h].release_handle,
            ));
        }
    }
    lemma_ok(q);
    assert(q.op_ok(o));
    lemma_tx_committed(q, tx);
    lemma_op_messages_cleared(a, o);
    lemma_ok(a);
    assert(a.op_ok(o));
    assert forall|k: int| #![trigger ms[k]] 0 <= k < ms.len() implies
        !a1.messages[ms[k]].transfers.contains(h) && a1.messages.contains_key(ms[k]) by {
        let m = ms[k];
        assert(ms.contains(m));
        assert(q.ops[o].messages.contains(m));
        assert(v.queueable(v.messages[m].tx_node));
        let s = v.ops[o].messages;
        let j = choose|j: int| 0 <= j < s.len() && s[j] == m;
        assert(v.messages.contains_key(s[j]));
        assert(v.message_ok(m));
    }
    lemma_others_stay_unlinked(a1, ms, h);
    lemma_transfers_linked(a1, ms);
    lemma_transfers_linked_ok(a1, ms);
    lemma_op_nodes_cleared(b, o);
    lemma_rearranged_in(ns, a.ops[o].nodes, a.nodes.dom());
    assert(all_in(ns, b1.nodes.dom()));
    assert(b1.handles.contains_key(h));
    lemma_cleared_stays_unlinked(b1, ns, h);
    lemma_nodes_cleared_ok(b1, ns);
    lemma_all_notified(c.op_handles_cleared(o), wakes);
}

/// If a handle is not linked into its node, then its owner does not get notified
/// about the release of the node.
pub proof fn lemma_unlinked_is_not_notified(
    v: BusView,
    w: BusView,
    o: Addr,
    wakes: Seq<Addr>,
    h: Addr,
)
    requires
        v.intact(),
        v.ops.contains_key(o),
        op_committed(v, w, o, wakes),
        v.handles.contains_key(h),
        !v.handles[h].linked,
    ensures
        w.tx_nodes[v.handles[h].release_node] == v.tx_nodes[v.handles[h].release_node],
        forall|p: Addr| #[trigger]
            v.peers.contains_key(p) && w.lists(p).contains(v.handles[h].release_node)
                ==> v.lists(p).contains(v.handles[h].release_node),
{
    let e = v.handles[h].release_node;
    lemma_ok(v);
    assert(v.handle_ok(h));
    if v.op_entries(o).contains(e) {
        lemma_op_entry(v, o, e);
    }
    lemma_commit_queues(v, w, o, wakes);
    lemma_commit_keeps_intact(v, w, o, wakes);
    lemma_ok(w);
    lemma_similar(v, w);
    assert forall|p: Addr| #[trigger] v.peers.contains_key(p) && w.lists(p).contains(e) implies
        v.lists(p).contains(e) by {
        assert(w.peers.contains_key(p) && w.peer_ok(p));
        let i = choose|i: int| 0 <= i < w.lists(p).len() && w.lists(p)[i] == e;
        assert(w.tx_nodes[w.lists(p)[i]].queued);
        assert(w.dest(e) == p);
        assert(v.tx_nodes.contains_key(e) && v.tx_node_ok(e));
    }
}

/// Once the release of a handle is committed, its owner does not get notified
/// about a later release of the node.
pub proof fn lemma_released_handle_is_not_notified(
    v: BusView,
    w: BusView,
    x: BusView,
    o: Addr,
    later: Addr,
    wakes: Seq<Addr>,
    later_wakes: Seq<Addr>,
    h: Addr,
)
    requires
        v.intact(),
        v.ops.contains_key(o),
        op_committed(v, w, o, wakes),
        v.ops[o].handles.contains(h),
        v.queueable(v.handles[h].release_handle),
        forall|m: Addr| #[trigger]
            v.ops[o].messages.contains(m) ==> !v.messages[m].transfers.contains(h),
        w.ops.contains_key(later),
        op_committed(w, x, later, later_wakes),
    ensures
        !w.handles[h].linked,
        w.peers[v.handle_dest(h)].queue.contains(v.handles[h].release_handle),
        x.tx_nodes[v.handles[h].release_node] == w.tx_nodes[v.handles[h].release_node],
        forall|p: Addr| #[trigger]
            w.peers.contains_key(p) && x.lists(p).contains(v.handles[h].release_node)
                ==> w.lists(p).contains(v.handles[h].release_node),
{
    lemma_released_handle_is_unlinked(v, w, o, wakes, h);
    lemma_commit_keeps_intact(v, w, o, wakes);
    lemma_ok(v);
    assert(v.op_ok(o));
    let s = v.ops[o].handles;
    let i = choose|i: int| 0 <= i < s.len() && s[i] == h;
    assert(v.handles.contains_key(s[i]));
    lemma_unlinked_is_not_notified(w, x, later, later_wakes, h);
}

/// The first transaction that an entry was attached to is the one it stays with.
/// A commit attaches all entries of the operation that are not attached yet, and
/// commits the transaction for good.
pub proof fn lemma_commit_keeps_transactions(
    v: BusView,
    w: BusView,
    o: Addr,
    wakes: Seq<Addr>,
    e: Addr,
)
    requires
        v.intact(),
        v.ops.contains_key(o),
        op_committed(v, w, o, wakes),
        v.tx_nodes.contains_key(e),
    ensures
        w.tx_nodes[e].tx == if v.tx_nodes[e].tx is None && v.op_entries(o).contains(e) {
            Some(v.ops[o].tx)
        } else {
            v.tx_nodes[e].tx
        },
        v.tx_nodes[e].tx matches Some(t) ==> w.is_committed(e) == (v.txs[t] || t == v.ops[o].tx),
        v.is_committed(e) ==> w.is_committed(e),
{
    lemma_commit_queues(v, w, o, wakes);
    lemma_ok(v);
    assert(v.tx_node_ok(e));
}

/// The first transaction that an entry was attached to is the one it stays with,
/// also if a peer is shut down, if entries are received, or if objects are
/// reclaimed. In the latter case, the transaction stays as long as the entry
/// does.
pub proof fn lemma_transaction_is_kept(v: BusView, w: BusView, p: Addr, wakes: Seq<Addr>, e: Addr)
    requires
        v.intact(),
        v.peers.contains_key(p),
        v.tx_nodes.contains_key(e),
        v.tx_nodes[e].tx is Some,
    ensures
        peer_ended(v, w, p, wakes) ==> w.tx_nodes[e].tx == v.tx_nodes[e].tx && (v.is_committed(e)
            ==> w.is_committed(e)),
        v.prefetched(p).tx_nodes[e].tx == v.tx_nodes[e].tx,
        v.popped(p).tx_nodes[e].tx == v.tx_nodes[e].tx,
        v.reclaimed().tx_nodes.contains_key(e) ==> {
            &&& v.reclaimed().tx_nodes[e].tx == v.tx_nodes[e].tx
            &&& v.reclaimed().txs.contains_key(v.tx_nodes[e].tx->0)
            &&& v.reclaimed().is_committed(e) == v.is_committed(e)
        },
{
    lemma_reclaimed_is_tidy(v);
    lemma_ok(v.reclaimed());
    if v.reclaimed().tx_nodes.contains_key(e) {
        assert(v.reclaimed().tx_node_ok(e));
    }
    if peer_ended(v, w, p, wakes) {
        let o = choose|o: Addr| #[trigger] ended_as(v, w, p, wakes, o);
        let c = lemma_end_steps(v, w, p, wakes, o);
        lemma_commit_keeps_transactions(c, w, o, wakes, e);
    }
}

/// The state of a bus right before the shutdown of a peer is committed.
proof fn lemma_end_steps(v: BusView, w: BusView, p: Addr, wakes: Seq<Addr>, o: Addr) -> (c: BusView)
    requires
        v.intact(),
        v.peers.contains_key(p),
        ended_as(v, w, p, wakes, o),
    ensures
        c.intact(),
        c.ops.contains_key(o),
        op_committed(c, w, o, wakes),
        similar(v, c),
        c.peers == v.drained(p).peers,
        c.tx_nodes == v.drained(p).tx_nodes,
        c.txs == v.txs,
        c.ops[o].messages.len() == 0,
        forall|e: Addr, h: Addr| #![trigger v.lists(p).contains(e), v.handles.contains_key(h)]
            v.lists(p).contains(e) && v.handles.contains_key(h) && v.handles[h].owner == p
                && v.handles[h].op is None && v.tx_nodes[e].kind == TxNodeKind::User
                && v.messages[v.tx_nodes[e].base].transfers.contains(h)
                ==> c.ops[o].handles.contains(h),
{
    let tx = v.peers[p].shutdown;
    lemma_ok(v);
    assert(v.peer_ok(p));
    let a = v.op_added(o, p, tx);
    lemma_op_added(v, o, p, tx);
    let b = a.drained(p);
    lemma_drained(a, p);
    let q = v.lists(p);
    assert forall|i: int| #![trigger q[i]] 0 <= i < q.len() implies b.tx_nodes.contains_key(
        q[i],
    ) by {
        assert(v.tx_nodes.contains_key(v.lists(p)[i]));
    }
    lemma_transfers_released(b, o, q);
    let c = b.transfers_released(o, q);
    assert(similar(v, a));
    lemma_similar_trans(v, a, b);
    lemma_similar_trans(v, b, c);
    assert(a.lists(p) == v.lists(p));
    assert(b.tx_nodes =~= v.drained(p).tx_nodes);
    lemma_transfers_frame(b, o, q);
    lemma_ok(c);
    assert(c.ops[o].messages.len() == 0) by {
        lemma_transfers_messages(b, o, q);
    }
    assert forall|e: Addr, h: Addr| #![trigger v.lists(p).contains(e), v.handles.contains_key(h)]
        v.lists(p).contains(e) && v.handles.contains_key(h) && v.handles[h].owner == p
            && v.handles[h].op is None && v.tx_nodes[e].kind == TxNodeKind::User
            && v.messages[v.tx_nodes[e].base].transfers.contains(h) implies
        c.ops[o].handles.contains(h) by {
        lemma_transfers_released_in(b, o, q, h);
        let i = choose|i: int| 0 <= i < q.len() && q[i] == e;
        assert(v.tx_nodes.contains_key(v.lists(p)[i]));
        assert(q.contains(e));
        assert(b.tx_nodes[e].kind == v.tx_nodes[e].kind && b.tx_nodes[e].base
            == v.tx_nodes[e].base);
        assert(c.handles.contains_key(h) && c.handle_ok(h));
    }
    c
}

/// Releasing transferred handles does not add messages to the operation.
proof fn lemma_transfers_messages(v: BusView, o: Addr, s: Seq<Addr>)
    ensures
        v.transfers_released(o, s).ops[o].messages == v.ops[o].messages,
    decreases s.len(),
{
    if s.len() > 0 {
        let w = v.transfers_released(o, s.drop_last());
        lemma_transfers_messages(v, o, s.drop_last());
        lemma_handles_messages(w, o, w.messages[w.tx_nodes[s.last()].base].transfers);
    }
}

proof fn lemma_handles_messages(v: BusView, o: Addr, s: Seq<Addr>)
    ensures
        v.handles_released(o, s).ops[o].messages == v.ops[o].messages,
    decreases s.len(),
{
    if s.len() > 0 {
        lemma_handles_messages(v, o, s.drop_last());
    }
}

/// Releasing transferred handles does not affect entries.
proof fn lemma_transfers_frame(v: BusView, o: Addr, s: Seq<Addr>)
    ensures
        v.transfers_released(o, s).tx_nodes == v.tx_nodes,
        v.transfers_released(o, s).txs == v.txs,
    decreases s.len(),
{
    if s.len() > 0 {
        let w = v.transfers_released(o, s.drop_last());
        lemma_transfers_frame(v, o, s.drop_last());
        lemma_handles_frame(w, o, w.messages[w.tx_nodes[s.last()].base].transfers);
    }
}

proof fn lemma_handles_frame(v: BusView, o: Addr, s: Seq<Addr>)
    ensures
        v.handles_released(o, s).tx_nodes == v.tx_nodes,
        v.handles_released(o, s).txs == v.txs,
    decreases s.len(),
{
    if s.len() > 0 {
        lemma_handles_frame(v, o, s.drop_last());
    }
}

impl BusView {
    /// There is a committed entry that a peer did not receive yet.
    pub open spec fn has_committed(self, p: Addr) -> bool {
        exists|e: Addr| #[trigger] self.lists(p).contains(e) && self.is_committed(e)
    }
}

/// A peer finds nothing to be received if, and only if, there is no committed
/// entry left for it, unless its counter has wrapped around. Everything that is
/// queued on a peer is committed.
pub proof fn lemma_peek_misses_nothing(v: BusView, p: Addr)
    requires
        v.wf(),
        v.peers.contains_key(p),
    ensures
        v.has_committed(p) <==> v.lists(p).len() > 0,
        v.prefetched(p).peers[p].ready.len() > 0 <==> v.has_committed(p),
        v.peers[p].committed <= usize::MAX ==> (v.readable(p) && v.prefetched(
            p,
        ).peers[p].ready.len() > 0 <==> v.has_committed(p)),
{
    reveal(BusView::settled);
    let peer = v.peers[p];
    lemma_ok(v);
    assert(v.peer_ok(p));
    lemma_wrapped(peer.committed);
    if v.lists(p).len() > 0 {
        let e = v.lists(p)[0];
        assert(v.tx_nodes.contains_key(v.lists(p)[0]));
        assert(v.lists(p).contains(e) && v.is_committed(e));
        assert(v.has_committed(p));
    }
    if v.has_committed(p) && peer.ready.len() == 0 {
        let e = choose|e: Addr| #[trigger] v.lists(p).contains(e) && v.is_committed(e);
        let todo = peer.queue + peer.busy;
        assert(todo =~= v.lists(p));
        lemma_filter_once(todo, v.committed_fn());
        assert(v.committed_fn()(e));
        assert(todo.filter(v.committed_fn()).contains(e));
    }
    if v.prefetched(p).peers[p].ready.len() > 0 && v.lists(p).len() == 0 {
        let todo = peer.queue + peer.busy;
        assert(todo =~= v.lists(p));
        lemma_filter_once(todo, v.committed_fn());
        let r = todo.filter(v.committed_fn());
        assert(r.contains(r[0]));
    }
}

/// A commit is over once it returns: it leaves everything that is queued
/// committed, and everyone on whom something is queued notified.
pub proof fn lemma_commit_is_settled(v: BusView, w: BusView, o: Addr, wakes: Seq<Addr>)
    requires
        v.wf(),
        v.ops.contains_key(o),
        op_committed(v, w, o, wakes),
    ensures
        w.wf(),
{
    reveal(BusView::settled);
    lemma_commit_queues(v, w, o, wakes);
    lemma_commit_keeps_intact(v, w, o, wakes);
    lemma_ok(v);
    lemma_ok(w);
    lemma_similar(v, w);
    assert(v.op_ok(o));
    assert forall|e: Addr| #[trigger] w.tx_nodes.contains_key(e) implies {
        &&& w.tx_nodes[e].tx is Some ==> w.is_committed(e)
        &&& w.tx_nodes[e].queued ==> w.tx_nodes[e].tx is Some
    } by {
        assert(v.tx_nodes.contains_key(e));
        assert(v.tx_node_ok(e));
    }
    assert forall|p: Addr| #[trigger]
        w.peers.contains_key(p) && w.lists(p).len() > 0 implies w.peers[p].committed > 0 by {
        assert(v.peers.contains_key(p));
        lemma_occurs(wakes, p);
        let e = w.lists(p)[0];
        assert(w.peer_ok(p));
        assert(w.tx_nodes.contains_key(w.lists(p)[0]));
        assert(w.tx_nodes[e].queued && w.dest(e) == p);
        assert(v.tx_nodes.contains_key(e) && v.tx_node_ok(e));
        if v.tx_nodes[e].queued {
            assert(v.lists(p).contains(e));
        } else {
            assert(v.op_entries(o).contains(e) && v.queueable(e));
            lemma_queued_is_woken(v, w, o, wakes, e);
        }
    }
}

/// Discarding everything that is queued on a peer leaves nothing uncommitted.
pub proof fn lemma_drained_is_settled(v: BusView, p: Addr)
    requires
        v.wf(),
        v.peers.contains_key(p),
    ensures
        v.drained(p).wf(),
{
    reveal(BusView::settled);
    lemma_drained(v, p);
    let w = v.drained(p);
    assert(w.lists(p).len() == 0);
    assert forall|e: Addr| #[trigger] w.tx_nodes.contains_key(e) implies {
        &&& w.tx_nodes[e].tx is Some ==> w.is_committed(e)
        &&& w.tx_nodes[e].queued ==> w.tx_nodes[e].tx is Some
    } by {
        assert(v.tx_nodes.contains_key(e));
    }
    assert forall|b: Addr| #[trigger]
        w.peers.contains_key(b) && w.lists(b).len() > 0 implies w.peers[b].committed > 0 by {
        assert(v.peers.contains_key(b));
    }
}

/// A shutdown is over once it returns: it leaves everything that is queued
/// committed, and everyone on whom something is queued notified.
pub proof fn lemma_end_is_settled(v: BusView, w: BusView, p: Addr, wakes: Seq<Addr>)
    requires
        v.wf(),
        v.peers.contains_key(p),
        peer_ended(v, w, p, wakes),
    ensures
        w.wf(),
{
    let o = choose|o: Addr| #[trigger] ended_as(v, w, p, wakes, o);
    let c = lemma_end_steps(v, w, p, wakes, o);
    lemma_drained_is_settled(v, p);
    lemma_unmoved(v.drained(p), c);
    lemma_commit_is_settled(c, w, o, wakes);
}

/// Receiving entries leaves the others committed, and notified about.
pub proof fn lemma_receive_is_settled(v: BusView, p: Addr)
    requires
        v.wf(),
        v.peers.contains_key(p),
    ensures
        v.prefetched(p).wf(),
        v.popped(p).wf(),
{
    reveal(BusView::settled);
    lemma_prefetched(v, p);
    lemma_popped(v, p);
    let w = v.prefetched(p);
    let x = v.popped(p);
    lemma_ok(v);
    lemma_lists(v, p);
    if v.peers[p].ready.len() > 0 {
        assert(v.peers[p].ready.contains(v.peers[p].ready[0]));
    }
    assert forall|e: Addr| #[trigger] w.tx_nodes.contains_key(e) implies {
        &&& w.tx_nodes[e].tx is Some ==> w.is_committed(e)
        &&& w.tx_nodes[e].queued ==> w.tx_nodes[e].tx is Some
    } by {
        assert(v.tx_nodes.contains_key(e));
        assert(w.is_committed(e) == v.is_committed(e));
    }
    assert forall|e: Addr| #[trigger] x.tx_nodes.contains_key(e) implies {
        &&& x.tx_nodes[e].tx is Some ==> x.is_committed(e)
        &&& x.tx_nodes[e].queued ==> x.tx_nodes[e].tx is Some
    } by {
        assert(v.tx_nodes.contains_key(e));
        assert(x.is_committed(e) == v.is_committed(e));
    }
    assert forall|b: Addr| #[trigger]
        w.peers.contains_key(b) && w.lists(b).len() > 0 implies w.peers[b].committed > 0 by {
        assert(v.peers.contains_key(b));
        if b == p {
            let e = w.lists(p)[0];
            assert(w.lists(p).contains(e));
            lemma_prefetch_keeps_entries(v, p, e);
        } else {
            assert(w.lists(b) == v.lists(b));
        }
    }
    assert forall|b: Addr| #[trigger]
        x.peers.contains_key(b) && x.lists(b).len() > 0 implies x.peers[b].committed > 0 by {
        assert(v.peers.contains_key(b));
        assert(v.lists(b).len() > 0);
    }
}

impl BusView {
    /// Tells which entries are destined for a peer.
    pub open spec fn dest_fn(self, p: Addr) -> spec_fn(Addr) -> bool {
        |e: Addr| self.dest(e) == p
    }

    /// The messages of an operation that are sent to a peer.
    pub open spec fn op_messages_to(self, o: Addr, p: Addr) -> Seq<Addr> {
        self.ops[o].messages.filter(|m: Addr| self.message_dest(m) == p)
    }

    /// What an operation has to be received by a peer: first its messages, then
    /// the notifications about the release of nodes, and last those about the
    /// release of handles.
    pub open spec fn op_entries_to(self, o: Addr, p: Addr) -> Seq<Addr> {
        self.message_entries(self.op_messages_to(o, p)) + self.node_entries(
            self.ops[o].nodes,
        ).filter(self.dest_fn(p)) + self.handle_entries(self.ops[o].handles).filter(
            self.dest_fn(p),
        )
    }

    /// An entry is what a peer gets to see if it looks at what is next to be
    /// received.
    pub open spec fn offers(self, p: Addr, e: Addr) -> bool {
        &&& self.readable(p)
        &&& self.prefetched(p).peers[p].ready.len() > 0
        &&& self.prefetched(p).peers[p].ready[0] == e
    }

    /// The bus after a peer has looked at what is next to be received, and
    /// removed it, for the given number of times.
    pub open spec fn received(self, p: Addr, k: nat) -> BusView
        decreases k,
    {
        if k == 0 {
            self
        } else {
            self.received(p, (k - 1) as nat).prefetched(p).popped(p)
        }
    }
}

/// The messages of an operation to the same peer are kept in the order in which
/// they were sent.
pub proof fn lemma_send_order(
    v: BusView,
    w: BusView,
    o: Addr,
    via: Addr,
    transfers: Seq<Addr>,
    shared: Addr,
    m: Addr,
    e: Addr,
    p: Addr,
)
    requires
        v.intact(),
        v.ops.contains_key(o),
        v.handles.contains_key(via),
        sent_as(v, w, o, via, transfers, shared, m, e),
    ensures
        w.op_messages_to(o, p) == if v.handle_dest(via) == p {
            v.op_messages_to(o, p).push(m)
        } else {
            v.op_messages_to(o, p)
        },
{
    let x = v.message_added(m, e, via, transfers, shared);
    let s = v.ops[o].messages;
    let d = v.handle_dest(via);
    let keys = x.message_keys(s);
    let f = |b: Addr| v.message_dest(b) == p;
    let g = |b: Addr| w.message_dest(b) == p;
    lemma_ok(v);
    assert(v.op_ok(o));
    assert(x.message_dest(m) == d);
    assert(w.message_dest(m) == d);
    assert forall|i: int| #![trigger s[i]] 0 <= i < s.len() implies x.message_dest(s[i])
        == v.message_dest(s[i]) && w.message_dest(s[i]) == v.message_dest(s[i]) by {
        assert(v.messages.contains_key(s[i]));
    }
    assert(keys =~= v.message_keys(s));
    lemma_place_bounds(keys, d as int);
    let i = place(keys, d as int);
    let a = s.take(i);
    let b = s.skip(i);
    let t = s.insert(i, m);
    assert(t =~= a.push(m) + b);
    assert(s =~= a + b);
    Seq::filter_distributes_over_add(a.push(m), b, g);
    Seq::filter_distributes_over_add(a, b, f);
    a.lemma_filter_push(m, g);
    assert forall|k: int| #![trigger a[k]] 0 <= k < a.len() implies f(a[k]) == g(a[k]) by {
        assert(a[k] == s[k]);
    }
    assert forall|k: int| #![trigger b[k]] 0 <= k < b.len() implies f(b[k]) == g(b[k]) && (d == p
        ==> !g(b[k])) by {
        assert(b[k] == s[i + k]);
        assert(keys[i + k] == v.message_dest(s[i + k]) as int);
    }
    lemma_filter_same(a, f, g);
    lemma_filter_same(b, f, g);
    if d == p {
        lemma_filter_none(b, g);
        assert(a.filter(g).push(m) + b.filter(g) =~= a.filter(g).push(m));
        assert(a.filter(f) + b.filter(f) =~= a.filter(f));
    }
    assert(w.ops[o].messages == t);
}

/// Filtering out everything.
pub(super) proof fn lemma_filter_none(s: Seq<Addr>, f: spec_fn(Addr) -> bool)
    requires
        forall|i: int| #![trigger s[i]] 0 <= i < s.len() ==> !f(s[i]),
    ensures
        s.filter(f) == Seq::<Addr>::empty(),
    decreases s.len(),
{
    reveal(Seq::filter);
    if s.len() > 0 {
        let t = s.drop_last();
        assert(s[s.len() - 1] == s.last());
        assert forall|i: int| #![trigger t[i]] 0 <= i < t.len() implies !f(t[i]) by {
            assert(t[i] == s[i]);
        }
        lemma_filter_none(t, f);
    } else {
        assert(s.filter(f) =~= Seq::<Addr>::empty());
    }
}

/// Filtering out nothing.
pub(super) proof fn lemma_filter_all(s: Seq<Addr>, f: spec_fn(Addr) -> bool)
    requires
        forall|i: int| #![trigger s[i]] 0 <= i < s.len() ==> f(s[i]),
    ensures
        s.filter(f) == s,
    decreases s.len(),
{
    reveal(Seq::filter);
    if s.len() > 0 {
        let t = s.drop_last();
        assert(s[s.len() - 1] == s.last());
        assert forall|i: int| #![trigger t[i]] 0 <= i < t.len() implies f(t[i]) by {
            assert(t[i] == s[i]);
        }
        lemma_filter_all(t, f);
        assert(t.push(s.last()) =~= s);
    } else {
        assert(s.filter(f) =~= s);
    }
}

/// Entries of messages are destined for where the messages are sent to.
proof fn lemma_message_entries_to(v: BusView, s: Seq<Addr>, p: Addr)
    requires
        v.intact(),
        all_in(s, v.messages.dom()),
    ensures
        v.message_entries(s).filter(v.dest_fn(p)) == v.message_entries(
            s.filter(|m: Addr| v.message_dest(m) == p),
        ),
    decreases s.len(),
{
    reveal(Seq::filter);
    let f = |m: Addr| v.message_dest(m) == p;
    let es = v.message_entries(s);
    if s.len() > 0 {
        let t = s.drop_last();
        let m = s.last();
        assert(s[s.len() - 1] == m);
        assert forall|i: int| #![trigger t[i]] 0 <= i < t.len() implies v.messages.contains_key(
            t[i],
        ) by {
            assert(t[i] == s[i]);
        }
        lemma_message_entries_to(v, t, p);
        lemma_ok(v);
        assert(v.messages.contains_key(m) && v.message_ok(m));
        assert(es.drop_last() =~= v.message_entries(t));
        assert(es.last() == v.messages[m].tx_node);
        assert(v.dest(es.last()) == v.message_dest(m));
        if f(m) {
            assert(v.message_entries(t.filter(f)).push(es.last()) =~= v.message_entries(
                t.filter(f).push(m),
            ));
        }
    } else {
        assert(es.filter(v.dest_fn(p)) =~= v.message_entries(s.filter(f)));
    }
}

/// What an operation has to be received by a peer, as part of all entries of the
/// operation.
proof fn lemma_op_entries_to(v: BusView, o: Addr, p: Addr)
    requires
        v.intact(),
        v.ops.contains_key(o),
    ensures
        v.op_entries_to(o, p) == v.op_entries(o).filter(v.dest_fn(p)),
        v.op_entries_to(o, p).no_duplicates(),
{
    let op = v.ops[o];
    let f = v.dest_fn(p);
    lemma_ok(v);
    assert(v.op_ok(o));
    assert(all_in(op.messages, v.messages.dom()));
    lemma_message_entries_to(v, op.messages, p);
    Seq::filter_distributes_over_add(
        v.message_entries(op.messages) + v.node_entries(op.nodes),
        v.handle_entries(op.handles),
        f,
    );
    Seq::filter_distributes_over_add(
        v.message_entries(op.messages),
        v.node_entries(op.nodes),
        f,
    );
    lemma_op_entries(v, o);
    lemma_filter_once(v.op_entries(o), f);
}

/// Once an operation is committed, a peer with nothing else to be received gets
/// to see all its messages in the order in which they were sent, then the
/// notifications about the release of nodes, and then those about the release of
/// handles, each exactly once. Nothing is left to be received afterwards.
///
/// This fails if the counter of the peer has wrapped around.
pub proof fn lemma_operation_is_received(
    v: BusView,
    w: BusView,
    o: Addr,
    wakes: Seq<Addr>,
    p: Addr,
)
    requires
        v.wf(),
        v.ops.contains_key(o),
        op_committed(v, w, o, wakes),
        v.peers.contains_key(p),
        !v.peers[p].sealed,
        v.lists(p).len() == 0,
        w.peers[p].committed <= usize::MAX,
    ensures
        v.op_entries_to(o, p).no_duplicates(),
        forall|k: int| #![trigger v.op_entries_to(o, p)[k]]
            0 <= k < v.op_entries_to(o, p).len() ==> w.received(p, k as nat).offers(
                p,
                v.op_entries_to(o, p)[k],
            ),
        w.received(p, v.op_entries_to(o, p).len()).prefetched(p).lists(p).len() == 0,
{
    let s = v.op_entries_to(o, p);
    let es = v.op_entries(o);
    let f = v.dest_fn(p);
    let g = v.arrives_fn(p);
    lemma_op_entries_to(v, o, p);
    lemma_op_entries(v, o);
    lemma_commit_keeps_intact(v, w, o, wakes);
    lemma_commit_queues(v, w, o, wakes);
    lemma_commit_appends(v, w, o, wakes, p);
    lemma_commit_is_settled(v, w, o, wakes);
    reveal(BusView::settled);
    lemma_ok(v);
    lemma_ok(w);
    assert(v.peer_ok(p));
    assert(w.peer_ok(p));
    // Nothing was queued before, and the peer is not shut down, so everything
    // arrives.
    assert forall|i: int| #![trigger es[i]] 0 <= i < es.len() implies f(es[i]) == g(es[i]) by {
        assert(v.tx_nodes.contains_key(es[i]));
        assert(v.tx_node_ok(es[i]));
    }
    lemma_filter_same(es, f, g);
    assert(v.peers[p].ready =~= Seq::<Addr>::empty());
    assert(v.backlog(p) =~= Seq::<Addr>::empty());
    assert(w.backlog(p) =~= s);
    // Everything is committed.
    let todo = w.peers[p].queue + w.peers[p].busy;
    assert(todo =~= w.lists(p));
    assert forall|i: int| #![trigger todo[i]] 0 <= i < todo.len() implies w.committed_fn()(todo[i])
        && !w.pending_fn()(todo[i]) by {
        assert(w.tx_nodes.contains_key(w.lists(p)[i]));
    }
    lemma_filter_all(todo, w.committed_fn());
    lemma_filter_none(todo, w.pending_fn());
    let x = w.prefetched(p);
    assert(x.peers[p].ready =~= s);
    lemma_wrapped(w.peers[p].committed);
    assert forall|k: int| #![trigger v.op_entries_to(o, p)[k]]
        0 <= k < v.op_entries_to(o, p).len() implies w.received(p, k as nat).offers(
        p,
        v.op_entries_to(o, p)[k],
    ) by {
        lemma_received(w, p, s, k as nat);
    }
    lemma_received(w, p, s, s.len());
}

/// Entries are received one after the other.
proof fn lemma_received(w: BusView, p: Addr, s: Seq<Addr>, k: nat)
    requires
        w.prefetched(p).peers[p].ready == s,
        w.prefetched(p).peers[p].queue.len() == 0,
        w.prefetched(p).peers[p].busy.len() == 0,
        k <= s.len(),
    ensures
        w.received(p, k).peers[p].committed == w.peers[p].committed,
        w.received(p, k).prefetched(p).peers[p].ready == s.skip(k as int),
        w.received(p, k).prefetched(p).peers[p].queue.len() == 0,
        w.received(p, k).prefetched(p).peers[p].busy.len() == 0,
    decreases k,
{
    if k == 0 {
        assert(s.skip(0) =~= s);
    } else {
        let j = (k - 1) as nat;
        lemma_received(w, p, s, j);
        let x = w.received(p, j).prefetched(p);
        let y = x.popped(p);
        assert(s.skip(j as int).remove(0) =~= s.skip(k as int));
        assert(y.peers[p].ready == s.skip(k as int));
        if y.peers[p].ready.len() == 0 {
            let todo = y.peers[p].queue + y.peers[p].busy;
            assert(todo.len() == 0);
            lemma_filter_none(todo, y.committed_fn());
            lemma_filter_none(todo, y.pending_fn());
            assert(y.prefetched(p).peers[p].ready =~= s.skip(k as int));
        }
    }
}

/// A peer that was shut down finds nothing to be received.
pub proof fn lemma_sealed_peer_gets_nothing(v: BusView, p: Addr)
    requires
        v.intact(),
        v.peers.contains_key(p),
        v.peers[p].sealed,
    ensures
        v.lists(p).len() == 0,
        v.prefetched(p).peers[p].ready.len() == 0,
        forall|e: Addr| !v.offers(p, e),
{
    lemma_ok(v);
    assert(v.peer_ok(p));
    let todo = v.peers[p].queue + v.peers[p].busy;
    assert(todo.len() == 0);
    lemma_filter_none(todo, v.committed_fn());
}

/// A shutdown releases the handles that the discarded messages transferred to
/// the peer, so nothing hangs on to them: they are no longer linked into their
/// nodes, and the owners of those get notified.
///
/// This is not the case for handles that lead back to the peer itself, nor for
/// handles that some operation is about to release anyway, or whose owners are
/// about to be notified already.
pub proof fn lemma_end_releases_transfers(
    v: BusView,
    w: BusView,
    p: Addr,
    wakes: Seq<Addr>,
    m: Addr,
    h: Addr,
)
    requires
        v.intact(),
        v.peers.contains_key(p),
        peer_ended(v, w, p, wakes),
        v.messages.contains_key(m),
        v.lists(p).contains(v.messages[m].tx_node),
        v.messages[m].transfers.contains(h),
        v.handles[h].owner == p,
        v.handles[h].op is None,
        v.handle_dest(h) != p,
        v.queueable(v.handles[h].release_handle),
    ensures
        !w.handles[h].linked,
        w.peers[v.handle_dest(h)].queue.contains(v.handles[h].release_handle),
{
    let o = choose|o: Addr| #[trigger] ended_as(v, w, p, wakes, o);
    let c = lemma_end_steps(v, w, p, wakes, o);
    let e = v.messages[m].tx_node;
    let f = v.handles[h].release_handle;
    lemma_ok(v);
    lemma_ok(c);
    assert(v.message_ok(m));
    let s = v.messages[m].transfers;
    let i = choose|i: int| 0 <= i < s.len() && s[i] == h;
    assert(v.handles.contains_key(s[i]));
    assert(v.handle_ok(h));
    lemma_similar(v, c);
    assert(c.handle_ok(h));
    assert(c.ops[o].handles.contains(h));
    assert(c.queueable(f)) by {
        assert(c.tx_nodes[f] == v.tx_nodes[f] || !c.tx_nodes[f].queued);
        assert(c.dest(f) == v.handle_dest(h));
    }
    lemma_released_handle_is_unlinked(c, w, o, wakes, h);
}

/// Handles that were released are part of the operation.
proof fn lemma_handles_released_in(v: BusView, o: Addr, s: Seq<Addr>, h: Addr)
    requires
        v.handles[h].op is None || v.handles[h].op == Some(o),
    ensures
        ({
            let w = v.handles_released(o, s);
            &&& w.ops[o].operator == v.ops[o].operator
            &&& w.messages == v.messages
            &&& w.handles[h].owner == v.handles[h].owner
            &&& w.handles[h].op is None || w.handles[h].op == Some(o)
            &&& v.handles[h].op == Some(o) || s.contains(h) && v.handles[h].owner
                == v.ops[o].operator ==> w.handles[h].op == Some(o)
        }),
    decreases s.len(),
{
    if s.len() > 0 {
        let t = s.drop_last();
        lemma_handles_released_in(v, o, t, h);
        if s.contains(h) && s.last() != h {
            let i = choose|i: int| 0 <= i < s.len() && s[i] == h;
            assert(t[i] == h);
        }
    }
}

/// Handles that are transferred by a series of entries are part of the operation
/// once they were released.
proof fn lemma_transfers_released_in(v: BusView, o: Addr, s: Seq<Addr>, h: Addr)
    requires
        v.handles[h].op is None || v.handles[h].op == Some(o),
    ensures
        ({
            let w = v.transfers_released(o, s);
            &&& w.ops[o].operator == v.ops[o].operator
            &&& w.messages == v.messages
            &&& w.handles[h].owner == v.handles[h].owner
            &&& w.handles[h].op is None || w.handles[h].op == Some(o)
            &&& v.handles[h].op == Some(o) ==> w.handles[h].op == Some(o)
            &&& v.handles[h].owner == v.ops[o].operator ==> forall|e: Addr| #[trigger]
                s.contains(e) && v.tx_nodes[e].kind == TxNodeKind::User
                    && v.messages[v.tx_nodes[e].base].transfers.contains(h) ==> w.handles[h].op
                    == Some(o)
        }),
    decreases s.len(),
{
    if s.len() > 0 {
        let t = s.drop_last();
        let w = v.transfers_released(o, t);
        lemma_transfers_released_in(v, o, t, h);
        lemma_transfers_frame(v, o, t);
        lemma_handles_released_in(w, o, w.messages[w.tx_nodes[s.last()].base].transfers, h);
        assert forall|e: Addr| #[trigger] s.contains(e) implies e == s.last() || t.contains(e) by {
            let i = choose|i: int| 0 <= i < s.len() && s[i] == e;
            if i < t.len() {
                assert(t[i] == e);
            }
        }
    }
}

impl BusView {
    /// Everything that is queued on a peer, in the order in which it is going to
    /// be received.
    pub open spec fn upcoming(self, p: Addr) -> Seq<Addr> {
        self.peers[p].ready + self.backlog(p)
    }
}

/// A peer receives what is queued on it in order: looking at what is next shows
/// the first entry, and changes nothing. Only if that entry is removed, the one
/// behind it is next.
pub proof fn lemma_received_in_order(v: BusView, p: Addr)
    requires
        v.wf(),
        v.peers.contains_key(p),
    ensures
        v.upcoming(p).len() == v.lists(p).len(),
        v.prefetched(p).upcoming(p) == v.upcoming(p),
        v.prefetched(p).peers[p].ready.len() > 0 <==> v.upcoming(p).len() > 0,
        v.upcoming(p).len() > 0 ==> {
            &&& v.prefetched(p).peers[p].ready[0] == v.upcoming(p)[0]
            &&& v.prefetched(p).popped(p).upcoming(p) == v.upcoming(p).skip(1)
            &&& v.peers[p].committed <= usize::MAX ==> v.offers(p, v.upcoming(p)[0])
                && v.prefetched(p).offers(p, v.upcoming(p)[0])
        },
{
    reveal(BusView::settled);
    let peer = v.peers[p];
    let w = v.prefetched(p);
    lemma_ok(v);
    assert(v.peer_ok(p));
    lemma_wrapped(peer.committed);
    let todo = peer.queue + peer.busy;
    if peer.ready.len() == 0 {
        assert(todo =~= v.lists(p));
        assert forall|i: int| #![trigger todo[i]] 0 <= i < todo.len() implies v.committed_fn()(
            todo[i],
        ) && !v.pending_fn()(todo[i]) by {
            assert(v.tx_nodes.contains_key(v.lists(p)[i]));
        }
        lemma_filter_all(todo, v.committed_fn());
        lemma_filter_none(todo, v.pending_fn());
        assert(w.backlog(p) =~= Seq::<Addr>::empty());
        assert(w.upcoming(p) =~= v.upcoming(p));
    }
    if v.upcoming(p).len() > 0 {
        let x = w.popped(p);
        assert(w.peers[p].ready[0] == w.upcoming(p)[0]);
        assert(x.upcoming(p) =~= w.upcoming(p).skip(1));
    }
}

/// A commit adds to what a peer is going to receive, behind everything that was
/// queued before.
pub proof fn lemma_committed_in_order(v: BusView, w: BusView, o: Addr, wakes: Seq<Addr>, p: Addr)
    requires
        v.intact(),
        v.ops.contains_key(o),
        op_committed(v, w, o, wakes),
        v.peers.contains_key(p),
    ensures
        w.upcoming(p) == v.upcoming(p) + v.op_entries(o).filter(v.arrives_fn(p)),
{
    lemma_commit_appends(v, w, o, wakes, p);
    assert(w.upcoming(p) =~= v.upcoming(p) + v.op_entries(o).filter(v.arrives_fn(p)));
}

impl BusView {
    /// The entries that are attached to a transaction, each of which holds a
    /// reference to it.
    pub open spec fn attached(self, t: Addr) -> Set<Addr> {
        Set::new(|e: Addr| self.tx_nodes.contains_key(e) && self.tx_nodes[e].tx == Some(t))
    }
}

/// An entry is attached to the first transaction it is to be queued with, and is
/// committed together with it. No later transaction changes that, and none of
/// them is referred to by the entry.
pub proof fn lemma_first_transaction(v: BusView, first: Addr, later: Addr, e: Addr)
    requires
        v.intact(),
        v.tx_nodes.contains_key(e),
        v.tx_nodes[e].tx is None,
        v.txs.contains_key(first),
        v.txs.contains_key(later),
    ensures
        ({
            let w = v.enqueued(first, e);
            let x = w.enqueued(later, e);
            &&& !v.is_committed(e)
            &&& w.tx_nodes[e].tx == Some(first)
            &&& w.is_committed(e) == w.txs[first]
            &&& w.attached(first) == v.attached(first).insert(e)
            &&& later != first ==> w.attached(later) == v.attached(later)
            &&& x.tx_nodes[e].tx == Some(first)
            &&& x.is_committed(e) == x.txs[first]
            &&& x.attached(first) == w.attached(first)
            &&& x.attached(later) == w.attached(later)
        }),
{
    let w = v.enqueued(first, e);
    let x = w.enqueued(later, e);
    assert(w.attached(first) =~= v.attached(first).insert(e));
    if later != first {
        assert(w.attached(later) =~= v.attached(later));
    }
    assert(x.attached(first) =~= w.attached(first));
    assert(x.attached(later) =~= w.attached(later));
}

/// Entries that are reclaimed give up their reference to a transaction, and all
/// others keep theirs. A transaction stays exactly as long as there is an entry,
/// an operation, or a peer that refers to it.
pub proof fn lemma_dropped_transaction(v: BusView, t: Addr)
    requires
        v.intact(),
        v.txs.contains_key(t),
    ensures
        v.reclaimed().attached(t) == v.attached(t).intersect(v.reclaimed().tx_nodes.dom()),
        v.reclaimed().txs.contains_key(t) <==> v.reclaimed().tx_referred(t),
        v.reclaimed().attached(t).len() > 0 ==> v.reclaimed().tx_referred(t),
{
    let w = v.reclaimed();
    lemma_reclaimed_is_tidy(v);
    lemma_ok(w);
    assert(w.attached(t) =~= v.attached(t).intersect(w.tx_nodes.dom()));
    if w.attached(t).len() > 0 {
        let e = w.attached(t).choose();
        assert(w.attached(t).contains(e)) by {
            if forall|a: Addr| !w.attached(t).contains(a) {
                assert(w.attached(t) =~= Set::empty());
            }
        }
        assert(w.tx_nodes.contains_key(e) && w.tx_nodes[e].tx == Some(t));
        assert(w.entry_tx(t));
    }
    if w.tx_referred(t) {
        if w.shutdown_tx(t) {
            let p = choose|p: Addr| #[trigger] w.peers.contains_key(p) && w.peers[p].shutdown == t;
            assert(w.peer_ok(p));
        } else if w.op_tx(t) {
            let o = choose|o: Addr| #[trigger] w.ops.contains_key(o) && w.ops[o].tx == t;
            assert(w.op_ok(o));
        } else {
            let e = choose|e: Addr| #[trigger]
                w.tx_nodes.contains_key(e) && w.tx_nodes[e].tx == Some(t);
            assert(w.tx_node_ok(e));
        }
    }
}

} // verus!
