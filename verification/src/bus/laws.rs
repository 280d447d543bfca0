//! What holds of a bus.

use crate::bus::model::{
    all_in, committed_as, ended_as, lemma_add_contains, lemma_dest, lemma_drained,
    lemma_filter_once, lemma_handle_linked, lemma_insert_once, lemma_node_cleared, lemma_notified,
    lemma_ok, lemma_op_added, lemma_op_handle_linked, lemma_op_handles_cleared,
    lemma_op_messages_cleared, lemma_op_nodes_cleared, lemma_op_removed, lemma_place_bounds,
    lemma_similar_trans, lemma_tx_committed, op_committed, peer_ended, place, rearranged, similar,
    BusView, PeerView, TxNodeKind,
};
use crate::bus::order::{lemma_entries_queued, lemma_op_entries, lemma_op_queued};
use crate::bus::reclaim::{
    lemma_handles_reclaimed, lemma_messages_reclaimed, lemma_nodes_reclaimed, lemma_peers_reclaimed,
    lemma_shareds_reclaimed, lemma_txs_reclaimed,
};
use crate::util::arena::Addr;
use vstd::prelude::*;

verus! {

/// How often an address occurs in a sequence.
pub open spec fn occurrences(s: Seq<Addr>, a: Addr) -> nat
    decreases s.len(),
{
    if s.len() == 0 {
        0
    } else {
        occurrences(s.drop_last(), a) + if s.last() == a {
            1nat
        } else {
            0
        }
    }
}

impl BusView {
    /// What is still to be sorted out by a peer, in the order in which it was
    /// queued.
    pub open spec fn backlog(self, p: Addr) -> Seq<Addr> {
        (self.peers[p].queue + self.peers[p].busy).reverse()
    }

    /// A peer only gets to see what is committed.
    pub open spec fn ready_is_committed(self) -> bool {
        forall|p: Addr, i: int| #![trigger self.peers[p].ready[i]]
            self.peers.contains_key(p) && 0 <= i < self.peers[p].ready.len()
                ==> self.is_committed(self.peers[p].ready[i])
    }
}

/// Linking handles affects nothing but nodes and handles.
proof fn lemma_handles_linked(v: BusView, s: Seq<Addr>)
    ensures
        v.handles_linked(s) == (BusView {
            nodes: v.handles_linked(s).nodes,
            handles: v.handles_linked(s).handles,
            ..v
        }),
    decreases s.len(),
{
    if s.len() > 0 {
        lemma_handles_linked(v, s.drop_last());
    }
}

/// Linking transferred handles affects nothing but nodes and handles.
pub(super) proof fn lemma_transfers_linked(v: BusView, s: Seq<Addr>)
    ensures
        v.transfers_linked(s) == (BusView {
            nodes: v.transfers_linked(s).nodes,
            handles: v.transfers_linked(s).handles,
            ..v
        }),
    decreases s.len(),
{
    if s.len() > 0 {
        let w = v.transfers_linked(s.drop_last());
        lemma_transfers_linked(v, s.drop_last());
        lemma_handles_linked(w, w.messages[s.last()].transfers);
    }
}

/// Clearing nodes affects nothing but nodes and handles. Nodes that were
/// cleared have no handles linked.
proof fn lemma_nodes_cleared(v: BusView, s: Seq<Addr>)
    ensures
        v.nodes_cleared(s) == (BusView {
            nodes: v.nodes_cleared(s).nodes,
            handles: v.nodes_cleared(s).handles,
            ..v
        }),
        forall|n: Addr| #[trigger] s.contains(n) ==> v.nodes_cleared(s).nodes[n].handles.len() == 0,
    decreases s.len(),
{
    if s.len() > 0 {
        let t = s.drop_last();
        lemma_nodes_cleared(v, t);
        assert forall|n: Addr| #[trigger] s.contains(n) implies v.nodes_cleared(
            s,
        ).nodes[n].handles.len() == 0 by {
            let i = choose|i: int| 0 <= i < s.len() && s[i] == n;
            if i < t.len() {
                assert(t[i] == n);
                assert(t.contains(n));
            }
        }
    }
}

/// Notifying peers affects nothing but how many entries they were notified
/// about.
pub(super) proof fn lemma_all_notified(v: BusView, s: Seq<Addr>)
    ensures
        v.all_notified(s) == (BusView { peers: v.all_notified(s).peers, ..v }),
        forall|p: Addr| #[trigger]
            v.peers.contains_key(p) ==> {
                &&& v.all_notified(s).peers.contains_key(p)
                &&& v.all_notified(s).peers[p] == (PeerView {
                    committed: v.peers[p].committed + occurrences(s, p),
                    ..v.peers[p]
                })
            },
    decreases s.len(),
{
    if s.len() > 0 {
        let t = s.drop_last();
        lemma_all_notified(v, t);
        assert forall|p: Addr| #[trigger] v.peers.contains_key(p) implies v.all_notified(
            s,
        ).peers.contains_key(p) && v.all_notified(s).peers[p] == (PeerView {
            committed: v.peers[p].committed + occurrences(s, p),
            ..v.peers[p]
        }) by {}
    }
}

/// Linking handles keeps the bus intact.
proof fn lemma_handles_linked_ok(v: BusView, s: Seq<Addr>)
    requires
        v.intact(),
        all_in(s, v.handles.dom()),
    ensures
        v.handles_linked(s).intact(),
        similar(v, v.handles_linked(s)),
    decreases s.len(),
{
    if s.len() > 0 {
        let t = s.drop_last();
        let w = v.handles_linked(t);
        assert forall|i: int| #![trigger t[i]] 0 <= i < t.len() implies v.handles.contains_key(
            t[i],
        ) by {
            assert(s[i] == t[i]);
        }
        lemma_handles_linked_ok(v, t);
        assert(s[s.len() - 1] == s.last());
        assert(w.handles.contains_key(s.last()));
        if !w.handles[s.last()].linked {
            lemma_handle_linked(w, s.last());
            lemma_similar_trans(v, w, w.handle_linked(s.last()));
        }
    }
}

/// Linking transferred handles keeps the bus intact.
pub(super) proof fn lemma_transfers_linked_ok(v: BusView, s: Seq<Addr>)
    requires
        v.intact(),
        all_in(s, v.messages.dom()),
    ensures
        v.transfers_linked(s).intact(),
        similar(v, v.transfers_linked(s)),
    decreases s.len(),
{
    if s.len() > 0 {
        let t = s.drop_last();
        let w = v.transfers_linked(t);
        assert forall|i: int| #![trigger t[i]] 0 <= i < t.len() implies v.messages.contains_key(
            t[i],
        ) by {
            assert(s[i] == t[i]);
        }
        lemma_transfers_linked_ok(v, t);
        assert(s[s.len() - 1] == s.last());
        lemma_ok(w);
        assert(w.messages.contains_key(s.last()));
        assert(w.message_ok(s.last()));
        let hs = w.messages[s.last()].transfers;
        assert(all_in(hs, w.handles.dom()));
        lemma_handles_linked_ok(w, hs);
        lemma_similar_trans(v, w, w.handles_linked(hs));
    }
}

/// Clearing nodes keeps the bus intact.
pub(super) proof fn lemma_nodes_cleared_ok(v: BusView, s: Seq<Addr>)
    requires
        v.intact(),
        all_in(s, v.nodes.dom()),
    ensures
        v.nodes_cleared(s).intact(),
        similar(v, v.nodes_cleared(s)),
    decreases s.len(),
{
    if s.len() > 0 {
        let t = s.drop_last();
        let w = v.nodes_cleared(t);
        assert forall|i: int| #![trigger t[i]] 0 <= i < t.len() implies v.nodes.contains_key(
            t[i],
        ) by {
            assert(s[i] == t[i]);
        }
        lemma_nodes_cleared_ok(v, t);
        assert(s[s.len() - 1] == s.last());
        assert(w.nodes.contains_key(s.last()));
        lemma_node_cleared(w, s.last());
        assert(similar(w, w.node_cleared(s.last())));
        lemma_similar_trans(v, w, w.node_cleared(s.last()));
    }
}

/// Notifying peers keeps the bus intact.
proof fn lemma_all_notified_ok(v: BusView, s: Seq<Addr>)
    requires
        v.intact(),
        all_in(s, v.peers.dom()),
    ensures
        v.all_notified(s).intact(),
        similar(v, v.all_notified(s)),
    decreases s.len(),
{
    if s.len() > 0 {
        let t = s.drop_last();
        let w = v.all_notified(t);
        assert forall|i: int| #![trigger t[i]] 0 <= i < t.len() implies v.peers.contains_key(
            t[i],
        ) by {
            assert(s[i] == t[i]);
        }
        lemma_all_notified_ok(v, t);
        assert(s[s.len() - 1] == s.last());
        assert(w.peers.contains_key(s.last()));
        lemma_notified(w, s.last());
        lemma_similar_trans(v, w, w.notified(s.last()));
    }
}

/// The elements of a rearranged sequence.
pub(super) proof fn lemma_rearranged_in(s: Seq<Addr>, t: Seq<Addr>, set: Set<Addr>)
    requires
        rearranged(s, t),
        all_in(t, set),
    ensures
        all_in(s, set),
{
    assert forall|i: int| #![trigger s[i]] 0 <= i < s.len() implies set.contains(s[i]) by {
        assert(s.contains(s[i]));
        let j = choose|j: int| 0 <= j < t.len() && t[j] == s[i];
        assert(set.contains(t[j]));
    }
}

/// A commit keeps the bus intact, and creates no objects. Nothing but the
/// operation is gone.
pub proof fn lemma_commit_keeps_intact(v: BusView, w: BusView, o: Addr, wakes: Seq<Addr>)
    requires
        v.intact(),
        v.ops.contains_key(o),
        op_committed(v, w, o, wakes),
    ensures
        w.intact(),
        similar(v, w),
        w.ops.dom() == v.ops.dom().remove(o),
        forall|b: Addr| b != o && #[trigger] v.ops.contains_key(b) ==> w.ops[b] == v.ops[b],
{
    let (ms, ns, rs, hs) = choose|ms: Seq<Addr>, ns: Seq<Addr>, rs: Seq<Addr>, hs: Seq<Addr>|
        #[trigger] committed_as(v, w, o, wakes, ms, ns, rs, hs);
    let q = v.op_queued(o);
    let tx = v.ops[o].tx;
    let a = q.tx_committed(tx);
    let a1 = a.op_messages_cleared(o);
    let b = a1.transfers_linked(ms);
    let b1 = b.op_nodes_cleared(o);
    let c = b1.nodes_cleared(ns);
    let d = c.op_handles_cleared(o);
    let d1 = d.all_notified(wakes);
    lemma_op_queued(v, o);
    lemma_ok(q);
    assert(q.op_ok(o));
    lemma_tx_committed(q, tx);
    lemma_similar_trans(v, q, a);
    lemma_ok(a);
    assert(a.op_ok(o));
    lemma_op_messages_cleared(a, o);
    assert(similar(a, a1));
    lemma_similar_trans(v, a, a1);
    assert(all_in(a.ops[o].messages, a.messages.dom()));
    lemma_rearranged_in(ms, a.ops[o].messages, a.messages.dom());
    assert(all_in(ms, a1.messages.dom()));
    lemma_transfers_linked(a1, ms);
    lemma_transfers_linked_ok(a1, ms);
    lemma_similar_trans(v, a1, b);
    lemma_ok(b);
    assert(b.ops == a1.ops);
    lemma_op_nodes_cleared(b, o);
    assert(similar(b, b1));
    lemma_similar_trans(v, b, b1);
    assert(all_in(a.ops[o].nodes, a.nodes.dom()));
    lemma_rearranged_in(ns, a.ops[o].nodes, a.nodes.dom());
    assert(all_in(ns, b1.nodes.dom()));
    lemma_nodes_cleared(b1, ns);
    lemma_nodes_cleared_ok(b1, ns);
    lemma_similar_trans(v, b1, c);
    lemma_ok(c);
    lemma_op_handles_cleared(c, o);
    assert(similar(c, d));
    lemma_similar_trans(v, c, d);
    lemma_ok(v);
    assert forall|i: int| #![trigger wakes[i]] 0 <= i < wakes.len() implies v.peers.contains_key(
        wakes[i],
    ) by {
        if i < ms.len() {
            assert(v.messages.contains_key(ms[i]));
            assert(v.message_ok(ms[i]));
            assert(v.handle_ok(v.messages[ms[i]].via));
            assert(v.node_ok(v.handles[v.messages[ms[i]].via].node));
        } else if i < ms.len() + rs.len() {
            let h = rs[i - ms.len()];
            assert(rs.contains(h));
            assert(v.handles.contains_key(h));
            assert(v.handle_ok(h));
        } else {
            let h = hs[i - ms.len() - rs.len()];
            assert(all_in(a.ops[o].handles, a.handles.dom()));
            lemma_rearranged_in(hs, a.ops[o].handles, a.handles.dom());
            assert(v.handles.contains_key(h));
            assert(v.handle_ok(h));
            assert(v.node_ok(v.handles[h].node));
        }
    }
    assert(all_in(wakes, d.peers.dom()));
    lemma_all_notified(d, wakes);
    lemma_all_notified_ok(d, wakes);
    lemma_similar_trans(v, d, d1);
    lemma_op_removed(d1, o);
    lemma_similar_trans(v, d1, w);
}

/// A commit queues all entries of an operation in order, on the peers they are
/// destined for, and commits all of them at once. What was queued before stays
/// where it is.
///
/// Peers that were shut down, and entries that are queued already, are left out.
pub proof fn lemma_commit_queues(v: BusView, w: BusView, o: Addr, wakes: Seq<Addr>)
    requires
        v.intact(),
        v.ops.contains_key(o),
        op_committed(v, w, o, wakes),
    ensures
        w.txs == v.txs.insert(v.ops[o].tx, true),
        forall|p: Addr| #[trigger]
            v.peers.contains_key(p) ==> {
                &&& w.peers.contains_key(p)
                &&& w.peers[p] == (PeerView {
                    committed: v.peers[p].committed + occurrences(wakes, p),
                    ..v.filled(p, v.op_entries(o))
                })
            },
        forall|e: Addr| #[trigger]
            v.tx_nodes.contains_key(e) ==> {
                &&& w.tx_nodes.contains_key(e)
                &&& w.tx_nodes[e] == if v.op_entries(o).contains(e) {
                    v.attempted(v.ops[o].tx, e)
                } else {
                    v.tx_nodes[e]
                }
            },
        !w.ops.contains_key(o),
{
    let (ms, ns, rs, hs) = choose|ms: Seq<Addr>, ns: Seq<Addr>, rs: Seq<Addr>, hs: Seq<Addr>|
        #[trigger] committed_as(v, w, o, wakes, ms, ns, rs, hs);
    let tx = v.ops[o].tx;
    let a = v.op_queued(o).tx_committed(tx);
    let b = a.op_messages_cleared(o).transfers_linked(ms);
    let c = b.op_nodes_cleared(o).nodes_cleared(ns);
    let d = c.op_handles_cleared(o);
    lemma_ok(v);
    assert(v.op_ok(o));
    lemma_op_entries(v, o);
    lemma_op_queued(v, o);
    lemma_entries_queued(v, tx, v.op_entries(o));
    lemma_transfers_linked(a.op_messages_cleared(o), ms);
    lemma_nodes_cleared(b.op_nodes_cleared(o), ns);
    lemma_all_notified(d, wakes);
    let x = v.entries_queued(tx, v.op_entries(o));
    assert(d.peers == x.peers);
    assert(d.tx_nodes == x.tx_nodes);
    assert forall|p: Addr| #[trigger] v.peers.contains_key(p) implies w.peers.contains_key(p)
        && w.peers[p] == (PeerView {
        committed: v.peers[p].committed + occurrences(wakes, p),
        ..v.filled(p, v.op_entries(o))
    }) by {
        assert(d.peers.contains_key(p));
    }
}

/// Nothing of an operation is committed before all of it is queued, and all of
/// it is committed afterwards.
pub proof fn lemma_commit_is_atomic(v: BusView, w: BusView, o: Addr, wakes: Seq<Addr>, e: Addr)
    requires
        v.intact(),
        v.ops.contains_key(o),
        !v.txs[v.ops[o].tx],
        op_committed(v, w, o, wakes),
        v.op_entries(o).contains(e),
        v.tx_nodes[e].tx is None,
    ensures
        !v.is_committed(e),
        !v.op_queued(o).is_committed(e),
        w.is_committed(e),
{
    let tx = v.ops[o].tx;
    lemma_ok(v);
    assert(v.op_ok(o));
    lemma_op_entries(v, o);
    lemma_op_queued(v, o);
    let s = v.op_entries(o);
    let i = choose|i: int| 0 <= i < s.len() && s[i] == e;
    assert(v.tx_nodes.contains_key(s[i]));
    lemma_entries_queued(v, tx, s);
    lemma_commit_queues(v, w, o, wakes);
}

/// A peer that was shut down does not receive anything, anymore.
pub proof fn lemma_sealed_peer_is_left_alone(
    v: BusView,
    w: BusView,
    o: Addr,
    wakes: Seq<Addr>,
    p: Addr,
)
    requires
        v.intact(),
        v.ops.contains_key(o),
        op_committed(v, w, o, wakes),
        v.peers.contains_key(p),
        v.peers[p].sealed,
    ensures
        w.peers[p].sealed,
        w.lists(p).len() == 0,
{
    lemma_commit_queues(v, w, o, wakes);
    lemma_ok(v);
    assert(v.peer_ok(p));
    lemma_op_entries(v, o);
    let s = v.op_entries(o);
    let f = v.arrives_fn(p);
    lemma_filter_once(s, f);
    let t = s.filter(f);
    if t.len() > 0 {
        assert(t.contains(t[0]));
    }
}

/// A commit appends to what a peer has yet to sort out.
pub proof fn lemma_commit_appends(v: BusView, w: BusView, o: Addr, wakes: Seq<Addr>, p: Addr)
    requires
        v.intact(),
        v.ops.contains_key(o),
        op_committed(v, w, o, wakes),
        v.peers.contains_key(p),
    ensures
        w.backlog(p) == v.backlog(p) + v.op_entries(o).filter(v.arrives_fn(p)),
        w.peers[p].ready == v.peers[p].ready,
{
    lemma_commit_queues(v, w, o, wakes);
    let t = v.op_entries(o).filter(v.arrives_fn(p));
    assert((t.reverse() + v.peers[p].queue + v.peers[p].busy).reverse() =~= v.backlog(p) + t);
}

/// Once a peer has received everything that is ready, it gets to see all
/// committed entries in the order in which they were queued. All others are kept
/// in order.
pub proof fn lemma_receive_order(v: BusView, p: Addr)
    requires
        v.intact(),
        v.peers.contains_key(p),
        v.peers[p].ready.len() == 0,
    ensures
        v.prefetched(p).peers[p].ready == v.backlog(p).filter(v.committed_fn()),
        v.prefetched(p).backlog(p) == v.backlog(p).filter(v.pending_fn()),
{
    let todo = v.peers[p].queue + v.peers[p].busy;
    lemma_filter_reverse(todo, v.committed_fn());
    lemma_filter_reverse(todo, v.pending_fn());
    let busy = v.prefetched(p).peers[p].busy;
    assert(Seq::<Addr>::empty() + busy =~= busy);
}

/// Filtering commutes with reversal.
proof fn lemma_filter_reverse(s: Seq<Addr>, f: spec_fn(Addr) -> bool)
    ensures
        s.reverse().filter(f) == s.filter(f).reverse(),
    decreases s.len(),
{
    reveal(Seq::filter);
    if s.len() == 0 {
        assert(s.reverse() =~= s);
        assert(s.filter(f).reverse() =~= s.filter(f));
    } else {
        let t = s.drop_last();
        let a = s.last();
        lemma_filter_reverse(t, f);
        assert(s.reverse() =~= seq![a] + t.reverse());
        lemma_filter_front(a, t.reverse(), f);
        if f(a) {
            assert(t.filter(f).push(a).reverse() =~= seq![a] + t.filter(f).reverse());
        }
    }
}

/// Filtering a sequence with one more element at its front.
proof fn lemma_filter_front(a: Addr, s: Seq<Addr>, f: spec_fn(Addr) -> bool)
    ensures
        (seq![a] + s).filter(f) == if f(a) {
            seq![a] + s.filter(f)
        } else {
            s.filter(f)
        },
    decreases s.len(),
{
    reveal(Seq::filter);
    let t = seq![a] + s;
    if s.len() == 0 {
        assert(t.drop_last() =~= Seq::<Addr>::empty());
        assert(t.last() == a);
        assert(t.drop_last().filter(f) =~= Seq::<Addr>::empty());
        if f(a) {
            assert(Seq::<Addr>::empty().push(a) =~= seq![a] + s.filter(f));
        }
    } else {
        assert(t.drop_last() =~= seq![a] + s.drop_last());
        assert(t.last() == s.last());
        lemma_filter_front(a, s.drop_last(), f);
        if f(a) && f(s.last()) {
            assert((seq![a] + s.drop_last().filter(f)).push(s.last()) =~= seq![a]
                + s.drop_last().filter(f).push(s.last()));
        }
    }
}

/// Looking at what is next to be received does not change what is next.
pub proof fn lemma_peek_is_stable(v: BusView, p: Addr)
    requires
        v.intact(),
        v.peers.contains_key(p),
    ensures
        v.prefetched(p).prefetched(p) == v.prefetched(p),
{
    let w = v.prefetched(p);
    if w.peers[p].ready.len() == 0 {
        let todo = v.peers[p].queue + v.peers[p].busy;
        let f = v.committed_fn();
        let g = v.pending_fn();
        let busy = todo.filter(g);
        assert(w.peers[p].queue + w.peers[p].busy =~= busy);
        assert(w.committed_fn() =~= f);
        assert(w.pending_fn() =~= g);
        lemma_filter_twice(todo, f, g);
        assert(w.prefetched(p).peers =~= w.peers);
    }
}

/// Filtering twice.
proof fn lemma_filter_twice(s: Seq<Addr>, f: spec_fn(Addr) -> bool, g: spec_fn(Addr) -> bool)
    requires
        forall|a: Addr| #[trigger] f(a) == !g(a),
    ensures
        s.filter(g).filter(g) == s.filter(g),
        s.filter(g).filter(f).len() == 0,
    decreases s.len(),
{
    reveal(Seq::filter);
    if s.len() > 0 {
        lemma_filter_twice(s.drop_last(), f, g);
        let t = s.drop_last().filter(g);
        assert(f(s.last()) == !g(s.last()));
        if g(s.last()) {
            assert(t.push(s.last()).drop_last() =~= t);
        }
    }
}

/// Sorting out the entries of a peer loses none of them, and adds none.
pub proof fn lemma_prefetch_keeps_entries(v: BusView, p: Addr, e: Addr)
    requires
        v.intact(),
        v.peers.contains_key(p),
    ensures
        v.prefetched(p).lists(p).contains(e) <==> v.lists(p).contains(e),
{
    let w = v.prefetched(p);
    let peer = v.peers[p];
    lemma_add_contains(peer.queue, peer.ready);
    lemma_add_contains(peer.queue + peer.ready, peer.busy);
    lemma_add_contains(w.peers[p].queue, w.peers[p].ready);
    lemma_add_contains(w.peers[p].queue + w.peers[p].ready, w.peers[p].busy);
    if peer.ready.len() == 0 {
        let todo = peer.queue + peer.busy;
        lemma_add_contains(peer.queue, peer.busy);
        assert(todo.no_duplicates()) by {
            lemma_ok(v);
            assert(v.peer_ok(p));
            assert(todo =~= v.lists(p));
        }
        lemma_filter_once(todo, v.committed_fn());
        lemma_filter_once(todo, v.pending_fn());
        let r = todo.filter(v.committed_fn());
        assert(r.reverse().contains(e) <==> r.contains(e)) by {
            if r.contains(e) {
                let i = choose|i: int| 0 <= i < r.len() && r[i] == e;
                assert(r.reverse()[r.len() - 1 - i] == e);
            }
            if r.reverse().contains(e) {
                let i = choose|i: int| 0 <= i < r.len() && r.reverse()[i] == e;
                assert(r[r.len() - 1 - i] == e);
            }
        }
        assert(!peer.ready.contains(e));
        assert(!w.peers[p].queue.contains(e));
    }
}

/// A peer never gets to see anything before it is committed: sorting out
/// entries keeps it that way.
pub proof fn lemma_prefetch_is_committed(v: BusView, p: Addr)
    requires
        v.intact(),
        v.peers.contains_key(p),
        v.ready_is_committed(),
    ensures
        v.prefetched(p).ready_is_committed(),
{
    let w = v.prefetched(p);
    assert forall|b: Addr, i: int| #![trigger w.peers[b].ready[i]]
        w.peers.contains_key(b) && 0 <= i < w.peers[b].ready.len() implies w.is_committed(
        w.peers[b].ready[i],
    ) by {
        if b == p && v.peers[p].ready.len() == 0 {
            let todo = v.peers[p].queue + v.peers[p].busy;
            let f = v.committed_fn();
            let r = todo.filter(f);
            assert(todo.no_duplicates()) by {
                lemma_ok(v);
                assert(v.peer_ok(p));
                assert(todo =~= v.lists(p));
            }
            lemma_filter_once(todo, f);
            assert(r.contains(r[r.len() - 1 - i]));
        } else {
            assert(v.is_committed(v.peers[b].ready[i]));
        }
    }
}

/// A peer never gets to see anything before it is committed: a commit keeps it
/// that way.
pub proof fn lemma_commit_is_committed(v: BusView, w: BusView, o: Addr, wakes: Seq<Addr>)
    requires
        v.intact(),
        v.ops.contains_key(o),
        op_committed(v, w, o, wakes),
        v.ready_is_committed(),
    ensures
        w.ready_is_committed(),
{
    lemma_commit_keeps_intact(v, w, o, wakes);
    lemma_commit_queues(v, w, o, wakes);
    assert forall|p: Addr, i: int| #![trigger w.peers[p].ready[i]]
        w.peers.contains_key(p) && 0 <= i < w.peers[p].ready.len() implies w.is_committed(
        w.peers[p].ready[i],
    ) by {
        assert(v.peers.contains_key(p));
        assert(w.peers[p].ready == v.peers[p].ready);
        let e = v.peers[p].ready[i];
        assert(v.is_committed(e));
        lemma_ok(v);
        assert(v.peer_ok(p));
        let k = v.peers[p].queue.len();
        assert(v.lists(p)[k + i] == e);
        assert(v.tx_nodes.contains_key(e));
    }
}

/// A peer never gets to see anything before it is committed: receiving an entry
/// keeps it that way.
pub proof fn lemma_pop_is_committed(v: BusView, p: Addr)
    requires
        v.intact(),
        v.peers.contains_key(p),
        v.ready_is_committed(),
    ensures
        v.popped(p).ready_is_committed(),
{
    let w = v.popped(p);
    assert forall|b: Addr, i: int| #![trigger w.peers[b].ready[i]]
        w.peers.contains_key(b) && 0 <= i < w.peers[b].ready.len() implies w.is_committed(
        w.peers[b].ready[i],
    ) by {
        if b == p && v.peers[p].ready.len() > 0 {
            assert(w.peers[p].ready[i] == v.peers[p].ready[i + 1]);
            assert(v.is_committed(v.peers[p].ready[i + 1]));
        } else {
            assert(v.is_committed(v.peers[b].ready[i]));
        }
    }
}

/// Once the release of a node is committed, no handle is linked into it.
pub proof fn lemma_released_node_is_unlinked(
    v: BusView,
    w: BusView,
    o: Addr,
    wakes: Seq<Addr>,
    n: Addr,
)
    requires
        v.intact(),
        v.ops.contains_key(o),
        op_committed(v, w, o, wakes),
        v.ops[o].nodes.contains(n),
    ensures
        w.nodes[n].handles.len() == 0,
{
    let (ms, ns, rs, hs) = choose|ms: Seq<Addr>, ns: Seq<Addr>, rs: Seq<Addr>, hs: Seq<Addr>|
        #[trigger] committed_as(v, w, o, wakes, ms, ns, rs, hs);
    let a = v.op_queued(o).tx_committed(v.ops[o].tx);
    let b = a.op_messages_cleared(o).transfers_linked(ms);
    let c = b.op_nodes_cleared(o).nodes_cleared(ns);
    let d = c.op_handles_cleared(o);
    lemma_op_queued(v, o);
    assert(a.ops[o].nodes.contains(n));
    assert(ns.contains(n));
    lemma_nodes_cleared(b.op_nodes_cleared(o), ns);
    lemma_all_notified(d, wakes);
}

/// Everyone who holds a handle to a node that is released gets notified about
/// it, unless they were shut down or are about to be notified already.
pub proof fn lemma_release_notifies(
    v: BusView,
    w: BusView,
    o: Addr,
    wakes: Seq<Addr>,
    n: Addr,
    h: Addr,
)
    requires
        v.intact(),
        v.ops.contains_key(o),
        op_committed(v, w, o, wakes),
        v.ops[o].nodes.contains(n),
        v.handles.contains_key(h),
        v.handles[h].node == n,
        v.handles[h].linked,
        v.queueable(v.handles[h].release_node),
    ensures
        w.peers[v.handles[h].owner].queue.contains(v.handles[h].release_node),
{
    let e = v.handles[h].release_node;
    let p = v.handles[h].owner;
    lemma_ok(v);
    assert(v.handle_ok(h));
    lemma_commit_queues(v, w, o, wakes);
    lemma_op_entries(v, o);
    let b = v.node_entries(v.ops[o].nodes);
    lemma_notifies(v, v.ops[o].nodes, n, h);
    lemma_add_contains(v.message_entries(v.ops[o].messages), b);
    lemma_add_contains(
        v.message_entries(v.ops[o].messages) + b,
        v.handle_entries(v.ops[o].handles),
    );
    lemma_arrives(v, p, v.op_entries(o), e);
}

/// The entries that notify about the release of nodes cover all linked handles.
pub(super) proof fn lemma_notifies(v: BusView, s: Seq<Addr>, n: Addr, h: Addr)
    requires
        v.intact(),
        s.contains(n),
        v.handles.contains_key(h),
        v.handles[h].node == n,
        v.handles[h].linked,
    ensures
        v.node_entries(s).contains(v.handles[h].release_node),
    decreases s.len(),
{
    let t = s.drop_last();
    let hs = v.nodes[s.last()].handles;
    lemma_add_contains(v.node_entries(t), v.owner_entries(hs));
    if s.last() == n {
        lemma_ok(v);
        assert(v.handle_ok(h));
        let i = choose|i: int| 0 <= i < hs.len() && hs[i] == h;
        assert(v.owner_entries(hs)[i] == v.handles[h].release_node);
    } else {
        let i = choose|i: int| 0 <= i < s.len() && s[i] == n;
        assert(t[i] == n);
        lemma_notifies(v, t, n, h);
    }
}

/// An entry that can be queued ends up on the queue of the peer it is destined
/// for.
proof fn lemma_arrives(v: BusView, p: Addr, s: Seq<Addr>, e: Addr)
    requires
        s.no_duplicates(),
        s.contains(e),
        v.dest(e) == p,
        v.queueable(e),
    ensures
        v.filled(p, s).queue.contains(e),
{
    let f = v.arrives_fn(p);
    let t = s.filter(f);
    lemma_filter_once(s, f);
    assert(t.contains(e));
    let i = choose|i: int| 0 <= i < t.len() && t[i] == e;
    assert(t.reverse()[t.len() - 1 - i] == e);
    lemma_add_contains(t.reverse(), v.peers[p].queue);
}

/// Every message of an operation arrives at the peer it is sent to, unless that
/// peer was shut down, or the message was queued before.
pub proof fn lemma_message_arrives(
    v: BusView,
    w: BusView,
    o: Addr,
    wakes: Seq<Addr>,
    m: Addr,
)
    requires
        v.intact(),
        v.ops.contains_key(o),
        op_committed(v, w, o, wakes),
        v.ops[o].messages.contains(m),
        v.queueable(v.messages[m].tx_node),
    ensures
        w.peers[v.message_dest(m)].queue.contains(v.messages[m].tx_node),
{
    let e = v.messages[m].tx_node;
    let s = v.ops[o].messages;
    let p = v.message_dest(m);
    lemma_ok(v);
    assert(v.op_ok(o));
    let i = choose|i: int| 0 <= i < s.len() && s[i] == m;
    assert(v.messages.contains_key(s[i]));
    assert(v.message_ok(m));
    assert(v.message_entries(s)[i] == e);
    lemma_dest(v, e);
    lemma_commit_queues(v, w, o, wakes);
    lemma_op_entries(v, o);
    lemma_add_contains(v.message_entries(s), v.node_entries(v.ops[o].nodes));
    lemma_add_contains(
        v.message_entries(s) + v.node_entries(v.ops[o].nodes),
        v.handle_entries(v.ops[o].handles),
    );
    lemma_arrives(v, p, v.op_entries(o), e);
}

/// Linking transferred handles does not affect other handles.
pub(super) proof fn lemma_others_stay_unlinked(v: BusView, s: Seq<Addr>, h: Addr)
    requires
        !v.handles[h].linked,
        forall|i: int| #![trigger s[i]]
            0 <= i < s.len() ==> !v.messages[s[i]].transfers.contains(h),
    ensures
        !v.transfers_linked(s).handles[h].linked,
    decreases s.len(),
{
    if s.len() > 0 {
        let t = s.drop_last();
        let w = v.transfers_linked(t);
        assert forall|i: int| #![trigger t[i]] 0 <= i < t.len() implies
            !v.messages[t[i]].transfers.contains(h) by {
            assert(s[i] == t[i]);
        }
        lemma_others_stay_unlinked(v, t, h);
        lemma_transfers_linked(v, t);
        assert(s[s.len() - 1] == s.last());
        let hs = w.messages[s.last()].transfers;
        assert(!hs.contains(h));
        lemma_other_stays_unlinked(w, hs, h);
    }
}

proof fn lemma_other_stays_unlinked(v: BusView, s: Seq<Addr>, h: Addr)
    requires
        !v.handles[h].linked,
        !s.contains(h),
    ensures
        !v.handles_linked(s).handles[h].linked,
    decreases s.len(),
{
    if s.len() > 0 {
        let t = s.drop_last();
        assert(!t.contains(h)) by {
            if t.contains(h) {
                let i = choose|i: int| 0 <= i < t.len() && t[i] == h;
                assert(s[i] == h);
            }
        }
        assert(s[s.len() - 1] == s.last());
        lemma_other_stays_unlinked(v, t, h);
    }
}

/// Clearing nodes does not link handles.
pub(super) proof fn lemma_cleared_stays_unlinked(v: BusView, s: Seq<Addr>, h: Addr)
    requires
        v.intact(),
        all_in(s, v.nodes.dom()),
        v.handles.contains_key(h),
        !v.handles[h].linked,
    ensures
        !v.nodes_cleared(s).handles[h].linked,
    decreases s.len(),
{
    if s.len() > 0 {
        let t = s.drop_last();
        assert forall|i: int| #![trigger t[i]] 0 <= i < t.len() implies v.nodes.contains_key(
            t[i],
        ) by {
            assert(s[i] == t[i]);
        }
        lemma_cleared_stays_unlinked(v, t, h);
        lemma_nodes_cleared_ok(v, t);
    }
}

/// Once the release of a handle is committed, the handle is no longer linked
/// into its node, and the owner of the node gets notified about it, unless they
/// were shut down or are about to be notified already.
///
/// A handle that is transferred by the same operation is linked again.
pub proof fn lemma_released_handle_is_unlinked(
    v: BusView,
    w: BusView,
    o: Addr,
    wakes: Seq<Addr>,
    h: Addr,
)
    requires
        v.intact(),
        v.ops.contains_key(o),
        op_committed(v, w, o, wakes),
        v.ops[o].handles.contains(h),
        v.queueable(v.handles[h].release_handle),
        forall|m: Addr| #[trigger]
            v.ops[o].messages.contains(m) ==> !v.messages[m].transfers.contains(h),
    ensures
        !w.handles[h].linked,
        w.peers[v.handle_dest(h)].queue.contains(v.handles[h].release_handle),
{
    let (ms, ns, rs, hs) = choose|ms: Seq<Addr>, ns: Seq<Addr>, rs: Seq<Addr>, hs: Seq<Addr>|
        #[trigger] committed_as(v, w, o, wakes, ms, ns, rs, hs);
    let op = v.ops[o];
    let tx = op.tx;
    let e = v.handles[h].release_handle;
    let p = v.handle_dest(h);
    lemma_ok(v);
    assert(v.op_ok(o));
    let i = choose|i: int| 0 <= i < op.handles.len() && op.handles[i] == h;
    assert(v.handles.contains_key(op.handles[i]));
    assert(v.handle_ok(h));
    lemma_dest(v, e);
    // The entry of the handle is queued.
    lemma_commit_queues(v, w, o, wakes);
    lemma_op_entries(v, o);
    assert(v.handle_entries(op.handles)[i] == e);
    lemma_add_contains(
        v.message_entries(op.messages) + v.node_entries(op.nodes),
        v.handle_entries(op.handles),
    );
    lemma_arrives(v, p, v.op_entries(o), e);
    // The handle is unlinked when its entry is queued.
    lemma_op_queued(v, o);
    let q = v.op_queued(o);
    let a = q.tx_committed(tx);
    let a1 = a.op_messages_cleared(o);
    let b = a1.transfers_linked(ms);
    let b1 = b.op_nodes_cleared(o);
    let c = b1.nodes_cleared(ns);
    lemma_ok(q);
    assert(q.op_ok(o));
    lemma_tx_committed(q, tx);
    lemma_op_messages_cleared(a, o);
    lemma_ok(a);
    assert(a.op_ok(o));
    assert forall|k: int| #![trigger ms[k]] 0 <= k < ms.len() implies
        !a1.messages[ms[k]].transfers.contains(h) && a1.messages.contains_key(ms[k]) by {
        assert(ms.contains(ms[k]));
        let t = a.ops[o].messages;
        let j = choose|j: int| 0 <= j < t.len() && t[j] == ms[k];
        assert(a.messages.contains_key(t[j]));
        assert(v.messages.contains_key(ms[k]));
        assert(v.ops[o].messages.contains(ms[k]));
    }
    assert(!a1.handles[h].linked);
    lemma_others_stay_unlinked(a1, ms, h);
    lemma_transfers_linked(a1, ms);
    lemma_transfers_linked_ok(a1, ms);
    lemma_op_nodes_cleared(b, o);
    lemma_rearranged_in(ns, a.ops[o].nodes, a.nodes.dom());
    assert(all_in(ns, b1.nodes.dom()));
    assert(b1.handles.contains_key(h));
    lemma_cleared_stays_unlinked(b1, ns, h);
    lemma_nodes_cleared_ok(b1, ns);
    lemma_all_notified(c.op_handles_cleared(o), wakes);
}

/// Everyone who receives a message is woken up.
pub proof fn lemma_receiver_is_woken(v: BusView, w: BusView, o: Addr, wakes: Seq<Addr>, m: Addr)
    requires
        v.intact(),
        v.ops.contains_key(o),
        op_committed(v, w, o, wakes),
        v.ops[o].messages.contains(m),
        v.queueable(v.messages[m].tx_node),
    ensures
        wakes.contains(v.message_dest(m)),
{
    let (ms, ns, rs, hs) = choose|ms: Seq<Addr>, ns: Seq<Addr>, rs: Seq<Addr>, hs: Seq<Addr>|
        #[trigger] committed_as(v, w, o, wakes, ms, ns, rs, hs);
    lemma_op_queued(v, o);
    let a = v.op_queued(o).tx_committed(v.ops[o].tx);
    assert(a.ops[o].messages.contains(m));
    assert(ms.contains(m));
    let i = choose|i: int| 0 <= i < ms.len() && ms[i] == m;
    assert(wakes[i] == v.message_dest(m));
}

/// The owner of a node is woken up if a handle to it is released.
pub proof fn lemma_node_owner_is_woken(v: BusView, w: BusView, o: Addr, wakes: Seq<Addr>, h: Addr)
    requires
        v.intact(),
        v.ops.contains_key(o),
        op_committed(v, w, o, wakes),
        v.ops[o].handles.contains(h),
        v.queueable(v.handles[h].release_handle),
    ensures
        wakes.contains(v.handle_dest(h)),
{
    let (ms, ns, rs, hs) = choose|ms: Seq<Addr>, ns: Seq<Addr>, rs: Seq<Addr>, hs: Seq<Addr>|
        #[trigger] committed_as(v, w, o, wakes, ms, ns, rs, hs);
    lemma_op_queued(v, o);
    let a = v.op_queued(o).tx_committed(v.ops[o].tx);
    assert(a.ops[o].handles.contains(h));
    assert(hs.contains(h));
    let i = choose|i: int| 0 <= i < hs.len() && hs[i] == h;
    assert(wakes[ms.len() + rs.len() + i] == v.handle_dest(h));
}

/// Linking handles does not unlink others.
pub(super) proof fn lemma_linked_stays(v: BusView, s: Seq<Addr>, h: Addr)
    requires
        v.handles[h].linked,
    ensures
        v.handles_linked(s).handles[h].linked,
    decreases s.len(),
{
    if s.len() > 0 {
        lemma_linked_stays(v, s.drop_last(), h);
    }
}

/// Linking transferred handles does not unlink others.
pub(super) proof fn lemma_linked_stays_all(v: BusView, s: Seq<Addr>, h: Addr)
    requires
        v.handles[h].linked,
    ensures
        v.transfers_linked(s).handles[h].linked,
    decreases s.len(),
{
    if s.len() > 0 {
        let w = v.transfers_linked(s.drop_last());
        lemma_linked_stays_all(v, s.drop_last(), h);
        lemma_linked_stays(w, w.messages[s.last()].transfers, h);
    }
}

/// Everyone who holds a handle to a node that is released is woken up, unless
/// the release of the handle is queued by the same operation.
pub proof fn lemma_handle_owner_is_woken(
    v: BusView,
    w: BusView,
    o: Addr,
    wakes: Seq<Addr>,
    h: Addr,
)
    requires
        v.intact(),
        v.ops.contains_key(o),
        op_committed(v, w, o, wakes),
        v.handles.contains_key(h),
        v.handles[h].linked,
        v.ops[o].nodes.contains(v.handles[h].node),
        !v.ops[o].handles.contains(h) || !v.queueable(v.handles[h].release_handle),
    ensures
        wakes.contains(v.handles[h].owner),
{
    let (ms, ns, rs, hs) = choose|ms: Seq<Addr>, ns: Seq<Addr>, rs: Seq<Addr>, hs: Seq<Addr>|
        #[trigger] committed_as(v, w, o, wakes, ms, ns, rs, hs);
    let q = v.op_queued(o);
    let tx = v.ops[o].tx;
    let a = q.tx_committed(tx);
    let a1 = a.op_messages_cleared(o);
    let b = a1.transfers_linked(ms);
    lemma_op_queued(v, o);
    lemma_ok(q);
    assert(q.op_ok(o));
    assert(q.handles[h].linked);
    lemma_tx_committed(q, tx);
    lemma_op_messages_cleared(a, o);
    lemma_ok(a);
    assert(a.op_ok(o));
    assert(all_in(a.ops[o].messages, a.messages.dom()));
    lemma_rearranged_in(ms, a.ops[o].messages, a.messages.dom());
    assert(all_in(ms, a1.messages.dom()));
    lemma_transfers_linked_ok(a1, ms);
    assert(a1.handles[h].linked);
    lemma_linked_stays_all(a1, ms, h);
    assert(b.handles.contains_key(h));
    assert(b.handles[h].node == v.handles[h].node);
    assert(rs.contains(h));
    let i = choose|i: int| 0 <= i < rs.len() && rs[i] == h;
    assert(wakes[ms.len() + i] == v.handles[h].owner);
}

/// Unlinking a handle undoes its linking.
pub proof fn lemma_link_unlink(v: BusView, h: Addr)
    requires
        v.intact(),
        v.handles.contains_key(h),
        !v.handles[h].linked,
    ensures
        v.handle_linked(h).handle_unlinked(h) == v,
{
    let n = v.handles[h].node;
    let s = v.nodes[n].handles;
    let w = v.handle_linked(h);
    let x = w.handle_unlinked(h);
    lemma_ok(v);
    assert(v.handle_ok(h));
    assert(v.node_ok(n));
    assert(!s.contains(h)) by {
        if s.contains(h) {
            let i = choose|i: int| 0 <= i < s.len() && s[i] == h;
            assert(v.handles[s[i]].linked);
        }
    }
    let i = place(v.link_keys(s), v.handles[h].owner as int);
    lemma_place_bounds(v.link_keys(s), v.handles[h].owner as int);
    lemma_insert_once(s, i, h);
    let t = s.insert(i, h);
    assert(t[i] == h);
    assert(t.index_of(h) == i);
    assert(t.remove(i) =~= s);
    assert(x.handles =~= v.handles);
    assert(x.nodes =~= v.nodes);
}

/// Releasing a handle keeps the bus intact.
proof fn lemma_handle_released(v: BusView, o: Addr, h: Addr)
    requires
        v.intact(),
        v.ops.contains_key(o),
        v.handles.contains_key(h),
    ensures
        v.handle_released(o, h).intact(),
        similar(v, v.handle_released(o, h)),
        v.handle_released(o, h).peers == v.peers,
        v.handle_released(o, h).ops.dom() == v.ops.dom(),
{
    if v.handles[h].owner == v.ops[o].operator && v.handles[h].op is None {
        lemma_op_handle_linked(v, o, h);
        assert(v.op_handle_linked(o, h).ops.dom() =~= v.ops.dom());
    }
}

/// Releasing a series of handles keeps the bus intact.
proof fn lemma_handles_released(v: BusView, o: Addr, s: Seq<Addr>)
    requires
        v.intact(),
        v.ops.contains_key(o),
        all_in(s, v.handles.dom()),
    ensures
        v.handles_released(o, s).intact(),
        similar(v, v.handles_released(o, s)),
        v.handles_released(o, s).peers == v.peers,
        v.handles_released(o, s).ops.dom() == v.ops.dom(),
    decreases s.len(),
{
    if s.len() > 0 {
        let t = s.drop_last();
        let w = v.handles_released(o, t);
        assert forall|i: int| #![trigger t[i]] 0 <= i < t.len() implies v.handles.contains_key(
            t[i],
        ) by {
            assert(s[i] == t[i]);
        }
        lemma_handles_released(v, o, t);
        assert(s[s.len() - 1] == s.last());
        assert(w.handles.contains_key(s.last()));
        lemma_handle_released(w, o, s.last());
        lemma_similar_trans(v, w, w.handle_released(o, s.last()));
    }
}

/// Releasing transferred handles keeps the bus intact.
pub(super) proof fn lemma_transfers_released(v: BusView, o: Addr, s: Seq<Addr>)
    requires
        v.intact(),
        v.ops.contains_key(o),
        all_in(s, v.tx_nodes.dom()),
    ensures
        v.transfers_released(o, s).intact(),
        similar(v, v.transfers_released(o, s)),
        v.transfers_released(o, s).peers == v.peers,
        v.transfers_released(o, s).ops.dom() == v.ops.dom(),
    decreases s.len(),
{
    if s.len() > 0 {
        let t = s.drop_last();
        let w = v.transfers_released(o, t);
        assert forall|i: int| #![trigger t[i]] 0 <= i < t.len() implies v.tx_nodes.contains_key(
            t[i],
        ) by {
            assert(s[i] == t[i]);
        }
        lemma_transfers_released(v, o, t);
        assert(s[s.len() - 1] == s.last());
        assert(w.tx_nodes.contains_key(s.last()));
        lemma_ok(w);
        assert(w.tx_node_ok(s.last()));
        let node = w.tx_nodes[s.last()];
        if node.kind == TxNodeKind::User {
            assert(w.message_ok(node.base));
            let hs = w.messages[node.base].transfers;
            assert(all_in(hs, w.handles.dom()));
            lemma_handles_released(w, o, hs);
            lemma_similar_trans(v, w, w.handles_released(o, hs));
        }
    }
}

/// A shutdown keeps the bus intact, and seals the queue of the peer for good.
/// Everything that was queued on the peer is discarded.
pub proof fn lemma_end_seals(v: BusView, w: BusView, p: Addr, wakes: Seq<Addr>)
    requires
        v.intact(),
        v.peers.contains_key(p),
        peer_ended(v, w, p, wakes),
    ensures
        w.intact(),
        similar(v, w),
        w.ops.dom() =~= v.ops.dom(),
        w.peers[p].sealed,
        w.lists(p).len() == 0,
        w.txs[v.peers[p].shutdown],
{
    let o = choose|o: Addr| #[trigger] ended_as(v, w, p, wakes, o);
    let tx = v.peers[p].shutdown;
    lemma_ok(v);
    assert(v.peer_ok(p));
    let a = v.op_added(o, p, tx);
    lemma_op_added(v, o, p, tx);
    let b = a.drained(p);
    lemma_drained(a, p);
    let q = v.lists(p);
    assert forall|i: int| #![trigger q[i]] 0 <= i < q.len() implies b.tx_nodes.contains_key(
        q[i],
    ) by {
        assert(v.tx_nodes.contains_key(v.lists(p)[i]));
    }
    lemma_transfers_released(b, o, q);
    let c = b.transfers_released(o, q);
    assert(similar(v, a));
    lemma_similar_trans(v, a, b);
    lemma_similar_trans(v, b, c);
    assert(c.peers.contains_key(p));
    assert(c.peers[p].sealed);
    lemma_commit_keeps_intact(c, w, o, wakes);
    lemma_similar_trans(v, c, w);
    lemma_commit_queues(c, w, o, wakes);
    lemma_sealed_peer_is_left_alone(c, w, o, wakes, p);
    lemma_transfers_tx(b, o, q);
}

/// Releasing transferred handles does not affect the transaction of an
/// operation.
proof fn lemma_transfers_tx(v: BusView, o: Addr, s: Seq<Addr>)
    ensures
        v.transfers_released(o, s).ops[o].tx == v.ops[o].tx,
    decreases s.len(),
{
    if s.len() > 0 {
        let w = v.transfers_released(o, s.drop_last());
        lemma_transfers_tx(v, o, s.drop_last());
        lemma_handles_tx(w, o, w.messages[w.tx_nodes[s.last()].base].transfers);
    }
}

proof fn lemma_handles_tx(v: BusView, o: Addr, s: Seq<Addr>)
    ensures
        v.handles_released(o, s).ops[o].tx == v.ops[o].tx,
    decreases s.len(),
{
    if s.len() > 0 {
        lemma_handles_tx(v, o, s.drop_last());
    }
}

/// Reclaiming objects keeps the bus intact, and leaves nothing behind that has
/// no users and is not referred to.
pub proof fn lemma_reclaimed_is_tidy(v: BusView)
    requires
        v.intact(),
    ensures
        v.reclaimed().intact(),
        v.reclaimed().tidy(),
{
    let v1 = v.messages_reclaimed();
    let v2 = v1.handles_reclaimed();
    let v3 = v2.nodes_reclaimed();
    let v4 = v3.peers_reclaimed();
    let v5 = v4.shareds_reclaimed();
    let w = v5.txs_reclaimed();
    lemma_messages_reclaimed(v);
    lemma_handles_reclaimed(v1);
    lemma_nodes_reclaimed(v2);
    lemma_peers_reclaimed(v3);
    lemma_shareds_reclaimed(v4);
    lemma_txs_reclaimed(v5);
    lemma_ok(w);
    lemma_ok(v);
    assert forall|m: Addr| #[trigger] w.messages.contains_key(m) implies w.message_held(m) by {
        assert(v.messages.contains_key(m) && v.message_held(m));
        assert(w.message_ok(m));
    }
    assert forall|h: Addr| #[trigger] w.handles.contains_key(h) implies w.handle_held(h) by {
        assert(v1.handle_held(h));
        assert(w.handle_ok(h));
        if v1.handle_referred(h) {
            let m = choose|m: Addr| #[trigger]
                v1.messages.contains_key(m) && (v1.messages[m].via == h
                    || v1.messages[m].transfers.contains(h));
            assert(w.messages.contains_key(m));
        }
    }
    assert forall|n: Addr| #[trigger] w.nodes.contains_key(n) implies w.node_held(n) by {
        assert(v2.node_held(n));
        if v2.node_referred(n) {
            let h = choose|h: Addr| #[trigger]
                v2.handles.contains_key(h) && v2.handles[h].node == n;
            assert(w.handles.contains_key(h));
        }
    }
    assert forall|p: Addr| #[trigger] w.peers.contains_key(p) implies w.peer_held(p) by {
        assert(v3.peer_held(p));
        if v3.node_owner(p) {
            let n = choose|n: Addr| #[trigger] v3.nodes.contains_key(n) && v3.nodes[n].owner == p;
            assert(w.nodes.contains_key(n));
        }
        if v3.handle_owner(p) {
            let h = choose|h: Addr| #[trigger]
                v3.handles.contains_key(h) && v3.handles[h].owner == p;
            assert(w.handles.contains_key(h));
        }
        if v3.operator(p) {
            let o = choose|o: Addr| #[trigger] v3.ops.contains_key(o) && v3.ops[o].operator == p;
            assert(w.ops.contains_key(o));
        }
    }
    assert forall|s: Addr| #[trigger] w.shareds.contains_key(s) implies w.shared_held(s) by {
        assert(v4.shared_held(s));
        if v4.shared_referred(s) {
            let m = choose|m: Addr| #[trigger]
                v4.messages.contains_key(m) && v4.messages[m].shared == s;
            assert(w.messages.contains_key(m));
        }
    }
    assert forall|t: Addr| #[trigger] w.txs.contains_key(t) implies w.tx_referred(t) by {
        assert(v5.tx_referred(t));
        if v5.shutdown_tx(t) {
            let p = choose|p: Addr| #[trigger]
                v5.peers.contains_key(p) && v5.peers[p].shutdown == t;
            assert(w.peers.contains_key(p));
        }
        if v5.op_tx(t) {
            let o = choose|o: Addr| #[trigger] v5.ops.contains_key(o) && v5.ops[o].tx == t;
            assert(w.ops.contains_key(o));
        }
        if v5.entry_tx(t) {
            let e = choose|e: Addr| #[trigger]
                v5.tx_nodes.contains_key(e) && v5.tx_nodes[e].tx == Some(t);
            assert(w.tx_nodes.contains_key(e));
        }
    }
}

/// Nothing is reclaimed that has users or is referred to.
pub proof fn lemma_tidy_is_kept(v: BusView)
    requires
        v.intact(),
        v.tidy(),
    ensures
        v.reclaimed() == v,
{
    lemma_ok(v);
    assert forall|e: Addr| #[trigger] v.tx_nodes.contains_key(e) implies v.tx_node_ok(e) by {}
    let v1 = v.messages_reclaimed();
    assert(v1.messages =~= v.messages);
    assert(v1.tx_nodes =~= v.tx_nodes);
    assert(v1 == v);
    let v2 = v1.handles_reclaimed();
    assert(v2.handles =~= v.handles);
    assert(v2.tx_nodes =~= v.tx_nodes);
    assert(v2 == v);
    assert(v2.nodes_reclaimed().nodes =~= v.nodes);
    assert(v.peers_reclaimed().peers =~= v.peers);
    assert(v.shareds_reclaimed().shareds =~= v.shareds);
    assert(v.txs_reclaimed().txs =~= v.txs);
}

/// Objects with users stay, and so does everything that they refer to.
pub proof fn lemma_used_is_kept(v: BusView, a: Addr)
    requires
        v.intact(),
    ensures
        v.peers.contains_key(a) && v.peers[a].users > 0 ==> v.reclaimed().peers.contains_key(a)
            && v.reclaimed().peers[a] == v.peers[a],
        v.nodes.contains_key(a) && v.nodes[a].users > 0 ==> v.reclaimed().nodes.contains_key(a)
            && v.reclaimed().nodes[a] == v.nodes[a] && v.reclaimed().peers.contains_key(
            v.nodes[a].owner,
        ),
        v.handles.contains_key(a) && v.handles[a].users > 0 ==> v.reclaimed().handles.contains_key(
            a,
        ) && v.reclaimed().handles[a] == v.handles[a] && v.reclaimed().nodes.contains_key(
            v.handles[a].node,
        ) && v.reclaimed().peers.contains_key(v.handles[a].owner),
        v.shareds.contains_key(a) && v.shareds[a].users > 0 ==> v.reclaimed().shareds.contains_key(
            a,
        ) && v.reclaimed().shareds[a] == v.shareds[a],
{
    lemma_reclaimed_is_tidy(v);
    lemma_ok(v.reclaimed());
}

} // verus!
