//! What goes away, and what is kept, if peers are shut down, if operations are
//! over, and if objects lose their users.

use crate::acct::Actor;
use crate::bus::calls::{drops, lemma_drops, pops};
use crate::bus::capi::{
    actor_addrs, cleaned, handle_unref, message_shared_unref, node_unref, op_commit, op_free,
    peer_end, peer_pop, peer_unref, Outcome,
};
use crate::bus::effects::{lemma_transmits, transmits};
use crate::bus::laws::{lemma_commit_keeps_intact, lemma_end_seals, lemma_transfers_released};
use crate::bus::model::{
    ended_as, lemma_add_contains, lemma_drained, lemma_ok, lemma_op_added, lemma_op_handles_cleared,
    lemma_op_messages_cleared, lemma_op_nodes_cleared, lemma_op_removed, lemma_popped,
    lemma_relabelled, lemma_similar_trans, op_committed, peer_ended, similar, BusView, HandleView,
    NodeView, OpView, PeerView, SharedView, TxNodeKind, TxNodeView,
};
use crate::bus::reclaim::{actors_released, released_by};
use crate::bus::{Bus, Peer};
use crate::util::arena::Addr;
use vstd::prelude::*;

verus! {

/// Objects are kept, unchanged, if and only if there is a reason to.
pub open spec fn kept<V>(m: Map<Addr, V>, n: Map<Addr, V>, reason: spec_fn(Addr) -> bool) -> bool {
    &&& forall|a: Addr| #[trigger] n.contains_key(a) <==> m.contains_key(a) && reason(a)
    &&& forall|a: Addr| #[trigger] n.contains_key(a) ==> n[a] == m[a]
}

/// A message is part of an operation, or is queued.
pub open spec fn message_matters(v: BusView, m: Addr) -> bool {
    v.messages[m].op is Some || v.tx_nodes[v.messages[m].tx_node].queued
}

/// A handle has users, is linked, is part of an operation, has a notification
/// queued, or is involved in a message that is kept.
pub open spec fn handle_matters(v: BusView, w: BusView, h: Addr) -> bool {
    ||| v.handles[h].users > 0
    ||| v.handles[h].linked
    ||| v.handles[h].op is Some
    ||| v.tx_nodes[v.handles[h].release_node].queued
    ||| v.tx_nodes[v.handles[h].release_handle].queued
    ||| exists|m: Addr| #[trigger]
        w.messages.contains_key(m) && (w.messages[m].via == h
            || w.messages[m].transfers.contains(h))
}

/// A node has users, is part of an operation, or a handle to it is kept.
pub open spec fn node_matters(v: BusView, w: BusView, n: Addr) -> bool {
    ||| v.nodes[n].users > 0
    ||| v.nodes[n].op is Some
    ||| exists|h: Addr| #[trigger] w.handles.contains_key(h) && w.handles[h].node == n
}

/// A peer has users, or owns something that is kept, or operates.
pub open spec fn peer_matters(v: BusView, w: BusView, p: Addr) -> bool {
    ||| v.peers[p].users > 0
    ||| exists|n: Addr| #[trigger] w.nodes.contains_key(n) && w.nodes[n].owner == p
    ||| exists|h: Addr| #[trigger] w.handles.contains_key(h) && w.handles[h].owner == p
    ||| exists|o: Addr| #[trigger] w.ops.contains_key(o) && w.ops[o].operator == p
}

/// Shared data has users, or is the data of a message that is kept.
pub open spec fn shared_matters(v: BusView, w: BusView, s: Addr) -> bool {
    ||| v.shareds[s].users > 0
    ||| exists|m: Addr| #[trigger] w.messages.contains_key(m) && w.messages[m].shared == s
}

/// A transaction is the one of something that is kept.
pub open spec fn tx_matters(w: BusView, t: Addr) -> bool {
    ||| exists|p: Addr| #[trigger] w.peers.contains_key(p) && w.peers[p].shutdown == t
    ||| exists|o: Addr| #[trigger] w.ops.contains_key(o) && w.ops[o].tx == t
    ||| exists|e: Addr| #[trigger] w.tx_nodes.contains_key(e) && w.tx_nodes[e].tx == Some(t)
}

/// Exactly what does not matter is gone.
pub open spec fn swept(v: BusView, w: BusView) -> bool {
    &&& kept(v.messages, w.messages, |m: Addr| message_matters(v, m))
    &&& kept(v.handles, w.handles, |h: Addr| handle_matters(v, w, h))
    &&& kept(v.nodes, w.nodes, |n: Addr| node_matters(v, w, n))
    &&& kept(v.peers, w.peers, |p: Addr| peer_matters(v, w, p))
    &&& kept(v.shareds, w.shareds, |s: Addr| shared_matters(v, w, s))
    &&& kept(v.txs, w.txs, |t: Addr| tx_matters(w, t))
    &&& kept(
        v.tx_nodes,
        w.tx_nodes,
        |e: Addr|
            if v.tx_nodes[e].kind == TxNodeKind::User {
                w.messages.contains_key(v.tx_nodes[e].base)
            } else {
                w.handles.contains_key(v.tx_nodes[e].base)
            },
    )
    &&& w.ops == v.ops
}

/// The given actors are those of the peers that are gone, one for each.
pub open spec fn leaves(v: BusView, w: BusView, actors: Seq<Addr>) -> bool {
    exists|ps: Seq<Addr>| #[trigger] left_by(v, w, actors, ps)
}

/// The given actors are those of the given peers, which are gone.
pub open spec fn left_by(v: BusView, w: BusView, actors: Seq<Addr>, ps: Seq<Addr>) -> bool {
    &&& ps.no_duplicates()
    &&& forall|p: Addr| #[trigger]
        ps.contains(p) <==> v.peers.contains_key(p) && !w.peers.contains_key(p)
    &&& actors.len() == ps.len()
    &&& forall|i: int| #![trigger ps[i]] 0 <= i < ps.len() ==> actors[i] == v.peers[ps[i]].actor
}

proof fn lemma_swept(v: BusView)
    requires
        v.intact(),
    ensures
        swept(v, v.reclaimed()),
{
    let v1 = v.messages_reclaimed();
    let v2 = v1.handles_reclaimed();
    let v3 = v2.nodes_reclaimed();
    let v4 = v3.peers_reclaimed();
    let v5 = v4.shareds_reclaimed();
    let w = v.reclaimed();
    lemma_ok(v);
    assert(w.messages == v1.messages);
    assert(w.handles == v2.handles);
    assert(w.tx_nodes == v2.tx_nodes);
    assert(w.nodes == v3.nodes);
    assert(w.peers == v4.peers);
    assert(w.shareds == v5.shareds);
    assert(w.ops == v.ops && v3.ops == v.ops && v5.ops == v.ops);
    assert forall|h: Addr| v.handles.contains_key(h) implies (v1.handle_held(h) <==> handle_matters(
        v,
        w,
        h,
    )) by {
        assert(v.handle_ok(h));
        assert(v1.tx_nodes.contains_key(v.handles[h].release_node));
        assert(v1.tx_nodes.contains_key(v.handles[h].release_handle));
        assert(v1.handle_referred(h) <==> exists|m: Addr| #[trigger]
            w.messages.contains_key(m) && (w.messages[m].via == h
                || w.messages[m].transfers.contains(h)));
    }
    assert forall|e: Addr| #[trigger] v.tx_nodes.contains_key(e) implies (w.tx_nodes.contains_key(e)
        <==> if v.tx_nodes[e].kind == TxNodeKind::User {
        w.messages.contains_key(v.tx_nodes[e].base)
    } else {
        w.handles.contains_key(v.tx_nodes[e].base)
    }) by {
        assert(v.tx_node_ok(e));
    }
    assert forall|n: Addr| v.nodes.contains_key(n) implies (v2.node_held(n) <==> node_matters(
        v,
        w,
        n,
    )) by {
        assert(v2.node_referred(n) <==> exists|h: Addr| #[trigger]
            w.handles.contains_key(h) && w.handles[h].node == n);
    }
    assert forall|p: Addr| v.peers.contains_key(p) implies (v3.peer_held(p) <==> peer_matters(
        v,
        w,
        p,
    )) by {
        assert(v3.node_owner(p) <==> exists|n: Addr| #[trigger]
            w.nodes.contains_key(n) && w.nodes[n].owner == p);
        assert(v3.handle_owner(p) <==> exists|h: Addr| #[trigger]
            w.handles.contains_key(h) && w.handles[h].owner == p);
        assert(v3.operator(p) <==> exists|o: Addr| #[trigger]
            w.ops.contains_key(o) && w.ops[o].operator == p);
    }
    assert forall|s: Addr| v.shareds.contains_key(s) implies (v4.shared_held(s) <==> shared_matters(
        v,
        w,
        s,
    )) by {
        assert(v4.shared_referred(s) <==> exists|m: Addr| #[trigger]
            w.messages.contains_key(m) && w.messages[m].shared == s);
    }
    assert forall|t: Addr| v.txs.contains_key(t) implies (v5.tx_referred(t) <==> tx_matters(
        w,
        t,
    )) by {
        assert(v5.shutdown_tx(t) <==> exists|p: Addr| #[trigger]
            w.peers.contains_key(p) && w.peers[p].shutdown == t);
        assert(v5.op_tx(t) <==> exists|o: Addr| #[trigger]
            w.ops.contains_key(o) && w.ops[o].tx == t);
        assert(v5.entry_tx(t) <==> exists|e: Addr| #[trigger]
            w.tx_nodes.contains_key(e) && w.tx_nodes[e].tx == Some(t));
    }
    assert(kept(v.messages, w.messages, |m: Addr| message_matters(v, m)));
    assert(kept(v.handles, w.handles, |h: Addr| handle_matters(v, w, h)));
    assert(kept(v.nodes, w.nodes, |n: Addr| node_matters(v, w, n)));
    assert(kept(v.peers, w.peers, |p: Addr| peer_matters(v, w, p)));
    assert(kept(v.shareds, w.shareds, |s: Addr| shared_matters(v, w, s)));
    assert(kept(v.txs, w.txs, |t: Addr| tx_matters(w, t)));
}

/// Unreferenced objects are deallocated, and others are left alone. The actors
/// of peers that are gone are handed out.
pub proof fn lemma_reclaim(bus: &mut Bus, r: Vec<Actor>)
    requires
        old(bus).wf(),
        call_ensures(Bus::reclaim, (bus,), r),
    ensures
        swept(old(bus)@, final(bus)@),
        leaves(old(bus)@, final(bus)@, actor_addrs(r@)),
{
    old(bus).lemma_wf();
    lemma_swept(old(bus)@);
    lemma_leaves(old(bus)@, final(bus)@, actor_addrs(r@));
}

proof fn lemma_leaves(v: BusView, w: BusView, actors: Seq<Addr>)
    requires
        actors_released(v, w, actors),
    ensures
        leaves(v, w, actors),
{
    let ps = choose|ps: Seq<Addr>| #[trigger] released_by(v, w, actors, ps);
    assert(left_by(v, w, actors, ps));
}

proof fn lemma_cleaned(v: BusView, w: BusView, actors: Seq<Actor>)
    requires
        v.intact(),
        cleaned(v, w, actors),
    ensures
        swept(v, w),
        leaves(v, w, actor_addrs(actors)),
{
    lemma_swept(v);
    lemma_leaves(v, w, actor_addrs(actors));
}

/// An object with one user less. If nothing else refers to the object, it is
/// gone, and so is everything that only the object has referred to.
pub proof fn lemma_peer_unref(bus: &mut Bus, this: Addr, r: Vec<Actor>)
    requires
        old(bus).wf(),
        old(bus)@.peers.contains_key(this),
        old(bus)@.peers[this].users > 0,
        call_ensures(peer_unref, (bus, Some(this)), r),
    ensures
        ({
            let v = old(bus)@;
            let users = (v.peers[this].users - 1) as usize;
            let x = BusView {
                peers: v.peers.insert(this, PeerView { users, ..v.peers[this] }),
                ..v
            };
            &&& swept(x, final(bus)@)
            &&& leaves(x, final(bus)@, actor_addrs(r@))
        }),
{
    let v = old(bus)@;
    let x = v.peer_used(this, v.peers[this].users - 1);
    old(bus).lemma_wf();
    lemma_relabelled(v, x);
    lemma_cleaned(x, final(bus)@, r@);
}

/// A node with one user less.
pub proof fn lemma_node_unref(bus: &mut Bus, this: Addr, r: Vec<Actor>)
    requires
        old(bus).wf(),
        old(bus)@.nodes.contains_key(this),
        old(bus)@.nodes[this].users > 0,
        call_ensures(node_unref, (bus, Some(this)), r),
    ensures
        ({
            let v = old(bus)@;
            let users = (v.nodes[this].users - 1) as usize;
            let x = BusView {
                nodes: v.nodes.insert(this, NodeView { users, ..v.nodes[this] }),
                ..v
            };
            &&& swept(x, final(bus)@)
            &&& leaves(x, final(bus)@, actor_addrs(r@))
        }),
{
    let v = old(bus)@;
    let x = v.node_used(this, v.nodes[this].users - 1);
    old(bus).lemma_wf();
    lemma_relabelled(v, x);
    lemma_cleaned(x, final(bus)@, r@);
}

/// A handle with one user less.
pub proof fn lemma_handle_unref(bus: &mut Bus, this: Addr, r: Vec<Actor>)
    requires
        old(bus).wf(),
        old(bus)@.handles.contains_key(this),
        old(bus)@.handles[this].users > 0,
        call_ensures(handle_unref, (bus, Some(this)), r),
    ensures
        ({
            let v = old(bus)@;
            let users = (v.handles[this].users - 1) as usize;
            let x = BusView {
                handles: v.handles.insert(this, HandleView { users, ..v.handles[this] }),
                ..v
            };
            &&& swept(x, final(bus)@)
            &&& leaves(x, final(bus)@, actor_addrs(r@))
        }),
{
    let v = old(bus)@;
    let x = v.handle_used(this, v.handles[this].users - 1);
    old(bus).lemma_wf();
    lemma_relabelled(v, x);
    lemma_cleaned(x, final(bus)@, r@);
}

/// Shared data with one user less.
pub proof fn lemma_message_shared_unref(bus: &mut Bus, this: Addr, r: Vec<Actor>)
    requires
        old(bus).wf(),
        old(bus)@.shareds.contains_key(this),
        old(bus)@.shareds[this].users > 0,
        call_ensures(message_shared_unref, (bus, Some(this)), r),
    ensures
        ({
            let v = old(bus)@;
            let users = (v.shareds[this].users - 1) as usize;
            let x = BusView {
                shareds: v.shareds.insert(this, SharedView { users, ..v.shareds[this] }),
                ..v
            };
            &&& swept(x, final(bus)@)
            &&& leaves(x, final(bus)@, actor_addrs(r@))
        }),
{
    let v = old(bus)@;
    let x = v.shared_used(this, v.shareds[this].users - 1);
    old(bus).lemma_wf();
    lemma_relabelled(v, x);
    lemma_cleaned(x, final(bus)@, r@);
}

/// Without an object, nothing happens.
pub proof fn lemma_no_unref(bus: &mut Bus, r: Vec<Actor>)
    requires
        call_ensures(peer_unref, (bus, None), r) || call_ensures(node_unref, (bus, None), r)
            || call_ensures(handle_unref, (bus, None), r) || call_ensures(
            message_shared_unref,
            (bus, None),
            r,
        ) || call_ensures(op_free, (bus, None), r),
    ensures
        final(bus)@ == old(bus)@,
        r@.len() == 0,
{
}

/// A message that was received, and that is not used otherwise, is gone
/// afterwards.
pub proof fn lemma_peer_pop(bus: &mut Bus, this: Addr, r: Vec<Actor>)
    requires
        old(bus).wf(),
        old(bus)@.peers.contains_key(this),
        call_ensures(peer_pop, (bus, this), r),
    ensures
        exists|x: BusView| #[trigger]
            pops(old(bus)@, x, this) && swept(x, final(bus)@) && leaves(
                x,
                final(bus)@,
                actor_addrs(r@),
            ),
{
    let v = old(bus)@;
    let x = v.popped(this);
    old(bus).lemma_wf();
    lemma_popped(v, this);
    lemma_cleaned(x, final(bus)@, r@);
    assert(pops(v, x, this));
}

/// An operation that is dropped leaves no messages behind.
pub proof fn lemma_op_free(bus: &mut Bus, this: Addr, r: Vec<Actor>)
    requires
        old(bus).wf(),
        old(bus)@.ops.contains_key(this),
        call_ensures(op_free, (bus, Some(this)), r),
    ensures
        exists|x: BusView| #[trigger]
            drops(old(bus)@, x, this) && swept(x, final(bus)@) && leaves(
                x,
                final(bus)@,
                actor_addrs(r@),
            ),
{
    let v = old(bus)@;
    let a = v.op_messages_cleared(this);
    let b = a.op_nodes_cleared(this);
    let c = b.op_handles_cleared(this);
    let x = v.op_freed(this);
    old(bus).lemma_wf();
    lemma_op_messages_cleared(v, this);
    lemma_op_nodes_cleared(a, this);
    lemma_op_handles_cleared(b, this);
    lemma_op_removed(c, this);
    lemma_cleaned(x, final(bus)@, r@);
    lemma_drops(v, this);
}

/// A commit delivers everything that is part of the operation. What nothing
/// refers to afterwards is gone.
pub proof fn lemma_op_commit(bus: &mut Bus, this: Addr, r: Outcome)
    requires
        old(bus).wf(),
        old(bus)@.ops.contains_key(this),
        call_ensures(op_commit, (bus, this), r),
    ensures
        exists|x: BusView| #[trigger]
            transmits(old(bus)@, x, this, r.wakes@) && swept(x, final(bus)@) && leaves(
                x,
                final(bus)@,
                actor_addrs(r.actors@),
            ),
{
    let v = old(bus)@;
    let x = choose|x: BusView| #[trigger]
        op_committed(v, x, this, r.wakes@) && cleaned(x, final(bus)@, r.actors@);
    old(bus).lemma_wf();
    lemma_commit_keeps_intact(v, x, this, r.wakes@);
    lemma_transmits(v, x, this, r.wakes@);
    lemma_cleaned(x, final(bus)@, r.actors@);
}

/// An entry is on one of the lists of a peer.
pub open spec fn on_peer(v: BusView, p: Addr, e: Addr) -> bool {
    v.peers[p].queue.contains(e) || v.peers[p].ready.contains(e) || v.peers[p].busy.contains(e)
}

/// A handle was transferred to a peer by a message that the peer has not
/// received yet, and no operation is about to release it.
pub open spec fn is_stranded(v: BusView, p: Addr, h: Addr) -> bool {
    &&& v.handles.contains_key(h)
    &&& v.handles[h].owner == p
    &&& v.handles[h].op is None
    &&& exists|e: Addr| #[trigger]
        on_peer(v, p, e) && v.tx_nodes[e].kind == TxNodeKind::User
            && v.messages[v.tx_nodes[e].base].transfers.contains(h)
}

/// The queue of a peer is sealed, and everything on it is discarded. An
/// operation releases the handles that were transferred with it.
pub open spec fn discards(v: BusView, w: BusView, p: Addr, o: Addr) -> bool {
    &&& !v.ops.contains_key(o)
    &&& w.peers == v.peers.insert(
        p,
        PeerView {
            sealed: true,
            queue: Seq::empty(),
            ready: Seq::empty(),
            busy: Seq::empty(),
            ..v.peers[p]
        },
    )
    &&& w.tx_nodes.dom() == v.tx_nodes.dom()
    &&& forall|e: Addr| #[trigger]
        v.tx_nodes.contains_key(e) ==> w.tx_nodes[e] == (TxNodeView {
            queued: v.tx_nodes[e].queued && !on_peer(v, p, e),
            ..v.tx_nodes[e]
        })
    &&& w.ops == v.ops.insert(
        o,
        OpView {
            operator: p,
            tx: v.peers[p].shutdown,
            messages: Seq::empty(),
            nodes: Seq::empty(),
            handles: w.ops[o].handles,
        },
    )
    &&& w.ops[o].handles.no_duplicates()
    &&& forall|h: Addr| #[trigger] w.ops[o].handles.contains(h) <==> is_stranded(v, p, h)
    &&& w.handles.dom() == v.handles.dom()
    &&& forall|h: Addr| #[trigger]
        v.handles.contains_key(h) ==> w.handles[h] == (HandleView {
            op: if is_stranded(v, p, h) {
                Some(o)
            } else {
                v.handles[h].op
            },
            ..v.handles[h]
        })
    &&& w == BusView {
        peers: w.peers,
        tx_nodes: w.tx_nodes,
        ops: w.ops,
        handles: w.handles,
        ..v
    }
}

/// A peer is shut down by discarding what is queued on it, and by committing
/// the release of what was transferred with it.
pub open spec fn shuts_down(v: BusView, w: BusView, p: Addr, wakes: Seq<Addr>) -> bool {
    exists|x: BusView, o: Addr|
        #[trigger] discards(v, x, p, o) && #[trigger] transmits(x, w, o, wakes)
}

proof fn lemma_handles_taken(v: BusView, o: Addr, s: Seq<Addr>)
    requires
        v.ops.contains_key(o),
    ensures
        ({
            let w = v.handles_released(o, s);
            &&& w == BusView { handles: w.handles, ops: w.ops, ..v }
            &&& w.ops == v.ops.insert(o, OpView { handles: w.ops[o].handles, ..v.ops[o] })
            &&& forall|h: Addr| #[trigger]
                v.handles.contains_key(h) ==> w.handles.contains_key(h) && w.handles[h] == (
                HandleView {
                    op: if v.handles[h].owner == v.ops[o].operator && v.handles[h].op is None
                        && s.contains(h) {
                        Some(o)
                    } else {
                        v.handles[h].op
                    },
                    ..v.handles[h]
                })
        }),
    decreases s.len(),
{
    let w = v.handles_released(o, s);
    if s.len() > 0 {
        let t = s.drop_last();
        lemma_handles_taken(v, o, t);
        assert forall|h: Addr| #[trigger] s.contains(h) <==> t.contains(h) || h == s.last() by {
            if s.contains(h) {
                let i = choose|i: int| 0 <= i < s.len() && s[i] == h;
                if i < t.len() {
                    assert(t[i] == h);
                }
            }
            if t.contains(h) {
                let i = choose|i: int| 0 <= i < t.len() && t[i] == h;
                assert(s[i] == h);
            }
            assert(s[s.len() - 1] == s.last());
        }
        assert(w.ops =~= v.ops.insert(o, OpView { handles: w.ops[o].handles, ..v.ops[o] }));
    } else {
        assert(w.ops =~= v.ops.insert(o, v.ops[o]));
    }
}

/// A handle is transferred by one of a series of entries.
spec fn is_carried(v: BusView, s: Seq<Addr>, h: Addr) -> bool {
    exists|e: Addr| #[trigger]
        s.contains(e) && v.tx_nodes[e].kind == TxNodeKind::User
            && v.messages[v.tx_nodes[e].base].transfers.contains(h)
}

proof fn lemma_transfers_taken(v: BusView, o: Addr, s: Seq<Addr>)
    requires
        v.ops.contains_key(o),
    ensures
        ({
            let w = v.transfers_released(o, s);
            &&& w == BusView { handles: w.handles, ops: w.ops, ..v }
            &&& w.ops == v.ops.insert(o, OpView { handles: w.ops[o].handles, ..v.ops[o] })
            &&& forall|h: Addr| #[trigger]
                v.handles.contains_key(h) ==> w.handles.contains_key(h) && w.handles[h] == (
                HandleView {
                    op: if v.handles[h].owner == v.ops[o].operator && v.handles[h].op is None
                        && is_carried(v, s, h) {
                        Some(o)
                    } else {
                        v.handles[h].op
                    },
                    ..v.handles[h]
                })
        }),
    decreases s.len(),
{
    let w = v.transfers_released(o, s);
    if s.len() > 0 {
        let t = s.drop_last();
        let x = v.transfers_released(o, t);
        let e = s.last();
        let hs = v.messages[v.tx_nodes[e].base].transfers;
        lemma_transfers_taken(v, o, t);
        lemma_handles_taken(x, o, hs);
        assert forall|f: Addr| #[trigger] s.contains(f) <==> t.contains(f) || f == e by {
            if s.contains(f) {
                let i = choose|i: int| 0 <= i < s.len() && s[i] == f;
                if i < t.len() {
                    assert(t[i] == f);
                }
            }
            if t.contains(f) {
                let i = choose|i: int| 0 <= i < t.len() && t[i] == f;
                assert(s[i] == f);
            }
            assert(s[s.len() - 1] == e);
        }
        assert forall|h: Addr| #[trigger] is_carried(v, s, h) <==> is_carried(v, t, h)
            || v.tx_nodes[e].kind == TxNodeKind::User && hs.contains(h) by {
            if is_carried(v, s, h) {
                let f = choose|f: Addr| #[trigger]
                    s.contains(f) && v.tx_nodes[f].kind == TxNodeKind::User
                        && v.messages[v.tx_nodes[f].base].transfers.contains(h);
                assert(t.contains(f) || f == e);
            }
            if is_carried(v, t, h) {
                let f = choose|f: Addr| #[trigger]
                    t.contains(f) && v.tx_nodes[f].kind == TxNodeKind::User
                        && v.messages[v.tx_nodes[f].base].transfers.contains(h);
                assert(s.contains(f));
            }
            assert(s.contains(e));
        }
        assert(w.ops =~= v.ops.insert(o, OpView { handles: w.ops[o].handles, ..v.ops[o] }));
    } else {
        assert(w.ops =~= v.ops.insert(o, v.ops[o]));
        assert forall|h: Addr| !is_carried(v, s, h) by {}
    }
}

proof fn lemma_shuts_down(v: BusView, w: BusView, p: Addr, wakes: Seq<Addr>)
    requires
        v.intact(),
        v.peers.contains_key(p),
        peer_ended(v, w, p, wakes),
    ensures
        shuts_down(v, w, p, wakes),
{
    let o = choose|o: Addr| #[trigger] ended_as(v, w, p, wakes, o);
    let tx = v.peers[p].shutdown;
    let a = v.op_added(o, p, tx);
    let b = a.drained(p);
    let q = v.lists(p);
    let c = b.transfers_released(o, q);
    lemma_ok(v);
    assert(v.peer_ok(p));
    lemma_op_added(v, o, p, tx);
    lemma_drained(a, p);
    assert forall|i: int| #![trigger q[i]] 0 <= i < q.len() implies b.tx_nodes.contains_key(
        q[i],
    ) by {
        assert(v.tx_nodes.contains_key(v.lists(p)[i]));
    }
    lemma_transfers_released(b, o, q);
    lemma_transfers_taken(b, o, q);
    lemma_transmits(c, w, o, wakes);
    assert(a.lists(p) == q);
    lemma_add_contains(v.peers[p].queue, v.peers[p].ready);
    lemma_add_contains(v.peers[p].queue + v.peers[p].ready, v.peers[p].busy);
    assert forall|e: Addr| #[trigger] on_peer(v, p, e) <==> q.contains(e) by {}
    assert forall|e: Addr| q.contains(e) implies #[trigger] v.tx_nodes.contains_key(e) by {
        let i = choose|i: int| 0 <= i < q.len() && q[i] == e;
        assert(v.tx_nodes.contains_key(v.lists(p)[i]));
    }
    assert forall|h: Addr| #[trigger] v.handles.contains_key(h) implies (is_stranded(v, p, h)
        <==> v.handles[h].owner == p && v.handles[h].op is None && is_carried(b, q, h)) by {
        if is_carried(b, q, h) {
            let e = choose|e: Addr| #[trigger]
                q.contains(e) && b.tx_nodes[e].kind == TxNodeKind::User
                    && b.messages[b.tx_nodes[e].base].transfers.contains(h);
            assert(v.tx_nodes.contains_key(e));
            assert(on_peer(v, p, e));
        }
        if is_stranded(v, p, h) {
            let e = choose|e: Addr| #[trigger]
                on_peer(v, p, e) && v.tx_nodes[e].kind == TxNodeKind::User
                    && v.messages[v.tx_nodes[e].base].transfers.contains(h);
            assert(q.contains(e));
            assert(v.tx_nodes.contains_key(e));
        }
    }
    lemma_ok(c);
    assert(c.ops.contains_key(o));
    assert(c.op_ok(o));
    assert forall|h: Addr| #[trigger] c.ops[o].handles.contains(h) <==> is_stranded(v, p, h) by {
        if c.ops[o].handles.contains(h) {
            let s = c.ops[o].handles;
            let i = choose|i: int| 0 <= i < s.len() && s[i] == h;
            assert(c.handles.contains_key(s[i]));
            assert(v.handles.contains_key(h));
            assert(v.handle_ok(h));
        }
        if is_stranded(v, p, h) {
            assert(c.handles.contains_key(h));
            assert(c.handle_ok(h));
        }
    }
    assert(similar(v, a));
    lemma_similar_trans(v, a, b);
    lemma_similar_trans(v, b, c);
    assert(c.peers =~= v.peers.insert(
        p,
        PeerView {
            sealed: true,
            queue: Seq::empty(),
            ready: Seq::empty(),
            busy: Seq::empty(),
            ..v.peers[p]
        },
    ));
    assert(c.ops =~= v.ops.insert(
        o,
        OpView {
            operator: p,
            tx,
            messages: Seq::empty(),
            nodes: Seq::empty(),
            handles: c.ops[o].handles,
        },
    ));
    assert(discards(v, c, p, o));
}

/// A peer that is shut down discards what is queued on it, and releases the
/// handles that were transferred with it. Nothing can be queued on it, anymore.
pub proof fn lemma_peer_end(bus: &mut Bus, this: Addr, r: Vec<Addr>)
    requires
        old(bus).wf(),
        old(bus)@.peers.contains_key(this),
        call_ensures(Peer::end, (bus, this), r),
    ensures
        shuts_down(old(bus)@, final(bus)@, this, r@),
{
    old(bus).lemma_wf();
    lemma_shuts_down(old(bus)@, final(bus)@, this, r@);
}

/// A peer is shut down, and what nothing refers to afterwards is gone.
pub proof fn lemma_peer_shut_down(bus: &mut Bus, this: Addr, r: Outcome)
    requires
        old(bus).wf(),
        old(bus)@.peers.contains_key(this),
        call_ensures(peer_end, (bus, this), r),
    ensures
        exists|x: BusView| #[trigger]
            shuts_down(old(bus)@, x, this, r.wakes@) && swept(x, final(bus)@) && leaves(
                x,
                final(bus)@,
                actor_addrs(r.actors@),
            ),
{
    let v = old(bus)@;
    let x = choose|x: BusView| #[trigger]
        peer_ended(v, x, this, r.wakes@) && cleaned(x, final(bus)@, r.actors@);
    old(bus).lemma_wf();
    lemma_end_seals(v, x, this, r.wakes@);
    lemma_shuts_down(v, x, this, r.wakes@);
    lemma_cleaned(x, final(bus)@, r.actors@);
}

} // verus!
