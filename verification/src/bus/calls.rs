//! What calls into a bus do, in terms of their arguments and their results.

use crate::acct::Actor;
use crate::bus::capi::{
    handle_begin, handle_end, handle_get_userdata, handle_ref, handle_set_userdata,
    lemma_transfers_errno, message_shared_new, message_shared_ref, node_get_userdata, node_ref,
    node_set_userdata, op_new, op_release_handle, op_release_node, op_send_message, peer_new,
    peer_new_handle, peer_new_node, peer_peek, peer_readable, peer_ref, transfers_errno,
};
use crate::bus::delivery::{lemma_filter_all, lemma_filter_none};
use crate::bus::model::{
    all_in, handle_created, handles_created, lemma_handle_added, lemma_insert_once, lemma_ok,
    lemma_place_bounds, message_sent, place, sent_as, wrapped, BusView, HandleView, MessageView,
    NodeView, OpView, PeerView, SharedView, TxNodeKind, TxNodeView,
};
use crate::bus::txnode::TxNodeRef;
use crate::bus::{Bus, Handle, MessageError, MessageShared, Node, Op, Peek, Peer};
use crate::util::arena::{Addr, AllocError};
use vstd::arithmetic::div_mod::{lemma_fundamental_div_mod, lemma_small_mod};
use vstd::prelude::*;

verus! {

/// A map has exactly one more entry than another one.
pub open spec fn one_more<V>(m: Map<Addr, V>, n: Map<Addr, V>, a: Addr) -> bool {
    &&& !m.contains_key(a)
    &&& forall|b: Addr| #[trigger] n.contains_key(b) <==> b == a || m.contains_key(b)
    &&& forall|b: Addr| #[trigger] m.contains_key(b) ==> n[b] == m[b]
}

/// A new bus has no objects.
pub proof fn lemma_bus_new(limit: usize, r: Bus)
    requires
        call_ensures(Bus::with_limit, (limit,), r) || limit == usize::MAX && call_ensures(
            Bus::new,
            (),
            r,
        ),
    ensures
        r.limit() == limit,
        r@.peers.dom() == Set::<Addr>::empty(),
        r@.nodes.dom() == Set::<Addr>::empty(),
        r@.handles.dom() == Set::<Addr>::empty(),
        r@.messages.dom() == Set::<Addr>::empty(),
        r@.shareds.dom() == Set::<Addr>::empty(),
        r@.txs.dom() == Set::<Addr>::empty(),
        r@.tx_nodes.dom() == Set::<Addr>::empty(),
        r@.ops.dom() == Set::<Addr>::empty(),
{
}

/// Shared data holds the bytes it was created with.
pub proof fn lemma_shared_with(bus: &mut Bus, data: Vec<u8>, r: Result<Addr, AllocError>)
    requires
        call_ensures(MessageShared::with, (bus, data), r),
    ensures
        r is Ok <==> old(bus)@.shareds.dom().len() < old(bus).limit(),
        r matches Ok(s) ==> {
            &&& one_more(old(bus)@.shareds, final(bus)@.shareds, s)
            &&& final(bus)@.shareds[s].data == data@
            &&& final(bus)@.shareds[s].users == 0
        },
        r is Err ==> final(bus)@.shareds == old(bus)@.shareds,
        final(bus)@ == (BusView { shareds: final(bus)@.shareds, ..old(bus)@ }),
{
}

/// Shared data holds the bytes it was created with, and has a single user.
pub proof fn lemma_message_shared_new(bus: &mut Bus, data: Vec<u8>, r: Result<Addr, i32>)
    requires
        call_ensures(message_shared_new, (bus, data), r),
    ensures
        r is Ok <==> old(bus)@.shareds.dom().len() < old(bus).limit(),
        r matches Ok(s) ==> {
            &&& one_more(old(bus)@.shareds, final(bus)@.shareds, s)
            &&& final(bus)@.shareds[s].data == data@
            &&& final(bus)@.shareds[s].users == 1
        },
        r matches Err(e) ==> e == -12 && final(bus)@.shareds == old(bus)@.shareds,
        final(bus)@ == (BusView { shareds: final(bus)@.shareds, ..old(bus)@ }),
{
}

/// A new peer acts on behalf of the actor it was created with. Nothing is queued
/// on it, and everything can be.
pub proof fn lemma_peer_new(bus: &mut Bus, actor: Actor, r: Result<Addr, (i32, Actor)>)
    requires
        call_ensures(peer_new, (bus, actor), r),
    ensures
        r is Ok <==> old(bus)@.txs.dom().len() < old(bus).limit() && old(bus)@.peers.dom().len()
            < old(bus).limit(),
        r matches Ok(p) ==> {
            let (v, w) = (old(bus)@, final(bus)@);
            &&& one_more(v.peers, w.peers, p)
            &&& w.peers[p].users == 1
            &&& w.peers[p].actor == actor.addr()
            &&& w.peers[p].committed == 0
            &&& !w.peers[p].sealed
            &&& w.peers[p].queue.len() == 0
            &&& w.peers[p].ready.len() == 0
            &&& w.peers[p].busy.len() == 0
            &&& one_more(v.txs, w.txs, w.peers[p].shutdown)
            &&& !w.txs[w.peers[p].shutdown]
        },
        r matches Err((e, a)) ==> e == -12 && a == actor && final(bus)@ == old(bus)@,
        final(bus)@ == (BusView { peers: final(bus)@.peers, txs: final(bus)@.txs, ..old(bus)@ }),
{
}

/// A new peer has no users, unless it is acquired.
pub proof fn lemma_peer_unused(bus: &mut Bus, actor: Actor, r: Result<Addr, (AllocError, Actor)>)
    requires
        call_ensures(Peer::new, (bus, actor), r),
    ensures
        r is Ok <==> old(bus)@.txs.dom().len() < old(bus).limit() && old(bus)@.peers.dom().len()
            < old(bus).limit(),
        r matches Ok(p) ==> {
            let (v, w) = (old(bus)@, final(bus)@);
            &&& one_more(v.peers, w.peers, p)
            &&& w.peers[p].users == 0
            &&& w.peers[p].actor == actor.addr()
            &&& w.peers[p].committed == 0
            &&& !w.peers[p].sealed
            &&& w.peers[p].queue.len() == 0
            &&& w.peers[p].ready.len() == 0
            &&& w.peers[p].busy.len() == 0
            &&& one_more(v.txs, w.txs, w.peers[p].shutdown)
            &&& !w.txs[w.peers[p].shutdown]
        },
        r matches Err((_, a)) ==> a == actor && final(bus)@ == old(bus)@,
        final(bus)@ == (BusView { peers: final(bus)@.peers, txs: final(bus)@.txs, ..old(bus)@ }),
{
}

/// An operation starts out empty, on behalf of its operator, with a transaction
/// of its own that is not committed.
pub open spec fn starts_empty(v: BusView, w: BusView, o: Addr, operator: Addr) -> bool {
    &&& one_more(v.ops, w.ops, o)
    &&& w.ops[o].operator == operator
    &&& w.ops[o].messages.len() == 0
    &&& w.ops[o].nodes.len() == 0
    &&& w.ops[o].handles.len() == 0
    &&& one_more(v.txs, w.txs, w.ops[o].tx)
    &&& !w.txs[w.ops[o].tx]
    &&& w == BusView { ops: w.ops, txs: w.txs, ..v }
}

/// A new operation is empty, and affects nothing.
pub proof fn lemma_op_new(bus: &mut Bus, operator: Addr, r: Result<Addr, AllocError>)
    requires
        call_ensures(Op::new, (bus, operator), r),
    ensures
        r is Ok <==> old(bus)@.txs.dom().len() < old(bus).limit() && old(bus)@.ops.dom().len() + 1
            <= usize::MAX,
        r matches Ok(o) ==> starts_empty(old(bus)@, final(bus)@, o, operator),
        r is Err ==> final(bus)@ == old(bus)@,
{
}

/// A new operation is empty, and affects nothing.
pub proof fn lemma_op_begun(bus: &mut Bus, operator: Addr, r: Result<Addr, i32>)
    requires
        call_ensures(op_new, (bus, operator), r),
    ensures
        r is Ok <==> old(bus)@.txs.dom().len() < old(bus).limit() && old(bus)@.ops.dom().len() + 1
            <= usize::MAX,
        r matches Ok(o) ==> starts_empty(old(bus)@, final(bus)@, o, operator),
        r matches Err(e) ==> e == -12 && final(bus)@ == old(bus)@,
{
}

/// A handle of the given owner to a node is the only new handle. It is not
/// linked, and none of its notifications is queued.
pub open spec fn leads_to(v: BusView, w: BusView, h: Addr, node: Addr, owner: Addr) -> bool {
    let handle = w.handles[h];
    let (e, f) = (handle.release_node, handle.release_handle);
    &&& one_more(v.handles, w.handles, h)
    &&& handle.node == node
    &&& handle.owner == owner
    &&& handle.userdata == 0
    &&& !handle.linked
    &&& handle.op is None
    &&& e != f && !v.tx_nodes.contains_key(e) && !v.tx_nodes.contains_key(f)
    &&& forall|b: Addr| #[trigger]
        w.tx_nodes.contains_key(b) <==> b == e || b == f || v.tx_nodes.contains_key(b)
    &&& forall|b: Addr| #[trigger] v.tx_nodes.contains_key(b) ==> w.tx_nodes[b] == v.tx_nodes[b]
    &&& w.tx_nodes[e].kind == TxNodeKind::ReleaseNode
    &&& w.tx_nodes[f].kind == TxNodeKind::ReleaseHandle
    &&& w.tx_nodes[e].base == h && w.tx_nodes[f].base == h
    &&& !w.tx_nodes[e].queued && !w.tx_nodes[f].queued
    &&& w.tx_nodes[e].tx is None && w.tx_nodes[f].tx is None
}

/// A new node is owned by one peer, and the new handle to it by the other one.
pub proof fn lemma_create_node(
    bus: &mut Bus,
    this: Addr,
    other: Addr,
    r: Result<(Addr, Addr), AllocError>,
)
    requires
        call_ensures(Peer::create_node, (bus, this, other), r),
    ensures
        r is Ok <==> old(bus)@.nodes.dom().len() < old(bus).limit() && old(bus)@.handles.dom().len()
            < old(bus).limit() && old(bus)@.tx_nodes.dom().len() + 2 <= usize::MAX,
        r matches Ok((n, h)) ==> {
            let (v, w) = (old(bus)@, final(bus)@);
            &&& one_more(v.nodes, w.nodes, n)
            &&& w.nodes[n].owner == this
            &&& w.nodes[n].users == 0
            &&& w.nodes[n].userdata == 0
            &&& w.nodes[n].op is None
            &&& w.nodes[n].handles.len() == 0
            &&& w.handles[h].users == 0
            &&& leads_to(v, w, h, n, other)
            &&& w == BusView { nodes: w.nodes, handles: w.handles, tx_nodes: w.tx_nodes, ..v }
        },
        r is Err ==> final(bus)@ == old(bus)@,
{
}

/// A new node and the handle to it have a single user each.
pub proof fn lemma_peer_new_node(
    bus: &mut Bus,
    this: Addr,
    other: Addr,
    r: Result<(Addr, Addr), i32>,
)
    requires
        call_ensures(peer_new_node, (bus, this, other), r),
    ensures
        r is Ok <==> old(bus)@.nodes.dom().len() < old(bus).limit() && old(bus)@.handles.dom().len()
            < old(bus).limit() && old(bus)@.tx_nodes.dom().len() + 2 <= usize::MAX,
        r matches Ok((n, h)) ==> {
            let (v, w) = (old(bus)@, final(bus)@);
            &&& one_more(v.nodes, w.nodes, n)
            &&& w.nodes[n].owner == this
            &&& w.nodes[n].users == 1
            &&& w.nodes[n].userdata == 0
            &&& w.nodes[n].op is None
            &&& w.nodes[n].handles.len() == 0
            &&& w.handles[h].users == 1
            &&& leads_to(v, w, h, n, other)
            &&& w == BusView { nodes: w.nodes, handles: w.handles, tx_nodes: w.tx_nodes, ..v }
        },
        r matches Err(e) ==> e == -12 && final(bus)@ == old(bus)@,
{
}

/// A handle that is created from another one leads to the same node.
pub proof fn lemma_create_handle(
    bus: &mut Bus,
    this: Addr,
    from: Addr,
    r: Result<Addr, AllocError>,
)
    requires
        call_ensures(Peer::create_handle, (bus, this, from), r),
    ensures
        r is Ok <==> old(bus)@.handles.dom().len() < old(bus).limit()
            && old(bus)@.tx_nodes.dom().len() + 2 <= usize::MAX,
        r matches Ok(h) ==> {
            let (v, w) = (old(bus)@, final(bus)@);
            &&& w.handles[h].users == 0
            &&& leads_to(v, w, h, v.handles[from].node, this)
            &&& w == BusView { handles: w.handles, tx_nodes: w.tx_nodes, ..v }
        },
        r is Err ==> final(bus)@ == old(bus)@,
{
}

/// A handle that is created from another one leads to the same node, and has a
/// single user.
pub proof fn lemma_peer_new_handle(
    bus: &mut Bus,
    this: Addr,
    from: Addr,
    r: Result<Addr, i32>,
)
    requires
        call_ensures(peer_new_handle, (bus, this, from), r),
    ensures
        r is Ok <==> old(bus)@.handles.dom().len() < old(bus).limit()
            && old(bus)@.tx_nodes.dom().len() + 2 <= usize::MAX,
        r matches Ok(h) ==> {
            let (v, w) = (old(bus)@, final(bus)@);
            &&& w.handles[h].users == 1
            &&& leads_to(v, w, h, v.handles[from].node, this)
            &&& w == BusView { handles: w.handles, tx_nodes: w.tx_nodes, ..v }
        },
        r matches Err(e) ==> e == -12 && final(bus)@ == old(bus)@,
{
}

/// A sequence is another one with `a` inserted, and is ordered by keys: none of
/// those in front of `a` has a greater key, and all behind it have.
pub open spec fn inserted(s: Seq<Addr>, t: Seq<Addr>, a: Addr, key: spec_fn(Addr) -> int) -> bool {
    exists|i: int| #[trigger] inserted_at(s, t, a, key, i)
}

/// A sequence is another one with `a` inserted at the given position.
pub open spec fn inserted_at(
    s: Seq<Addr>,
    t: Seq<Addr>,
    a: Addr,
    key: spec_fn(Addr) -> int,
    i: int,
) -> bool {
    &&& 0 <= i <= s.len()
    &&& t.len() == s.len() + 1
    &&& t[i] == a
    &&& forall|k: int| #![trigger t[k]] 0 <= k < i ==> t[k] == s[k] && key(t[k]) <= key(a)
    &&& forall|k: int| #![trigger t[k]]
        i < k < t.len() ==> t[k] == s[k - 1] && key(a) < key(t[k])
}

proof fn lemma_inserted(s: Seq<Addr>, a: Addr, key: spec_fn(Addr) -> int, keys: Seq<int>, i: int)
    requires
        0 <= i <= s.len(),
        keys.len() == s.len(),
        forall|k: int| #![trigger keys[k]] 0 <= k < s.len() ==> keys[k] == key(s[k]),
        forall|k: int| #![trigger keys[k]] 0 <= k < i ==> keys[k] <= key(a),
        forall|k: int| #![trigger keys[k]] i <= k < s.len() ==> key(a) < keys[k],
    ensures
        inserted(s, s.insert(i, a), a, key),
{
    let t = s.insert(i, a);
    assert forall|k: int| #![trigger t[k]] 0 <= k < i implies t[k] == s[k] && key(t[k]) <= key(
        a,
    ) by {
        assert(keys[k] == key(s[k]));
    }
    assert forall|k: int| #![trigger t[k]] i < k < t.len() implies t[k] == s[k - 1] && key(a) < key(
        t[k],
    ) by {
        assert(keys[k - 1] == key(s[k - 1]));
    }
    assert(inserted_at(s, t, a, key, i));
}

/// The release of a node is part of the operation afterwards, if the operator
/// owns the node, and no other operation releases it. Otherwise, nothing
/// happens. Whatever else is part of the operation stays part of it.
pub open spec fn releases_node(v: BusView, w: BusView, o: Addr, n: Addr) -> bool {
    &&& v.nodes[n].owner == v.ops[o].operator && v.nodes[n].op is None ==> {
        &&& w.ops[o].nodes.contains(n)
        &&& w.nodes[n].op == Some(o)
        &&& forall|b: Addr| #[trigger]
            w.ops[o].nodes.contains(b) <==> b == n || v.ops[o].nodes.contains(b)
        &&& inserted(v.ops[o].nodes, w.ops[o].nodes, n, |b: Addr| b as int)
        &&& w.nodes[n] == NodeView { op: Some(o), ..v.nodes[n] }
        &&& w.nodes == v.nodes.insert(n, w.nodes[n])
        &&& w.ops[o] == OpView { nodes: w.ops[o].nodes, ..v.ops[o] }
        &&& w.ops == v.ops.insert(o, w.ops[o])
        &&& w == BusView { nodes: w.nodes, ops: w.ops, ..v }
    }
    &&& !(v.nodes[n].owner == v.ops[o].operator && v.nodes[n].op is None) ==> w == v
}

/// The release of a handle is part of the operation afterwards, if the operator
/// owns the handle, and no other operation releases it. Otherwise, nothing
/// happens. Whatever else is part of the operation stays part of it.
pub open spec fn releases_handle(v: BusView, w: BusView, o: Addr, h: Addr) -> bool {
    &&& v.handles[h].owner == v.ops[o].operator && v.handles[h].op is None ==> {
        &&& w.ops[o].handles.contains(h)
        &&& w.handles[h].op == Some(o)
        &&& forall|b: Addr| #[trigger]
            w.ops[o].handles.contains(b) <==> b == h || v.ops[o].handles.contains(b)
        &&& inserted(
            v.ops[o].handles,
            w.ops[o].handles,
            h,
            |b: Addr| v.nodes[v.handles[b].node].owner as int,
        )
        &&& w.handles[h] == HandleView { op: Some(o), ..v.handles[h] }
        &&& w.handles == v.handles.insert(h, w.handles[h])
        &&& w.ops[o] == OpView { handles: w.ops[o].handles, ..v.ops[o] }
        &&& w.ops == v.ops.insert(o, w.ops[o])
        &&& w == BusView { handles: w.handles, ops: w.ops, ..v }
    }
    &&& !(v.handles[h].owner == v.ops[o].operator && v.handles[h].op is None) ==> w == v
}

proof fn lemma_releases_node(v: BusView, o: Addr, n: Addr)
    requires
        v.intact(),
        v.ops.contains_key(o),
        v.nodes.contains_key(n),
    ensures
        releases_node(v, v.node_released(o, n), o, n),
{
    lemma_ok(v);
    assert(v.op_ok(o));
    let w = v.node_released(o, n);
    let s = v.ops[o].nodes;
    if v.nodes[n].owner == v.ops[o].operator && v.nodes[n].op is None {
        let key = |b: Addr| b as int;
        let keys = v.node_keys(s);
        let i = place(keys, n as int);
        lemma_place_bounds(keys, n as int);
        if s.contains(n) {
            let k = choose|k: int| 0 <= k < s.len() && s[k] == n;
            assert(v.nodes[s[k]].op == Some(o));
        }
        lemma_insert_once(s, i, n);
        lemma_inserted(s, n, key, keys, i);
        assert(w.ops[o].nodes == s.insert(i, n));
        assert(s.insert(i, n).contains(n));
    }
}

proof fn lemma_releases_handle(v: BusView, o: Addr, h: Addr)
    requires
        v.intact(),
        v.ops.contains_key(o),
        v.handles.contains_key(h),
    ensures
        releases_handle(v, v.handle_released(o, h), o, h),
{
    lemma_ok(v);
    assert(v.op_ok(o));
    let w = v.handle_released(o, h);
    let s = v.ops[o].handles;
    if v.handles[h].owner == v.ops[o].operator && v.handles[h].op is None {
        let key = |b: Addr| v.nodes[v.handles[b].node].owner as int;
        let keys = v.handle_keys(s);
        let i = place(keys, key(h));
        lemma_place_bounds(keys, key(h));
        if s.contains(h) {
            let k = choose|k: int| 0 <= k < s.len() && s[k] == h;
            assert(v.handles[s[k]].op == Some(o));
        }
        lemma_insert_once(s, i, h);
        lemma_inserted(s, h, key, keys, i);
        assert(w.ops[o].handles == s.insert(i, h));
        assert(s.insert(i, h).contains(h));
    }
}

/// Releasing a node makes the release part of the operation.
pub proof fn lemma_release_node(bus: &mut Bus, this: Addr, node: Addr, r: ())
    requires
        old(bus).wf(),
        old(bus)@.ops.contains_key(this),
        old(bus)@.nodes.contains_key(node),
        call_ensures(Op::release_node, (bus, this, node), r) || call_ensures(
            op_release_node,
            (bus, this, node),
            r,
        ),
    ensures
        releases_node(old(bus)@, final(bus)@, this, node),
{
    old(bus).lemma_wf();
    lemma_releases_node(old(bus)@, this, node);
}

/// Releasing a handle makes the release part of the operation.
pub proof fn lemma_release_handle(bus: &mut Bus, this: Addr, handle: Addr, r: ())
    requires
        old(bus).wf(),
        old(bus)@.ops.contains_key(this),
        old(bus)@.handles.contains_key(handle),
        call_ensures(Op::release_handle, (bus, this, handle), r) || call_ensures(
            op_release_handle,
            (bus, this, handle),
            r,
        ),
    ensures
        releases_handle(old(bus)@, final(bus)@, this, handle),
{
    old(bus).lemma_wf();
    lemma_releases_handle(old(bus)@, this, handle);
}

/// A handle is linked into its node afterwards, behind all others of the same
/// owner. If it is linked already, nothing happens.
pub open spec fn links(v: BusView, w: BusView, h: Addr) -> bool {
    let n = v.handles[h].node;
    &&& w.handles[h].linked
    &&& v.handles[h].linked ==> w == v
    &&& !v.handles[h].linked ==> {
        &&& w.nodes[n].handles.contains(h)
        &&& forall|b: Addr| #[trigger]
            w.nodes[n].handles.contains(b) <==> b == h || v.nodes[n].handles.contains(b)
        &&& inserted(
            v.nodes[n].handles,
            w.nodes[n].handles,
            h,
            |b: Addr| v.handles[b].owner as int,
        )
        &&& w.handles[h] == HandleView { linked: true, ..v.handles[h] }
        &&& w.handles == v.handles.insert(h, w.handles[h])
        &&& w.nodes[n] == NodeView { handles: w.nodes[n].handles, ..v.nodes[n] }
        &&& w.nodes == v.nodes.insert(n, w.nodes[n])
        &&& w == BusView { handles: w.handles, nodes: w.nodes, ..v }
    }
}

/// Linking a handle makes it known to its node.
pub proof fn lemma_handle_begin(bus: &mut Bus, this: Addr, r: ())
    requires
        old(bus).wf(),
        old(bus)@.handles.contains_key(this),
        call_ensures(Handle::begin, (bus, this), r) || call_ensures(handle_begin, (bus, this), r),
    ensures
        links(old(bus)@, final(bus)@, this),
{
    let v = old(bus)@;
    old(bus).lemma_wf();
    lemma_ok(v);
    assert(v.handle_ok(this));
    let n = v.handles[this].node;
    assert(v.node_ok(n));
    if !v.handles[this].linked {
        let s = v.nodes[n].handles;
        let key = |b: Addr| v.handles[b].owner as int;
        let keys = v.link_keys(s);
        let i = place(keys, key(this));
        lemma_place_bounds(keys, key(this));
        if s.contains(this) {
            let k = choose|k: int| 0 <= k < s.len() && s[k] == this;
            assert(v.handles[s[k]].linked);
        }
        lemma_insert_once(s, i, this);
        lemma_inserted(s, this, key, keys, i);
        assert(s.insert(i, this).contains(this));
    }
}

/// A handle ends if, and only if, it is not linked. In particular, it does not
/// right after it was linked.
pub proof fn lemma_handle_end(
    bus: &mut Bus,
    next: &Bus,
    this: Addr,
    r: (),
    ended: bool,
)
    requires
        old(bus).wf(),
        old(bus)@.handles.contains_key(this),
        call_ensures(Handle::begin, (bus, this), r) || call_ensures(handle_begin, (bus, this), r),
        next@ == final(bus)@,
        call_ensures(Handle::end, (next, this), ended) || call_ensures(
            handle_end,
            (next, this),
            ended,
        ),
    ensures
        !ended,
{
    lemma_handle_begin(bus, this, r);
}

/// A handle that is not linked has ended.
pub proof fn lemma_handle_ended(bus: &Bus, this: Addr, r: bool)
    requires
        call_ensures(Handle::end, (bus, this), r) || call_ensures(handle_end, (bus, this), r),
    ensures
        r <==> !bus@.handles[this].linked,
{
}

/// What a user attaches to a node is what it gets back, and nothing else
/// changes.
pub proof fn lemma_node_userdata(
    bus: &mut Bus,
    next: &Bus,
    this: Addr,
    userdata: usize,
    r: (),
    data: usize,
)
    requires
        call_ensures(Node::set_userdata, (bus, this, userdata), r) || call_ensures(
            node_set_userdata,
            (bus, this, userdata),
            r,
        ),
        next@ == final(bus)@,
        call_ensures(Node::userdata, (next, this), data) || call_ensures(
            node_get_userdata,
            (next, this),
            data,
        ),
    ensures
        data == userdata,
        final(bus)@.nodes == old(bus)@.nodes.insert(
            this,
            NodeView { userdata, ..old(bus)@.nodes[this] },
        ),
        final(bus)@ == (BusView { nodes: final(bus)@.nodes, ..old(bus)@ }),
{
}

/// What a user attaches to a handle is what it gets back, and nothing else
/// changes.
pub proof fn lemma_handle_userdata(
    bus: &mut Bus,
    next: &Bus,
    this: Addr,
    userdata: usize,
    r: (),
    data: usize,
)
    requires
        call_ensures(Handle::set_userdata, (bus, this, userdata), r) || call_ensures(
            handle_set_userdata,
            (bus, this, userdata),
            r,
        ),
        next@ == final(bus)@,
        call_ensures(Handle::userdata, (next, this), data) || call_ensures(
            handle_get_userdata,
            (next, this),
            data,
        ),
    ensures
        data == userdata,
        final(bus)@.handles == old(bus)@.handles.insert(
            this,
            HandleView { userdata, ..old(bus)@.handles[this] },
        ),
        final(bus)@ == (BusView { handles: final(bus)@.handles, ..old(bus)@ }),
{
}

/// Another user of a peer is counted.
pub proof fn lemma_peer_ref(bus: &mut Bus, this: Addr, r: Option<Addr>)
    requires
        old(bus)@.peers[this].users + 1 < usize::MAX,
        call_ensures(peer_ref, (bus, Some(this)), r),
    ensures
        r == Some(this),
        final(bus)@.peers[this].users == old(bus)@.peers[this].users + 1,
        final(bus)@.peers == old(bus)@.peers.insert(
            this,
            PeerView { users: final(bus)@.peers[this].users, ..old(bus)@.peers[this] },
        ),
        final(bus)@ == (BusView { peers: final(bus)@.peers, ..old(bus)@ }),
{
}

/// Another user of a node is counted.
pub proof fn lemma_node_ref(bus: &mut Bus, this: Addr, r: Option<Addr>)
    requires
        old(bus)@.nodes[this].users + 1 < usize::MAX,
        call_ensures(node_ref, (bus, Some(this)), r),
    ensures
        r == Some(this),
        final(bus)@.nodes[this].users == old(bus)@.nodes[this].users + 1,
        final(bus)@.nodes == old(bus)@.nodes.insert(
            this,
            NodeView { users: final(bus)@.nodes[this].users, ..old(bus)@.nodes[this] },
        ),
        final(bus)@ == (BusView { nodes: final(bus)@.nodes, ..old(bus)@ }),
{
}

/// Another user of a handle is counted.
pub proof fn lemma_handle_ref(bus: &mut Bus, this: Addr, r: Option<Addr>)
    requires
        old(bus)@.handles[this].users + 1 < usize::MAX,
        call_ensures(handle_ref, (bus, Some(this)), r),
    ensures
        r == Some(this),
        final(bus)@.handles[this].users == old(bus)@.handles[this].users + 1,
        final(bus)@.handles == old(bus)@.handles.insert(
            this,
            HandleView { users: final(bus)@.handles[this].users, ..old(bus)@.handles[this] },
        ),
        final(bus)@ == (BusView { handles: final(bus)@.handles, ..old(bus)@ }),
{
}

/// Another user of shared data is counted.
pub proof fn lemma_message_shared_ref(bus: &mut Bus, this: Addr, r: Option<Addr>)
    requires
        old(bus)@.shareds[this].users + 1 < usize::MAX,
        call_ensures(message_shared_ref, (bus, Some(this)), r),
    ensures
        r == Some(this),
        final(bus)@.shareds[this].users == old(bus)@.shareds[this].users + 1,
        final(bus)@.shareds == old(bus)@.shareds.insert(
            this,
            SharedView { users: final(bus)@.shareds[this].users, ..old(bus)@.shareds[this] },
        ),
        final(bus)@ == (BusView { shareds: final(bus)@.shareds, ..old(bus)@ }),
{
}

/// Without an object, there is nothing to be counted.
pub proof fn lemma_no_ref(bus: &mut Bus, r: Option<Addr>)
    requires
        call_ensures(peer_ref, (bus, None), r) || call_ensures(node_ref, (bus, None), r)
            || call_ensures(handle_ref, (bus, None), r) || call_ensures(
            message_shared_ref,
            (bus, None),
            r,
        ),
    ensures
        r is None,
        final(bus)@ == old(bus)@,
{
}

/// A message is the only new message, and is part of the operation, behind all
/// others to the same peer. It is not queued.
pub open spec fn sends(
    v: BusView,
    w: BusView,
    o: Addr,
    to: Addr,
    transfers: Seq<Addr>,
    shared: Addr,
    m: Addr,
) -> bool {
    let e = w.messages[m].tx_node;
    &&& one_more(v.messages, w.messages, m)
    &&& w.messages[m].via == to
    &&& w.messages[m].transfers == transfers
    &&& w.messages[m].shared == shared
    &&& w.messages[m].op == Some(o)
    &&& one_more(v.tx_nodes, w.tx_nodes, e)
    &&& w.tx_nodes[e].kind == TxNodeKind::User
    &&& w.tx_nodes[e].base == m
    &&& !w.tx_nodes[e].queued
    &&& w.tx_nodes[e].tx is None
    &&& w.ops[o].messages.contains(m)
    &&& forall|b: Addr| #[trigger]
        w.ops[o].messages.contains(b) <==> b == m || v.ops[o].messages.contains(b)
    &&& inserted(
        v.ops[o].messages,
        w.ops[o].messages,
        m,
        |b: Addr| v.nodes[v.handles[w.messages[b].via].node].owner as int,
    )
    &&& w.ops[o] == OpView { messages: w.ops[o].messages, ..v.ops[o] }
    &&& w.ops == v.ops.insert(o, w.ops[o])
    &&& w == BusView { messages: w.messages, tx_nodes: w.tx_nodes, ops: w.ops, ..v }
}

proof fn lemma_sends(
    v: BusView,
    w: BusView,
    o: Addr,
    to: Addr,
    transfers: Seq<Addr>,
    shared: Addr,
)
    requires
        v.intact(),
        v.ops.contains_key(o),
        message_sent(v, w, o, to, transfers, shared),
    ensures
        exists|m: Addr| #[trigger] sends(v, w, o, to, transfers, shared, m),
{
    let (m, e) = choose|m: Addr, e: Addr| #[trigger] sent_as(v, w, o, to, transfers, shared, m, e);
    lemma_ok(v);
    assert(v.op_ok(o));
    let x = v.message_added(m, e, to, transfers, shared);
    let s = v.ops[o].messages;
    let key = |b: Addr| v.nodes[v.handles[w.messages[b].via].node].owner as int;
    let keys = x.message_keys(s);
    assert forall|k: int| #![trigger s[k]] 0 <= k < s.len() implies s[k] != m && x.message_dest(
        s[k],
    ) == v.message_dest(s[k]) by {
        assert(v.messages.contains_key(s[k]));
    }
    assert(keys =~= v.message_keys(s));
    let i = place(keys, key(m));
    lemma_place_bounds(keys, key(m));
    assert(!s.contains(m));
    lemma_insert_once(s, i, m);
    assert forall|k: int| #![trigger keys[k]] 0 <= k < s.len() implies keys[k] == key(s[k]) by {
        assert(s[k] != m);
    }
    lemma_inserted(s, m, key, keys, i);
    assert(s.insert(i, m).contains(m));
    assert(sends(v, w, o, to, transfers, shared, m));
}

/// A message can be sent via a handle by the owner of the handle only. It
/// becomes part of the operation with exactly the data, and the handles, it was
/// sent with.
pub proof fn lemma_send_message(
    bus: &mut Bus,
    this: Addr,
    to: Addr,
    transfers: Vec<Addr>,
    shared: Addr,
    r: Result<(), MessageError>,
)
    requires
        old(bus).wf(),
        old(bus)@.ops.contains_key(this),
        call_ensures(Op::send_message, (bus, this, to, transfers, shared), r),
    ensures
        r == Err::<(), MessageError>(MessageError::HandleForeign) <==> old(bus)@.handles[to].owner
            != old(bus)@.ops[this].operator,
        r is Ok <==> {
            &&& old(bus)@.handles[to].owner == old(bus)@.ops[this].operator
            &&& old(bus)@.messages.dom().len() < old(bus).limit()
            &&& old(bus)@.tx_nodes.dom().len() + 1 <= usize::MAX
        },
        r is Ok ==> exists|m: Addr| #[trigger]
            sends(old(bus)@, final(bus)@, this, to, transfers@, shared, m),
        r is Err ==> final(bus)@ == old(bus)@,
{
    old(bus).lemma_wf();
    if r is Ok {
        lemma_sends(old(bus)@, final(bus)@, this, to, transfers@, shared);
    }
}

/// Handles to the same nodes as other handles are the only new handles. They
/// belong to the given owner, and are not linked.
pub open spec fn duplicates(
    v: BusView,
    w: BusView,
    s: Seq<Addr>,
    owner: Addr,
    hs: Seq<Addr>,
) -> bool {
    &&& hs.len() == s.len()
    &&& hs.no_duplicates()
    &&& forall|h: Addr| #[trigger]
        w.handles.contains_key(h) <==> hs.contains(h) || v.handles.contains_key(h)
    &&& forall|h: Addr| #[trigger] v.handles.contains_key(h) ==> w.handles[h] == v.handles[h]
    &&& forall|i: int| #![trigger hs[i]]
        0 <= i < hs.len() ==> {
            &&& !v.handles.contains_key(hs[i])
            &&& w.handles[hs[i]].node == v.handles[s[i]].node
            &&& w.handles[hs[i]].owner == owner
            &&& w.handles[hs[i]].users == 0
            &&& w.handles[hs[i]].userdata == 0
            &&& w.handles[hs[i]].op is None
            &&& !w.handles[hs[i]].linked
        }
    &&& forall|e: Addr| #[trigger]
        v.tx_nodes.contains_key(e) ==> w.tx_nodes.contains_key(e) && w.tx_nodes[e] == v.tx_nodes[e]
    &&& forall|e: Addr| #[trigger]
        w.tx_nodes.contains_key(e) && !v.tx_nodes.contains_key(e) ==> !w.tx_nodes[e].queued
            && w.tx_nodes[e].tx is None
    &&& w == BusView { handles: w.handles, tx_nodes: w.tx_nodes, ..v }
}

proof fn lemma_duplicates(v: BusView, w: BusView, s: Seq<Addr>, owner: Addr, hs: Seq<Addr>)
    requires
        handles_created(v, w, s, owner, hs),
    ensures
        duplicates(v, w, s, owner, hs),
    decreases s.len(),
{
    if s.len() > 0 {
        let x = choose|x: BusView|
            handles_created(v, x, s.drop_last(), owner, hs.drop_last())
                && #[trigger] handle_created(x, w, hs.last(), v.handles[s.last()].node, owner);
        let (t, gs) = (s.drop_last(), hs.drop_last());
        lemma_duplicates(v, x, t, owner, gs);
        let h = hs.last();
        assert forall|b: Addr| #[trigger] hs.contains(b) <==> gs.contains(b) || b == h by {
            if hs.contains(b) {
                let i = choose|i: int| 0 <= i < hs.len() && hs[i] == b;
                if i < gs.len() {
                    assert(gs[i] == b);
                }
            }
            if gs.contains(b) {
                let i = choose|i: int| 0 <= i < gs.len() && gs[i] == b;
                assert(hs[i] == b);
            }
            assert(hs[hs.len() - 1] == h);
        }
        assert forall|i: int| #![trigger hs[i]] 0 <= i < hs.len() implies {
            &&& !v.handles.contains_key(hs[i])
            &&& w.handles[hs[i]].node == v.handles[s[i]].node
            &&& w.handles[hs[i]].owner == owner
            &&& w.handles[hs[i]].users == 0
            &&& w.handles[hs[i]].userdata == 0
            &&& w.handles[hs[i]].op is None
            &&& !w.handles[hs[i]].linked
        } by {
            if i < gs.len() {
                assert(gs[i] == hs[i] && t[i] == s[i]);
                assert(gs.contains(hs[i]));
                assert(x.handles.contains_key(hs[i]));
            }
        }
        assert forall|i: int, j: int| 0 <= i < hs.len() && 0 <= j < hs.len() && i != j implies hs[i]
            != hs[j] by {
            if i < gs.len() {
                assert(gs[i] == hs[i]);
                assert(gs.contains(hs[i]));
            }
            if j < gs.len() {
                assert(gs[j] == hs[j]);
                assert(gs.contains(hs[j]));
            }
        }
    }
}

proof fn lemma_created_intact(v: BusView, w: BusView, s: Seq<Addr>, owner: Addr, hs: Seq<Addr>)
    requires
        v.intact(),
        v.peers.contains_key(owner),
        all_in(s, v.handles.dom()),
        handles_created(v, w, s, owner, hs),
    ensures
        w.intact(),
    decreases s.len(),
{
    if s.len() > 0 {
        let x = choose|x: BusView|
            handles_created(v, x, s.drop_last(), owner, hs.drop_last())
                && #[trigger] handle_created(x, w, hs.last(), v.handles[s.last()].node, owner);
        let t = s.drop_last();
        assert forall|i: int| #![trigger t[i]] 0 <= i < t.len() implies v.handles.contains_key(
            t[i],
        ) by {
            assert(s[i] == t[i]);
        }
        assert(s[s.len() - 1] == s.last());
        lemma_created_intact(v, x, t, owner, hs.drop_last());
        lemma_duplicates(v, x, t, owner, hs.drop_last());
        lemma_ok(v);
        assert(v.handle_ok(s.last()));
        let h = hs.last();
        let (e, f) = (w.handles[h].release_node, w.handles[h].release_handle);
        lemma_handle_added(x, h, e, f, v.handles[s.last()].node, owner);
    }
}

/// A message is sent with new handles in place of those to be transferred. The
/// receiver owns the new handles.
pub open spec fn posts(
    v: BusView,
    w: BusView,
    o: Addr,
    to: Addr,
    transfers: Seq<Addr>,
    shared: Addr,
) -> bool {
    exists|x: BusView, m: Addr, hs: Seq<Addr>|
        #[trigger] duplicates(v, x, transfers, v.nodes[v.handles[to].node].owner, hs)
            && #[trigger] sends(x, w, o, to, hs, shared, m)
}

/// A message is posted with new handles in place of those to be transferred: the
/// receiver owns them, and they lead to the same nodes.
pub proof fn lemma_op_send_message(
    bus: &mut Bus,
    this: Addr,
    to: Addr,
    transfers: &Vec<Addr>,
    shared: Addr,
    r: i32,
)
    requires
        old(bus).wf(),
        old(bus)@.ops.contains_key(this),
        old(bus)@.handles.contains_key(to),
        forall|i: int| #![trigger transfers@[i]]
            0 <= i < transfers@.len() ==> old(bus)@.handles.contains_key(transfers@[i]),
        call_ensures(op_send_message, (bus, this, to, transfers, shared), r),
    ensures
        r != 0 ==> final(bus)@ == old(bus)@,
        r == 0 ==> posts(old(bus)@, final(bus)@, this, to, transfers@, shared),
{
    let v = old(bus)@;
    old(bus).lemma_wf();
    lemma_ok(v);
    assert(v.handle_ok(to));
    assert(v.node_ok(v.handles[to].node));
    assert(all_in(transfers@, v.handles.dom()));
    if r == 0 {
        let (x, hs) = choose|x: BusView, hs: Seq<Addr>| #[trigger]
            handles_created(v, x, transfers@, v.handle_dest(to), hs) && message_sent(
                x,
                final(bus)@,
                this,
                to,
                hs,
                shared,
            );
        lemma_duplicates(v, x, transfers@, v.handle_dest(to), hs);
        lemma_created_intact(v, x, transfers@, v.handle_dest(to), hs);
        lemma_sends(x, final(bus)@, this, to, hs, shared);
        let m = choose|m: Addr| #[trigger] sends(x, final(bus)@, this, to, hs, shared, m);
        assert(duplicates(v, x, transfers@, v.nodes[v.handles[to].node].owner, hs) && sends(
            x,
            final(bus)@,
            this,
            to,
            hs,
            shared,
            m,
        ));
    }
}

/// There is room for the handles, and the message, that a message with `n`
/// transfers needs.
pub open spec fn has_room(v: BusView, n: nat, limit: usize) -> bool {
    &&& n == 0 || v.handles.dom().len() + n <= limit
    &&& v.messages.dom().len() < limit
    &&& v.tx_nodes.dom().len() + 2 * n + 1 <= usize::MAX
}

proof fn lemma_errno(v: BusView, o: Addr, s: Seq<Addr>, limit: usize)
    ensures
        ({
            let r = transfers_errno(v, o, s, limit);
            let owned = forall|i: int| #![trigger s[i]]
                0 <= i < s.len() ==> v.handles[s[i]].owner == v.ops[o].operator;
            let room = s.len() == 0 || v.handles.dom().len() + s.len() <= limit
                && v.tx_nodes.dom().len() + 2 * s.len() <= usize::MAX;
            &&& r == 0 <==> owned && room
            &&& owned && !room ==> r == -12
            &&& !owned && room ==> r == -131
            &&& r == 0 || r == -12 || r == -131
        }),
    decreases s.len(),
{
    if s.len() > 0 {
        let t = s.drop_last();
        lemma_errno(v, o, t, limit);
        assert(s[s.len() - 1] == s.last());
        assert forall|i: int| #![trigger t[i]] 0 <= i < t.len() implies t[i] == s[i] by {}
        if forall|i: int| #![trigger t[i]]
            0 <= i < t.len() ==> v.handles[t[i]].owner == v.ops[o].operator {
            assert forall|i: int| #![trigger s[i]]
                0 <= i < s.len() - 1 implies v.handles[s[i]].owner == v.ops[o].operator by {
                assert(t[i] == s[i]);
            }
        } else {
            let i = choose|i: int| #![trigger t[i]]
                0 <= i < t.len() && v.handles[t[i]].owner != v.ops[o].operator;
            assert(s[i] == t[i]);
        }
    }
}

/// A message is posted if, and only if, the operator owns all handles that are
/// involved, and there is room for it. Each of these has an error of its own.
pub proof fn lemma_send_errno(
    bus: &mut Bus,
    this: Addr,
    to: Addr,
    transfers: &Vec<Addr>,
    shared: Addr,
    r: i32,
)
    requires
        call_ensures(op_send_message, (bus, this, to, transfers, shared), r),
    ensures
        ({
            let v = old(bus)@;
            let operator = v.ops[this].operator;
            let owned = v.handles[to].owner == operator && forall|i: int| #![trigger transfers@[i]]
                0 <= i < transfers@.len() ==> v.handles[transfers@[i]].owner == operator;
            let room = has_room(v, transfers@.len(), old(bus).limit());
            &&& r == 0 <==> owned && room
            &&& owned && !room ==> r == -12
            &&& !owned && room ==> r == -131
            &&& r == 0 || r == -12 || r == -131
        }),
{
    lemma_errno(old(bus)@, this, transfers@, old(bus).limit());
}

/// With several problems at once, the first handle with a problem decides on the
/// error.
pub proof fn lemma_first_errno(
    bus: &mut Bus,
    this: Addr,
    to: Addr,
    transfers: &Vec<Addr>,
    shared: Addr,
    r: i32,
    k: int,
)
    requires
        call_ensures(op_send_message, (bus, this, to, transfers, shared), r),
        0 <= k < transfers@.len(),
        forall|i: int| #![trigger transfers@[i]]
            0 <= i < k ==> old(bus)@.handles[transfers@[i]].owner == old(bus)@.ops[this].operator,
        old(bus)@.handles.dom().len() + k <= old(bus).limit(),
        old(bus)@.tx_nodes.dom().len() + 2 * k <= usize::MAX,
    ensures
        old(bus)@.handles[transfers@[k]].owner != old(bus)@.ops[this].operator ==> r == -131,
        old(bus)@.handles[transfers@[k]].owner == old(bus)@.ops[this].operator && (old(
            bus,
        )@.handles.dom().len() + k + 1 > old(bus).limit() || old(bus)@.tx_nodes.dom().len() + 2 * k
            + 2 > usize::MAX) ==> r == -12,
{
    let v = old(bus)@;
    let limit = old(bus).limit();
    let s = transfers@.take(k + 1);
    assert(s.drop_last() =~= transfers@.take(k));
    assert(s.last() == transfers@[k]);
    let t = transfers@.take(k);
    assert forall|i: int| #![trigger t[i]] 0 <= i < t.len() implies v.handles[t[i]].owner
        == v.ops[this].operator by {
        assert(t[i] == transfers@[i]);
    }
    lemma_errno(v, this, t, limit);
    if transfers_errno(v, this, s, limit) != 0 {
        lemma_transfers_errno(v, this, transfers@, limit, k + 1);
    }
}

/// Dropping an operation drops everything that was part of it, and changes
/// nothing else.
pub open spec fn drops(v: BusView, w: BusView, o: Addr) -> bool {
    &&& forall|b: Addr| #[trigger] w.ops.contains_key(b) <==> b != o && v.ops.contains_key(b)
    &&& forall|b: Addr| #[trigger] w.ops.contains_key(b) ==> w.ops[b] == v.ops[b]
    &&& forall|m: Addr| #[trigger] w.messages.contains_key(m) <==> v.messages.contains_key(m)
    &&& forall|m: Addr| #[trigger]
        v.messages.contains_key(m) ==> w.messages[m] == if v.messages[m].op == Some(o) {
            MessageView { op: None, ..v.messages[m] }
        } else {
            v.messages[m]
        }
    &&& forall|n: Addr| #[trigger] w.nodes.contains_key(n) <==> v.nodes.contains_key(n)
    &&& forall|n: Addr| #[trigger]
        v.nodes.contains_key(n) ==> w.nodes[n] == if v.nodes[n].op == Some(o) {
            NodeView { op: None, ..v.nodes[n] }
        } else {
            v.nodes[n]
        }
    &&& forall|h: Addr| #[trigger] w.handles.contains_key(h) <==> v.handles.contains_key(h)
    &&& forall|h: Addr| #[trigger]
        v.handles.contains_key(h) ==> w.handles[h] == if v.handles[h].op == Some(o) {
            HandleView { op: None, ..v.handles[h] }
        } else {
            v.handles[h]
        }
    &&& w == BusView {
        messages: w.messages,
        nodes: w.nodes,
        handles: w.handles,
        ops: w.ops,
        ..v
    }
}

pub(super) proof fn lemma_drops(v: BusView, o: Addr)
    requires
        v.intact(),
        v.ops.contains_key(o),
    ensures
        drops(v, v.op_freed(o), o),
{
    let w = v.op_freed(o);
    lemma_ok(v);
    assert(v.op_ok(o));
    assert forall|m: Addr| #[trigger] v.messages.contains_key(m) implies (v.messages[m].op == Some(
        o,
    ) <==> v.ops[o].messages.contains(m)) by {
        assert(v.message_ok(m));
    }
    assert forall|n: Addr| #[trigger] v.nodes.contains_key(n) implies (v.nodes[n].op == Some(o)
        <==> v.ops[o].nodes.contains(n)) by {
        assert(v.node_ok(n));
    }
    assert forall|h: Addr| #[trigger] v.handles.contains_key(h) implies (v.handles[h].op == Some(o)
        <==> v.ops[o].handles.contains(h)) by {
        assert(v.handle_ok(h));
    }
}

/// An operation that is dropped without a commit has no effect.
pub proof fn lemma_op_dropped(bus: &mut Bus, this: Addr, r: ())
    requires
        old(bus).wf(),
        old(bus)@.ops.contains_key(this),
        call_ensures(Op::free, (bus, this), r),
    ensures
        drops(old(bus)@, final(bus)@, this),
{
    old(bus).lemma_wf();
    lemma_drops(old(bus)@, this);
}

/// The counter of a peer is a machine integer, and wraps around.
pub open spec fn is_notified(v: BusView, p: Addr) -> bool {
    v.peers[p].committed as int % (usize::MAX + 1) != 0
}

/// A peer is readable if it was notified.
pub proof fn lemma_readable(bus: &Bus, this: Addr, r: bool)
    requires
        call_ensures(Peer::readable, (bus, this), r) || call_ensures(
            peer_readable,
            (bus, this),
            r,
        ),
    ensures
        r <==> is_notified(bus@, this),
        bus@.peers[this].committed == 0 ==> !r,
        0 < bus@.peers[this].committed <= usize::MAX ==> r,
{
    reveal(wrapped);
    let c = bus@.peers[this].committed as int;
    lemma_fundamental_div_mod(c, usize::MAX + 1);
    if c <= usize::MAX {
        lemma_small_mod(c as nat, (usize::MAX + 1) as nat);
    }
}

/// What a peer gets to see is the entry that was queued first. It is committed,
/// it was sent to this very peer, and it is presented as it was sent.
pub open spec fn presents(w: BusView, p: Addr, peek: Peek, e: Addr) -> bool {
    let entry = w.tx_nodes[e];
    &&& w.tx_nodes.contains_key(e)
    &&& entry.queued
    &&& entry.tx matches Some(t) && w.txs[t]
    &&& entry.kind == TxNodeKind::User ==> {
        let message = w.messages[entry.base];
        &&& w.messages.contains_key(entry.base)
        &&& message.tx_node == e
        &&& peek matches Peek::User { node, transfers, data } && {
            &&& node == w.handles[message.via].node
            &&& w.nodes[node].owner == p
            &&& transfers@ == message.transfers
            &&& data@ == w.shareds[message.shared].data
        }
    }
    &&& entry.kind == TxNodeKind::ReleaseNode ==> {
        &&& peek matches Peek::NodeRelease { handle } && {
            &&& handle == entry.base
            &&& w.handles[handle].owner == p
            &&& w.handles[handle].release_node == e
        }
    }
    &&& entry.kind == TxNodeKind::ReleaseHandle ==> {
        &&& w.handles[entry.base].release_handle == e
        &&& peek matches Peek::HandleRelease { node } && {
            &&& node == w.handles[entry.base].node
            &&& w.nodes[node].owner == p
        }
    }
}

proof fn lemma_presents(w: BusView, p: Addr, peek: Peek)
    requires
        w.wf(),
        w.peers.contains_key(p),
        w.peers[p].ready.len() > 0,
        peek.shows(w, w.peers[p].ready[0]),
    ensures
        presents(w, p, peek, w.peers[p].ready[0]),
{
    let e = w.peers[p].ready[0];
    let k = w.peers[p].queue.len() as int;
    reveal(BusView::settled);
    lemma_ok(w);
    assert(w.peer_ok(p));
    assert(w.lists(p)[k] == e);
    assert(w.tx_nodes.contains_key(w.lists(p)[k]));
    assert(w.tx_node_ok(e));
}

proof fn lemma_sorted_out(v: BusView, p: Addr)
    requires
        v.wf(),
        v.peers.contains_key(p),
        v.peers[p].ready.len() == 0,
    ensures
        ({
            let (a, b) = (v.peers[p], v.prefetched(p).peers[p]);
            &&& b.ready == (a.queue + a.busy).reverse()
            &&& b.queue == Seq::<Addr>::empty()
            &&& b.busy == Seq::<Addr>::empty()
        }),
{
    let a = v.peers[p];
    let todo = a.queue + a.busy;
    reveal(BusView::settled);
    lemma_ok(v);
    assert(v.peer_ok(p));
    assert(v.lists(p) =~= todo);
    assert forall|i: int| #![trigger todo[i]] 0 <= i < todo.len() implies v.is_committed(
        todo[i],
    ) by {
        assert(v.tx_nodes.contains_key(v.lists(p)[i]));
    }
    lemma_filter_all(todo, v.committed_fn());
    lemma_filter_none(todo, v.pending_fn());
}

/// A peer first receives what it got ready before, and then everything else, in
/// the order in which it was queued. New entries are queued at the front.
pub proof fn lemma_peek<'a>(bus: &'a mut Bus, this: Addr, r: Option<Peek<'a>>)
    requires
        old(bus).wf(),
        old(bus)@.peers.contains_key(this),
        call_ensures(Peer::peek, (bus, this), r) || call_ensures(peer_peek, (bus, this), r),
    ensures
        ({
            let (v, w) = (old(bus)@, final(bus)@);
            let (a, b) = (v.peers[this], w.peers[this]);
            &&& !is_notified(v, this) ==> r is None && w == v
            &&& is_notified(v, this) && a.ready.len() > 0 ==> w == v
            &&& is_notified(v, this) && a.ready.len() == 0 ==> {
                &&& b.ready == (a.queue + a.busy).reverse()
                &&& b == PeerView {
                    ready: b.ready,
                    queue: Seq::empty(),
                    busy: Seq::empty(),
                    ..a
                }
                &&& w == BusView { peers: v.peers.insert(this, b), ..v }
            }
            &&& r is Some <==> is_notified(v, this) && a.queue.len() + a.ready.len() + a.busy.len()
                > 0
            &&& r matches Some(peek) ==> b.ready.len() > 0 && presents(w, this, peek, b.ready[0])
        }),
{
    let v = old(bus)@;
    let a = v.peers[this];
    old(bus).lemma_wf();
    reveal(wrapped);
    assert(v.readable(this) <==> is_notified(v, this)) by {
        lemma_fundamental_div_mod(a.committed as int, usize::MAX + 1);
    }
    if a.ready.len() == 0 {
        lemma_sorted_out(v, this);
    }
    if r is Some {
        final(bus).lemma_wf();
        lemma_presents(final(bus)@, this, r->0);
    }
}

/// The entry that was received is removed, and others move up.
pub proof fn lemma_pop(bus: &mut Bus, this: Addr, r: ())
    requires
        call_ensures(Peer::pop, (bus, this), r),
    ensures
        pops(old(bus)@, final(bus)@, this),
{
}

/// The first entry that is ready is no longer queued, and others move up.
pub open spec fn pops(v: BusView, w: BusView, p: Addr) -> bool {
    let (a, b) = (v.peers[p], w.peers[p]);
    &&& a.ready.len() == 0 ==> w == v
    &&& a.ready.len() > 0 ==> {
        let e = a.ready[0];
        &&& b.ready == a.ready.subrange(1, a.ready.len() as int)
        &&& b == PeerView { ready: b.ready, ..a }
        &&& !w.tx_nodes[e].queued
        &&& w.tx_nodes[e] == TxNodeView { queued: false, ..v.tx_nodes[e] }
        &&& w == BusView {
            peers: v.peers.insert(p, b),
            tx_nodes: v.tx_nodes.insert(e, w.tx_nodes[e]),
            ..v
        }
    }
}

/// A peer owns the nodes, and the handles, that were created for it.
pub proof fn lemma_owns(bus: &Bus, this: Addr, a: Addr, node: bool, handle: bool)
    requires
        call_ensures(Peer::owns_node, (bus, this, a), node),
        call_ensures(Peer::owns_handle, (bus, this, a), handle),
    ensures
        node <==> bus@.nodes[a].owner == this,
        handle <==> bus@.handles[a].owner == this,
{
}

/// An entry is turned into a reference to its base, and back.
pub proof fn lemma_entry_reference(bus: &Bus, e: Addr, r: TxNodeRef, f: Addr)
    requires
        bus.wf(),
        bus@.tx_nodes.contains_key(e),
        call_ensures(TxNodeRef::release, (bus, e), r),
        call_ensures(TxNodeRef::acquire, (&r, bus), f),
    ensures
        f == e,
        r is User <==> bus@.tx_nodes[e].kind == TxNodeKind::User,
        r is ReleaseNode <==> bus@.tx_nodes[e].kind == TxNodeKind::ReleaseNode,
        r is ReleaseHandle <==> bus@.tx_nodes[e].kind == TxNodeKind::ReleaseHandle,
        r matches TxNodeRef::User(m) ==> m == bus@.tx_nodes[e].base,
        r matches TxNodeRef::ReleaseNode(h) ==> h == bus@.tx_nodes[e].base,
        r matches TxNodeRef::ReleaseHandle(h) ==> h == bus@.tx_nodes[e].base,
{
    bus.lemma_wf();
    lemma_ok(bus@);
    assert(bus@.tx_node_ok(e));
}

} // verus!
