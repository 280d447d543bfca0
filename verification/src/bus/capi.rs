//! Bus interface for callers that deal in error codes and in references that are
//! possibly null.
//!
//! Objects are used by whoever created them, until they are released again. An
//! object without users is deallocated as soon as no other object refers to it.

use crate::acct::Actor;
use crate::bus::model::{
    handle_created, handles_created, lemma_ok, message_sent, op_committed, peer_ended, BusView,
};
use crate::bus::reclaim::actors_released;
use crate::bus::{Bus, Handle, MessageError, MessageShared, Node, Op, Peek, Peer};
use crate::util::arena::Addr;
use vstd::prelude::*;

verus! {

/// Memory could not be provided (`ENOMEM`).
pub const ENOMEM: i32 = -12;

/// An object is owned by someone else (`ENOTRECOVERABLE`).
pub const ENOTRECOVERABLE: i32 = -131;

/// What is left to be done by the caller after a commit or a shutdown.
pub struct Outcome {
    /// The peers to be woken up.
    pub wakes: Vec<Addr>,
    /// The actors to be released.
    pub actors: Vec<Actor>,
}

/// Addresses of actors.
pub open spec fn actor_addrs(s: Seq<Actor>) -> Seq<Addr> {
    s.map_values(|a: Actor| a.addr())
}

/// Objects that nothing refers to were deallocated, which leaves the given
/// actors.
pub open spec fn cleaned(v: BusView, w: BusView, actors: Seq<Actor>) -> bool {
    &&& w == v.reclaimed()
    &&& actors_released(v, w, actor_addrs(actors))
}

/// Create a new peer on behalf of an actor.
///
/// This can return `ENOMEM` on failure, in which case the actor is handed back.
pub fn peer_new(bus: &mut Bus, actor: Actor) -> (r: Result<Addr, (i32, Actor)>)
    requires
        old(bus).wf(),
    ensures
        final(bus).wf(),
        final(bus).limit() == old(bus).limit(),
        match r {
            Ok(p) => {
                let t = final(bus)@.peers[p].shutdown;
                &&& old(bus)@.txs.dom().len() < old(bus).limit()
                &&& old(bus)@.peers.dom().len() < old(bus).limit()
                &&& !old(bus)@.peers.contains_key(p)
                &&& !old(bus)@.txs.contains_key(t)
                &&& final(bus)@ == old(bus)@.tx_added(t).peer_added(
                    p,
                    actor.addr(),
                    t,
                ).peer_used(p, 1)
            },
            Err((e, a)) => {
                &&& old(bus)@.txs.dom().len() >= old(bus).limit() || old(bus)@.peers.dom().len()
                    >= old(bus).limit()
                &&& e == ENOMEM
                &&& a == actor
                &&& final(bus)@ == old(bus)@
            },
        },
{
    match Peer::new(bus, actor) {
        Ok(p) => {
            Peer::acquire(bus, p);
            Ok(p)
        },
        Err((_, a)) => Err((ENOMEM, a)),
    }
}

/// Create a new reference to a peer.
///
/// If `None` is passed, this is a no-op.
///
/// This always returns the reference that was passed.
pub fn peer_ref(bus: &mut Bus, this: Option<Addr>) -> (r: Option<Addr>)
    requires
        old(bus).wf(),
        this matches Some(a) ==> {
            &&& old(bus)@.peers.contains_key(a)
            &&& old(bus)@.peers[a].users + 1 < usize::MAX
        },
    ensures
        final(bus).wf(),
        final(bus).limit() == old(bus).limit(),
        r == this,
        final(bus)@ == match this {
            Some(a) => old(bus)@.peer_used(a, old(bus)@.peers[a].users + 1),
            None => old(bus)@,
        },
{
    match this {
        Some(a) => Peer::acquire(bus, a),
        None => (),
    }
    this
}

/// Drop a reference to a peer.
///
/// If `None` is passed, this is a no-op. If this drops the last reference, and
/// no other object refers to it, the object is deallocated. Anything that was
/// only referred to by this object is deallocated as well.
///
/// Returns the actors to be released.
pub fn peer_unref(bus: &mut Bus, this: Option<Addr>) -> (r: Vec<Actor>)
    requires
        old(bus).wf(),
        this matches Some(a) ==> {
            &&& old(bus)@.peers.contains_key(a)
            &&& old(bus)@.peers[a].users > 0
        },
    ensures
        final(bus).wf(),
        final(bus).limit() == old(bus).limit(),
        match this {
            Some(a) => cleaned(
                old(bus)@.peer_used(a, old(bus)@.peers[a].users - 1),
                final(bus)@,
                r@,
            ),
            None => final(bus)@ == old(bus)@ && r@.len() == 0,
        },
{
    match this {
        Some(a) => {
            Peer::drop_user(bus, a);
            bus.reclaim()
        },
        None => Vec::new(),
    }
}

/// Declare that a peer is set up.
pub fn peer_begin(bus: &Bus, this: Addr)
    requires
        bus.wf(),
        bus@.peers.contains_key(this),
{
    Peer::begin(bus, this)
}

/// A peer was shut down, and objects that nothing refers to were deallocated.
pub open spec fn peer_shut_down(
    v: BusView,
    w: BusView,
    p: Addr,
    wakes: Seq<Addr>,
    actors: Seq<Actor>,
) -> bool {
    exists|x: BusView| #[trigger] peer_ended(v, x, p, wakes) && cleaned(x, w, actors)
}

proof fn lemma_shut_down(
    v: BusView,
    x: BusView,
    w: BusView,
    p: Addr,
    wakes: Seq<Addr>,
    actors: Seq<Actor>,
)
    requires
        peer_ended(v, x, p, wakes),
        cleaned(x, w, actors),
    ensures
        peer_shut_down(v, w, p, wakes, actors),
{
}

/// Shutdown operations on a peer.
pub fn peer_end(bus: &mut Bus, this: Addr) -> (r: Outcome)
    requires
        old(bus).wf(),
        old(bus)@.peers.contains_key(this),
        old(bus)@.ops.dom().len() < usize::MAX,
    ensures
        final(bus).wf(),
        final(bus).limit() == old(bus).limit(),
        peer_shut_down(old(bus)@, final(bus)@, this, r.wakes@, r.actors@),
{
    let wakes = Peer::end(bus, this);
    let ghost w = bus@;
    let actors = bus.reclaim();
    proof {
        lemma_shut_down(old(bus)@, w, bus@, this, wakes@, actors@);
    }
    Outcome { wakes, actors }
}

/// A handle was created, and has one user.
pub open spec fn handle_provided(v: BusView, w: BusView, h: Addr, node: Addr, owner: Addr) -> bool {
    let e = w.handles[h].release_node;
    let f = w.handles[h].release_handle;
    &&& !v.handles.contains_key(h)
    &&& !v.tx_nodes.contains_key(e)
    &&& !v.tx_nodes.contains_key(f)
    &&& e != f
    &&& w == v.handle_added(h, e, f, node, owner).handle_used(h, 1)
}

/// Create a new node of a peer, and a handle to it that is owned by the other
/// peer.
///
/// This can return `ENOMEM` on failure.
pub fn peer_new_node(bus: &mut Bus, this: Addr, other: Addr) -> (r: Result<(Addr, Addr), i32>)
    requires
        old(bus).wf(),
        old(bus)@.peers.contains_key(this),
        old(bus)@.peers.contains_key(other),
    ensures
        final(bus).wf(),
        final(bus).limit() == old(bus).limit(),
        match r {
            Ok((n, h)) => {
                &&& old(bus)@.nodes.dom().len() < old(bus).limit()
                &&& !old(bus)@.handles_full(old(bus).limit())
                &&& !old(bus)@.nodes.contains_key(n)
                &&& handle_provided(
                    old(bus)@.node_added(n, this).node_used(n, 1),
                    final(bus)@,
                    h,
                    n,
                    other,
                )
            },
            Err(e) => {
                &&& old(bus)@.nodes.dom().len() >= old(bus).limit() || old(bus)@.handles_full(
                    old(bus).limit(),
                )
                &&& e == ENOMEM
                &&& final(bus)@ == old(bus)@
            },
        },
{
    match Peer::create_node(bus, this, other) {
        Ok((n, h)) => {
            Node::acquire(bus, n);
            Handle::acquire(bus, h);
            Ok((n, h))
        },
        Err(_) => Err(ENOMEM),
    }
}

/// Create a new handle of a peer, to the node of another handle.
///
/// This can return `ENOMEM` on failure.
pub fn peer_new_handle(bus: &mut Bus, this: Addr, from: Addr) -> (r: Result<Addr, i32>)
    requires
        old(bus).wf(),
        old(bus)@.peers.contains_key(this),
        old(bus)@.handles.contains_key(from),
    ensures
        final(bus).wf(),
        final(bus).limit() == old(bus).limit(),
        match r {
            Ok(h) => {
                &&& !old(bus)@.handles_full(old(bus).limit())
                &&& handle_provided(
                    old(bus)@,
                    final(bus)@,
                    h,
                    old(bus)@.handles[from].node,
                    this,
                )
            },
            Err(e) => {
                &&& old(bus)@.handles_full(old(bus).limit())
                &&& e == ENOMEM
                &&& final(bus)@ == old(bus)@
            },
        },
{
    match Peer::create_handle(bus, this, from) {
        Ok(h) => {
            Handle::acquire(bus, h);
            Ok(h)
        },
        Err(_) => Err(ENOMEM),
    }
}

/// Check whether anything was ever committed to be received by a peer.
pub fn peer_readable(bus: &Bus, this: Addr) -> (r: bool)
    requires
        bus.wf(),
        bus@.peers.contains_key(this),
    ensures
        r == bus@.readable(this),
{
    Peer::readable(bus, this)
}

/// Look at what is next to be received by a peer.
pub fn peer_peek<'a>(bus: &'a mut Bus, this: Addr) -> (r: Option<Peek<'a>>)
    requires
        old(bus).wf(),
        old(bus)@.peers.contains_key(this),
    ensures
        final(bus).wf(),
        final(bus).limit() == old(bus).limit(),
        final(bus)@ == if old(bus)@.readable(this) {
            old(bus)@.prefetched(this)
        } else {
            old(bus)@
        },
        r is Some <==> old(bus)@.readable(this) && final(bus)@.peers[this].ready.len() > 0,
        r matches Some(peek) ==> peek.shows(final(bus)@, final(bus)@.peers[this].ready[0]),
        old(bus)@.peers[this].committed <= usize::MAX ==> (r is None <==> old(bus)@.lists(
            this,
        ).len() == 0),
{
    Peer::peek(bus, this)
}

/// Remove what is next to be received by a peer.
///
/// Returns the actors to be released.
pub fn peer_pop(bus: &mut Bus, this: Addr) -> (r: Vec<Actor>)
    requires
        old(bus).wf(),
        old(bus)@.peers.contains_key(this),
    ensures
        final(bus).wf(),
        final(bus).limit() == old(bus).limit(),
        cleaned(old(bus)@.popped(this), final(bus)@, r@),
{
    Peer::pop(bus, this);
    bus.reclaim()
}

/// Create a new reference to a node.
///
/// If `None` is passed, this is a no-op.
///
/// This always returns the reference that was passed.
pub fn node_ref(bus: &mut Bus, this: Option<Addr>) -> (r: Option<Addr>)
    requires
        old(bus).wf(),
        this matches Some(a) ==> {
            &&& old(bus)@.nodes.contains_key(a)
            &&& old(bus)@.nodes[a].users + 1 < usize::MAX
        },
    ensures
        final(bus).wf(),
        final(bus).limit() == old(bus).limit(),
        r == this,
        final(bus)@ == match this {
            Some(a) => old(bus)@.node_used(a, old(bus)@.nodes[a].users + 1),
            None => old(bus)@,
        },
{
    match this {
        Some(a) => Node::acquire(bus, a),
        None => (),
    }
    this
}

/// Drop a reference to a node.
///
/// If `None` is passed, this is a no-op. If this drops the last reference, and
/// no other object refers to it, the object is deallocated. Anything that was
/// only referred to by this object is deallocated as well.
///
/// Returns the actors to be released.
pub fn node_unref(bus: &mut Bus, this: Option<Addr>) -> (r: Vec<Actor>)
    requires
        old(bus).wf(),
        this matches Some(a) ==> {
            &&& old(bus)@.nodes.contains_key(a)
            &&& old(bus)@.nodes[a].users > 0
        },
    ensures
        final(bus).wf(),
        final(bus).limit() == old(bus).limit(),
        match this {
            Some(a) => cleaned(
                old(bus)@.node_used(a, old(bus)@.nodes[a].users - 1),
                final(bus)@,
                r@,
            ),
            None => final(bus)@ == old(bus)@ && r@.len() == 0,
        },
{
    match this {
        Some(a) => {
            Node::drop_user(bus, a);
            bus.reclaim()
        },
        None => Vec::new(),
    }
}

/// Get the data that was attached to a node.
pub fn node_get_userdata(bus: &Bus, this: Addr) -> (r: usize)
    requires
        bus.wf(),
        bus@.nodes.contains_key(this),
    ensures
        r == bus@.nodes[this].userdata,
{
    Node::userdata(bus, this)
}

/// Attach data to a node.
pub fn node_set_userdata(bus: &mut Bus, this: Addr, userdata: usize)
    requires
        old(bus).wf(),
        old(bus)@.nodes.contains_key(this),
    ensures
        final(bus).wf(),
        final(bus).limit() == old(bus).limit(),
        final(bus)@ == old(bus)@.node_tagged(this, userdata),
{
    Node::set_userdata(bus, this, userdata)
}

/// Declare that a node is ready.
pub fn node_begin(bus: &Bus, this: Addr)
    requires
        bus.wf(),
        bus@.nodes.contains_key(this),
{
    Node::begin(bus, this)
}

/// Declare that a released node is no longer used.
pub fn node_end(bus: &Bus, this: Addr)
    requires
        bus.wf(),
        bus@.nodes.contains_key(this),
{
    Node::end(bus, this)
}

/// Create a new reference to a handle.
///
/// If `None` is passed, this is a no-op.
///
/// This always returns the reference that was passed.
pub fn handle_ref(bus: &mut Bus, this: Option<Addr>) -> (r: Option<Addr>)
    requires
        old(bus).wf(),
        this matches Some(a) ==> {
            &&& old(bus)@.handles.contains_key(a)
            &&& old(bus)@.handles[a].users + 1 < usize::MAX
        },
    ensures
        final(bus).wf(),
        final(bus).limit() == old(bus).limit(),
        r == this,
        final(bus)@ == match this {
            Some(a) => old(bus)@.handle_used(a, old(bus)@.handles[a].users + 1),
            None => old(bus)@,
        },
{
    match this {
        Some(a) => Handle::acquire(bus, a),
        None => (),
    }
    this
}

/// Drop a reference to a handle.
///
/// If `None` is passed, this is a no-op. If this drops the last reference, and
/// no other object refers to it, the object is deallocated. Anything that was
/// only referred to by this object is deallocated as well.
///
/// Returns the actors to be released.
pub fn handle_unref(bus: &mut Bus, this: Option<Addr>) -> (r: Vec<Actor>)
    requires
        old(bus).wf(),
        this matches Some(a) ==> {
            &&& old(bus)@.handles.contains_key(a)
            &&& old(bus)@.handles[a].users > 0
        },
    ensures
        final(bus).wf(),
        final(bus).limit() == old(bus).limit(),
        match this {
            Some(a) => cleaned(
                old(bus)@.handle_used(a, old(bus)@.handles[a].users - 1),
                final(bus)@,
                r@,
            ),
            None => final(bus)@ == old(bus)@ && r@.len() == 0,
        },
{
    match this {
        Some(a) => {
            Handle::drop_user(bus, a);
            bus.reclaim()
        },
        None => Vec::new(),
    }
}

/// Get the data that was attached to a handle.
pub fn handle_get_userdata(bus: &Bus, this: Addr) -> (r: usize)
    requires
        bus.wf(),
        bus@.handles.contains_key(this),
    ensures
        r == bus@.handles[this].userdata,
{
    Handle::userdata(bus, this)
}

/// Attach data to a handle.
pub fn handle_set_userdata(bus: &mut Bus, this: Addr, userdata: usize)
    requires
        old(bus).wf(),
        old(bus)@.handles.contains_key(this),
    ensures
        final(bus).wf(),
        final(bus).limit() == old(bus).limit(),
        final(bus)@ == old(bus)@.handle_tagged(this, userdata),
{
    Handle::set_userdata(bus, this, userdata)
}

/// Declare that a handle is ready. This links the handle into its node.
pub fn handle_begin(bus: &mut Bus, this: Addr)
    requires
        old(bus).wf(),
        old(bus)@.handles.contains_key(this),
    ensures
        final(bus).wf(),
        final(bus).limit() == old(bus).limit(),
        final(bus)@ == if old(bus)@.handles[this].linked {
            old(bus)@
        } else {
            old(bus)@.handle_linked(this)
        },
{
    Handle::begin(bus, this)
}

/// Declare that a released handle is no longer used.
///
/// Returns whether the handle is unlinked, as it should be.
pub fn handle_end(bus: &Bus, this: Addr) -> (r: bool)
    requires
        bus.wf(),
        bus@.handles.contains_key(this),
    ensures
        r == !bus@.handles[this].linked,
{
    Handle::end(bus, this)
}

/// Create data to be shared by messages.
///
/// This can return `ENOMEM` on failure.
pub fn message_shared_new(bus: &mut Bus, data: Vec<u8>) -> (r: Result<Addr, i32>)
    requires
        old(bus).wf(),
    ensures
        final(bus).wf(),
        final(bus).limit() == old(bus).limit(),
        match r {
            Ok(s) => {
                &&& old(bus)@.shareds.dom().len() < old(bus).limit()
                &&& !old(bus)@.shareds.contains_key(s)
                &&& final(bus)@ == old(bus)@.shared_added(s, data@).shared_used(s, 1)
            },
            Err(e) => {
                &&& old(bus)@.shareds.dom().len() >= old(bus).limit()
                &&& e == ENOMEM
                &&& final(bus)@ == old(bus)@
            },
        },
{
    match MessageShared::with(bus, data) {
        Ok(s) => {
            MessageShared::acquire(bus, s);
            Ok(s)
        },
        Err(_) => Err(ENOMEM),
    }
}

/// Create a new reference to shared data.
///
/// If `None` is passed, this is a no-op.
///
/// This always returns the reference that was passed.
pub fn message_shared_ref(bus: &mut Bus, this: Option<Addr>) -> (r: Option<Addr>)
    requires
        old(bus).wf(),
        this matches Some(a) ==> {
            &&& old(bus)@.shareds.contains_key(a)
            &&& old(bus)@.shareds[a].users + 1 < usize::MAX
        },
    ensures
        final(bus).wf(),
        final(bus).limit() == old(bus).limit(),
        r == this,
        final(bus)@ == match this {
            Some(a) => old(bus)@.shared_used(a, old(bus)@.shareds[a].users + 1),
            None => old(bus)@,
        },
{
    match this {
        Some(a) => MessageShared::acquire(bus, a),
        None => (),
    }
    this
}

/// Drop a reference to shared data.
///
/// If `None` is passed, this is a no-op. If this drops the last reference, and
/// no other object refers to it, the object is deallocated. Anything that was
/// only referred to by this object is deallocated as well.
///
/// Returns the actors to be released.
pub fn message_shared_unref(bus: &mut Bus, this: Option<Addr>) -> (r: Vec<Actor>)
    requires
        old(bus).wf(),
        this matches Some(a) ==> {
            &&& old(bus)@.shareds.contains_key(a)
            &&& old(bus)@.shareds[a].users > 0
        },
    ensures
        final(bus).wf(),
        final(bus).limit() == old(bus).limit(),
        match this {
            Some(a) => cleaned(
                old(bus)@.shared_used(a, old(bus)@.shareds[a].users - 1),
                final(bus)@,
                r@,
            ),
            None => final(bus)@ == old(bus)@ && r@.len() == 0,
        },
{
    match this {
        Some(a) => {
            MessageShared::drop_user(bus, a);
            bus.reclaim()
        },
        None => Vec::new(),
    }
}

/// Create a new operation of a peer.
///
/// This can return `ENOMEM` on failure.
pub fn op_new(bus: &mut Bus, peer: Addr) -> (r: Result<Addr, i32>)
    requires
        old(bus).wf(),
        old(bus)@.peers.contains_key(peer),
    ensures
        final(bus).wf(),
        final(bus).limit() == old(bus).limit(),
        match r {
            Ok(o) => {
                let t = final(bus)@.ops[o].tx;
                &&& !old(bus)@.ops_full(old(bus).limit())
                &&& !old(bus)@.ops.contains_key(o)
                &&& !old(bus)@.txs.contains_key(t)
                &&& final(bus)@ == old(bus)@.tx_added(t).op_added(o, peer, t)
            },
            Err(e) => {
                &&& old(bus)@.ops_full(old(bus).limit())
                &&& e == ENOMEM
                &&& final(bus)@ == old(bus)@
            },
        },
{
    match Op::new(bus, peer) {
        Ok(o) => Ok(o),
        Err(_) => Err(ENOMEM),
    }
}

/// Drop an operation, without committing it.
///
/// If `None` is passed, this is a no-op. Returns the actors to be released.
pub fn op_free(bus: &mut Bus, this: Option<Addr>) -> (r: Vec<Actor>)
    requires
        old(bus).wf(),
        this matches Some(o) ==> old(bus)@.ops.contains_key(o),
    ensures
        final(bus).wf(),
        final(bus).limit() == old(bus).limit(),
        match this {
            Some(o) => cleaned(old(bus)@.op_freed(o), final(bus)@, r@),
            None => final(bus)@ == old(bus)@ && r@.len() == 0,
        },
{
    match this {
        Some(o) => {
            Op::free(bus, o);
            bus.reclaim()
        },
        None => Vec::new(),
    }
}

/// Release a node as part of an operation.
pub fn op_release_node(bus: &mut Bus, this: Addr, node: Addr)
    requires
        old(bus).wf(),
        old(bus)@.ops.contains_key(this),
        old(bus)@.nodes.contains_key(node),
    ensures
        final(bus).wf(),
        final(bus).limit() == old(bus).limit(),
        final(bus)@ == old(bus)@.node_released(this, node),
{
    Op::release_node(bus, this, node)
}

/// Release a handle as part of an operation.
pub fn op_release_handle(bus: &mut Bus, this: Addr, handle: Addr)
    requires
        old(bus).wf(),
        old(bus)@.ops.contains_key(this),
        old(bus)@.handles.contains_key(handle),
    ensures
        final(bus).wf(),
        final(bus).limit() == old(bus).limit(),
        final(bus)@ == old(bus)@.handle_released(this, handle),
{
    Op::release_handle(bus, this, handle)
}

/// An operation was committed, and objects that nothing refers to were
/// deallocated.
pub open spec fn op_completed(
    v: BusView,
    w: BusView,
    o: Addr,
    wakes: Seq<Addr>,
    actors: Seq<Actor>,
) -> bool {
    exists|x: BusView| #[trigger] op_committed(v, x, o, wakes) && cleaned(x, w, actors)
}

proof fn lemma_completed(
    v: BusView,
    x: BusView,
    w: BusView,
    o: Addr,
    wakes: Seq<Addr>,
    actors: Seq<Actor>,
)
    requires
        op_committed(v, x, o, wakes),
        cleaned(x, w, actors),
    ensures
        op_completed(v, w, o, wakes, actors),
{
}

/// Commit an operation.
pub fn op_commit(bus: &mut Bus, this: Addr) -> (r: Outcome)
    requires
        old(bus).wf(),
        old(bus)@.ops.contains_key(this),
    ensures
        final(bus).wf(),
        final(bus).limit() == old(bus).limit(),
        op_completed(old(bus)@, final(bus)@, this, r.wakes@, r.actors@),
{
    let wakes = Op::commit(bus, this);
    let ghost w = bus@;
    let actors = bus.reclaim();
    proof {
        lemma_completed(old(bus)@, w, bus@, this, wakes@, actors@);
    }
    Outcome { wakes, actors }
}

/// The error code of creating handles for transfers, or 0.
///
/// Transfers are processed in order. They must be owned by the operator.
pub open spec fn transfers_errno(v: BusView, o: Addr, s: Seq<Addr>, limit: usize) -> i32
    decreases s.len(),
{
    if s.len() == 0 {
        0
    } else {
        let r = transfers_errno(v, o, s.drop_last(), limit);
        if r != 0 {
            r
        } else if v.handles[s.last()].owner != v.ops[o].operator {
            ENOTRECOVERABLE
        } else if v.handles.dom().len() + s.len() > limit || v.tx_nodes.dom().len() + 2 * s.len()
            > usize::MAX {
            ENOMEM
        } else {
            0
        }
    }
}

/// The error code of sending a message, or 0.
pub open spec fn send_errno(v: BusView, o: Addr, to: Addr, s: Seq<Addr>, limit: usize) -> i32 {
    let r = transfers_errno(v, o, s, limit);
    if r != 0 {
        r
    } else if v.handles[to].owner != v.ops[o].operator {
        ENOTRECOVERABLE
    } else if v.messages.dom().len() >= limit || v.tx_nodes.dom().len() + 2 * s.len() + 1
        > usize::MAX {
        ENOMEM
    } else {
        0
    }
}

/// A problem with the first transfers is a problem with all of them.
pub(super) proof fn lemma_transfers_errno(v: BusView, o: Addr, s: Seq<Addr>, limit: usize, k: int)
    requires
        0 <= k <= s.len(),
        transfers_errno(v, o, s.take(k), limit) != 0,
    ensures
        transfers_errno(v, o, s, limit) == transfers_errno(v, o, s.take(k), limit),
    decreases s.len(),
{
    if k == s.len() {
        assert(s.take(k) =~= s);
    } else {
        assert(s.drop_last().take(k) =~= s.take(k));
        lemma_transfers_errno(v, o, s.drop_last(), limit, k);
    }
}

/// Check whether handles for transfers can be created.
fn check_transfers(bus: &Bus, this: Addr, transfers: &Vec<Addr>) -> (r: i32)
    requires
        bus.wf(),
        bus@.ops.contains_key(this),
        forall|i: int| #![trigger transfers@[i]]
            0 <= i < transfers@.len() ==> bus@.handles.contains_key(transfers@[i]),
    ensures
        r == transfers_errno(bus@, this, transfers@, bus.limit()),
{
    let ghost v = bus@;
    let ghost s = transfers@;
    let operator = bus.ops.get(this).operator;
    let free: usize = bus.handles.available();
    let free_entries: usize = bus.tx_nodes.available();
    let mut k: usize = 0;
    proof {
        assert(v.handles.dom() =~= bus.handles@.dom());
        assert(v.tx_nodes.dom() =~= bus.tx_nodes@.dom());
        bus.tx_nodes.lemma_finite();
    }
    while k < transfers.len()
        invariant
            v == bus@,
            s == transfers@,
            k <= s.len(),
            bus.wf(),
            v.ops.contains_key(this),
            v.ops[this].operator == operator,
            free == if v.handles.dom().len() >= bus.limit() {
                0int
            } else {
                bus.limit() - v.handles.dom().len()
            },
            free_entries == usize::MAX - v.tx_nodes.dom().len(),
            k <= free_entries / 2,
            forall|i: int| #![trigger s[i]] 0 <= i < s.len() ==> v.handles.contains_key(s[i]),
            transfers_errno(v, this, s.take(k as int), bus.limit()) == 0,
        decreases s.len() - k,
    {
        let t = transfers[k];
        proof {
            assert(s[k as int] == t);
            assert(v.handles.contains_key(t));
            assert(s.take(k + 1).drop_last() =~= s.take(k as int));
            assert(s.take(k + 1).last() == t);
        }
        if !Peer::owns_handle(bus, operator, t) {
            proof {
                lemma_transfers_errno(v, this, s, bus.limit(), k + 1);
            }
            return ENOTRECOVERABLE;
        }
        if k >= free || k >= free_entries / 2 {
            proof {
                lemma_transfers_errno(v, this, s, bus.limit(), k + 1);
            }
            return ENOMEM;
        }
        k += 1;
    }
    assert(s.take(k as int) =~= s);
    0
}

/// One more handle was created.
proof fn lemma_one_created(
    v: BusView,
    x: BusView,
    w: BusView,
    s: Seq<Addr>,
    owner: Addr,
    hs: Seq<Addr>,
)
    requires
        s.len() > 0,
        hs.len() == s.len(),
        handles_created(v, x, s.drop_last(), owner, hs.drop_last()),
        handle_created(x, w, hs.last(), v.handles[s.last()].node, owner),
    ensures
        handles_created(v, w, s, owner, hs),
{
}

/// Create handles for transfers.
fn create_transfers(bus: &mut Bus, owner: Addr, transfers: &Vec<Addr>) -> (r: Vec<Addr>)
    requires
        old(bus).wf(),
        old(bus)@.peers.contains_key(owner),
        forall|i: int| #![trigger transfers@[i]]
            0 <= i < transfers@.len() ==> old(bus)@.handles.contains_key(transfers@[i]),
        transfers@.len() == 0 || old(bus)@.handles.dom().len() + transfers@.len() <= old(
            bus,
        ).limit(),
        old(bus)@.tx_nodes.dom().len() + 2 * transfers@.len() <= usize::MAX,
    ensures
        final(bus).wf(),
        final(bus).limit() == old(bus).limit(),
        handles_created(old(bus)@, final(bus)@, transfers@, owner, r@),
        final(bus)@.ops == old(bus)@.ops,
        final(bus)@.messages == old(bus)@.messages,
        final(bus)@.shareds == old(bus)@.shareds,
        final(bus)@.tx_nodes.dom().len() == old(bus)@.tx_nodes.dom().len() + 2 * transfers@.len(),
        forall|h: Addr| #[trigger]
            old(bus)@.handles.contains_key(h) ==> final(bus)@.handles.contains_key(h)
                && final(bus)@.handles[h] == old(bus)@.handles[h],
        forall|i: int| #![trigger r@[i]]
            0 <= i < r@.len() ==> final(bus)@.handles.contains_key(r@[i]),
{
    let ghost v = bus@;
    let ghost s = transfers@;
    let mut r: Vec<Addr> = Vec::new();
    let mut k: usize = 0;
    assert(s.take(0) =~= Seq::<Addr>::empty());
    while k < transfers.len()
        invariant
            s == transfers@,
            k <= s.len(),
            v.peers.contains_key(owner),
            forall|i: int| #![trigger s[i]] 0 <= i < s.len() ==> v.handles.contains_key(s[i]),
            v.handles.dom().len() + s.len() <= old(bus).limit() || s.len() == 0,
            v.tx_nodes.dom().len() + 2 * s.len() <= usize::MAX,
            bus.wf(),
            bus.limit() == old(bus).limit(),
            handles_created(v, bus@, s.take(k as int), owner, r@),
            r@.len() == k,
            bus@.peers == v.peers,
            bus@.ops == v.ops,
            bus@.messages == v.messages,
            bus@.shareds == v.shareds,
            bus@.handles.dom().len() == v.handles.dom().len() + k,
            bus@.tx_nodes.dom().len() == v.tx_nodes.dom().len() + 2 * k,
            forall|h: Addr| #[trigger]
                v.handles.contains_key(h) ==> bus@.handles.contains_key(h) && bus@.handles[h]
                    == v.handles[h],
            forall|i: int| #![trigger r@[i]]
                0 <= i < r@.len() ==> bus@.handles.contains_key(r@[i]),
        decreases s.len() - k,
    {
        let t = transfers[k];
        let ghost w = bus@;
        let ghost r0 = r@;
        proof {
            assert(s[k as int] == t);
            assert(v.handles.contains_key(t));
            assert(s.take(k + 1).drop_last() =~= s.take(k as int));
            assert(s.take(k + 1).last() == t);
            bus.lemma_finite();
        }
        let h = match Peer::create_handle(bus, owner, t) {
            Ok(h) => h,
            Err(_) => vstd::pervasive::unreached(),
        };
        r.push(h);
        proof {
            let e = bus@.handles[h].release_node;
            let f = bus@.handles[h].release_handle;
            assert(bus@.handles.dom() =~= w.handles.dom().insert(h));
            assert(bus@.tx_nodes.dom() =~= w.tx_nodes.dom().insert(e).insert(f));
            assert(r@.drop_last() =~= r0);
            assert(r@.last() == h);
            lemma_one_created(v, w, bus@, s.take(k + 1), owner, r@);
            assert forall|i: int| #![trigger r@[i]]
                0 <= i < r@.len() implies bus@.handles.contains_key(r@[i]) by {
                if i < r0.len() {
                    assert(r0[i] == r@[i]);
                }
            }
        }
        k += 1;
    }
    assert(s.take(k as int) =~= s);
    r
}

/// A message was sent, with new handles to the same nodes as the given ones.
pub open spec fn message_posted(
    v: BusView,
    w: BusView,
    o: Addr,
    to: Addr,
    transfers: Seq<Addr>,
    shared: Addr,
) -> bool {
    exists|x: BusView, hs: Seq<Addr>| #[trigger]
        handles_created(v, x, transfers, v.handle_dest(to), hs) && message_sent(
            x,
            w,
            o,
            to,
            hs,
            shared,
        )
}

proof fn lemma_posted(
    v: BusView,
    x: BusView,
    w: BusView,
    o: Addr,
    to: Addr,
    transfers: Seq<Addr>,
    hs: Seq<Addr>,
    shared: Addr,
)
    requires
        handles_created(v, x, transfers, v.handle_dest(to), hs),
        message_sent(x, w, o, to, hs, shared),
    ensures
        message_posted(v, w, o, to, transfers, shared),
{
}

/// Send a message as part of an operation.
///
/// The message is sent via the handle `to`, and carries new handles to the same
/// nodes as `transfers`. All these handles must be owned by the operator.
///
/// This can return `ENOMEM` or `ENOTRECOVERABLE` on failure.
pub fn op_send_message(
    bus: &mut Bus,
    this: Addr,
    to: Addr,
    transfers: &Vec<Addr>,
    shared: Addr,
) -> (r: i32)
    requires
        old(bus).wf(),
        old(bus)@.ops.contains_key(this),
        old(bus)@.handles.contains_key(to),
        old(bus)@.shareds.contains_key(shared),
        forall|i: int| #![trigger transfers@[i]]
            0 <= i < transfers@.len() ==> old(bus)@.handles.contains_key(transfers@[i]),
    ensures
        final(bus).wf(),
        final(bus).limit() == old(bus).limit(),
        r == send_errno(old(bus)@, this, to, transfers@, old(bus).limit()),
        r != 0 ==> final(bus)@ == old(bus)@,
        r == 0 ==> message_posted(old(bus)@, final(bus)@, this, to, transfers@, shared),
{
    let ghost v = bus@;
    proof {
        lemma_ok(v);
        assert(v.handle_ok(to));
        assert(v.node_ok(v.handles[to].node));
        lemma_no_errno(v, this, transfers@, bus.limit());
    }
    let errno: i32 = check_transfers(bus, this, transfers);
    if errno != 0 {
        return errno;
    }
    let operator = bus.ops.get(this).operator;
    if !Peer::owns_handle(bus, operator, to) {
        return ENOTRECOVERABLE;
    }
    assert(v.messages.dom() =~= bus.messages@.dom());
    proof {
        assert(v.tx_nodes.dom() =~= bus.tx_nodes@.dom());
        bus.tx_nodes.lemma_finite();
    }
    if bus.messages.is_full() || bus.tx_nodes.available() - 2 * transfers.len() < 1 {
        return ENOMEM;
    }
    let node = bus.handles.get(to).node;
    let owner = bus.nodes.get(node).owner;
    let hs = create_transfers(bus, owner, transfers);
    let ghost w = bus@;
    let ghost s = hs@;
    match Op::send_message(bus, this, to, hs, shared) {
        Ok(()) => {
            proof {
                lemma_posted(v, w, bus@, this, to, transfers@, s, shared);
            }
            0
        },
        Err(MessageError::Alloc(_)) => ENOMEM,
        Err(MessageError::HandleForeign) => ENOTRECOVERABLE,
    }
}

/// Without an error, there is space for all transfers.
proof fn lemma_no_errno(v: BusView, o: Addr, s: Seq<Addr>, limit: usize)
    ensures
        transfers_errno(v, o, s, limit) == 0 ==> s.len() == 0 || v.handles.dom().len() + s.len()
            <= limit && v.tx_nodes.dom().len() + 2 * s.len() <= usize::MAX,
{
}

} // verus!
