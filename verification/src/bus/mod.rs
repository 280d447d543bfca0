//! Bus management.
//!
//! This module implements the core components of the bus. It provides peers,
//! nodes, handles, as well as message handling and atomic operations.

pub mod calls;
pub mod capi;
mod commit;
mod create;
pub mod delivery;
pub mod effects;
mod frame;
pub mod laws;
mod link;
pub mod model;
pub mod order;
mod receive;
pub mod reclaim;
pub mod removal;
mod shutdown;
pub mod txnode;
mod users;

pub use crate::bus::receive::Peek;

use crate::acct::Actor;
use crate::bus::model::{
    empty_bus, wrapped, BusView, HandleView, MessageView, NodeView, OpView, PeerView, SharedView,
    TxNodeKind, TxNodeView,
};
use crate::util::arena::{Addr, AllocError, Arena, Object};
use crate::util::field::Field;
use crate::util::slist::Ptr;
use crate::util::{lll, rb, slist};
use vstd::prelude::*;

verus! {

/// Errors that can be raised by sending a message.
#[derive(Clone, Copy, Debug, PartialEq, Eq, Structural)]
pub enum MessageError {
    /// Could not allocate required state-tracking.
    Alloc(AllocError),
    /// The target handle or a transfer handle is not owned by the operator.
    HandleForeign,
}

impl From<AllocError> for MessageError {
    fn from(v: AllocError) -> (r: Self) {
        MessageError::Alloc(v)
    }
}

impl vstd::std_specs::convert::FromSpecImpl<AllocError> for MessageError {
    open spec fn obeys_from_spec() -> bool {
        true
    }

    open spec fn from_spec(v: AllocError) -> Self {
        MessageError::Alloc(v)
    }
}

/// A bus, which is home to all the objects on it.
///
/// Objects are referred to by their address. They stay allocated until they are
/// reclaimed, which is possible as soon as they have no users and nothing refers
/// to them.
pub struct Bus {
    peers: Arena<Peer>,
    nodes: Arena<Node>,
    handles: Arena<Handle>,
    messages: Arena<Message>,
    shareds: Arena<MessageShared>,
    txs: Arena<Tx>,
    tx_nodes: Arena<TxNode>,
    ops: Arena<Op>,
}

/// A peer is an independent entity on the bus, which owns nodes and handles,
/// and which receives messages and notifications.
pub struct Peer {
    actor: Actor,
    queue: lll::List<TxNodePeerLink>,
    queue_committed: usize,
    notified: Ghost<nat>,
    shutdown: Addr,
    inner: PeerLocked,
}

struct PeerLocked {
    queue_ready: slist::List<TxNodePeerLink>,
    queue_busy: slist::List<TxNodePeerLink>,
}

/// A node is an entity that messages can be sent to. It is owned by a peer,
/// which receives these messages.
pub struct Node {
    // The address of the node, by which nodes are ordered.
    addr: Addr,
    owner: Addr,
    userdata: usize,
    op_rb: rb::Node,
    handles: rb::Tree<HandleNodeRb>,
}

/// A handle allows its owner to send messages to a node.
pub struct Handle {
    node: Addr,
    owner: Addr,
    userdata: usize,
    node_rb: rb::Node,
    op_rb: rb::Node,
    release_node: Addr,
    release_handle: Addr,
}

/// A message that is sent to a node.
pub struct Message {
    via: Addr,
    transfers: Vec<Addr>,
    shared: Addr,
    op_rb: rb::Node,
    tx_node: Addr,
}

/// Data that is shared by messages.
pub struct MessageShared {
    data: Vec<u8>,
}

/// An operation collects messages and releases, which are then committed
/// atomically.
pub struct Op {
    operator: Addr,
    tx: Addr,
    messages: rb::Tree<MessageOpRb>,
    nodes: rb::Tree<NodeOpRb>,
    handles: rb::Tree<HandleOpRb>,
}

/// A transaction. Everything that is part of it gets committed at once.
pub struct Tx {
    committed: bool,
}

/// An entry that can be queued on a peer, as part of a message or a handle.
pub struct TxNode {
    kind: TxNodeKind,
    base: Addr,
    peer_link: lll::Node,
    tx: Option<Addr>,
}

/// The field `TxNode.peer_link`.
struct TxNodePeerLink;

/// The field `Node.op_rb`.
struct NodeOpRb;

/// The field `Handle.node_rb`.
struct HandleNodeRb;

/// The field `Handle.op_rb`.
struct HandleOpRb;

/// The field `Message.op_rb`.
struct MessageOpRb;

impl Field for TxNodePeerLink {
    type Base = TxNode;

    type Type = lll::Node;

    closed spec fn field_of(base: TxNode) -> lll::Node {
        base.peer_link
    }

    closed spec fn with_field(base: TxNode, v: lll::Node) -> TxNode {
        TxNode { peer_link: v, ..base }
    }

    proof fn lemma_get_put(base: TxNode, v: lll::Node) {
    }

    proof fn lemma_put_get(base: TxNode) {
    }

    proof fn lemma_put_put(base: TxNode, v: lll::Node, w: lll::Node) {
    }

    fn get(base: &TxNode) -> (r: &lll::Node) {
        &base.peer_link
    }

    fn set(base: &mut TxNode, v: lll::Node) {
        base.peer_link = v;
    }
}

impl Field for NodeOpRb {
    type Base = Node;

    type Type = rb::Node;

    closed spec fn field_of(base: Node) -> rb::Node {
        base.op_rb
    }

    closed spec fn with_field(base: Node, v: rb::Node) -> Node {
        Node { op_rb: v, ..base }
    }

    proof fn lemma_get_put(base: Node, v: rb::Node) {
    }

    proof fn lemma_put_get(base: Node) {
    }

    proof fn lemma_put_put(base: Node, v: rb::Node, w: rb::Node) {
    }

    fn get(base: &Node) -> (r: &rb::Node) {
        &base.op_rb
    }

    fn set(base: &mut Node, v: rb::Node) {
        base.op_rb = v;
    }
}

impl Field for HandleNodeRb {
    type Base = Handle;

    type Type = rb::Node;

    closed spec fn field_of(base: Handle) -> rb::Node {
        base.node_rb
    }

    closed spec fn with_field(base: Handle, v: rb::Node) -> Handle {
        Handle { node_rb: v, ..base }
    }

    proof fn lemma_get_put(base: Handle, v: rb::Node) {
    }

    proof fn lemma_put_get(base: Handle) {
    }

    proof fn lemma_put_put(base: Handle, v: rb::Node, w: rb::Node) {
    }

    fn get(base: &Handle) -> (r: &rb::Node) {
        &base.node_rb
    }

    fn set(base: &mut Handle, v: rb::Node) {
        base.node_rb = v;
    }
}

impl Field for HandleOpRb {
    type Base = Handle;

    type Type = rb::Node;

    closed spec fn field_of(base: Handle) -> rb::Node {
        base.op_rb
    }

    closed spec fn with_field(base: Handle, v: rb::Node) -> Handle {
        Handle { op_rb: v, ..base }
    }

    proof fn lemma_get_put(base: Handle, v: rb::Node) {
    }

    proof fn lemma_put_get(base: Handle) {
    }

    proof fn lemma_put_put(base: Handle, v: rb::Node, w: rb::Node) {
    }

    fn get(base: &Handle) -> (r: &rb::Node) {
        &base.op_rb
    }

    fn set(base: &mut Handle, v: rb::Node) {
        base.op_rb = v;
    }
}

impl Field for MessageOpRb {
    type Base = Message;

    type Type = rb::Node;

    closed spec fn field_of(base: Message) -> rb::Node {
        base.op_rb
    }

    closed spec fn with_field(base: Message, v: rb::Node) -> Message {
        Message { op_rb: v, ..base }
    }

    proof fn lemma_get_put(base: Message, v: rb::Node) {
    }

    proof fn lemma_put_get(base: Message) {
    }

    proof fn lemma_put_put(base: Message, v: rb::Node, w: rb::Node) {
    }

    fn get(base: &Message) -> (r: &rb::Node) {
        &base.op_rb
    }

    fn set(base: &mut Message, v: rb::Node) {
        base.op_rb = v;
    }
}

spec fn peer_view() -> spec_fn(Object<Peer>) -> PeerView {
    |o: Object<Peer>|
        PeerView {
            users: (o.refs - 1) as usize,
            actor: o.value.actor.addr(),
            shutdown: o.value.shutdown,
            committed: o.value.notified@,
            sealed: o.value.queue.sealed(),
            queue: o.value.queue@,
            ready: o.value.inner.queue_ready@,
            busy: o.value.inner.queue_busy@,
        }
}

spec fn node_view() -> spec_fn(Object<Node>) -> NodeView {
    |o: Object<Node>|
        NodeView {
            users: (o.refs - 1) as usize,
            owner: o.value.owner,
            userdata: o.value.userdata,
            op: o.value.op_rb.owner,
            handles: o.value.handles@,
        }
}

spec fn handle_view() -> spec_fn(Object<Handle>) -> HandleView {
    |o: Object<Handle>|
        HandleView {
            users: (o.refs - 1) as usize,
            node: o.value.node,
            owner: o.value.owner,
            userdata: o.value.userdata,
            linked: o.value.node_rb.owner is Some,
            op: o.value.op_rb.owner,
            release_node: o.value.release_node,
            release_handle: o.value.release_handle,
        }
}

spec fn message_view() -> spec_fn(Object<Message>) -> MessageView {
    |o: Object<Message>|
        MessageView {
            via: o.value.via,
            transfers: o.value.transfers@,
            shared: o.value.shared,
            op: o.value.op_rb.owner,
            tx_node: o.value.tx_node,
        }
}

spec fn shared_view() -> spec_fn(Object<MessageShared>) -> SharedView {
    |o: Object<MessageShared>|
        SharedView { users: (o.refs - 1) as usize, data: o.value.data@ }
}

spec fn tx_view() -> spec_fn(Object<Tx>) -> bool {
    |o: Object<Tx>| o.value.committed
}

spec fn tx_node_view() -> spec_fn(Object<TxNode>) -> TxNodeView {
    |o: Object<TxNode>|
        TxNodeView {
            kind: o.value.kind,
            base: o.value.base,
            queued: o.value.peer_link.next != Ptr::Null,
            tx: o.value.tx,
        }
}

spec fn op_view() -> spec_fn(Object<Op>) -> OpView {
    |o: Object<Op>|
        OpView {
            operator: o.value.operator,
            tx: o.value.tx,
            messages: o.value.messages@,
            nodes: o.value.nodes@,
            handles: o.value.handles@,
        }
}

impl View for Bus {
    type V = BusView;

    closed spec fn view(&self) -> BusView {
        BusView {
            peers: self.peers@.map_values(peer_view()),
            nodes: self.nodes@.map_values(node_view()),
            handles: self.handles@.map_values(handle_view()),
            messages: self.messages@.map_values(message_view()),
            shareds: self.shareds@.map_values(shared_view()),
            txs: self.txs@.map_values(tx_view()),
            tx_nodes: self.tx_nodes@.map_values(tx_node_view()),
            ops: self.ops@.map_values(op_view()),
        }
    }
}

/// The bus itself holds a reference to each object.
spec fn counted<T>(m: Map<Addr, Object<T>>) -> bool {
    forall|a: Addr| #![trigger m[a]] m.contains_key(a) ==> m[a].refs >= 1
}

/// Peers know how many entries they were notified about, unless the counter has
/// wrapped around.
spec fn counters_match(peers: Map<Addr, Object<Peer>>) -> bool {
    forall|p: Addr| #![trigger peers[p]]
        peers.contains_key(p) ==> peers[p].value.queue_committed as int == wrapped(
            peers[p].value.notified@,
        )
}

/// The lists of peers are properly linked.
spec fn queues_linked(
    peers: Map<Addr, Object<Peer>>,
    tx_nodes: Map<Addr, Object<TxNode>>,
) -> bool {
    forall|p: Addr| #[trigger]
        peers.contains_key(p) ==> {
            &&& peers[p].value.queue.wf(tx_nodes)
            &&& peers[p].value.inner.queue_ready.wf(tx_nodes)
            &&& peers[p].value.inner.queue_busy.wf(tx_nodes)
        }
}

/// The trees of nodes are properly linked.
spec fn nodes_linked(nodes: Map<Addr, Object<Node>>, handles: Map<Addr, Object<Handle>>) -> bool {
    &&& forall|n: Addr| #[trigger]
        nodes.contains_key(n) ==> {
            &&& nodes[n].value.addr == n
            &&& nodes[n].value.handles.wf(handles)
            &&& nodes[n].value.handles.owner() == n
        }
    &&& forall|h: Addr| #[trigger]
        handles.contains_key(h) ==> handles[h].value.node_rb.owner is None
            || handles[h].value.node_rb.owner == Some(handles[h].value.node)
}

/// The trees of operations are properly linked.
spec fn ops_linked(
    ops: Map<Addr, Object<Op>>,
    messages: Map<Addr, Object<Message>>,
    nodes: Map<Addr, Object<Node>>,
    handles: Map<Addr, Object<Handle>>,
) -> bool {
    forall|o: Addr| #[trigger]
        ops.contains_key(o) ==> {
            &&& ops[o].value.messages.wf(messages)
            &&& ops[o].value.messages.owner() == o
            &&& ops[o].value.nodes.wf(nodes)
            &&& ops[o].value.nodes.owner() == o
            &&& ops[o].value.handles.wf(handles)
            &&& ops[o].value.handles.owner() == o
        }
}

impl Bus {
    /// All lists and trees are properly linked.
    spec fn linked(&self) -> bool {
        &&& self.peers.wf()
        &&& self.nodes.wf()
        &&& self.handles.wf()
        &&& self.messages.wf()
        &&& self.shareds.wf()
        &&& self.txs.wf()
        &&& self.tx_nodes.wf()
        &&& self.ops.wf()
        &&& self.nodes.limit() == self.peers.limit()
        &&& self.handles.limit() == self.peers.limit()
        &&& self.messages.limit() == self.peers.limit()
        &&& self.shareds.limit() == self.peers.limit()
        &&& self.txs.limit() == self.peers.limit()
        &&& self.tx_nodes.limit() == usize::MAX
        &&& self.ops.limit() == usize::MAX
        &&& counters_match(self.peers@)
        &&& counted(self.peers@)
        &&& counted(self.nodes@)
        &&& counted(self.handles@)
        &&& counted(self.shareds@)
        &&& queues_linked(self.peers@, self.tx_nodes@)
        &&& nodes_linked(self.nodes@, self.handles@)
        &&& ops_linked(self.ops@, self.messages@, self.nodes@, self.handles@)
    }

    /// The bus is intact, though a commit might be in progress.
    spec fn sound(&self) -> bool {
        &&& self.linked()
        &&& self@.intact()
    }

    /// The bus is intact, and no commit is in progress.
    pub closed spec fn wf(&self) -> bool {
        &&& self.linked()
        &&& self@.wf()
    }

    /// Number of objects of each type that can exist at the same time.
    pub closed spec fn limit(&self) -> usize {
        self.peers.limit()
    }

    /// Check whether there is a peer at an address.
    pub fn has_peer(&self, a: Addr) -> (r: bool)
        ensures
            r == self@.peers.contains_key(a),
    {
        self.peers.contains(a)
    }

    /// Check whether there is a node at an address.
    pub fn has_node(&self, a: Addr) -> (r: bool)
        ensures
            r == self@.nodes.contains_key(a),
    {
        self.nodes.contains(a)
    }

    /// Check whether there is a handle at an address.
    pub fn has_handle(&self, a: Addr) -> (r: bool)
        ensures
            r == self@.handles.contains_key(a),
    {
        self.handles.contains(a)
    }

    /// Check whether there is shared data at an address.
    pub fn has_shared(&self, a: Addr) -> (r: bool)
        ensures
            r == self@.shareds.contains_key(a),
    {
        self.shareds.contains(a)
    }

    /// Check whether there is an operation at an address.
    pub fn has_op(&self, a: Addr) -> (r: bool)
        ensures
            r == self@.ops.contains_key(a),
    {
        self.ops.contains(a)
    }

    /// Count the users of a peer.
    pub fn peer_users(&self, a: Addr) -> (r: usize)
        requires
            self.wf(),
            self@.peers.contains_key(a),
        ensures
            r == self@.peers[a].users,
    {
        self.peers.refs(a) - 1
    }

    /// Count the users of a node.
    pub fn node_users(&self, a: Addr) -> (r: usize)
        requires
            self.wf(),
            self@.nodes.contains_key(a),
        ensures
            r == self@.nodes[a].users,
    {
        self.nodes.refs(a) - 1
    }

    /// Count the users of a handle.
    pub fn handle_users(&self, a: Addr) -> (r: usize)
        requires
            self.wf(),
            self@.handles.contains_key(a),
        ensures
            r == self@.handles[a].users,
    {
        self.handles.refs(a) - 1
    }

    /// Count the users of shared data.
    pub fn shared_users(&self, a: Addr) -> (r: usize)
        requires
            self.wf(),
            self@.shareds.contains_key(a),
        ensures
            r == self@.shareds[a].users,
    {
        self.shareds.refs(a) - 1
    }

    /// Check whether another operation can be handled.
    pub fn is_operable(&self) -> (r: bool)
        requires
            self.wf(),
        ensures
            r == (self@.ops.dom().len() < usize::MAX),
    {
        assert(self@.ops.dom() =~= self.ops@.dom());
        !self.ops.is_full()
    }

    /// A bus has finitely many objects.
    pub(crate) proof fn lemma_finite(&self)
        requires
            self.wf(),
        ensures
            self@.handles.dom().finite(),
            self@.tx_nodes.dom().finite(),
    {
        self.handles.lemma_finite();
        self.tx_nodes.lemma_finite();
        assert(self@.handles.dom() =~= self.handles@.dom());
        assert(self@.tx_nodes.dom() =~= self.tx_nodes@.dom());
    }

    /// A bus has the properties of its model.
    pub proof fn lemma_wf(&self)
        requires
            self.wf(),
        ensures
            self@.wf(),
    {
    }

    /// Create an empty bus.
    pub fn new() -> (r: Self)
        ensures
            r.wf(),
            r.limit() == usize::MAX,
            r@ == empty_bus(),
    {
        Self::with_limit(usize::MAX)
    }

    /// Create an empty bus, with a limit on the number of peers, of nodes, of
    /// handles, of messages, of shared data, and of transactions.
    pub fn with_limit(limit: usize) -> (r: Self)
        ensures
            r.wf(),
            r.limit() == limit,
            r@ == empty_bus(),
    {
        let r = Bus {
            peers: Arena::new(limit),
            nodes: Arena::new(limit),
            handles: Arena::new(limit),
            messages: Arena::new(limit),
            shareds: Arena::new(limit),
            txs: Arena::new(limit),
            tx_nodes: Arena::new(usize::MAX),
            ops: Arena::new(usize::MAX),
        };
        proof {
            assert(r@ =~= empty_bus());
            reveal(BusView::intact);
            reveal(BusView::settled);
        }
        r
    }
}

} // verus!
