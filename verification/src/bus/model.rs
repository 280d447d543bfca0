//! Model of the objects of a bus.
//!
//! A bus is a set of peers, nodes, and handles, of the messages that are sent
//! between peers, and of the transactions that messages are part of. The model
//! describes how these refer to each other, and what is queued on peers. It also
//! counts the references to objects that are held by users of the bus.

use crate::util::arena::Addr;
use vstd::prelude::*;

verus! {

/// Kinds of entries that can be queued on a peer.
#[derive(Clone, Copy, Debug, PartialEq, Eq, Structural)]
pub enum TxNodeKind {
    /// A message of a user.
    User,
    /// A notification that the node of a handle was released.
    ReleaseNode,
    /// A notification that a handle was released.
    ReleaseHandle,
}

/// Model of a peer.
///
/// New entries are queued at the front of `queue`. From there, they are moved
/// to `ready` once they are committed, and to `busy` until then. The peer was
/// notified about `committed` entries in total.
#[verifier::ext_equal]
pub struct PeerView {
    pub users: usize,
    pub actor: Addr,
    pub shutdown: Addr,
    pub committed: nat,
    pub sealed: bool,
    pub queue: Seq<Addr>,
    pub ready: Seq<Addr>,
    pub busy: Seq<Addr>,
}

/// Model of a node.
#[verifier::ext_equal]
pub struct NodeView {
    pub users: usize,
    pub owner: Addr,
    pub userdata: usize,
    pub op: Option<Addr>,
    pub handles: Seq<Addr>,
}

/// Model of a handle.
pub struct HandleView {
    pub users: usize,
    pub node: Addr,
    pub owner: Addr,
    pub userdata: usize,
    pub linked: bool,
    pub op: Option<Addr>,
    pub release_node: Addr,
    pub release_handle: Addr,
}

/// Model of a message.
#[verifier::ext_equal]
pub struct MessageView {
    pub via: Addr,
    pub transfers: Seq<Addr>,
    pub shared: Addr,
    pub op: Option<Addr>,
    pub tx_node: Addr,
}

/// Model of data that is shared by messages.
#[verifier::ext_equal]
pub struct SharedView {
    pub users: usize,
    pub data: Seq<u8>,
}

/// Model of an entry that can be queued on a peer. It is part of a message or a
/// handle, which is its base.
pub struct TxNodeView {
    pub kind: TxNodeKind,
    pub base: Addr,
    pub queued: bool,
    pub tx: Option<Addr>,
}

/// Model of an operation.
#[verifier::ext_equal]
pub struct OpView {
    pub operator: Addr,
    pub tx: Addr,
    pub messages: Seq<Addr>,
    pub nodes: Seq<Addr>,
    pub handles: Seq<Addr>,
}

/// Model of a bus.
#[verifier::ext_equal]
pub struct BusView {
    pub peers: Map<Addr, PeerView>,
    pub nodes: Map<Addr, NodeView>,
    pub handles: Map<Addr, HandleView>,
    pub messages: Map<Addr, MessageView>,
    pub shareds: Map<Addr, SharedView>,
    pub txs: Map<Addr, bool>,
    pub tx_nodes: Map<Addr, TxNodeView>,
    pub ops: Map<Addr, OpView>,
}

/// A number after it was counted with a counter of limited size.
#[verifier::opaque]
pub open spec fn wrapped(n: nat) -> int {
    n as int % (usize::MAX + 1)
}

/// A bus without any objects.
pub open spec fn empty_bus() -> BusView {
    BusView {
        peers: Map::empty(),
        nodes: Map::empty(),
        handles: Map::empty(),
        messages: Map::empty(),
        shareds: Map::empty(),
        txs: Map::empty(),
        tx_nodes: Map::empty(),
        ops: Map::empty(),
    }
}

/// The position behind all keys that are not greater than the given one.
pub open spec fn place(keys: Seq<int>, key: int) -> int
    decreases keys.len(),
{
    if keys.len() == 0 {
        0
    } else {
        place(keys.drop_last(), key) + if keys.last() <= key {
            1int
        } else {
            0
        }
    }
}

/// Keys are in order.
pub open spec fn ordered(keys: Seq<int>) -> bool {
    forall|i: int, j: int| #![trigger keys[i], keys[j]]
        0 <= i < j < keys.len() ==> keys[i] <= keys[j]
}

impl BusView {
    /// No more handles can be created. Each of them comes with two entries.
    pub open spec fn handles_full(self, limit: usize) -> bool {
        self.handles.dom().len() >= limit || self.tx_nodes.dom().len() + 2 > usize::MAX
    }

    /// No more messages can be created. Each of them comes with one entry.
    pub open spec fn messages_full(self, limit: usize) -> bool {
        self.messages.dom().len() >= limit || self.tx_nodes.dom().len() + 1 > usize::MAX
    }

    /// No more operations can be created. Each of them comes with a transaction.
    pub open spec fn ops_full(self, limit: usize) -> bool {
        self.txs.dom().len() >= limit || self.ops.dom().len() + 1 > usize::MAX
    }

    /// The bus after a transaction was created.
    pub open spec fn tx_added(self, t: Addr) -> BusView {
        BusView { txs: self.txs.insert(t, false), ..self }
    }

    /// The bus after a peer was created.
    pub open spec fn peer_added(self, p: Addr, actor: Addr, shutdown: Addr) -> BusView {
        BusView {
            peers: self.peers.insert(
                p,
                PeerView {
                    users: 0,
                    actor,
                    shutdown,
                    committed: 0,
                    sealed: false,
                    queue: Seq::empty(),
                    ready: Seq::empty(),
                    busy: Seq::empty(),
                },
            ),
            ..self
        }
    }

    /// The bus after a node was created.
    pub open spec fn node_added(self, n: Addr, owner: Addr) -> BusView {
        BusView {
            nodes: self.nodes.insert(
                n,
                NodeView { users: 0, owner, userdata: 0, op: None, handles: Seq::empty() },
            ),
            ..self
        }
    }

    /// The bus after a handle was created, with `e` and `f` as the entries of
    /// its notifications.
    pub open spec fn handle_added(
        self,
        h: Addr,
        e: Addr,
        f: Addr,
        node: Addr,
        owner: Addr,
    ) -> BusView {
        BusView {
            handles: self.handles.insert(
                h,
                HandleView {
                    users: 0,
                    node,
                    owner,
                    userdata: 0,
                    linked: false,
                    op: None,
                    release_node: e,
                    release_handle: f,
                },
            ),
            tx_nodes: self.tx_nodes.insert(
                e,
                TxNodeView { kind: TxNodeKind::ReleaseNode, base: h, queued: false, tx: None },
            ).insert(
                f,
                TxNodeView { kind: TxNodeKind::ReleaseHandle, base: h, queued: false, tx: None },
            ),
            ..self
        }
    }

    /// The bus after data was created to be shared by messages.
    pub open spec fn shared_added(self, s: Addr, data: Seq<u8>) -> BusView {
        BusView { shareds: self.shareds.insert(s, SharedView { users: 0, data }), ..self }
    }

    /// The bus after a message was created, with `e` as its entry.
    pub open spec fn message_added(
        self,
        m: Addr,
        e: Addr,
        via: Addr,
        transfers: Seq<Addr>,
        shared: Addr,
    ) -> BusView {
        BusView {
            messages: self.messages.insert(
                m,
                MessageView { via, transfers, shared, op: None, tx_node: e },
            ),
            tx_nodes: self.tx_nodes.insert(
                e,
                TxNodeView { kind: TxNodeKind::User, base: m, queued: false, tx: None },
            ),
            ..self
        }
    }

    /// The bus after an operation was created.
    pub open spec fn op_added(self, o: Addr, operator: Addr, tx: Addr) -> BusView {
        BusView {
            ops: self.ops.insert(
                o,
                OpView {
                    operator,
                    tx,
                    messages: Seq::empty(),
                    nodes: Seq::empty(),
                    handles: Seq::empty(),
                },
            ),
            ..self
        }
    }

    /// The bus after a handle was linked into its node, behind those of the
    /// same owner.
    pub open spec fn handle_linked(self, h: Addr) -> BusView {
        let n = self.handles[h].node;
        let s = self.nodes[n].handles;
        let i = place(self.link_keys(s), self.handles[h].owner as int);
        BusView {
            nodes: self.nodes.insert(n, NodeView { handles: s.insert(i, h), ..self.nodes[n] }),
            handles: self.handles.insert(h, HandleView { linked: true, ..self.handles[h] }),
            ..self
        }
    }

    /// The bus after a handle was unlinked from its node.
    pub open spec fn handle_unlinked(self, h: Addr) -> BusView {
        let n = self.handles[h].node;
        let s = self.nodes[n].handles;
        BusView {
            nodes: self.nodes.insert(
                n,
                NodeView { handles: s.remove(s.index_of(h)), ..self.nodes[n] },
            ),
            handles: self.handles.insert(h, HandleView { linked: false, ..self.handles[h] }),
            ..self
        }
    }

    /// The bus after a message was linked into an operation, behind those to the same destination.
    pub open spec fn op_message_linked(self, o: Addr, a: Addr) -> BusView {
        let s = self.ops[o].messages;
        let i = place(self.message_keys(s), self.message_dest(a) as int);
        BusView {
            messages: self.messages.insert(a, MessageView { op: Some(o), ..self.messages[a] }),
            ops: self.ops.insert(o, OpView { messages: s.insert(i, a), ..self.ops[o] }),
            ..self
        }
    }

    /// The bus after a message was unlinked from an operation.
    pub open spec fn op_message_unlinked(self, o: Addr, a: Addr) -> BusView {
        let s = self.ops[o].messages;
        BusView {
            messages: self.messages.insert(a, MessageView { op: None, ..self.messages[a] }),
            ops: self.ops.insert(
                o,
                OpView { messages: s.remove(s.index_of(a)), ..self.ops[o] },
            ),
            ..self
        }
    }

    /// The bus after all messages were unlinked from an operation.
    pub open spec fn op_messages_cleared(self, o: Addr) -> BusView {
        let s = self.ops[o].messages;
        BusView {
            messages: Map::new(
                |a: Addr| self.messages.contains_key(a),
                |a: Addr|
                    if s.contains(a) {
                        MessageView { op: None, ..self.messages[a] }
                    } else {
                        self.messages[a]
                    },
            ),
            ops: self.ops.insert(o, OpView { messages: Seq::empty(), ..self.ops[o] }),
            ..self
        }
    }

    /// The bus after a node was linked into an operation, ordered by address.
    pub open spec fn op_node_linked(self, o: Addr, a: Addr) -> BusView {
        let s = self.ops[o].nodes;
        let i = place(self.node_keys(s), a as int);
        BusView {
            nodes: self.nodes.insert(a, NodeView { op: Some(o), ..self.nodes[a] }),
            ops: self.ops.insert(o, OpView { nodes: s.insert(i, a), ..self.ops[o] }),
            ..self
        }
    }

    /// The bus after all nodes were unlinked from an operation.
    pub open spec fn op_nodes_cleared(self, o: Addr) -> BusView {
        let s = self.ops[o].nodes;
        BusView {
            nodes: Map::new(
                |a: Addr| self.nodes.contains_key(a),
                |a: Addr|
                    if s.contains(a) {
                        NodeView { op: None, ..self.nodes[a] }
                    } else {
                        self.nodes[a]
                    },
            ),
            ops: self.ops.insert(o, OpView { nodes: Seq::empty(), ..self.ops[o] }),
            ..self
        }
    }

    /// The bus after a handle was linked into an operation, behind those that
    /// lead to the same peer.
    pub open spec fn op_handle_linked(self, o: Addr, a: Addr) -> BusView {
        let s = self.ops[o].handles;
        let i = place(self.handle_keys(s), self.handle_dest(a) as int);
        BusView {
            handles: self.handles.insert(a, HandleView { op: Some(o), ..self.handles[a] }),
            ops: self.ops.insert(o, OpView { handles: s.insert(i, a), ..self.ops[o] }),
            ..self
        }
    }

    /// The bus after a handle was unlinked from an operation.
    pub open spec fn op_handle_unlinked(self, o: Addr, a: Addr) -> BusView {
        let s = self.ops[o].handles;
        BusView {
            handles: self.handles.insert(a, HandleView { op: None, ..self.handles[a] }),
            ops: self.ops.insert(
                o,
                OpView { handles: s.remove(s.index_of(a)), ..self.ops[o] },
            ),
            ..self
        }
    }

    /// The bus after all handles were unlinked from an operation.
    pub open spec fn op_handles_cleared(self, o: Addr) -> BusView {
        let s = self.ops[o].handles;
        BusView {
            handles: Map::new(
                |a: Addr| self.handles.contains_key(a),
                |a: Addr|
                    if s.contains(a) {
                        HandleView { op: None, ..self.handles[a] }
                    } else {
                        self.handles[a]
                    },
            ),
            ops: self.ops.insert(o, OpView { handles: Seq::empty(), ..self.ops[o] }),
            ..self
        }
    }

    /// The bus after all handles were unlinked from a node.
    pub open spec fn node_cleared(self, n: Addr) -> BusView {
        let s = self.nodes[n].handles;
        BusView {
            handles: Map::new(
                |a: Addr| self.handles.contains_key(a),
                |a: Addr|
                    if s.contains(a) {
                        HandleView { linked: false, ..self.handles[a] }
                    } else {
                        self.handles[a]
                    },
            ),
            nodes: self.nodes.insert(n, NodeView { handles: Seq::empty(), ..self.nodes[n] }),
            ..self
        }
    }

    /// Whether an entry can be queued on the peer it is destined for: the queue
    /// of the peer must not be sealed, and the entry must not be queued already.
    pub open spec fn queueable(self, e: Addr) -> bool {
        !self.peers[self.dest(e)].sealed && !self.tx_nodes[e].queued
    }

    /// The bus after an entry was attached to a transaction, unless it is part
    /// of one already, and was queued on the peer it is destined for, if this
    /// is possible.
    pub open spec fn enqueued(self, tx: Addr, e: Addr) -> BusView {
        let p = self.dest(e);
        let ok = self.queueable(e);
        BusView {
            peers: if ok {
                self.peers.insert(
                    p,
                    PeerView { queue: self.peers[p].queue.insert(0, e), ..self.peers[p] },
                )
            } else {
                self.peers
            },
            tx_nodes: self.tx_nodes.insert(
                e,
                TxNodeView {
                    tx: if self.tx_nodes[e].tx is None {
                        Some(tx)
                    } else {
                        self.tx_nodes[e].tx
                    },
                    queued: self.tx_nodes[e].queued || ok,
                    ..self.tx_nodes[e]
                },
            ),
            ..self
        }
    }

    /// The bus after a transaction was committed.
    pub open spec fn tx_committed(self, t: Addr) -> BusView {
        BusView { txs: self.txs.insert(t, true), ..self }
    }

    /// The bus after a peer was notified about another committed entry.
    pub open spec fn notified(self, p: Addr) -> BusView {
        BusView {
            peers: self.peers.insert(
                p,
                PeerView {
                    committed: self.peers[p].committed + 1,
                    ..self.peers[p]
                },
            ),
            ..self
        }
    }

    /// Tells which entries are committed.
    pub open spec fn committed_fn(self) -> spec_fn(Addr) -> bool {
        |e: Addr| self.is_committed(e)
    }

    /// Tells which entries are not committed.
    pub open spec fn pending_fn(self) -> spec_fn(Addr) -> bool {
        |e: Addr| !self.is_committed(e)
    }

    /// The bus after the entries of a peer were sorted out: unless there are
    /// ready entries left, all committed entries are ready, oldest first, and
    /// all others are busy, newest first.
    pub open spec fn prefetched(self, p: Addr) -> BusView {
        let peer = self.peers[p];
        let todo = peer.queue + peer.busy;
        if peer.ready.len() > 0 {
            self
        } else {
            BusView {
                peers: self.peers.insert(
                    p,
                    PeerView {
                        queue: Seq::empty(),
                        ready: todo.filter(self.committed_fn()).reverse(),
                        busy: todo.filter(self.pending_fn()),
                        ..peer
                    },
                ),
                ..self
            }
        }
    }

    /// The bus after the first ready entry of a peer was removed, if there is
    /// one.
    pub open spec fn popped(self, p: Addr) -> BusView {
        let peer = self.peers[p];
        if peer.ready.len() > 0 {
            let e = peer.ready[0];
            BusView {
                peers: self.peers.insert(p, PeerView { ready: peer.ready.remove(0), ..peer }),
                tx_nodes: self.tx_nodes.insert(
                    e,
                    TxNodeView { queued: false, ..self.tx_nodes[e] },
                ),
                ..self
            }
        } else {
            self
        }
    }

    /// The bus after the queue of a peer was sealed, and everything that was
    /// queued on the peer was discarded.
    pub open spec fn drained(self, p: Addr) -> BusView {
        BusView {
            peers: self.peers.insert(
                p,
                PeerView {
                    sealed: true,
                    queue: Seq::empty(),
                    ready: Seq::empty(),
                    busy: Seq::empty(),
                    ..self.peers[p]
                },
            ),
            tx_nodes: Map::new(
                |e: Addr| self.tx_nodes.contains_key(e),
                |e: Addr|
                    if self.lists(p).contains(e) {
                        TxNodeView { queued: false, ..self.tx_nodes[e] }
                    } else {
                        self.tx_nodes[e]
                    },
            ),
            ..self
        }
    }

    /// The bus after an operation was removed.
    pub open spec fn op_removed(self, o: Addr) -> BusView {
        BusView { ops: self.ops.remove(o), ..self }
    }

    /// The bus after an operation was dropped, without being committed.
    pub open spec fn op_freed(self, o: Addr) -> BusView {
        self.op_messages_cleared(o).op_nodes_cleared(o).op_handles_cleared(o).op_removed(o)
    }

    /// The bus after the number of users of a peer has changed.
    pub open spec fn peer_used(self, a: Addr, users: int) -> BusView {
        BusView {
            peers: self.peers.insert(a, PeerView { users: users as usize, ..self.peers[a] }),
            ..self
        }
    }

    /// The bus after the number of users of a node has changed.
    pub open spec fn node_used(self, a: Addr, users: int) -> BusView {
        BusView {
            nodes: self.nodes.insert(a, NodeView { users: users as usize, ..self.nodes[a] }),
            ..self
        }
    }

    /// The bus after the number of users of a handle has changed.
    pub open spec fn handle_used(self, a: Addr, users: int) -> BusView {
        BusView {
            handles: self.handles.insert(
                a,
                HandleView { users: users as usize, ..self.handles[a] },
            ),
            ..self
        }
    }

    /// The bus after the number of users of shared data has changed.
    pub open spec fn shared_used(self, a: Addr, users: int) -> BusView {
        BusView {
            shareds: self.shareds.insert(
                a,
                SharedView { users: users as usize, ..self.shareds[a] },
            ),
            ..self
        }
    }

    /// The bus after the data that a user attached to a node has changed.
    pub open spec fn node_tagged(self, a: Addr, userdata: usize) -> BusView {
        BusView {
            nodes: self.nodes.insert(a, NodeView { userdata, ..self.nodes[a] }),
            ..self
        }
    }

    /// The bus after the data that a user attached to a handle has changed.
    pub open spec fn handle_tagged(self, a: Addr, userdata: usize) -> BusView {
        BusView {
            handles: self.handles.insert(a, HandleView { userdata, ..self.handles[a] }),
            ..self
        }
    }

    /// The bus after a node was released as part of an operation. Only nodes of
    /// the operator can be released, and only by one operation at a time.
    pub open spec fn node_released(self, o: Addr, n: Addr) -> BusView {
        if self.nodes[n].owner == self.ops[o].operator && self.nodes[n].op is None {
            self.op_node_linked(o, n)
        } else {
            self
        }
    }

    /// The bus after a handle was released as part of an operation. Only handles
    /// of the operator can be released, and only by one operation at a time.
    pub open spec fn handle_released(self, o: Addr, h: Addr) -> BusView {
        if self.handles[h].owner == self.ops[o].operator && self.handles[h].op is None {
            self.op_handle_linked(o, h)
        } else {
            self
        }
    }

    /// The bus after a series of handles was released.
    pub open spec fn handles_released(self, o: Addr, s: Seq<Addr>) -> BusView
        decreases s.len(),
    {
        if s.len() == 0 {
            self
        } else {
            self.handles_released(o, s.drop_last()).handle_released(o, s.last())
        }
    }

    /// The bus after the handles that are transferred by a series of entries
    /// were released. Only messages transfer handles.
    pub open spec fn transfers_released(self, o: Addr, s: Seq<Addr>) -> BusView
        decreases s.len(),
    {
        if s.len() == 0 {
            self
        } else {
            let w = self.transfers_released(o, s.drop_last());
            let node = w.tx_nodes[s.last()];
            if node.kind == TxNodeKind::User {
                w.handles_released(o, w.messages[node.base].transfers)
            } else {
                w
            }
        }
    }

    /// The bus after a message of an operation was queued. If this is not
    /// possible, it is no longer part of the operation.
    pub open spec fn message_queued(self, o: Addr, m: Addr) -> BusView {
        let e = self.messages[m].tx_node;
        let w = self.enqueued(self.ops[o].tx, e);
        if self.queueable(e) {
            w
        } else {
            w.op_message_unlinked(o, m)
        }
    }

    /// The bus after a series of messages of an operation was queued.
    pub open spec fn messages_queued(self, o: Addr, s: Seq<Addr>) -> BusView
        decreases s.len(),
    {
        if s.len() == 0 {
            self
        } else {
            self.messages_queued(o, s.drop_last()).message_queued(o, s.last())
        }
    }

    /// The bus after the owners of a series of handles were notified about the
    /// release of their node.
    pub open spec fn owners_queued(self, o: Addr, s: Seq<Addr>) -> BusView
        decreases s.len(),
    {
        if s.len() == 0 {
            self
        } else {
            let w = self.owners_queued(o, s.drop_last());
            w.enqueued(w.ops[o].tx, w.handles[s.last()].release_node)
        }
    }

    /// The bus after the owners of all handles to a series of nodes were
    /// notified about the release of these.
    pub open spec fn nodes_queued(self, o: Addr, s: Seq<Addr>) -> BusView
        decreases s.len(),
    {
        if s.len() == 0 {
            self
        } else {
            let w = self.nodes_queued(o, s.drop_last());
            w.owners_queued(o, w.nodes[s.last()].handles)
        }
    }

    /// The bus after the release of a handle was queued. The handle is then no
    /// longer linked into its node. If it cannot be queued, it is no longer part
    /// of the operation instead.
    pub open spec fn handle_queued(self, o: Addr, h: Addr) -> BusView {
        let e = self.handles[h].release_handle;
        let w = self.enqueued(self.ops[o].tx, e);
        if !self.queueable(e) {
            w.op_handle_unlinked(o, h)
        } else if w.handles[h].linked {
            w.handle_unlinked(h)
        } else {
            w
        }
    }

    /// The bus after a series of releases of handles was queued.
    pub open spec fn handles_queued(self, o: Addr, s: Seq<Addr>) -> BusView
        decreases s.len(),
    {
        if s.len() == 0 {
            self
        } else {
            self.handles_queued(o, s.drop_last()).handle_queued(o, s.last())
        }
    }

    /// The bus after everything in an operation was queued on the receiving
    /// peers.
    pub open spec fn op_queued(self, o: Addr) -> BusView {
        let v = self.messages_queued(o, self.ops[o].messages);
        let w = v.nodes_queued(o, v.ops[o].nodes);
        w.handles_queued(o, w.ops[o].handles)
    }

    /// The bus after a series of handles was linked, unless they are already.
    pub open spec fn handles_linked(self, s: Seq<Addr>) -> BusView
        decreases s.len(),
    {
        if s.len() == 0 {
            self
        } else {
            let w = self.handles_linked(s.drop_last());
            if w.handles[s.last()].linked {
                w
            } else {
                w.handle_linked(s.last())
            }
        }
    }

    /// The bus after the handles that are transferred by a series of messages
    /// were linked.
    pub open spec fn transfers_linked(self, s: Seq<Addr>) -> BusView
        decreases s.len(),
    {
        if s.len() == 0 {
            self
        } else {
            let w = self.transfers_linked(s.drop_last());
            w.handles_linked(w.messages[s.last()].transfers)
        }
    }

    /// The bus after all handles were unlinked from a series of nodes.
    pub open spec fn nodes_cleared(self, s: Seq<Addr>) -> BusView
        decreases s.len(),
    {
        if s.len() == 0 {
            self
        } else {
            self.nodes_cleared(s.drop_last()).node_cleared(s.last())
        }
    }

    /// The bus after a series of peers was notified.
    pub open spec fn all_notified(self, s: Seq<Addr>) -> BusView
        decreases s.len(),
    {
        if s.len() == 0 {
            self
        } else {
            self.all_notified(s.drop_last()).notified(s.last())
        }
    }

    /// The peer that a handle leads to.
    pub open spec fn handle_dest(self, h: Addr) -> Addr {
        self.nodes[self.handles[h].node].owner
    }

    /// The peer that a message is sent to.
    pub open spec fn message_dest(self, m: Addr) -> Addr {
        self.handle_dest(self.messages[m].via)
    }

    /// The peer that an entry is queued on.
    pub open spec fn dest(self, e: Addr) -> Addr {
        let base = self.tx_nodes[e].base;
        match self.tx_nodes[e].kind {
            TxNodeKind::User => self.message_dest(base),
            TxNodeKind::ReleaseNode => self.handles[base].owner,
            TxNodeKind::ReleaseHandle => self.handle_dest(base),
        }
    }

    /// Whether the transaction of an entry is committed.
    pub open spec fn is_committed(self, e: Addr) -> bool {
        match self.tx_nodes[e].tx {
            Some(t) => self.txs[t],
            None => false,
        }
    }

    /// All entries that are queued on a peer.
    pub open spec fn lists(self, p: Addr) -> Seq<Addr> {
        self.peers[p].queue + self.peers[p].ready + self.peers[p].busy
    }

    /// The keys by which the handles of a node are ordered: their owners.
    pub open spec fn link_keys(self, s: Seq<Addr>) -> Seq<int> {
        s.map_values(|h: Addr| self.handles[h].owner as int)
    }

    /// The keys by which the messages of an operation are ordered: where they
    /// are sent to.
    pub open spec fn message_keys(self, s: Seq<Addr>) -> Seq<int> {
        s.map_values(|m: Addr| self.message_dest(m) as int)
    }

    /// The keys by which the nodes of an operation are ordered: their address.
    pub open spec fn node_keys(self, s: Seq<Addr>) -> Seq<int> {
        s.map_values(|n: Addr| n as int)
    }

    /// The keys by which the handles of an operation are ordered: where they
    /// lead to.
    pub open spec fn handle_keys(self, s: Seq<Addr>) -> Seq<int> {
        s.map_values(|h: Addr| self.handle_dest(h) as int)
    }

    /// Everything that is queued on a peer is destined for it, and is queued
    /// only once. Nothing is queued on a peer that was shut down.
    pub open spec fn peer_ok(self, p: Addr) -> bool {
        &&& self.txs.contains_key(self.peers[p].shutdown)
        &&& self.peers[p].sealed ==> self.lists(p).len() == 0
        &&& self.lists(p).no_duplicates()
        &&& forall|i: int| #![trigger self.lists(p)[i]]
            0 <= i < self.lists(p).len() ==> {
                &&& self.tx_nodes.contains_key(self.lists(p)[i])
                &&& self.tx_nodes[self.lists(p)[i]].queued
                &&& self.dest(self.lists(p)[i]) == p
            }
    }

    /// The handles that are linked into a node refer to it, and are ordered by
    /// their owners.
    pub open spec fn node_ok(self, n: Addr) -> bool {
        &&& self.peers.contains_key(self.nodes[n].owner)
        &&& self.nodes[n].handles.no_duplicates()
        &&& forall|i: int| #![trigger self.nodes[n].handles[i]]
            0 <= i < self.nodes[n].handles.len() ==> {
                &&& self.handles.contains_key(self.nodes[n].handles[i])
                &&& self.handles[self.nodes[n].handles[i]].node == n
                &&& self.handles[self.nodes[n].handles[i]].linked
            }
        &&& ordered(self.link_keys(self.nodes[n].handles))
        &&& self.nodes[n].op matches Some(o) ==> self.ops.contains_key(o)
            && self.ops[o].nodes.contains(n)
    }

    /// A handle refers to a node and an owner, and has an entry for each of its
    /// notifications.
    pub open spec fn handle_ok(self, h: Addr) -> bool {
        let handle = self.handles[h];
        &&& self.nodes.contains_key(handle.node)
        &&& self.peers.contains_key(handle.owner)
        &&& handle.linked ==> self.nodes[handle.node].handles.contains(h)
        &&& handle.op matches Some(o) ==> self.ops.contains_key(o)
            && self.ops[o].handles.contains(h)
        &&& self.tx_nodes.contains_key(handle.release_node)
        &&& self.tx_nodes[handle.release_node].kind == TxNodeKind::ReleaseNode
        &&& self.tx_nodes[handle.release_node].base == h
        &&& self.tx_nodes.contains_key(handle.release_handle)
        &&& self.tx_nodes[handle.release_handle].kind == TxNodeKind::ReleaseHandle
        &&& self.tx_nodes[handle.release_handle].base == h
    }

    /// A message is sent via a handle, with shared data and handles to transfer.
    pub open spec fn message_ok(self, m: Addr) -> bool {
        let message = self.messages[m];
        &&& self.handles.contains_key(message.via)
        &&& self.shareds.contains_key(message.shared)
        &&& forall|i: int| #![trigger message.transfers[i]]
            0 <= i < message.transfers.len() ==> self.handles.contains_key(message.transfers[i])
        &&& message.op matches Some(o) ==> self.ops.contains_key(o)
            && self.ops[o].messages.contains(m)
        &&& self.tx_nodes.contains_key(message.tx_node)
        &&& self.tx_nodes[message.tx_node].kind == TxNodeKind::User
        &&& self.tx_nodes[message.tx_node].base == m
    }

    /// An entry is the one of its base, and is on one of the lists of the peer
    /// it is destined for if it is queued.
    pub open spec fn tx_node_ok(self, e: Addr) -> bool {
        let node = self.tx_nodes[e];
        &&& match node.kind {
            TxNodeKind::User => self.messages.contains_key(node.base)
                && self.messages[node.base].tx_node == e,
            TxNodeKind::ReleaseNode => self.handles.contains_key(node.base)
                && self.handles[node.base].release_node == e,
            TxNodeKind::ReleaseHandle => self.handles.contains_key(node.base)
                && self.handles[node.base].release_handle == e,
        }
        &&& node.tx matches Some(t) ==> self.txs.contains_key(t)
        &&& node.queued ==> self.lists(self.dest(e)).contains(e)
    }

    /// Everything in an operation belongs to it, and is in order. Only objects
    /// of the operator can be released.
    pub open spec fn op_ok(self, o: Addr) -> bool {
        let op = self.ops[o];
        &&& self.peers.contains_key(op.operator)
        &&& self.txs.contains_key(op.tx)
        &&& op.messages.no_duplicates()
        &&& op.nodes.no_duplicates()
        &&& op.handles.no_duplicates()
        &&& forall|i: int| #![trigger op.messages[i]]
            0 <= i < op.messages.len() ==> {
                &&& self.messages.contains_key(op.messages[i])
                &&& self.messages[op.messages[i]].op == Some(o)
            }
        &&& forall|i: int| #![trigger op.nodes[i]]
            0 <= i < op.nodes.len() ==> {
                &&& self.nodes.contains_key(op.nodes[i])
                &&& self.nodes[op.nodes[i]].op == Some(o)
                &&& self.nodes[op.nodes[i]].owner == op.operator
            }
        &&& forall|i: int| #![trigger op.handles[i]]
            0 <= i < op.handles.len() ==> {
                &&& self.handles.contains_key(op.handles[i])
                &&& self.handles[op.handles[i]].op == Some(o)
                &&& self.handles[op.handles[i]].owner == op.operator
            }
        &&& ordered(self.message_keys(op.messages))
        &&& ordered(self.node_keys(op.nodes))
        &&& ordered(self.handle_keys(op.handles))
    }

    /// How the objects of a bus refer to each other.
    #[verifier::opaque]
    pub open spec fn intact(self) -> bool {
        &&& forall|p: Addr| #[trigger] self.peers.contains_key(p) ==> self.peer_ok(p)
        &&& forall|n: Addr| #[trigger] self.nodes.contains_key(n) ==> self.node_ok(n)
        &&& forall|h: Addr| #[trigger] self.handles.contains_key(h) ==> self.handle_ok(h)
        &&& forall|m: Addr| #[trigger] self.messages.contains_key(m) ==> self.message_ok(m)
        &&& forall|e: Addr| #[trigger] self.tx_nodes.contains_key(e) ==> self.tx_node_ok(e)
        &&& forall|o: Addr| #[trigger] self.ops.contains_key(o) ==> self.op_ok(o)
    }

    /// No commit is in progress: everything that is attached to a transaction is
    /// committed, everything that is queued is attached to a transaction, and
    /// everyone on whom something is queued was notified.
    #[verifier::opaque]
    pub open spec fn settled(self) -> bool {
        &&& forall|e: Addr| #[trigger]
            self.tx_nodes.contains_key(e) ==> {
                &&& self.tx_nodes[e].tx is Some ==> self.is_committed(e)
                &&& self.tx_nodes[e].queued ==> self.tx_nodes[e].tx is Some
            }
        &&& forall|p: Addr| #[trigger]
            self.peers.contains_key(p) && self.lists(p).len() > 0 ==> self.peers[p].committed > 0
    }

    /// The properties of a bus.
    pub open spec fn wf(self) -> bool {
        &&& self.intact()
        &&& self.settled()
    }

    /// A peer can tell that it was notified. This fails if the counter has
    /// wrapped around to zero.
    pub open spec fn readable(self, p: Addr) -> bool {
        wrapped(self.peers[p].committed) > 0
    }
}

/// The position of an insertion is determined by the keys around it.
pub proof fn lemma_place(keys: Seq<int>, key: int, i: int)
    requires
        ordered(keys),
        0 <= i <= keys.len(),
        i > 0 ==> keys[i - 1] <= key,
        i < keys.len() ==> key < keys[i],
    ensures
        place(keys, key) == i,
    decreases keys.len(),
{
    if keys.len() > 0 {
        let s = keys.drop_last();
        assert forall|a: int, b: int| #![trigger s[a], s[b]] 0 <= a < b < s.len() implies s[a]
            <= s[b] by {
            assert(keys[a] <= keys[b]);
        }
        let n = keys.len() as int;
        if i == n {
            if n > 1 {
                assert(keys[n - 2] <= keys[n - 1]);
            }
            lemma_place(s, key, n - 1);
        } else {
            assert(i < n - 1 ==> keys[i] <= keys[n - 1]);
            lemma_place(s, key, i);
        }
    }
}

/// Inserting a key at its place keeps keys in order.
pub proof fn lemma_place_ordered(keys: Seq<int>, key: int)
    requires
        ordered(keys),
    ensures
        0 <= place(keys, key) <= keys.len(),
        ordered(keys.insert(place(keys, key), key)),
    decreases keys.len(),
{
    lemma_place_bounds(keys, key);
    let p = place(keys, key);
    let t = keys.insert(p, key);
    assert forall|i: int, j: int| #![trigger t[i], t[j]] 0 <= i < j < t.len() implies t[i]
        <= t[j] by {
        if i < p {
            assert(t[i] == keys[i]);
        } else if i > p {
            assert(t[i] == keys[i - 1]);
        }
        if j < p {
            assert(t[j] == keys[j]);
        } else if j > p {
            assert(t[j] == keys[j - 1]);
        }
    }
}

/// The keys in front of the place are not greater, the others are.
pub proof fn lemma_place_bounds(keys: Seq<int>, key: int)
    requires
        ordered(keys),
    ensures
        0 <= place(keys, key) <= keys.len(),
        forall|i: int| #![trigger keys[i]] 0 <= i < place(keys, key) ==> keys[i] <= key,
        forall|i: int| #![trigger keys[i]]
            place(keys, key) <= i < keys.len() ==> key < keys[i],
    decreases keys.len(),
{
    if keys.len() > 0 {
        let s = keys.drop_last();
        let n = keys.len() as int;
        assert forall|a: int, b: int| #![trigger s[a], s[b]] 0 <= a < b < s.len() implies s[a]
            <= s[b] by {
            assert(keys[a] <= keys[b]);
        }
        lemma_place_bounds(s, key);
        assert forall|i: int| 0 <= i < place(keys, key) implies #[trigger] keys[i] <= key by {
            if i < n - 1 {
                assert(s[i] == keys[i]);
                if i >= place(s, key) {
                    assert(keys[i] <= keys[n - 1]);
                }
            }
        }
        assert forall|i: int| place(keys, key) <= i < n implies key < #[trigger] keys[i] by {
            if i < n - 1 {
                assert(s[i] == keys[i]);
            }
            if keys[n - 1] <= key && place(s, key) < n - 1 {
                assert(key < s[n - 2]);
                assert(s[n - 2] == keys[n - 2]);
                assert(keys[n - 2] <= keys[n - 1]);
            }
        }
    }
}

/// One map has all entries of another one.
pub open spec fn keeps<V>(m: Map<Addr, V>, n: Map<Addr, V>) -> bool {
    forall|a: Addr| #[trigger] m.contains_key(a) ==> n.contains_key(a) && n[a] == m[a]
}

/// One state of a bus has all objects of another one, unchanged.
pub open spec fn extends(v: BusView, w: BusView) -> bool {
    &&& keeps(v.peers, w.peers)
    &&& keeps(v.nodes, w.nodes)
    &&& keeps(v.handles, w.handles)
    &&& keeps(v.messages, w.messages)
    &&& keeps(v.shareds, w.shareds)
    &&& keeps(v.txs, w.txs)
    &&& keeps(v.tx_nodes, w.tx_nodes)
    &&& keeps(v.ops, w.ops)
}

/// Adding objects does not affect those that exist already.
pub proof fn lemma_extended(v: BusView, w: BusView)
    requires
        v.intact(),
        extends(v, w),
    ensures
        forall|p: Addr| #[trigger] v.peers.contains_key(p) ==> w.peer_ok(p),
        forall|n: Addr| #[trigger] v.nodes.contains_key(n) ==> w.node_ok(n),
        forall|h: Addr| #[trigger] v.handles.contains_key(h) ==> w.handle_ok(h),
        forall|m: Addr| #[trigger] v.messages.contains_key(m) ==> w.message_ok(m),
        forall|e: Addr| #[trigger] v.tx_nodes.contains_key(e) ==> w.tx_node_ok(e),
        forall|o: Addr| #[trigger] v.ops.contains_key(o) ==> w.op_ok(o),
        forall|e: Addr| #[trigger] v.tx_nodes.contains_key(e) ==> w.dest(e) == v.dest(e),
{
    reveal(BusView::intact);
    assert forall|h: Addr| #[trigger] v.handles.contains_key(h) implies w.handle_dest(h)
        == v.handle_dest(h) && w.handles[h] == v.handles[h] by {
        assert(v.handle_ok(h));
    }
    assert forall|m: Addr| #[trigger] v.messages.contains_key(m) implies w.message_dest(m)
        == v.message_dest(m) && w.messages[m] == v.messages[m] by {
        assert(v.message_ok(m));
    }
    assert forall|e: Addr| #[trigger] v.tx_nodes.contains_key(e) implies w.dest(e) == v.dest(e)
        && w.tx_nodes[e] == v.tx_nodes[e] by {
        assert(v.tx_node_ok(e));
    }
    assert forall|p: Addr| #[trigger] v.peers.contains_key(p) implies w.peer_ok(p) by {
        assert(v.peer_ok(p));
        assert(w.peers[p] == v.peers[p]);
        assert(w.lists(p) == v.lists(p));
    }
    assert forall|n: Addr| #[trigger] v.nodes.contains_key(n) implies w.node_ok(n) by {
        assert(v.node_ok(n));
        assert(w.nodes[n] == v.nodes[n]);
        let s = v.nodes[n].handles;
        assert(w.link_keys(s) =~= v.link_keys(s)) by {
            assert forall|i: int| 0 <= i < s.len() implies w.link_keys(s)[i] == v.link_keys(s)[i] by {
                assert(v.handles.contains_key(s[i]));
            }
        }
    }
    assert forall|h: Addr| #[trigger] v.handles.contains_key(h) implies w.handle_ok(h) by {
        assert(v.handle_ok(h));
        assert(w.nodes[v.handles[h].node] == v.nodes[v.handles[h].node]);
    }
    assert forall|m: Addr| #[trigger] v.messages.contains_key(m) implies w.message_ok(m) by {
        assert(v.message_ok(m));
    }
    assert forall|e: Addr| #[trigger] v.tx_nodes.contains_key(e) implies w.tx_node_ok(e) by {
        assert(v.tx_node_ok(e));
        if v.tx_nodes[e].queued {
            lemma_dest(v, e);
            assert(w.lists(v.dest(e)) == v.lists(v.dest(e)));
        }
    }
    assert forall|o: Addr| #[trigger] v.ops.contains_key(o) implies w.op_ok(o) by {
        assert(v.op_ok(o));
        let op = v.ops[o];
        assert(w.ops[o] == op);
        assert(w.message_keys(op.messages) =~= v.message_keys(op.messages)) by {
            assert forall|i: int| 0 <= i < op.messages.len() implies w.message_keys(
                op.messages,
            )[i] == v.message_keys(op.messages)[i] by {
                assert(v.messages.contains_key(op.messages[i]));
            }
        }
        assert(w.node_keys(op.nodes) =~= v.node_keys(op.nodes));
        assert(w.handle_keys(op.handles) =~= v.handle_keys(op.handles)) by {
            assert forall|i: int| 0 <= i < op.handles.len() implies w.handle_keys(op.handles)[i]
                == v.handle_keys(op.handles)[i] by {
                assert(v.handles.contains_key(op.handles[i]));
            }
        }
    }
}

/// Counting with a counter of limited size.
pub proof fn lemma_wrapped(n: nat)
    ensures
        0 <= wrapped(n) <= usize::MAX,
        n <= usize::MAX ==> wrapped(n) == n,
        wrapped(n + 1) == if wrapped(n) == usize::MAX {
            0
        } else {
            wrapped(n) + 1
        },
{
    reveal(wrapped);
    let c = n as int;
    let k = usize::MAX + 1;
    assert(0 <= c % k < k && (c < k ==> c % k == c) && (c + 1) % k == if c % k == k - 1 {
        0
    } else {
        c % k + 1
    }) by (nonlinear_arith)
        requires
            c >= 0,
            k > 1,
    ;
}

/// Nothing was queued or removed, nobody was notified, and nothing was attached
/// to a transaction or committed. Objects might have come and gone, and might be
/// linked differently.
pub open spec fn unmoved(v: BusView, w: BusView) -> bool {
    &&& forall|p: Addr| #[trigger]
        w.peers.contains_key(p) ==> {
            ||| v.peers.contains_key(p) && w.peers[p].queue == v.peers[p].queue
                && w.peers[p].ready == v.peers[p].ready && w.peers[p].busy == v.peers[p].busy
                && w.peers[p].committed == v.peers[p].committed
            ||| w.peers[p].queue.len() == 0 && w.peers[p].ready.len() == 0
                && w.peers[p].busy.len() == 0
        }
    &&& forall|e: Addr| #[trigger]
        w.tx_nodes.contains_key(e) ==> {
            ||| v.tx_nodes.contains_key(e) && w.tx_nodes[e].tx == v.tx_nodes[e].tx
                && w.tx_nodes[e].queued == v.tx_nodes[e].queued
            ||| w.tx_nodes[e].tx is None && !w.tx_nodes[e].queued
        }
    &&& forall|t: Addr| #[trigger]
        v.txs.contains_key(t) && w.txs.contains_key(t) ==> w.txs[t] == v.txs[t]
}

/// A bus stays settled if nothing is queued, notified, or committed.
pub proof fn lemma_unmoved(v: BusView, w: BusView)
    requires
        v.wf(),
        w.intact(),
        unmoved(v, w),
    ensures
        w.wf(),
{
    reveal(BusView::settled);
    lemma_ok(v);
    lemma_ok(w);
    assert forall|e: Addr| #[trigger] w.tx_nodes.contains_key(e) implies {
        &&& w.tx_nodes[e].tx is Some ==> w.is_committed(e)
        &&& w.tx_nodes[e].queued ==> w.tx_nodes[e].tx is Some
    } by {
        assert(w.tx_node_ok(e));
        if w.tx_nodes[e].tx is Some {
            assert(v.tx_nodes.contains_key(e) && v.tx_node_ok(e));
            let t = w.tx_nodes[e].tx->0;
            assert(v.txs.contains_key(t) && w.txs.contains_key(t));
        }
    }
    assert forall|p: Addr| #[trigger]
        w.peers.contains_key(p) && w.lists(p).len() > 0 implies w.peers[p].committed > 0 by {
        assert(v.peers.contains_key(p) && w.lists(p) == v.lists(p));
    }
}

/// Everything is destined for a peer.
pub proof fn lemma_dest(v: BusView, e: Addr)
    requires
        v.intact(),
        v.tx_nodes.contains_key(e),
    ensures
        v.peers.contains_key(v.dest(e)),
{
    reveal(BusView::intact);
    assert(v.tx_node_ok(e));
    let base = v.tx_nodes[e].base;
    match v.tx_nodes[e].kind {
        TxNodeKind::User => {
            assert(v.message_ok(base));
            let h = v.messages[base].via;
            assert(v.handle_ok(h));
            assert(v.node_ok(v.handles[h].node));
        },
        TxNodeKind::ReleaseNode => {
            assert(v.handle_ok(base));
        },
        TxNodeKind::ReleaseHandle => {
            assert(v.handle_ok(base));
            assert(v.node_ok(v.handles[base].node));
        },
    }
}

/// A handle was created.
pub open spec fn handle_created(v: BusView, w: BusView, h: Addr, node: Addr, owner: Addr) -> bool {
    let e = w.handles[h].release_node;
    let f = w.handles[h].release_handle;
    &&& !v.handles.contains_key(h)
    &&& !v.tx_nodes.contains_key(e)
    &&& !v.tx_nodes.contains_key(f)
    &&& e != f
    &&& w == v.handle_added(h, e, f, node, owner)
}

/// A message was created.
pub open spec fn message_created(
    v: BusView,
    w: BusView,
    m: Addr,
    via: Addr,
    transfers: Seq<Addr>,
    shared: Addr,
) -> bool {
    let e = w.messages[m].tx_node;
    &&& !v.messages.contains_key(m)
    &&& !v.tx_nodes.contains_key(e)
    &&& w == v.message_added(m, e, via, transfers, shared)
}

/// A message was sent as part of an operation.
pub open spec fn message_sent(
    v: BusView,
    w: BusView,
    o: Addr,
    via: Addr,
    transfers: Seq<Addr>,
    shared: Addr,
) -> bool {
    exists|m: Addr, e: Addr| #[trigger] sent_as(v, w, o, via, transfers, shared, m, e)
}

/// A message was sent as part of an operation, in the form of the given objects.
pub open spec fn sent_as(
    v: BusView,
    w: BusView,
    o: Addr,
    via: Addr,
    transfers: Seq<Addr>,
    shared: Addr,
    m: Addr,
    e: Addr,
) -> bool {
    &&& !v.messages.contains_key(m)
    &&& !v.tx_nodes.contains_key(e)
    &&& w == v.message_added(m, e, via, transfers, shared).op_message_linked(o, m)
}

/// Handles of the given owner were created, to the same nodes as other handles.
pub open spec fn handles_created(
    v: BusView,
    w: BusView,
    s: Seq<Addr>,
    owner: Addr,
    hs: Seq<Addr>,
) -> bool
    decreases s.len(),
{
    if s.len() == 0 {
        w == v && hs.len() == 0
    } else {
        hs.len() == s.len() && exists|x: BusView|
            handles_created(v, x, s.drop_last(), owner, hs.drop_last())
                && #[trigger] handle_created(
                x,
                w,
                hs.last(),
                v.handles[s.last()].node,
                owner,
            )
    }
}

/// A sequence has the elements of another one, in any order.
pub open spec fn rearranged(s: Seq<Addr>, t: Seq<Addr>) -> bool {
    &&& s.no_duplicates()
    &&& s.len() == t.len()
    &&& forall|a: Addr| #[trigger] s.contains(a) <==> t.contains(a)
}

/// An operation was committed, and the given peers have to be woken up.
///
/// First, everything is queued on the receiving peers. With this settled, the
/// transaction is committed. Then, the handles that are transferred are linked,
/// the nodes that were released are cleared, and all peers are notified, in no
/// particular order. The operation is gone afterwards.
pub open spec fn op_committed(v: BusView, w: BusView, o: Addr, wakes: Seq<Addr>) -> bool {
    exists|ms: Seq<Addr>, ns: Seq<Addr>, rs: Seq<Addr>, hs: Seq<Addr>| #[trigger]
        committed_as(v, w, o, wakes, ms, ns, rs, hs)
}

/// An operation was committed, with its messages, its nodes, the handles to
/// these nodes, and its handles processed in the given order.
pub open spec fn committed_as(
    v: BusView,
    w: BusView,
    o: Addr,
    wakes: Seq<Addr>,
    ms: Seq<Addr>,
    ns: Seq<Addr>,
    rs: Seq<Addr>,
    hs: Seq<Addr>,
) -> bool {
    let a = v.op_queued(o).tx_committed(v.ops[o].tx);
    let b = a.op_messages_cleared(o).transfers_linked(ms);
    let c = b.op_nodes_cleared(o).nodes_cleared(ns);
    let d = c.op_handles_cleared(o);
    &&& rearranged(ms, a.ops[o].messages)
    &&& rearranged(ns, a.ops[o].nodes)
    &&& rs.no_duplicates()
    &&& forall|h: Addr| #[trigger]
        rs.contains(h) <==> b.handles.contains_key(h) && b.handles[h].linked
            && a.ops[o].nodes.contains(b.handles[h].node)
    &&& rearranged(hs, a.ops[o].handles)
    &&& wakes == ms.map_values(|m: Addr| v.message_dest(m)) + rs.map_values(
        |h: Addr| v.handles[h].owner,
    ) + hs.map_values(|h: Addr| v.handle_dest(h))
    &&& w == d.all_notified(wakes).op_removed(o)
}

/// A peer was shut down, and the given peers have to be woken up.
///
/// The queue of the peer is sealed, and everything that is queued on the peer is
/// discarded. The handles that are transferred by discarded messages are
/// released, as part of the shutdown transaction of the peer.
pub open spec fn peer_ended(v: BusView, w: BusView, p: Addr, wakes: Seq<Addr>) -> bool {
    exists|o: Addr| #[trigger] ended_as(v, w, p, wakes, o)
}

/// A peer was shut down, by use of the given operation.
pub open spec fn ended_as(v: BusView, w: BusView, p: Addr, wakes: Seq<Addr>, o: Addr) -> bool {
    &&& !v.ops.contains_key(o)
    &&& op_committed(
        v.op_added(o, p, v.peers[p].shutdown).drained(p).transfers_released(o, v.lists(p)),
        w,
        o,
        wakes,
    )
}

/// Creating a transaction keeps the bus intact.
pub proof fn lemma_tx_added(v: BusView, t: Addr)
    requires
        v.intact(),
        !v.txs.contains_key(t),
    ensures
        v.tx_added(t).intact(),
{
    reveal(BusView::intact);
    lemma_extended(v, v.tx_added(t));
}

/// Creating a peer keeps the bus intact.
pub proof fn lemma_peer_added(v: BusView, p: Addr, actor: Addr, shutdown: Addr)
    requires
        v.intact(),
        !v.peers.contains_key(p),
        v.txs.contains_key(shutdown),
    ensures
        v.peer_added(p, actor, shutdown).intact(),
{
    reveal(BusView::intact);
    lemma_extended(v, v.peer_added(p, actor, shutdown));
}

/// Creating a node keeps the bus intact.
pub proof fn lemma_node_added(v: BusView, n: Addr, owner: Addr)
    requires
        v.intact(),
        !v.nodes.contains_key(n),
        v.peers.contains_key(owner),
    ensures
        v.node_added(n, owner).intact(),
{
    reveal(BusView::intact);
    lemma_extended(v, v.node_added(n, owner));
}

/// Creating a handle keeps the bus intact.
pub proof fn lemma_handle_added(v: BusView, h: Addr, e: Addr, f: Addr, node: Addr, owner: Addr)
    requires
        v.intact(),
        !v.handles.contains_key(h),
        !v.tx_nodes.contains_key(e),
        !v.tx_nodes.contains_key(f),
        e != f,
        v.nodes.contains_key(node),
        v.peers.contains_key(owner),
    ensures
        v.handle_added(h, e, f, node, owner).intact(),
{
    reveal(BusView::intact);
    lemma_extended(v, v.handle_added(h, e, f, node, owner));
}

/// Creating shared data keeps the bus intact.
pub proof fn lemma_shared_added(v: BusView, s: Addr, data: Seq<u8>)
    requires
        v.intact(),
        !v.shareds.contains_key(s),
    ensures
        v.shared_added(s, data).intact(),
{
    reveal(BusView::intact);
    lemma_extended(v, v.shared_added(s, data));
}

/// Creating a message keeps the bus intact.
pub proof fn lemma_message_added(
    v: BusView,
    m: Addr,
    e: Addr,
    via: Addr,
    transfers: Seq<Addr>,
    shared: Addr,
)
    requires
        v.intact(),
        !v.messages.contains_key(m),
        !v.tx_nodes.contains_key(e),
        v.handles.contains_key(via),
        v.shareds.contains_key(shared),
        forall|i: int| #![trigger transfers[i]]
            0 <= i < transfers.len() ==> v.handles.contains_key(transfers[i]),
    ensures
        v.message_added(m, e, via, transfers, shared).intact(),
{
    reveal(BusView::intact);
    lemma_extended(v, v.message_added(m, e, via, transfers, shared));
}

/// Creating an operation keeps the bus intact.
pub proof fn lemma_op_added(v: BusView, o: Addr, operator: Addr, tx: Addr)
    requires
        v.intact(),
        !v.ops.contains_key(o),
        v.peers.contains_key(operator),
        v.txs.contains_key(tx),
    ensures
        v.op_added(o, operator, tx).intact(),
{
    reveal(BusView::intact);
    lemma_extended(v, v.op_added(o, operator, tx));
}

/// The objects of an intact bus are intact.
pub proof fn lemma_ok(v: BusView)
    requires
        v.intact(),
    ensures
        forall|p: Addr| #[trigger] v.peers.contains_key(p) ==> v.peer_ok(p),
        forall|n: Addr| #[trigger] v.nodes.contains_key(n) ==> v.node_ok(n),
        forall|h: Addr| #[trigger] v.handles.contains_key(h) ==> v.handle_ok(h),
        forall|m: Addr| #[trigger] v.messages.contains_key(m) ==> v.message_ok(m),
        forall|e: Addr| #[trigger] v.tx_nodes.contains_key(e) ==> v.tx_node_ok(e),
        forall|o: Addr| #[trigger] v.ops.contains_key(o) ==> v.op_ok(o),
{
    reveal(BusView::intact);
}

/// The same objects are the same but for their links.
pub open spec fn similar(v: BusView, w: BusView) -> bool {
    &&& w.peers.dom() =~= v.peers.dom()
    &&& w.nodes.dom() =~= v.nodes.dom()
    &&& w.handles.dom() =~= v.handles.dom()
    &&& w.messages.dom() =~= v.messages.dom()
    &&& w.shareds.dom() =~= v.shareds.dom()
    &&& w.txs.dom() =~= v.txs.dom()
    &&& w.tx_nodes.dom() =~= v.tx_nodes.dom()
    &&& forall|p: Addr| #[trigger]
        v.peers.contains_key(p) ==> w.peers[p].shutdown == v.peers[p].shutdown
    &&& forall|n: Addr| #[trigger]
        v.nodes.contains_key(n) ==> w.nodes[n].owner == v.nodes[n].owner
    &&& forall|h: Addr| #[trigger]
        v.handles.contains_key(h) ==> {
            &&& w.handles[h].node == v.handles[h].node
            &&& w.handles[h].owner == v.handles[h].owner
            &&& w.handles[h].release_node == v.handles[h].release_node
            &&& w.handles[h].release_handle == v.handles[h].release_handle
        }
    &&& forall|m: Addr| #[trigger]
        v.messages.contains_key(m) ==> {
            &&& w.messages[m].via == v.messages[m].via
            &&& w.messages[m].transfers == v.messages[m].transfers
            &&& w.messages[m].shared == v.messages[m].shared
            &&& w.messages[m].tx_node == v.messages[m].tx_node
        }
    &&& forall|s: Addr| #[trigger]
        v.shareds.contains_key(s) ==> w.shareds[s].data == v.shareds[s].data
    &&& forall|e: Addr| #[trigger]
        v.tx_nodes.contains_key(e) ==> w.tx_nodes[e].kind == v.tx_nodes[e].kind
            && w.tx_nodes[e].base == v.tx_nodes[e].base
}

/// Where things lead to does not depend on links.
pub proof fn lemma_similar(v: BusView, w: BusView)
    requires
        v.intact(),
        similar(v, w),
    ensures
        forall|h: Addr| #[trigger]
            v.handles.contains_key(h) ==> w.handle_dest(h) == v.handle_dest(h),
        forall|m: Addr| #[trigger]
            v.messages.contains_key(m) ==> w.message_dest(m) == v.message_dest(m),
        forall|e: Addr| #[trigger] v.tx_nodes.contains_key(e) ==> w.dest(e) == v.dest(e),
        forall|s: Seq<Addr>| #[trigger]
            w.link_keys(s) == v.link_keys(s) || !all_in(s, v.handles.dom()),
        forall|s: Seq<Addr>| #[trigger]
            w.message_keys(s) == v.message_keys(s) || !all_in(s, v.messages.dom()),
        forall|s: Seq<Addr>| #[trigger] w.node_keys(s) == v.node_keys(s),
        forall|s: Seq<Addr>| #[trigger]
            w.handle_keys(s) == v.handle_keys(s) || !all_in(s, v.handles.dom()),
{
    reveal(BusView::intact);
    assert forall|h: Addr| #[trigger] v.handles.contains_key(h) implies w.handle_dest(h)
        == v.handle_dest(h) by {
        assert(v.handle_ok(h));
    }
    assert forall|m: Addr| #[trigger] v.messages.contains_key(m) implies w.message_dest(m)
        == v.message_dest(m) by {
        assert(v.message_ok(m));
    }
    assert forall|e: Addr| #[trigger] v.tx_nodes.contains_key(e) implies w.dest(e) == v.dest(e) by {
        assert(v.tx_node_ok(e));
    }
    assert forall|s: Seq<Addr>| all_in(s, v.handles.dom()) implies #[trigger] w.link_keys(s)
        == v.link_keys(s) by {
        assert forall|i: int| 0 <= i < s.len() implies w.link_keys(s)[i] == v.link_keys(s)[i] by {
            assert(v.handles.contains_key(s[i]));
        }
        assert(w.link_keys(s) =~= v.link_keys(s));
    }
    assert forall|s: Seq<Addr>| all_in(s, v.messages.dom()) implies #[trigger] w.message_keys(s)
        == v.message_keys(s) by {
        assert forall|i: int| 0 <= i < s.len() implies w.message_keys(s)[i] == v.message_keys(
            s,
        )[i] by {
            assert(v.messages.contains_key(s[i]));
        }
        assert(w.message_keys(s) =~= v.message_keys(s));
    }
    assert forall|s: Seq<Addr>| #[trigger] w.node_keys(s) == v.node_keys(s) by {
        assert(w.node_keys(s) =~= v.node_keys(s));
    }
    assert forall|s: Seq<Addr>| all_in(s, v.handles.dom()) implies #[trigger] w.handle_keys(s)
        == v.handle_keys(s) by {
        assert forall|i: int| 0 <= i < s.len() implies w.handle_keys(s)[i] == v.handle_keys(
            s,
        )[i] by {
            assert(v.handles.contains_key(s[i]));
        }
        assert(w.handle_keys(s) =~= v.handle_keys(s));
    }
}

/// All elements of a sequence are in a set.
pub open spec fn all_in(s: Seq<Addr>, set: Set<Addr>) -> bool {
    forall|i: int| #![trigger s[i]] 0 <= i < s.len() ==> set.contains(s[i])
}

/// The links of a peer are the same.
pub open spec fn same_peer(v: BusView, w: BusView, p: Addr) -> bool {
    &&& w.lists(p) == v.lists(p)
    &&& w.peers[p].sealed == v.peers[p].sealed
    &&& w.peers[p].queue == v.peers[p].queue
    &&& forall|i: int| #![trigger v.lists(p)[i]]
        0 <= i < v.lists(p).len() ==> w.tx_nodes[v.lists(p)[i]].queued
            == v.tx_nodes[v.lists(p)[i]].queued
}

/// The links of a node are the same.
pub open spec fn same_node(v: BusView, w: BusView, n: Addr) -> bool {
    &&& w.nodes[n].handles == v.nodes[n].handles
    &&& w.nodes[n].op == v.nodes[n].op
    &&& w.nodes[n].op matches Some(o) ==> w.ops.contains_key(o) && w.ops[o].nodes
        == v.ops[o].nodes
    &&& forall|i: int| #![trigger v.nodes[n].handles[i]]
        0 <= i < v.nodes[n].handles.len() ==> w.handles[v.nodes[n].handles[i]].linked
            == v.handles[v.nodes[n].handles[i]].linked
}

/// The links of a handle are the same.
pub open spec fn same_handle(v: BusView, w: BusView, h: Addr) -> bool {
    &&& w.handles[h].linked == v.handles[h].linked
    &&& w.handles[h].op == v.handles[h].op
    &&& w.handles[h].linked ==> w.nodes[v.handles[h].node].handles
        == v.nodes[v.handles[h].node].handles
    &&& w.handles[h].op matches Some(o) ==> w.ops.contains_key(o) && w.ops[o].handles
        == v.ops[o].handles
}

/// The links of a message are the same.
pub open spec fn same_message(v: BusView, w: BusView, m: Addr) -> bool {
    &&& w.messages[m].op == v.messages[m].op
    &&& w.messages[m].op matches Some(o) ==> w.ops.contains_key(o) && w.ops[o].messages
        == v.ops[o].messages
}

/// The links of an entry are the same.
pub open spec fn same_tx_node(v: BusView, w: BusView, e: Addr) -> bool {
    &&& w.tx_nodes[e].queued == v.tx_nodes[e].queued
    &&& w.tx_nodes[e].tx matches Some(t) ==> w.txs.contains_key(t)
    &&& w.tx_nodes[e].queued ==> w.lists(v.dest(e)) == v.lists(v.dest(e))
}

/// The links of an operation are the same.
pub open spec fn same_op(v: BusView, w: BusView, o: Addr) -> bool {
    &&& w.ops[o] == v.ops[o]
    &&& forall|i: int| #![trigger v.ops[o].messages[i]]
        0 <= i < v.ops[o].messages.len() ==> w.messages[v.ops[o].messages[i]].op
            == v.messages[v.ops[o].messages[i]].op
    &&& forall|i: int| #![trigger v.ops[o].nodes[i]]
        0 <= i < v.ops[o].nodes.len() ==> w.nodes[v.ops[o].nodes[i]].op
            == v.nodes[v.ops[o].nodes[i]].op
    &&& forall|i: int| #![trigger v.ops[o].handles[i]]
        0 <= i < v.ops[o].handles.len() ==> w.handles[v.ops[o].handles[i]].op
            == v.handles[v.ops[o].handles[i]].op
}

/// Objects with the same links stay intact.
pub proof fn lemma_same(v: BusView, w: BusView)
    requires
        v.intact(),
        similar(v, w),
    ensures
        forall|p: Addr| #![trigger w.peer_ok(p)]
            v.peers.contains_key(p) && same_peer(v, w, p) ==> w.peer_ok(p),
        forall|n: Addr| #![trigger w.node_ok(n)]
            v.nodes.contains_key(n) && same_node(v, w, n) ==> w.node_ok(n),
        forall|h: Addr| #![trigger w.handle_ok(h)]
            v.handles.contains_key(h) && same_handle(v, w, h) ==> w.handle_ok(h),
        forall|m: Addr| #![trigger w.message_ok(m)]
            v.messages.contains_key(m) && same_message(v, w, m) ==> w.message_ok(m),
        forall|e: Addr| #![trigger w.tx_node_ok(e)]
            v.tx_nodes.contains_key(e) && same_tx_node(v, w, e) ==> w.tx_node_ok(e),
        forall|o: Addr| #![trigger w.op_ok(o)]
            v.ops.contains_key(o) && same_op(v, w, o) ==> w.op_ok(o),
{
    reveal(BusView::intact);
    lemma_similar(v, w);
    assert forall|p: Addr| #![trigger w.peer_ok(p)]
        v.peers.contains_key(p) && same_peer(v, w, p) implies w.peer_ok(p) by {
        assert(v.peer_ok(p));
    }
    assert forall|n: Addr| #![trigger w.node_ok(n)]
        v.nodes.contains_key(n) && same_node(v, w, n) implies w.node_ok(n) by {
        assert(v.node_ok(n));
        let s = v.nodes[n].handles;
        assert(all_in(s, v.handles.dom()));
        assert(w.link_keys(s) == v.link_keys(s));
    }
    assert forall|h: Addr| #![trigger w.handle_ok(h)]
        v.handles.contains_key(h) && same_handle(v, w, h) implies w.handle_ok(h) by {
        assert(v.handle_ok(h));
    }
    assert forall|m: Addr| #![trigger w.message_ok(m)]
        v.messages.contains_key(m) && same_message(v, w, m) implies w.message_ok(m) by {
        assert(v.message_ok(m));
    }
    assert forall|e: Addr| #![trigger w.tx_node_ok(e)]
        v.tx_nodes.contains_key(e) && same_tx_node(v, w, e) implies w.tx_node_ok(e) by {
        assert(v.tx_node_ok(e));
    }
    assert forall|o: Addr| #![trigger w.op_ok(o)]
        v.ops.contains_key(o) && same_op(v, w, o) implies w.op_ok(o) by {
        assert(v.op_ok(o));
        assert(all_in(v.ops[o].messages, v.messages.dom()));
        assert(all_in(v.ops[o].handles, v.handles.dom()));
        assert(w.message_keys(v.ops[o].messages) == v.message_keys(v.ops[o].messages));
        assert(w.handle_keys(v.ops[o].handles) == v.handle_keys(v.ops[o].handles));
        assert(w.node_keys(v.ops[o].nodes) == v.node_keys(v.ops[o].nodes));
    }
}

/// Inserting an element that is not there yet.
pub proof fn lemma_insert_once(s: Seq<Addr>, i: int, a: Addr)
    requires
        s.no_duplicates(),
        !s.contains(a),
        0 <= i <= s.len(),
    ensures
        s.insert(i, a).no_duplicates(),
        forall|b: Addr| #[trigger] s.insert(i, a).contains(b) <==> b == a || s.contains(b),
        forall|set: Set<Addr>| #[trigger] all_in(s, set) && set.contains(a) ==> all_in(
            s.insert(i, a),
            set,
        ),
{
    let t = s.insert(i, a);
    assert forall|x: int, y: int| 0 <= x < t.len() && 0 <= y < t.len() && x != y implies t[x]
        != t[y] by {
        let c = if x < i { x } else { x - 1 };
        let d = if y < i { y } else { y - 1 };
        if x != i {
            assert(t[x] == s[c]);
        }
        if y != i {
            assert(t[y] == s[d]);
        }
    }
    assert forall|b: Addr| #[trigger] t.contains(b) <==> b == a || s.contains(b) by {
        if s.contains(b) {
            let j = choose|j: int| 0 <= j < s.len() && s[j] == b;
            assert(t[if j < i { j } else { j + 1 }] == b);
        }
        assert(t[i] == a);
        if t.contains(b) && b != a {
            let j = choose|j: int| 0 <= j < t.len() && t[j] == b;
            assert(s[if j < i { j } else { j - 1 }] == b);
        }
    }
    assert forall|set: Set<Addr>| #[trigger] all_in(s, set) && set.contains(a) implies all_in(
        t,
        set,
    ) by {
        assert forall|j: int| #![trigger t[j]] 0 <= j < t.len() implies set.contains(t[j]) by {
            if j != i {
                assert(t[j] == s[if j < i { j } else { j - 1 }]);
            }
        }
    }
}

/// Removing an element.
pub proof fn lemma_remove_once(s: Seq<Addr>, i: int)
    requires
        s.no_duplicates(),
        0 <= i < s.len(),
    ensures
        s.remove(i).no_duplicates(),
        forall|b: Addr| #[trigger] s.remove(i).contains(b) <==> b != s[i] && s.contains(b),
{
    let t = s.remove(i);
    assert forall|b: Addr| #[trigger] t.contains(b) <==> b != s[i] && s.contains(b) by {
        if b != s[i] && s.contains(b) {
            let j = choose|j: int| 0 <= j < s.len() && s[j] == b;
            assert(t[if j < i { j } else { j - 1 }] == b);
        }
        if t.contains(b) {
            let j = choose|j: int| 0 <= j < t.len() && t[j] == b;
            assert(s[if j < i { j } else { j + 1 }] == b);
        }
    }
    assert forall|x: int, y: int| 0 <= x < t.len() && 0 <= y < t.len() && x != y implies t[x]
        != t[y] by {
        assert(t[x] == s[if x < i { x } else { x + 1 }]);
        assert(t[y] == s[if y < i { y } else { y + 1 }]);
    }
}

/// Removing a key keeps the others in order.
pub proof fn lemma_ordered_remove(keys: Seq<int>, i: int)
    requires
        ordered(keys),
        0 <= i < keys.len(),
    ensures
        ordered(keys.remove(i)),
{
    let t = keys.remove(i);
    assert forall|x: int, y: int| #![trigger t[x], t[y]] 0 <= x < y < t.len() implies t[x]
        <= t[y] by {
        assert(t[x] == keys[if x < i { x } else { x + 1 }]);
        assert(t[y] == keys[if y < i { y } else { y + 1 }]);
    }
}

/// Linking a handle into its node keeps the bus intact.
pub proof fn lemma_handle_linked(v: BusView, h: Addr)
    requires
        v.intact(),
        v.handles.contains_key(h),
        !v.handles[h].linked,
    ensures
        v.handle_linked(h).intact(),
        similar(v, v.handle_linked(h)),
{
    reveal(BusView::intact);
    let w = v.handle_linked(h);
    let n = v.handles[h].node;
    let s = v.nodes[n].handles;
    let k = v.handles[h].owner as int;
    let i = place(v.link_keys(s), k);
    let t = s.insert(i, h);
    assert(v.handle_ok(h));
    assert(v.node_ok(n));
    lemma_similar(v, w);
    lemma_same(v, w);
    lemma_place_ordered(v.link_keys(s), k);
    assert(v.link_keys(t) =~= v.link_keys(s).insert(i, k));
    assert(!s.contains(h));
    lemma_insert_once(s, i, h);
    assert(all_in(s, v.handles.dom()));
    assert(w.link_keys(t) == v.link_keys(t));
    assert forall|b: Addr| #[trigger] w.nodes.contains_key(b) implies w.node_ok(b) by {
        assert(v.node_ok(b));
        if b == n {
            assert forall|j: int| #![trigger t[j]] 0 <= j < t.len() implies w.handles.contains_key(
                t[j],
            ) && w.handles[t[j]].node == n && w.handles[t[j]].linked by {
                assert(t.contains(t[j]));
            }
        } else {
            assert(same_node(v, w, b));
        }
    }
    assert forall|b: Addr| #[trigger] w.handles.contains_key(b) implies w.handle_ok(b) by {
        assert(v.handle_ok(b));
    }
    assert forall|p: Addr| #[trigger] w.peers.contains_key(p) implies same_peer(v, w, p) by {}
    assert forall|m: Addr| #[trigger] w.messages.contains_key(m) implies same_message(v, w, m) by {
        assert(v.message_ok(m));
    }
    assert forall|e: Addr| #[trigger] w.tx_nodes.contains_key(e) implies same_tx_node(v, w, e) by {
        assert(v.tx_node_ok(e));
    }
    assert forall|o: Addr| #[trigger] w.ops.contains_key(o) implies same_op(v, w, o) by {}
}

/// Unlinking a handle from its node keeps the bus intact.
pub proof fn lemma_handle_unlinked(v: BusView, h: Addr)
    requires
        v.intact(),
        v.handles.contains_key(h),
        v.handles[h].linked,
    ensures
        v.handle_unlinked(h).intact(),
{
    reveal(BusView::intact);
    let w = v.handle_unlinked(h);
    let n = v.handles[h].node;
    let s = v.nodes[n].handles;
    assert(v.handle_ok(h));
    assert(v.node_ok(n));
    let i = s.index_of(h);
    assert(s[i] == h);
    let t = s.remove(i);
    lemma_similar(v, w);
    lemma_same(v, w);
    lemma_remove_once(s, i);
    lemma_ordered_remove(v.link_keys(s), i);
    assert(v.link_keys(t) =~= v.link_keys(s).remove(i));
    assert forall|j: int| #![trigger t[j]] 0 <= j < t.len() implies s.contains(t[j]) && t[j]
        != h by {
        assert(t.contains(t[j]));
    }
    assert(all_in(t, v.handles.dom()));
    assert(w.link_keys(t) == v.link_keys(t));
    assert forall|b: Addr| #[trigger] w.nodes.contains_key(b) implies w.node_ok(b) by {
        assert(v.node_ok(b));
        if b != n {
            assert(same_node(v, w, b));
        }
    }
    assert forall|b: Addr| #[trigger] w.handles.contains_key(b) implies w.handle_ok(b) by {
        assert(v.handle_ok(b));
    }
    assert forall|p: Addr| #[trigger] w.peers.contains_key(p) implies same_peer(v, w, p) by {}
    assert forall|m: Addr| #[trigger] w.messages.contains_key(m) implies same_message(v, w, m) by {
        assert(v.message_ok(m));
    }
    assert forall|e: Addr| #[trigger] w.tx_nodes.contains_key(e) implies same_tx_node(v, w, e) by {
        assert(v.tx_node_ok(e));
    }
    assert forall|o: Addr| #[trigger] w.ops.contains_key(o) implies same_op(v, w, o) by {}
}

/// Linking a message into an operation keeps the bus intact.
pub proof fn lemma_op_message_linked(v: BusView, o: Addr, a: Addr)
    requires
        v.intact(),
        v.ops.contains_key(o),
        v.messages.contains_key(a),
        v.messages[a].op is None,
    ensures
        v.op_message_linked(o, a).intact(),
{
    reveal(BusView::intact);
    let w = v.op_message_linked(o, a);
    let s = v.ops[o].messages;
    let k = v.message_dest(a) as int;
    let i = place(v.message_keys(s), k);
    let t = s.insert(i, a);
    assert(v.message_ok(a));
    assert(v.op_ok(o));
    lemma_similar(v, w);
    lemma_same(v, w);
    lemma_place_ordered(v.message_keys(s), k);
    assert(v.message_keys(t) =~= v.message_keys(s).insert(i, k));
    assert(!s.contains(a));
    lemma_insert_once(s, i, a);
    assert(all_in(s, v.messages.dom()));
    assert(w.message_keys(t) == v.message_keys(t));
    assert forall|b: Addr| #[trigger] w.ops.contains_key(b) implies w.op_ok(b) by {
        assert(v.op_ok(b));
        if b == o {
            assert(all_in(v.ops[b].nodes, v.nodes.dom()));
            assert(w.node_keys(v.ops[b].nodes) == v.node_keys(v.ops[b].nodes));
            assert(all_in(v.ops[b].handles, v.handles.dom()));
            assert(w.handle_keys(v.ops[b].handles) == v.handle_keys(v.ops[b].handles));
            assert forall|j: int| #![trigger t[j]] 0 <= j < t.len() implies t[j] == a || s.contains(
                t[j],
            ) by {
                assert(t.contains(t[j]));
            }
        } else {
            assert(same_op(v, w, b));
        }
    }
    assert forall|b: Addr| #[trigger] w.messages.contains_key(b) implies w.message_ok(b) by {
        assert(v.message_ok(b));

    }
    assert forall|b: Addr| #[trigger] w.nodes.contains_key(b) implies w.node_ok(b) by {
        assert(v.node_ok(b));
        assert(same_node(v, w, b));
    }
    assert forall|b: Addr| #[trigger] w.handles.contains_key(b) implies w.handle_ok(b) by {
        assert(v.handle_ok(b));
        assert(same_handle(v, w, b));
    }
    assert forall|p: Addr| #[trigger] w.peers.contains_key(p) implies same_peer(v, w, p) by {}
    assert forall|e: Addr| #[trigger] w.tx_nodes.contains_key(e) implies same_tx_node(v, w, e) by {
        assert(v.tx_node_ok(e));
    }
}

/// Unlinking a message from an operation keeps the bus intact.
pub proof fn lemma_op_message_unlinked(v: BusView, o: Addr, a: Addr)
    requires
        v.intact(),
        v.ops.contains_key(o),
        v.ops[o].messages.contains(a),
    ensures
        v.op_message_unlinked(o, a).intact(),
{
    reveal(BusView::intact);
    let w = v.op_message_unlinked(o, a);
    let s = v.ops[o].messages;
    assert(v.op_ok(o));
    let i = s.index_of(a);
    assert(s[i] == a);
    let t = s.remove(i);
    assert(v.message_ok(a));
    lemma_similar(v, w);
    lemma_same(v, w);
    lemma_remove_once(s, i);
    lemma_ordered_remove(v.message_keys(s), i);
    assert(v.message_keys(t) =~= v.message_keys(s).remove(i));
    assert forall|j: int| #![trigger t[j]] 0 <= j < t.len() implies s.contains(t[j]) && t[j]
        != a by {
        assert(t.contains(t[j]));
    }
    assert(all_in(t, v.messages.dom()));
    assert(w.message_keys(t) == v.message_keys(t));
    assert forall|b: Addr| #[trigger] w.ops.contains_key(b) implies w.op_ok(b) by {
        assert(v.op_ok(b));
        if b == o {
            assert(all_in(v.ops[b].nodes, v.nodes.dom()));
            assert(w.node_keys(v.ops[b].nodes) == v.node_keys(v.ops[b].nodes));
            assert(all_in(v.ops[b].handles, v.handles.dom()));
            assert(w.handle_keys(v.ops[b].handles) == v.handle_keys(v.ops[b].handles));
        } else {
            assert(same_op(v, w, b));
        }
    }
    assert forall|b: Addr| #[trigger] w.messages.contains_key(b) implies w.message_ok(b) by {
        assert(v.message_ok(b));

    }
    assert forall|b: Addr| #[trigger] w.nodes.contains_key(b) implies w.node_ok(b) by {
        assert(v.node_ok(b));
        assert(same_node(v, w, b));
    }
    assert forall|b: Addr| #[trigger] w.handles.contains_key(b) implies w.handle_ok(b) by {
        assert(v.handle_ok(b));
        assert(same_handle(v, w, b));
    }
    assert forall|p: Addr| #[trigger] w.peers.contains_key(p) implies same_peer(v, w, p) by {}
    assert forall|e: Addr| #[trigger] w.tx_nodes.contains_key(e) implies same_tx_node(v, w, e) by {
        assert(v.tx_node_ok(e));
    }
}

/// Unlinking all messages from an operation keeps the bus intact.
pub proof fn lemma_op_messages_cleared(v: BusView, o: Addr)
    requires
        v.intact(),
        v.ops.contains_key(o),
    ensures
        v.op_messages_cleared(o).intact(),
{
    reveal(BusView::intact);
    let w = v.op_messages_cleared(o);
    let s = v.ops[o].messages;
    assert(v.op_ok(o));
    lemma_similar(v, w);
    lemma_same(v, w);
    assert forall|b: Addr| #[trigger] w.ops.contains_key(b) implies w.op_ok(b) by {
        assert(v.op_ok(b));
        if b == o {
            assert(all_in(v.ops[b].nodes, v.nodes.dom()));
            assert(w.node_keys(v.ops[b].nodes) == v.node_keys(v.ops[b].nodes));
            assert(all_in(v.ops[b].handles, v.handles.dom()));
            assert(w.handle_keys(v.ops[b].handles) == v.handle_keys(v.ops[b].handles));
        } else {
            assert forall|j: int| #![trigger v.ops[b].messages[j]] 0 <= j
                < v.ops[b].messages.len() implies !s.contains(v.ops[b].messages[j]) by {
                if s.contains(v.ops[b].messages[j]) {
                    let x = choose|x: int| 0 <= x < s.len() && s[x] == v.ops[b].messages[j];
                    assert(v.messages[s[x]].op == Some(o));
                }
            }
            assert(same_op(v, w, b));
        }
    }
    assert forall|b: Addr| #[trigger] w.messages.contains_key(b) implies w.message_ok(b) by {
        assert(v.message_ok(b));
        if !s.contains(b) {
            assert(v.messages[b].op != Some(o));
        }

    }
    assert forall|b: Addr| #[trigger] w.nodes.contains_key(b) implies w.node_ok(b) by {
        assert(v.node_ok(b));
        assert(same_node(v, w, b));
    }
    assert forall|b: Addr| #[trigger] w.handles.contains_key(b) implies w.handle_ok(b) by {
        assert(v.handle_ok(b));
        assert(same_handle(v, w, b));
    }
    assert forall|p: Addr| #[trigger] w.peers.contains_key(p) implies same_peer(v, w, p) by {}
    assert forall|e: Addr| #[trigger] w.tx_nodes.contains_key(e) implies same_tx_node(v, w, e) by {
        assert(v.tx_node_ok(e));
    }
}

/// Linking a node into an operation keeps the bus intact.
pub proof fn lemma_op_node_linked(v: BusView, o: Addr, a: Addr)
    requires
        v.intact(),
        v.ops.contains_key(o),
        v.nodes.contains_key(a),
        v.nodes[a].op is None,
        v.nodes[a].owner == v.ops[o].operator,
    ensures
        v.op_node_linked(o, a).intact(),
{
    reveal(BusView::intact);
    let w = v.op_node_linked(o, a);
    let s = v.ops[o].nodes;
    let k = a as int;
    let i = place(v.node_keys(s), k);
    let t = s.insert(i, a);
    assert(v.node_ok(a));
    assert(v.op_ok(o));
    lemma_similar(v, w);
    lemma_same(v, w);
    lemma_place_ordered(v.node_keys(s), k);
    assert(v.node_keys(t) =~= v.node_keys(s).insert(i, k));
    assert(!s.contains(a));
    lemma_insert_once(s, i, a);
    assert(all_in(s, v.nodes.dom()));
    assert(w.node_keys(t) == v.node_keys(t));
    assert forall|b: Addr| #[trigger] w.ops.contains_key(b) implies w.op_ok(b) by {
        assert(v.op_ok(b));
        if b == o {
            assert(all_in(v.ops[b].messages, v.messages.dom()));
            assert(w.message_keys(v.ops[b].messages) == v.message_keys(v.ops[b].messages));
            assert(all_in(v.ops[b].handles, v.handles.dom()));
            assert(w.handle_keys(v.ops[b].handles) == v.handle_keys(v.ops[b].handles));
            assert forall|j: int| #![trigger t[j]] 0 <= j < t.len() implies t[j] == a || s.contains(
                t[j],
            ) by {
                assert(t.contains(t[j]));
            }
        } else {
            assert(same_op(v, w, b));
        }
    }
    assert forall|b: Addr| #[trigger] w.nodes.contains_key(b) implies w.node_ok(b) by {
        assert(v.node_ok(b));
        let s = v.nodes[b].handles;
        assert(w.link_keys(s) == v.link_keys(s) || !all_in(s, v.handles.dom()));
    }
    assert forall|b: Addr| #[trigger] w.messages.contains_key(b) implies w.message_ok(b) by {
        assert(v.message_ok(b));
        assert(same_message(v, w, b));
    }
    assert forall|b: Addr| #[trigger] w.handles.contains_key(b) implies w.handle_ok(b) by {
        assert(v.handle_ok(b));
        assert(same_handle(v, w, b));
    }
    assert forall|p: Addr| #[trigger] w.peers.contains_key(p) implies same_peer(v, w, p) by {}
    assert forall|e: Addr| #[trigger] w.tx_nodes.contains_key(e) implies same_tx_node(v, w, e) by {
        assert(v.tx_node_ok(e));
    }
}

/// Unlinking all nodes from an operation keeps the bus intact.
pub proof fn lemma_op_nodes_cleared(v: BusView, o: Addr)
    requires
        v.intact(),
        v.ops.contains_key(o),
    ensures
        v.op_nodes_cleared(o).intact(),
{
    reveal(BusView::intact);
    let w = v.op_nodes_cleared(o);
    let s = v.ops[o].nodes;
    assert(v.op_ok(o));
    lemma_similar(v, w);
    lemma_same(v, w);
    assert forall|b: Addr| #[trigger] w.ops.contains_key(b) implies w.op_ok(b) by {
        assert(v.op_ok(b));
        if b == o {
            assert(all_in(v.ops[b].messages, v.messages.dom()));
            assert(w.message_keys(v.ops[b].messages) == v.message_keys(v.ops[b].messages));
            assert(all_in(v.ops[b].handles, v.handles.dom()));
            assert(w.handle_keys(v.ops[b].handles) == v.handle_keys(v.ops[b].handles));
        } else {
            assert forall|j: int| #![trigger v.ops[b].nodes[j]] 0 <= j
                < v.ops[b].nodes.len() implies !s.contains(v.ops[b].nodes[j]) by {
                if s.contains(v.ops[b].nodes[j]) {
                    let x = choose|x: int| 0 <= x < s.len() && s[x] == v.ops[b].nodes[j];
                    assert(v.nodes[s[x]].op == Some(o));
                }
            }
            assert(same_op(v, w, b));
        }
    }
    assert forall|b: Addr| #[trigger] w.nodes.contains_key(b) implies w.node_ok(b) by {
        assert(v.node_ok(b));
        if !s.contains(b) {
            assert(v.nodes[b].op != Some(o));
        }
        let s = v.nodes[b].handles;
        assert(w.link_keys(s) == v.link_keys(s) || !all_in(s, v.handles.dom()));
    }
    assert forall|b: Addr| #[trigger] w.messages.contains_key(b) implies w.message_ok(b) by {
        assert(v.message_ok(b));
        assert(same_message(v, w, b));
    }
    assert forall|b: Addr| #[trigger] w.handles.contains_key(b) implies w.handle_ok(b) by {
        assert(v.handle_ok(b));
        assert(same_handle(v, w, b));
    }
    assert forall|p: Addr| #[trigger] w.peers.contains_key(p) implies same_peer(v, w, p) by {}
    assert forall|e: Addr| #[trigger] w.tx_nodes.contains_key(e) implies same_tx_node(v, w, e) by {
        assert(v.tx_node_ok(e));
    }
}

/// Linking a handle into an operation keeps the bus intact.
pub proof fn lemma_op_handle_linked(v: BusView, o: Addr, a: Addr)
    requires
        v.intact(),
        v.ops.contains_key(o),
        v.handles.contains_key(a),
        v.handles[a].op is None,
        v.handles[a].owner == v.ops[o].operator,
    ensures
        v.op_handle_linked(o, a).intact(),
{
    reveal(BusView::intact);
    let w = v.op_handle_linked(o, a);
    let s = v.ops[o].handles;
    let k = v.handle_dest(a) as int;
    let i = place(v.handle_keys(s), k);
    let t = s.insert(i, a);
    assert(v.handle_ok(a));
    assert(v.op_ok(o));
    lemma_similar(v, w);
    lemma_same(v, w);
    lemma_place_ordered(v.handle_keys(s), k);
    assert(v.handle_keys(t) =~= v.handle_keys(s).insert(i, k));
    assert(!s.contains(a));
    lemma_insert_once(s, i, a);
    assert(all_in(s, v.handles.dom()));
    assert(w.handle_keys(t) == v.handle_keys(t));
    assert forall|b: Addr| #[trigger] w.ops.contains_key(b) implies w.op_ok(b) by {
        assert(v.op_ok(b));
        if b == o {
            assert(all_in(v.ops[b].messages, v.messages.dom()));
            assert(w.message_keys(v.ops[b].messages) == v.message_keys(v.ops[b].messages));
            assert(all_in(v.ops[b].nodes, v.nodes.dom()));
            assert(w.node_keys(v.ops[b].nodes) == v.node_keys(v.ops[b].nodes));
            assert forall|j: int| #![trigger t[j]] 0 <= j < t.len() implies t[j] == a || s.contains(
                t[j],
            ) by {
                assert(t.contains(t[j]));
            }
        } else {
            assert(same_op(v, w, b));
        }
    }
    assert forall|b: Addr| #[trigger] w.handles.contains_key(b) implies w.handle_ok(b) by {
        assert(v.handle_ok(b));

    }
    assert forall|b: Addr| #[trigger] w.messages.contains_key(b) implies w.message_ok(b) by {
        assert(v.message_ok(b));
        assert(same_message(v, w, b));
    }
    assert forall|b: Addr| #[trigger] w.nodes.contains_key(b) implies w.node_ok(b) by {
        assert(v.node_ok(b));
        assert(same_node(v, w, b));
    }
    assert forall|p: Addr| #[trigger] w.peers.contains_key(p) implies same_peer(v, w, p) by {}
    assert forall|e: Addr| #[trigger] w.tx_nodes.contains_key(e) implies same_tx_node(v, w, e) by {
        assert(v.tx_node_ok(e));
    }
}

/// Unlinking a handle from an operation keeps the bus intact.
pub proof fn lemma_op_handle_unlinked(v: BusView, o: Addr, a: Addr)
    requires
        v.intact(),
        v.ops.contains_key(o),
        v.ops[o].handles.contains(a),
    ensures
        v.op_handle_unlinked(o, a).intact(),
{
    reveal(BusView::intact);
    let w = v.op_handle_unlinked(o, a);
    let s = v.ops[o].handles;
    assert(v.op_ok(o));
    let i = s.index_of(a);
    assert(s[i] == a);
    let t = s.remove(i);
    assert(v.handle_ok(a));
    lemma_similar(v, w);
    lemma_same(v, w);
    lemma_remove_once(s, i);
    lemma_ordered_remove(v.handle_keys(s), i);
    assert(v.handle_keys(t) =~= v.handle_keys(s).remove(i));
    assert forall|j: int| #![trigger t[j]] 0 <= j < t.len() implies s.contains(t[j]) && t[j]
        != a by {
        assert(t.contains(t[j]));
    }
    assert(all_in(t, v.handles.dom()));
    assert(w.handle_keys(t) == v.handle_keys(t));
    assert forall|b: Addr| #[trigger] w.ops.contains_key(b) implies w.op_ok(b) by {
        assert(v.op_ok(b));
        if b == o {
            assert(all_in(v.ops[b].messages, v.messages.dom()));
            assert(w.message_keys(v.ops[b].messages) == v.message_keys(v.ops[b].messages));
            assert(all_in(v.ops[b].nodes, v.nodes.dom()));
            assert(w.node_keys(v.ops[b].nodes) == v.node_keys(v.ops[b].nodes));
        } else {
            assert(same_op(v, w, b));
        }
    }
    assert forall|b: Addr| #[trigger] w.handles.contains_key(b) implies w.handle_ok(b) by {
        assert(v.handle_ok(b));

    }
    assert forall|b: Addr| #[trigger] w.messages.contains_key(b) implies w.message_ok(b) by {
        assert(v.message_ok(b));
        assert(same_message(v, w, b));
    }
    assert forall|b: Addr| #[trigger] w.nodes.contains_key(b) implies w.node_ok(b) by {
        assert(v.node_ok(b));
        assert(same_node(v, w, b));
    }
    assert forall|p: Addr| #[trigger] w.peers.contains_key(p) implies same_peer(v, w, p) by {}
    assert forall|e: Addr| #[trigger] w.tx_nodes.contains_key(e) implies same_tx_node(v, w, e) by {
        assert(v.tx_node_ok(e));
    }
}

/// Unlinking all handles from an operation keeps the bus intact.
pub proof fn lemma_op_handles_cleared(v: BusView, o: Addr)
    requires
        v.intact(),
        v.ops.contains_key(o),
    ensures
        v.op_handles_cleared(o).intact(),
{
    reveal(BusView::intact);
    let w = v.op_handles_cleared(o);
    let s = v.ops[o].handles;
    assert(v.op_ok(o));
    lemma_similar(v, w);
    lemma_same(v, w);
    assert forall|b: Addr| #[trigger] w.ops.contains_key(b) implies w.op_ok(b) by {
        assert(v.op_ok(b));
        if b == o {
            assert(all_in(v.ops[b].messages, v.messages.dom()));
            assert(w.message_keys(v.ops[b].messages) == v.message_keys(v.ops[b].messages));
            assert(all_in(v.ops[b].nodes, v.nodes.dom()));
            assert(w.node_keys(v.ops[b].nodes) == v.node_keys(v.ops[b].nodes));
        } else {
            assert forall|j: int| #![trigger v.ops[b].handles[j]] 0 <= j
                < v.ops[b].handles.len() implies !s.contains(v.ops[b].handles[j]) by {
                if s.contains(v.ops[b].handles[j]) {
                    let x = choose|x: int| 0 <= x < s.len() && s[x] == v.ops[b].handles[j];
                    assert(v.handles[s[x]].op == Some(o));
                }
            }
            assert(same_op(v, w, b));
        }
    }
    assert forall|b: Addr| #[trigger] w.handles.contains_key(b) implies w.handle_ok(b) by {
        assert(v.handle_ok(b));
        if !s.contains(b) {
            assert(v.handles[b].op != Some(o));
        }

    }
    assert forall|b: Addr| #[trigger] w.messages.contains_key(b) implies w.message_ok(b) by {
        assert(v.message_ok(b));
        assert(same_message(v, w, b));
    }
    assert forall|b: Addr| #[trigger] w.nodes.contains_key(b) implies w.node_ok(b) by {
        assert(v.node_ok(b));
        assert(same_node(v, w, b));
    }
    assert forall|p: Addr| #[trigger] w.peers.contains_key(p) implies same_peer(v, w, p) by {}
    assert forall|e: Addr| #[trigger] w.tx_nodes.contains_key(e) implies same_tx_node(v, w, e) by {
        assert(v.tx_node_ok(e));
    }
}

/// Unlinking all handles from a node keeps the bus intact.
pub proof fn lemma_node_cleared(v: BusView, n: Addr)
    requires
        v.intact(),
        v.nodes.contains_key(n),
    ensures
        v.node_cleared(n).intact(),
{
    reveal(BusView::intact);
    let w = v.node_cleared(n);
    let s = v.nodes[n].handles;
    assert(v.node_ok(n));
    lemma_similar(v, w);
    lemma_same(v, w);
    assert forall|b: Addr| #[trigger] w.nodes.contains_key(b) implies w.node_ok(b) by {
        assert(v.node_ok(b));
        if b != n {
            assert forall|j: int| #![trigger v.nodes[b].handles[j]] 0 <= j
                < v.nodes[b].handles.len() implies !s.contains(v.nodes[b].handles[j]) by {
                if s.contains(v.nodes[b].handles[j]) {
                    let x = choose|x: int| 0 <= x < s.len() && s[x] == v.nodes[b].handles[j];
                    assert(v.handles[s[x]].node == n);
                }
            }
            assert(same_node(v, w, b));
        }
    }
    assert forall|b: Addr| #[trigger] w.handles.contains_key(b) implies w.handle_ok(b) by {
        assert(v.handle_ok(b));
    }
    assert forall|p: Addr| #[trigger] w.peers.contains_key(p) implies same_peer(v, w, p) by {}
    assert forall|m: Addr| #[trigger] w.messages.contains_key(m) implies same_message(v, w, m) by {
        assert(v.message_ok(m));
    }
    assert forall|e: Addr| #[trigger] w.tx_nodes.contains_key(e) implies same_tx_node(v, w, e) by {
        assert(v.tx_node_ok(e));
    }
    assert forall|o: Addr| #[trigger] w.ops.contains_key(o) implies same_op(v, w, o) by {
        assert(v.op_ok(o));
    }
}

/// Queueing an entry keeps the bus intact.
pub proof fn lemma_enqueued(v: BusView, tx: Addr, e: Addr)
    requires
        v.intact(),
        v.tx_nodes.contains_key(e),
        v.txs.contains_key(tx),
    ensures
        v.enqueued(tx, e).intact(),
        similar(v, v.enqueued(tx, e)),
{
    reveal(BusView::intact);
    let w = v.enqueued(tx, e);
    let p = v.dest(e);
    lemma_dest(v, e);
    assert(v.tx_node_ok(e));
    assert(v.peer_ok(p));
    lemma_similar(v, w);
    lemma_same(v, w);
    let s = v.lists(p);
    if v.queueable(e) {
        assert(w.lists(p) =~= s.insert(0, e));
        assert(!s.contains(e)) by {
            if s.contains(e) {
                let i = choose|i: int| 0 <= i < s.len() && s[i] == e;
                assert(v.tx_nodes[s[i]].queued);
            }
        }
        lemma_insert_once(s, 0, e);
    }
    assert forall|b: Addr| #[trigger] w.peers.contains_key(b) implies w.peer_ok(b) by {
        assert(v.peer_ok(b));
        if b != p || !v.queueable(e) {
            assert(same_peer(v, w, b));
        } else {
            assert forall|i: int| #![trigger w.lists(p)[i]] 0 <= i < w.lists(p).len() implies {
                &&& w.tx_nodes.contains_key(w.lists(p)[i])
                &&& w.tx_nodes[w.lists(p)[i]].queued
                &&& w.dest(w.lists(p)[i]) == p
            } by {
                if i > 0 {
                    assert(w.lists(p)[i] == s[i - 1]);
                }
            }
        }
    }
    assert forall|f: Addr| #[trigger] w.tx_nodes.contains_key(f) implies w.tx_node_ok(f) by {
        assert(v.tx_node_ok(f));
        if v.tx_nodes[f].queued && v.dest(f) != p {
            assert(w.lists(v.dest(f)) == v.lists(v.dest(f)));
        }
    }
    assert forall|n: Addr| #[trigger] w.nodes.contains_key(n) implies same_node(v, w, n) by {
        assert(v.node_ok(n));
    }
    assert forall|h: Addr| #[trigger] w.handles.contains_key(h) implies same_handle(v, w, h) by {
        assert(v.handle_ok(h));
    }
    assert forall|m: Addr| #[trigger] w.messages.contains_key(m) implies same_message(v, w, m) by {
        assert(v.message_ok(m));
    }
    assert forall|o: Addr| #[trigger] w.ops.contains_key(o) implies same_op(v, w, o) by {}
}

/// Committing a transaction keeps the bus intact.
pub proof fn lemma_tx_committed(v: BusView, t: Addr)
    requires
        v.intact(),
        v.txs.contains_key(t),
    ensures
        v.tx_committed(t).intact(),
        similar(v, v.tx_committed(t)),
{
    reveal(BusView::intact);
    let w = v.tx_committed(t);
    lemma_similar(v, w);
    lemma_same(v, w);
    assert forall|b: Addr| #[trigger] w.peers.contains_key(b) implies same_peer(v, w, b) by {}
    assert forall|e: Addr| #[trigger] w.tx_nodes.contains_key(e) implies same_tx_node(v, w, e) by {
        assert(v.tx_node_ok(e));
    }
    assert forall|n: Addr| #[trigger] w.nodes.contains_key(n) implies same_node(v, w, n) by {
        assert(v.node_ok(n));
    }
    assert forall|h: Addr| #[trigger] w.handles.contains_key(h) implies same_handle(v, w, h) by {
        assert(v.handle_ok(h));
    }
    assert forall|m: Addr| #[trigger] w.messages.contains_key(m) implies same_message(v, w, m) by {
        assert(v.message_ok(m));
    }
    assert forall|o: Addr| #[trigger] w.ops.contains_key(o) implies same_op(v, w, o) by {}
}

/// Notifying a peer keeps the bus intact.
pub proof fn lemma_notified(v: BusView, p: Addr)
    requires
        v.intact(),
        v.peers.contains_key(p),
    ensures
        v.notified(p).intact(),
        similar(v, v.notified(p)),
{
    reveal(BusView::intact);
    let w = v.notified(p);
    lemma_similar(v, w);
    lemma_same(v, w);
    assert forall|b: Addr| #[trigger] w.lists(b) == v.lists(b) by {}
    assert forall|b: Addr| #[trigger] w.peers.contains_key(b) implies same_peer(v, w, b) by {}
    assert forall|e: Addr| #[trigger] w.tx_nodes.contains_key(e) implies same_tx_node(v, w, e) by {
        assert(v.tx_node_ok(e));
    }
    assert forall|n: Addr| #[trigger] w.nodes.contains_key(n) implies same_node(v, w, n) by {
        assert(v.node_ok(n));
    }
    assert forall|h: Addr| #[trigger] w.handles.contains_key(h) implies same_handle(v, w, h) by {
        assert(v.handle_ok(h));
    }
    assert forall|m: Addr| #[trigger] w.messages.contains_key(m) implies same_message(v, w, m) by {
        assert(v.message_ok(m));
    }
    assert forall|o: Addr| #[trigger] w.ops.contains_key(o) implies same_op(v, w, o) by {}
}

/// Filtering keeps elements apart.
pub proof fn lemma_filter_once(s: Seq<Addr>, f: spec_fn(Addr) -> bool)
    requires
        s.no_duplicates(),
    ensures
        s.filter(f).no_duplicates(),
        forall|a: Addr| #[trigger] s.filter(f).contains(a) <==> s.contains(a) && f(a),
    decreases s.len(),
{
    reveal(Seq::filter);
    if s.len() > 0 {
        let t = s.drop_last();
        lemma_filter_once(t, f);
        let u = t.filter(f);
        assert forall|a: Addr| s.contains(a) <==> t.contains(a) || a == s.last() by {
            if s.contains(a) {
                let i = choose|i: int| 0 <= i < s.len() && s[i] == a;
                if i < s.len() - 1 {
                    assert(t[i] == a);
                }
            }
            if t.contains(a) {
                let i = choose|i: int| 0 <= i < t.len() && t[i] == a;
                assert(s[i] == a);
            }
            assert(s[s.len() - 1] == s.last());
        }
        if f(s.last()) {
            assert(!t.contains(s.last())) by {
                if t.contains(s.last()) {
                    let i = choose|i: int| 0 <= i < t.len() && t[i] == s.last();
                    assert(s[i] == s[s.len() - 1]);
                }
            }
            assert(u.push(s.last()) =~= u.insert(u.len() as int, s.last()));
            lemma_insert_once(u, u.len() as int, s.last());
        }
    }
}

/// Reversing keeps elements.
pub proof fn lemma_reverse_once(s: Seq<Addr>)
    requires
        s.no_duplicates(),
    ensures
        s.reverse().no_duplicates(),
        s.reverse().len() == s.len(),
        forall|a: Addr| #[trigger] s.reverse().contains(a) <==> s.contains(a),
{
    let t = s.reverse();
    assert forall|i: int| 0 <= i < s.len() implies #[trigger] t[i] == s[s.len() - 1 - i] by {}
    assert forall|a: Addr| #[trigger] t.contains(a) <==> s.contains(a) by {
        if s.contains(a) {
            let i = choose|i: int| 0 <= i < s.len() && s[i] == a;
            assert(t[s.len() - 1 - i] == a);
        }
        if t.contains(a) {
            let i = choose|i: int| 0 <= i < t.len() && t[i] == a;
            assert(s[s.len() - 1 - i] == a);
        }
    }
}

/// Elements of a concatenation.
pub proof fn lemma_add_contains(s: Seq<Addr>, t: Seq<Addr>)
    ensures
        forall|a: Addr| #[trigger] (s + t).contains(a) <==> s.contains(a) || t.contains(a),
{
    assert forall|a: Addr| #[trigger] (s + t).contains(a) <==> s.contains(a) || t.contains(a) by {
        if s.contains(a) {
            let i = choose|i: int| 0 <= i < s.len() && s[i] == a;
            assert((s + t)[i] == a);
        }
        if t.contains(a) {
            let i = choose|i: int| 0 <= i < t.len() && t[i] == a;
            assert((s + t)[s.len() + i] == a);
        }
    }
}

/// Sorting out the entries of a peer keeps the bus intact.
pub proof fn lemma_prefetched(v: BusView, p: Addr)
    requires
        v.intact(),
        v.peers.contains_key(p),
    ensures
        v.prefetched(p).intact(),
        similar(v, v.prefetched(p)),
{
    reveal(BusView::intact);
    let w = v.prefetched(p);
    let peer = v.peers[p];
    assert(v.peer_ok(p));
    if peer.ready.len() == 0 {
        let todo = peer.queue + peer.busy;
        let f = v.committed_fn();
        let g = v.pending_fn();
        assert(v.lists(p) =~= todo);
        lemma_filter_once(todo, f);
        lemma_filter_once(todo, g);
        lemma_reverse_once(todo.filter(f));
        let ready = todo.filter(f).reverse();
        let busy = todo.filter(g);
        let s = w.lists(p);
        assert(s =~= ready + busy);
        lemma_add_contains(ready, busy);
        assert(s.no_duplicates()) by {
            assert forall|x: int, y: int| 0 <= x < s.len() && 0 <= y < s.len() && x
                != y implies s[x] != s[y] by {
                if x < ready.len() && y >= ready.len() {
                    assert(ready.contains(s[x]) && busy.contains(s[y]));
                }
                if y < ready.len() && x >= ready.len() {
                    assert(ready.contains(s[y]) && busy.contains(s[x]));
                }
                if x >= ready.len() && y >= ready.len() {
                    assert(s[x] == busy[x - ready.len()]);
                    assert(s[y] == busy[y - ready.len()]);
                }
            }
        }
        lemma_similar(v, w);
        lemma_same(v, w);
        assert forall|b: Addr| #[trigger] w.peers.contains_key(b) implies w.peer_ok(b) by {
            assert(v.peer_ok(b));
            if b != p {
                assert(same_peer(v, w, b));
            } else {
                assert forall|i: int| #![trigger s[i]] 0 <= i < s.len() implies {
                    &&& w.tx_nodes.contains_key(s[i])
                    &&& w.tx_nodes[s[i]].queued
                    &&& w.dest(s[i]) == p
                } by {
                    assert(s.contains(s[i]));
                    let j = choose|j: int| 0 <= j < todo.len() && todo[j] == s[i];
                    assert(v.lists(p)[j] == s[i]);
                }
            }
        }
        assert forall|e: Addr| #[trigger] w.tx_nodes.contains_key(e) implies w.tx_node_ok(e) by {
            assert(v.tx_node_ok(e));
            if v.tx_nodes[e].queued {
                if v.dest(e) != p {
                    assert(w.lists(v.dest(e)) == v.lists(v.dest(e)));
                } else {
                    assert(todo.contains(e));
                    assert(s.contains(e));
                }
            }
        }
        assert forall|n: Addr| #[trigger] w.nodes.contains_key(n) implies same_node(v, w, n) by {
            assert(v.node_ok(n));
        }
        assert forall|h: Addr| #[trigger] w.handles.contains_key(h) implies same_handle(v, w, h) by {
            assert(v.handle_ok(h));
        }
        assert forall|m: Addr| #[trigger] w.messages.contains_key(m) implies same_message(v, w, m) by {
            assert(v.message_ok(m));
        }
        assert forall|o: Addr| #[trigger] w.ops.contains_key(o) implies same_op(v, w, o) by {}
    }
}

/// Removing a ready entry keeps the bus intact.
pub proof fn lemma_popped(v: BusView, p: Addr)
    requires
        v.intact(),
        v.peers.contains_key(p),
    ensures
        v.popped(p).intact(),
        similar(v, v.popped(p)),
{
    reveal(BusView::intact);
    let w = v.popped(p);
    let peer = v.peers[p];
    assert(v.peer_ok(p));
    if peer.ready.len() > 0 {
        let e = peer.ready[0];
        let s = v.lists(p);
        let i = peer.queue.len() as int;
        assert(s[i] == e);
        assert(v.tx_node_ok(e));
        assert(w.lists(p) =~= s.remove(i));
        lemma_remove_once(s, i);
        lemma_similar(v, w);
        lemma_same(v, w);
        assert forall|b: Addr| #[trigger] w.peers.contains_key(b) implies w.peer_ok(b) by {
            assert(v.peer_ok(b));
            if b != p {
                assert forall|j: int| #![trigger v.lists(b)[j]] 0 <= j
                    < v.lists(b).len() implies v.lists(b)[j] != e by {
                    assert(v.dest(v.lists(b)[j]) == b);
                }
                assert(same_peer(v, w, b));
            } else {
                let t = w.lists(p);
                assert forall|j: int| #![trigger t[j]] 0 <= j < t.len() implies {
                    &&& w.tx_nodes.contains_key(t[j])
                    &&& w.tx_nodes[t[j]].queued
                    &&& w.dest(t[j]) == p
                } by {
                    assert(t.contains(t[j]));
                    let k = choose|k: int| 0 <= k < s.len() && s[k] == t[j];
                    assert(s[k] == t[j]);
                }
            }
        }
        assert forall|f: Addr| #[trigger] w.tx_nodes.contains_key(f) implies w.tx_node_ok(f) by {
            assert(v.tx_node_ok(f));
            if w.tx_nodes[f].queued && v.dest(f) != p {
                assert(w.lists(v.dest(f)) == v.lists(v.dest(f)));
            }
        }
        assert forall|n: Addr| #[trigger] w.nodes.contains_key(n) implies same_node(v, w, n) by {
            assert(v.node_ok(n));
        }
        assert forall|h: Addr| #[trigger] w.handles.contains_key(h) implies same_handle(v, w, h) by {
            assert(v.handle_ok(h));
        }
        assert forall|m: Addr| #[trigger] w.messages.contains_key(m) implies same_message(v, w, m) by {
            assert(v.message_ok(m));
        }
        assert forall|o: Addr| #[trigger] w.ops.contains_key(o) implies same_op(v, w, o) by {}
    }
}

/// Discarding everything that is queued on a peer keeps the bus intact.
pub proof fn lemma_drained(v: BusView, p: Addr)
    requires
        v.intact(),
        v.peers.contains_key(p),
    ensures
        v.drained(p).intact(),
        similar(v, v.drained(p)),
{
    reveal(BusView::intact);
    let w = v.drained(p);
    assert(v.peer_ok(p));
    let s = v.lists(p);
    assert(w.lists(p) =~= Seq::<Addr>::empty());
    lemma_similar(v, w);
    lemma_same(v, w);
    assert forall|b: Addr| #[trigger] w.peers.contains_key(b) implies w.peer_ok(b) by {
        assert(v.peer_ok(b));
        if b != p {
            assert forall|j: int| #![trigger v.lists(b)[j]] 0 <= j
                < v.lists(b).len() implies !s.contains(v.lists(b)[j]) by {
                assert(v.dest(v.lists(b)[j]) == b);
                if s.contains(v.lists(b)[j]) {
                    let k = choose|k: int| 0 <= k < s.len() && s[k] == v.lists(b)[j];
                    assert(v.dest(s[k]) == p);
                }
            }
            assert(same_peer(v, w, b));
        }
    }
    assert forall|f: Addr| #[trigger] w.tx_nodes.contains_key(f) implies w.tx_node_ok(f) by {
        assert(v.tx_node_ok(f));
        if w.tx_nodes[f].queued && v.dest(f) != p {
            assert(w.lists(v.dest(f)) == v.lists(v.dest(f)));
        }
    }
    assert forall|n: Addr| #[trigger] w.nodes.contains_key(n) implies same_node(v, w, n) by {
        assert(v.node_ok(n));
    }
    assert forall|h: Addr| #[trigger] w.handles.contains_key(h) implies same_handle(v, w, h) by {
        assert(v.handle_ok(h));
    }
    assert forall|m: Addr| #[trigger] w.messages.contains_key(m) implies same_message(v, w, m) by {
        assert(v.message_ok(m));
    }
    assert forall|o: Addr| #[trigger] w.ops.contains_key(o) implies same_op(v, w, o) by {}
}

/// Removing an empty operation keeps the bus intact.
pub proof fn lemma_op_removed(v: BusView, o: Addr)
    requires
        v.intact(),
        v.ops.contains_key(o),
        v.ops[o].messages.len() == 0,
        v.ops[o].nodes.len() == 0,
        v.ops[o].handles.len() == 0,
    ensures
        v.op_removed(o).intact(),
        similar(v, v.op_removed(o)),
{
    reveal(BusView::intact);
    let w = v.op_removed(o);
    lemma_similar(v, w);
    lemma_same(v, w);
    assert forall|b: Addr| #[trigger] w.peers.contains_key(b) implies same_peer(v, w, b) by {}
    assert forall|e: Addr| #[trigger] w.tx_nodes.contains_key(e) implies same_tx_node(v, w, e) by {
        assert(v.tx_node_ok(e));
    }
    assert forall|n: Addr| #[trigger] w.nodes.contains_key(n) implies same_node(v, w, n) by {
        assert(v.node_ok(n));
    }
    assert forall|h: Addr| #[trigger] w.handles.contains_key(h) implies same_handle(v, w, h) by {
        assert(v.handle_ok(h));
    }
    assert forall|m: Addr| #[trigger] w.messages.contains_key(m) implies same_message(v, w, m) by {
        assert(v.message_ok(m));
    }
    assert forall|o: Addr| #[trigger] w.ops.contains_key(o) implies same_op(v, w, o) by {}
}

/// The lists of a peer have no entries in common, and all their entries are
/// destined for the peer.
pub proof fn lemma_lists(v: BusView, p: Addr)
    requires
        v.intact(),
        v.peers.contains_key(p),
    ensures
        ({
            let peer = v.peers[p];
            &&& forall|e: Addr| #[trigger] peer.queue.contains(e) ==> !peer.ready.contains(e)
                && !peer.busy.contains(e) && v.tx_nodes.contains_key(e) && v.dest(e) == p
                && v.tx_nodes[e].queued
            &&& forall|e: Addr| #[trigger] peer.ready.contains(e) ==> !peer.busy.contains(e)
                && !peer.queue.contains(e) && v.tx_nodes.contains_key(e) && v.dest(e) == p
                && v.tx_nodes[e].queued
            &&& forall|e: Addr| #[trigger] peer.busy.contains(e) ==> !peer.ready.contains(e)
                && !peer.queue.contains(e) && v.tx_nodes.contains_key(e) && v.dest(e) == p
                && v.tx_nodes[e].queued
        }),
{
    reveal(BusView::intact);
    assert(v.peer_ok(p));
    let peer = v.peers[p];
    let s = v.lists(p);
    let n = peer.queue.len();
    let k = peer.ready.len();
    assert forall|e: Addr| #[trigger] peer.queue.contains(e) implies !peer.ready.contains(e)
        && !peer.busy.contains(e) && v.tx_nodes.contains_key(e) && v.dest(e) == p
        && v.tx_nodes[e].queued by {
        let i = choose|i: int| 0 <= i < peer.queue.len() && peer.queue[i] == e;
        assert(s[i] == e);
        if peer.ready.contains(e) {
            let j = choose|j: int| 0 <= j < peer.ready.len() && peer.ready[j] == e;
            assert(s[n + j] == e);
        }
        if peer.busy.contains(e) {
            let j = choose|j: int| 0 <= j < peer.busy.len() && peer.busy[j] == e;
            assert(s[n + k + j] == e);
        }
    }
    assert forall|e: Addr| #[trigger] peer.ready.contains(e) implies !peer.busy.contains(e)
        && !peer.queue.contains(e) && v.tx_nodes.contains_key(e) && v.dest(e) == p
        && v.tx_nodes[e].queued by {
        let i = choose|i: int| 0 <= i < peer.ready.len() && peer.ready[i] == e;
        assert(s[n + i] == e);
        if peer.busy.contains(e) {
            let j = choose|j: int| 0 <= j < peer.busy.len() && peer.busy[j] == e;
            assert(s[n + k + j] == e);
        }
    }
    assert forall|e: Addr| #[trigger] peer.busy.contains(e) implies !peer.ready.contains(e)
        && !peer.queue.contains(e) && v.tx_nodes.contains_key(e) && v.dest(e) == p
        && v.tx_nodes[e].queued by {
        let i = choose|i: int| 0 <= i < peer.busy.len() && peer.busy[i] == e;
        assert(s[n + k + i] == e);
    }
}

/// Being similar is transitive.
pub proof fn lemma_similar_trans(v: BusView, w: BusView, x: BusView)
    requires
        similar(v, w),
        similar(w, x),
    ensures
        similar(v, x),
{
    assert forall|h: Addr| #[trigger] v.handles.contains_key(h) implies {
        &&& x.handles[h].node == v.handles[h].node
        &&& x.handles[h].owner == v.handles[h].owner
        &&& x.handles[h].release_node == v.handles[h].release_node
        &&& x.handles[h].release_handle == v.handles[h].release_handle
    } by {
        assert(w.handles.contains_key(h));
    }
    assert forall|m: Addr| #[trigger] v.messages.contains_key(m) implies {
        &&& x.messages[m].via == v.messages[m].via
        &&& x.messages[m].transfers == v.messages[m].transfers
        &&& x.messages[m].shared == v.messages[m].shared
        &&& x.messages[m].tx_node == v.messages[m].tx_node
    } by {
        assert(w.messages.contains_key(m));
    }
    assert forall|e: Addr| #[trigger] v.tx_nodes.contains_key(e) implies x.tx_nodes[e].kind
        == v.tx_nodes[e].kind && x.tx_nodes[e].base == v.tx_nodes[e].base by {
        assert(w.tx_nodes.contains_key(e));
    }
    assert forall|p: Addr| #[trigger] v.peers.contains_key(p) implies x.peers[p].shutdown
        == v.peers[p].shutdown by {
        assert(w.peers.contains_key(p));
    }
    assert forall|n: Addr| #[trigger] v.nodes.contains_key(n) implies x.nodes[n].owner
        == v.nodes[n].owner by {
        assert(w.nodes.contains_key(n));
    }
    assert forall|s: Addr| #[trigger] v.shareds.contains_key(s) implies x.shareds[s].data
        == v.shareds[s].data by {
        assert(w.shareds.contains_key(s));
    }
}

/// Operations are the same, but for what is in one of them.
pub open spec fn same_ops(v: BusView, w: BusView, o: Addr) -> bool {
    &&& w.ops.dom() =~= v.ops.dom()
    &&& w.ops[o].operator == v.ops[o].operator
    &&& w.ops[o].tx == v.ops[o].tx
    &&& forall|b: Addr| b != o && #[trigger] v.ops.contains_key(b) ==> w.ops[b] == v.ops[b]
}

/// Queueing a message keeps the bus intact.
pub proof fn lemma_message_queued(v: BusView, o: Addr, m: Addr)
    requires
        v.intact(),
        v.ops.contains_key(o),
        v.ops[o].messages.contains(m),
    ensures
        v.message_queued(o, m).intact(),
        similar(v, v.message_queued(o, m)),
        same_ops(v, v.message_queued(o, m), o),
        v.message_queued(o, m).ops[o].nodes == v.ops[o].nodes,
        v.message_queued(o, m).ops[o].handles == v.ops[o].handles,
        forall|b: Addr| b != m && #[trigger] v.ops[o].messages.contains(b) ==> v.message_queued(
            o,
            m,
        ).ops[o].messages.contains(b),
{
    let e = v.messages[m].tx_node;
    let w = v.enqueued(v.ops[o].tx, e);
    lemma_ok(v);
    assert(v.op_ok(o));
    let s = v.ops[o].messages;
    let i = s.index_of(m);
    assert(s[i] == m);
    assert(v.message_ok(m));
    lemma_enqueued(v, v.ops[o].tx, e);
    if !v.queueable(e) {
        lemma_op_message_unlinked(w, o, m);
        lemma_remove_once(s, i);
        let x = w.op_message_unlinked(o, m);
        assert(similar(w, x));
        lemma_similar_trans(v, w, x);
    }
}

/// Queueing the release of a handle keeps the bus intact.
pub proof fn lemma_handle_queued(v: BusView, o: Addr, h: Addr)
    requires
        v.intact(),
        v.ops.contains_key(o),
        v.ops[o].handles.contains(h),
    ensures
        v.handle_queued(o, h).intact(),
        similar(v, v.handle_queued(o, h)),
        same_ops(v, v.handle_queued(o, h), o),
        v.handle_queued(o, h).ops[o].nodes == v.ops[o].nodes,
        v.handle_queued(o, h).ops[o].messages == v.ops[o].messages,
        forall|b: Addr| b != h && #[trigger] v.ops[o].handles.contains(b) ==> v.handle_queued(
            o,
            h,
        ).ops[o].handles.contains(b),
{
    let e = v.handles[h].release_handle;
    let w = v.enqueued(v.ops[o].tx, e);
    lemma_ok(v);
    assert(v.op_ok(o));
    let s = v.ops[o].handles;
    let i = s.index_of(h);
    assert(s[i] == h);
    assert(v.handle_ok(h));
    lemma_enqueued(v, v.ops[o].tx, e);
    if !v.queueable(e) {
        lemma_op_handle_unlinked(w, o, h);
        lemma_remove_once(s, i);
        let x = w.op_handle_unlinked(o, h);
        assert(similar(w, x));
        lemma_similar_trans(v, w, x);
    } else if w.handles[h].linked {
        lemma_handle_unlinked(w, h);
        let x = w.handle_unlinked(h);
        assert(similar(w, x));
        lemma_similar_trans(v, w, x);
    }
}

/// Unlinking all handles from one more node of a series.
pub proof fn lemma_cleared(
    v: BusView,
    w: BusView,
    s: Seq<Addr>,
    k: int,
    r: Seq<Addr>,
    hs: Seq<Addr>,
)
    requires
        w.intact(),
        similar(v, w),
        s.no_duplicates(),
        0 <= k < s.len(),
        w.nodes.contains_key(s[k]),
        forall|h: Addr| #[trigger]
            v.handles.contains_key(h) ==> w.handles[h].linked == (v.handles[h].linked && !s.take(
                k,
            ).contains(v.handles[h].node)),
        r.no_duplicates(),
        forall|h: Addr| #[trigger]
            r.contains(h) <==> v.handles.contains_key(h) && v.handles[h].linked && s.take(
                k,
            ).contains(v.handles[h].node),
        rearranged(hs, w.nodes[s[k]].handles),
    ensures
        (r + hs).no_duplicates(),
        forall|h: Addr| #[trigger]
            (r + hs).contains(h) <==> v.handles.contains_key(h) && v.handles[h].linked && s.take(
                k + 1,
            ).contains(v.handles[h].node),
        forall|h: Addr| #[trigger]
            v.handles.contains_key(h) ==> w.node_cleared(s[k]).handles[h].linked == (
            v.handles[h].linked && !s.take(k + 1).contains(v.handles[h].node)),
{
    let n = s[k];
    let t = w.nodes[n].handles;
    let u = s.take(k + 1);
    lemma_ok(w);
    assert(w.node_ok(n));
    assert forall|b: Addr| #[trigger] s.take(k + 1).contains(b) <==> s.take(k).contains(b) || b
        == n by {
        if s.take(k + 1).contains(b) {
            let i = choose|i: int| 0 <= i < u.len() && u[i] == b;
            if i < k {
                assert(s.take(k)[i] == b);
            }
        }
        if s.take(k).contains(b) {
            let i = choose|i: int| 0 <= i < k && s.take(k)[i] == b;
            assert(u[i] == b);
        }
        assert(u[k] == n);
    }
    assert(!s.take(k).contains(n));
    assert forall|h: Addr| #[trigger] t.contains(h) <==> w.handles.contains_key(h)
        && w.handles[h].linked && w.handles[h].node == n by {
        if t.contains(h) {
            let i = choose|i: int| 0 <= i < t.len() && t[i] == h;
            assert(w.handles[t[i]].node == n);
        }
        if w.handles.contains_key(h) {
            assert(w.handle_ok(h));
        }
    }
    lemma_add_contains(r, hs);
    assert forall|h: Addr| #[trigger] hs.contains(h) implies !r.contains(h) by {
        assert(t.contains(h));
        assert(v.handles.contains_key(h));
    }
    assert forall|i: int, j: int| 0 <= i < (r + hs).len() && 0 <= j < (r + hs).len() && i
        != j implies (r + hs)[i] != (r + hs)[j] by {
        if i < r.len() && j >= r.len() {
            assert(hs.contains(hs[j - r.len()]));
            assert(r.contains(r[i]));
        }
        if j < r.len() && i >= r.len() {
            assert(hs.contains(hs[i - r.len()]));
            assert(r.contains(r[j]));
        }
    }
    assert forall|h: Addr| #[trigger] (r + hs).contains(h) <==> v.handles.contains_key(h)
        && v.handles[h].linked && s.take(k + 1).contains(v.handles[h].node) by {
        assert((r + hs).contains(h) <==> r.contains(h) || hs.contains(h));
        assert(hs.contains(h) <==> t.contains(h));
        assert(v.handles.contains_key(h) <==> w.handles.contains_key(h));
    }
    assert forall|h: Addr| #[trigger] v.handles.contains_key(h) implies w.node_cleared(
        n,
    ).handles[h].linked == (v.handles[h].linked && !s.take(k + 1).contains(v.handles[h].node)) by {
        assert(w.handles.contains_key(h));
        assert(t.contains(h) <==> w.handles[h].linked && w.handles[h].node == n);
    }
}

/// Nothing but the number of users, and the data that they attached, differs.
pub open spec fn relabelled(v: BusView, w: BusView) -> bool {
    &&& w.peers.dom() =~= v.peers.dom()
    &&& w.nodes.dom() =~= v.nodes.dom()
    &&& w.handles.dom() =~= v.handles.dom()
    &&& w.shareds.dom() =~= v.shareds.dom()
    &&& w.messages == v.messages
    &&& w.txs == v.txs
    &&& w.tx_nodes == v.tx_nodes
    &&& w.ops == v.ops
    &&& forall|p: Addr| #[trigger]
        v.peers.contains_key(p) ==> w.peers[p] == (PeerView {
            users: w.peers[p].users,
            ..v.peers[p]
        })
    &&& forall|n: Addr| #[trigger]
        v.nodes.contains_key(n) ==> w.nodes[n] == (NodeView {
            users: w.nodes[n].users,
            userdata: w.nodes[n].userdata,
            ..v.nodes[n]
        })
    &&& forall|h: Addr| #[trigger]
        v.handles.contains_key(h) ==> w.handles[h] == (HandleView {
            users: w.handles[h].users,
            userdata: w.handles[h].userdata,
            ..v.handles[h]
        })
    &&& forall|s: Addr| #[trigger]
        v.shareds.contains_key(s) ==> w.shareds[s].data == v.shareds[s].data
}

/// The properties of a bus do not depend on users.
pub proof fn lemma_relabelled(v: BusView, w: BusView)
    requires
        v.intact(),
        relabelled(v, w),
    ensures
        w.intact(),
        similar(v, w),
{
    reveal(BusView::intact);
    assert(similar(v, w));
    lemma_same(v, w);
    assert forall|p: Addr| #[trigger] w.peers.contains_key(p) implies w.peer_ok(p) by {
        assert(v.peers.contains_key(p));
        assert(same_peer(v, w, p));
    }
    assert forall|n: Addr| #[trigger] w.nodes.contains_key(n) implies w.node_ok(n) by {
        assert(v.nodes.contains_key(n) && v.node_ok(n));
        assert(same_node(v, w, n));
    }
    assert forall|h: Addr| #[trigger] w.handles.contains_key(h) implies w.handle_ok(h) by {
        assert(v.handles.contains_key(h) && v.handle_ok(h));
        assert(same_handle(v, w, h));
    }
    assert forall|m: Addr| #[trigger] w.messages.contains_key(m) implies w.message_ok(m) by {
        assert(v.messages.contains_key(m) && v.message_ok(m));
        assert(same_message(v, w, m));
    }
    assert forall|e: Addr| #[trigger] w.tx_nodes.contains_key(e) implies w.tx_node_ok(e) by {
        assert(v.tx_node_ok(e));
        lemma_dest(v, e);
        assert(same_tx_node(v, w, e));
    }
    assert forall|o: Addr| #[trigger] w.ops.contains_key(o) implies w.op_ok(o) by {
        assert(v.op_ok(o));
        assert(same_op(v, w, o));
    }
}

} // verus!
