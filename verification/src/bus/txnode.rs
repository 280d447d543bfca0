//! References to queued objects.
//!
//! The queues of a peer can take multiple different types of objects. They all
//! use [`TxNode`](crate::bus::TxNode) as metadata, but this is part of different
//! containing types. A [`TxNodeRef`] refers to the containing object, and can be
//! turned into the address of the entry, and back again. The kind of an entry
//! does not change, and hence can be relied on to know which containing type to
//! convert back to.

use crate::bus::Bus;
use crate::bus::model::{lemma_ok, BusView, TxNodeKind};
use crate::util::arena::Addr;
use vstd::prelude::*;

verus! {

/// Reference to an object that can be queued on a peer.
#[derive(Clone, Copy, Debug, PartialEq, Eq, Structural)]
pub enum TxNodeRef {
    /// A message of a user.
    User(Addr),
    /// A handle whose node was released.
    ReleaseNode(Addr),
    /// A handle that was released.
    ReleaseHandle(Addr),
}

impl TxNodeRef {
    /// The object exists.
    pub open spec fn valid(self, v: BusView) -> bool {
        match self {
            TxNodeRef::User(m) => v.messages.contains_key(m),
            TxNodeRef::ReleaseNode(h) => v.handles.contains_key(h),
            TxNodeRef::ReleaseHandle(h) => v.handles.contains_key(h),
        }
    }

    /// The entry of the object.
    pub open spec fn entry(self, v: BusView) -> Addr {
        match self {
            TxNodeRef::User(m) => v.messages[m].tx_node,
            TxNodeRef::ReleaseNode(h) => v.handles[h].release_node,
            TxNodeRef::ReleaseHandle(h) => v.handles[h].release_handle,
        }
    }

    /// The object of an entry.
    pub open spec fn of(v: BusView, e: Addr) -> TxNodeRef {
        let base = v.tx_nodes[e].base;
        match v.tx_nodes[e].kind {
            TxNodeKind::User => TxNodeRef::User(base),
            TxNodeKind::ReleaseNode => TxNodeRef::ReleaseNode(base),
            TxNodeKind::ReleaseHandle => TxNodeRef::ReleaseHandle(base),
        }
    }

    /// Refer to a message.
    pub fn new_user(v: Addr) -> (r: Self)
        ensures
            r == TxNodeRef::User(v),
    {
        TxNodeRef::User(v)
    }

    /// Refer to a handle whose node was released.
    pub fn new_release_node(v: Addr) -> (r: Self)
        ensures
            r == TxNodeRef::ReleaseNode(v),
    {
        TxNodeRef::ReleaseNode(v)
    }

    /// Refer to a handle that was released.
    pub fn new_release_handle(v: Addr) -> (r: Self)
        ensures
            r == TxNodeRef::ReleaseHandle(v),
    {
        TxNodeRef::ReleaseHandle(v)
    }

    /// Get the message this refers to, if it does.
    pub fn as_user(&self) -> (r: Option<Addr>)
        ensures
            r == match *self {
                TxNodeRef::User(v) => Some(v),
                _ => None::<Addr>,
            },
    {
        if let TxNodeRef::User(v) = self {
            Some(*v)
        } else {
            None
        }
    }

    /// Get the handle this refers to, if it is one whose node was released.
    pub fn as_release_node(&self) -> (r: Option<Addr>)
        ensures
            r == match *self {
                TxNodeRef::ReleaseNode(v) => Some(v),
                _ => None::<Addr>,
            },
    {
        if let TxNodeRef::ReleaseNode(v) = self {
            Some(*v)
        } else {
            None
        }
    }

    /// Get the handle this refers to, if it is one that was released.
    pub fn as_release_handle(&self) -> (r: Option<Addr>)
        ensures
            r == match *self {
                TxNodeRef::ReleaseHandle(v) => Some(v),
                _ => None::<Addr>,
            },
    {
        if let TxNodeRef::ReleaseHandle(v) = self {
            Some(*v)
        } else {
            None
        }
    }

    /// Look up the entry of an object.
    pub(super) fn lookup(&self, bus: &Bus) -> (r: Addr)
        requires
            bus.sound(),
            self.valid(bus@),
        ensures
            r == self.entry(bus@),
            bus@.tx_nodes.contains_key(r),
    {
        proof {
            lemma_ok(bus@);
            match self {
                TxNodeRef::User(m) => assert(bus@.message_ok(*m)),
                TxNodeRef::ReleaseNode(h) => assert(bus@.handle_ok(*h)),
                TxNodeRef::ReleaseHandle(h) => assert(bus@.handle_ok(*h)),
            }
        }
        match self {
            TxNodeRef::User(v) => bus.messages.get(*v).tx_node,
            TxNodeRef::ReleaseNode(v) => bus.handles.get(*v).release_node,
            TxNodeRef::ReleaseHandle(v) => bus.handles.get(*v).release_handle,
        }
    }

    /// Get the entry of an object.
    pub fn acquire(&self, bus: &Bus) -> (r: Addr)
        requires
            bus.wf(),
            self.valid(bus@),
        ensures
            r == self.entry(bus@),
            bus@.tx_nodes.contains_key(r),
    {
        self.lookup(bus)
    }

    /// Get the object of an entry.
    pub fn release(bus: &Bus, e: Addr) -> (r: Self)
        requires
            bus.wf(),
            bus@.tx_nodes.contains_key(e),
        ensures
            r == TxNodeRef::of(bus@, e),
            r.valid(bus@),
    {
        proof {
            lemma_ok(bus@);
            assert(bus@.tx_node_ok(e));
        }
        let node = bus.tx_nodes.get(e);
        match node.kind {
            TxNodeKind::User => TxNodeRef::new_user(node.base),
            TxNodeKind::ReleaseNode => TxNodeRef::new_release_node(node.base),
            TxNodeKind::ReleaseHandle => TxNodeRef::new_release_handle(node.base),
        }
    }
}

/// An object is recovered from its entry.
pub proof fn lemma_release_acquire(v: BusView, r: TxNodeRef)
    requires
        v.intact(),
        r.valid(v),
    ensures
        v.tx_nodes.contains_key(r.entry(v)),
        TxNodeRef::of(v, r.entry(v)) == r,
{
    lemma_ok(v);
    match r {
        TxNodeRef::User(m) => assert(v.message_ok(m)),
        TxNodeRef::ReleaseNode(h) => assert(v.handle_ok(h)),
        TxNodeRef::ReleaseHandle(h) => assert(v.handle_ok(h)),
    }
}

/// An entry is recovered from its object.
pub proof fn lemma_acquire_release(v: BusView, e: Addr)
    requires
        v.intact(),
        v.tx_nodes.contains_key(e),
    ensures
        TxNodeRef::of(v, e).valid(v),
        TxNodeRef::of(v, e).entry(v) == e,
{
    lemma_ok(v);
    assert(v.tx_node_ok(e));
}

} // verus!
