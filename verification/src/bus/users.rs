//! Users of objects.
//!
//! Objects of a bus are used by whoever created them, or was handed a reference.
//! Those users can attach data to nodes and handles.

use crate::bus::frame::{lemma_nodes_frame, lemma_ops_frame, lemma_queues_frame};
use crate::bus::model::{lemma_relabelled, lemma_unmoved};
use crate::bus::{Bus, Handle, MessageShared, Node, Peer};
use crate::util::arena::Addr;
use vstd::prelude::*;

verus! {

impl Peer {
    /// Count another user of a peer.
    pub(crate) fn acquire(bus: &mut Bus, this: Addr)
        requires
            old(bus).wf(),
            old(bus)@.peers.contains_key(this),
            old(bus)@.peers[this].users + 1 < usize::MAX,
        ensures
            final(bus).wf(),
            final(bus).limit() == old(bus).limit(),
            final(bus)@ == old(bus)@.peer_used(this, old(bus)@.peers[this].users + 1),
    {
        let ghost v = bus@;
        let ghost m0 = bus.peers@;
        assert(m0.contains_key(this));
        assert(m0[this].refs >= 1);
        bus.peers.acquire(this);
        proof {
            let w = v.peer_used(this, v.peers[this].users + 1);
            assert(bus@.peers =~= w.peers);
            lemma_queues_frame(m0, bus.peers@, bus.tx_nodes@, bus.tx_nodes@);
            lemma_relabelled(v, w);
            lemma_unmoved(v, w);
        }
    }

    /// Count one user less of a peer.
    pub(crate) fn drop_user(bus: &mut Bus, this: Addr)
        requires
            old(bus).wf(),
            old(bus)@.peers.contains_key(this),
            old(bus)@.peers[this].users > 0,
        ensures
            final(bus).wf(),
            final(bus).limit() == old(bus).limit(),
            final(bus)@ == old(bus)@.peer_used(this, old(bus)@.peers[this].users - 1),
    {
        let ghost v = bus@;
        let ghost m0 = bus.peers@;
        assert(m0.contains_key(this));
        assert(m0[this].refs >= 1);
        bus.peers.drop_unless_unique(this);
        proof {
            let w = v.peer_used(this, v.peers[this].users - 1);
            assert(bus@.peers =~= w.peers);
            lemma_queues_frame(m0, bus.peers@, bus.tx_nodes@, bus.tx_nodes@);
            lemma_relabelled(v, w);
            lemma_unmoved(v, w);
        }
    }
}

impl Node {
    /// Count another user of a node.
    pub(crate) fn acquire(bus: &mut Bus, this: Addr)
        requires
            old(bus).wf(),
            old(bus)@.nodes.contains_key(this),
            old(bus)@.nodes[this].users + 1 < usize::MAX,
        ensures
            final(bus).wf(),
            final(bus).limit() == old(bus).limit(),
            final(bus)@ == old(bus)@.node_used(this, old(bus)@.nodes[this].users + 1),
    {
        let ghost v = bus@;
        let ghost m0 = bus.nodes@;
        assert(m0.contains_key(this));
        assert(m0[this].refs >= 1);
        bus.nodes.acquire(this);
        proof {
            let w = v.node_used(this, v.nodes[this].users + 1);
            assert(bus@.nodes =~= w.nodes);
            lemma_nodes_frame(m0, bus.nodes@, bus.handles@, bus.handles@);
            lemma_ops_frame(
                bus.ops@,
                bus.ops@,
                bus.messages@,
                bus.messages@,
                m0,
                bus.nodes@,
                bus.handles@,
                bus.handles@,
            );
            lemma_relabelled(v, w);
            lemma_unmoved(v, w);
        }
    }

    /// Count one user less of a node.
    pub(crate) fn drop_user(bus: &mut Bus, this: Addr)
        requires
            old(bus).wf(),
            old(bus)@.nodes.contains_key(this),
            old(bus)@.nodes[this].users > 0,
        ensures
            final(bus).wf(),
            final(bus).limit() == old(bus).limit(),
            final(bus)@ == old(bus)@.node_used(this, old(bus)@.nodes[this].users - 1),
    {
        let ghost v = bus@;
        let ghost m0 = bus.nodes@;
        assert(m0.contains_key(this));
        assert(m0[this].refs >= 1);
        bus.nodes.drop_unless_unique(this);
        proof {
            let w = v.node_used(this, v.nodes[this].users - 1);
            assert(bus@.nodes =~= w.nodes);
            lemma_nodes_frame(m0, bus.nodes@, bus.handles@, bus.handles@);
            lemma_ops_frame(
                bus.ops@,
                bus.ops@,
                bus.messages@,
                bus.messages@,
                m0,
                bus.nodes@,
                bus.handles@,
                bus.handles@,
            );
            lemma_relabelled(v, w);
            lemma_unmoved(v, w);
        }
    }
}

impl Handle {
    /// Count another user of a handle.
    pub(crate) fn acquire(bus: &mut Bus, this: Addr)
        requires
            old(bus).wf(),
            old(bus)@.handles.contains_key(this),
            old(bus)@.handles[this].users + 1 < usize::MAX,
        ensures
            final(bus).wf(),
            final(bus).limit() == old(bus).limit(),
            final(bus)@ == old(bus)@.handle_used(this, old(bus)@.handles[this].users + 1),
    {
        let ghost v = bus@;
        let ghost m0 = bus.handles@;
        assert(m0.contains_key(this));
        assert(m0[this].refs >= 1);
        bus.handles.acquire(this);
        proof {
            let w = v.handle_used(this, v.handles[this].users + 1);
            assert(bus@.handles =~= w.handles);
            lemma_nodes_frame(bus.nodes@, bus.nodes@, m0, bus.handles@);
            lemma_ops_frame(
                bus.ops@,
                bus.ops@,
                bus.messages@,
                bus.messages@,
                bus.nodes@,
                bus.nodes@,
                m0,
                bus.handles@,
            );
            lemma_relabelled(v, w);
            lemma_unmoved(v, w);
        }
    }

    /// Count one user less of a handle.
    pub(crate) fn drop_user(bus: &mut Bus, this: Addr)
        requires
            old(bus).wf(),
            old(bus)@.handles.contains_key(this),
            old(bus)@.handles[this].users > 0,
        ensures
            final(bus).wf(),
            final(bus).limit() == old(bus).limit(),
            final(bus)@ == old(bus)@.handle_used(this, old(bus)@.handles[this].users - 1),
    {
        let ghost v = bus@;
        let ghost m0 = bus.handles@;
        assert(m0.contains_key(this));
        assert(m0[this].refs >= 1);
        bus.handles.drop_unless_unique(this);
        proof {
            let w = v.handle_used(this, v.handles[this].users - 1);
            assert(bus@.handles =~= w.handles);
            lemma_nodes_frame(bus.nodes@, bus.nodes@, m0, bus.handles@);
            lemma_ops_frame(
                bus.ops@,
                bus.ops@,
                bus.messages@,
                bus.messages@,
                bus.nodes@,
                bus.nodes@,
                m0,
                bus.handles@,
            );
            lemma_relabelled(v, w);
            lemma_unmoved(v, w);
        }
    }
}

impl MessageShared {
    /// Count another user of shared data.
    pub(crate) fn acquire(bus: &mut Bus, this: Addr)
        requires
            old(bus).wf(),
            old(bus)@.shareds.contains_key(this),
            old(bus)@.shareds[this].users + 1 < usize::MAX,
        ensures
            final(bus).wf(),
            final(bus).limit() == old(bus).limit(),
            final(bus)@ == old(bus)@.shared_used(this, old(bus)@.shareds[this].users + 1),
    {
        let ghost v = bus@;
        let ghost m0 = bus.shareds@;
        assert(m0.contains_key(this));
        assert(m0[this].refs >= 1);
        bus.shareds.acquire(this);
        proof {
            let w = v.shared_used(this, v.shareds[this].users + 1);
            assert(bus@.shareds =~= w.shareds);
            lemma_relabelled(v, w);
            lemma_unmoved(v, w);
        }
    }

    /// Count one user less of shared data.
    pub(crate) fn drop_user(bus: &mut Bus, this: Addr)
        requires
            old(bus).wf(),
            old(bus)@.shareds.contains_key(this),
            old(bus)@.shareds[this].users > 0,
        ensures
            final(bus).wf(),
            final(bus).limit() == old(bus).limit(),
            final(bus)@ == old(bus)@.shared_used(this, old(bus)@.shareds[this].users - 1),
    {
        let ghost v = bus@;
        let ghost m0 = bus.shareds@;
        assert(m0.contains_key(this));
        assert(m0[this].refs >= 1);
        bus.shareds.drop_unless_unique(this);
        proof {
            let w = v.shared_used(this, v.shareds[this].users - 1);
            assert(bus@.shareds =~= w.shareds);
            lemma_relabelled(v, w);
            lemma_unmoved(v, w);
        }
    }
}

impl Node {
    /// Get the data that a user attached to a node.
    pub fn userdata(bus: &Bus, this: Addr) -> (r: usize)
        requires
            bus.wf(),
            bus@.nodes.contains_key(this),
        ensures
            r == bus@.nodes[this].userdata,
    {
        bus.nodes.get(this).userdata
    }

    /// Attach data to a node.
    pub fn set_userdata(bus: &mut Bus, this: Addr, userdata: usize)
        requires
            old(bus).wf(),
            old(bus)@.nodes.contains_key(this),
        ensures
            final(bus).wf(),
            final(bus).limit() == old(bus).limit(),
            final(bus)@ == old(bus)@.node_tagged(this, userdata),
    {
        let ghost v = bus@;
        let ghost m0 = bus.nodes@;
        assert(m0.contains_key(this));
        bus.nodes.get_mut(this).userdata = userdata;
        proof {
            let w = v.node_tagged(this, userdata);
            assert(bus@.nodes =~= w.nodes);
            lemma_nodes_frame(m0, bus.nodes@, bus.handles@, bus.handles@);
            lemma_ops_frame(
                bus.ops@,
                bus.ops@,
                bus.messages@,
                bus.messages@,
                m0,
                bus.nodes@,
                bus.handles@,
                bus.handles@,
            );
            lemma_relabelled(v, w);
            lemma_unmoved(v, w);
        }
    }
}

impl Handle {
    /// Get the data that a user attached to a handle.
    pub fn userdata(bus: &Bus, this: Addr) -> (r: usize)
        requires
            bus.wf(),
            bus@.handles.contains_key(this),
        ensures
            r == bus@.handles[this].userdata,
    {
        bus.handles.get(this).userdata
    }

    /// Attach data to a handle.
    pub fn set_userdata(bus: &mut Bus, this: Addr, userdata: usize)
        requires
            old(bus).wf(),
            old(bus)@.handles.contains_key(this),
        ensures
            final(bus).wf(),
            final(bus).limit() == old(bus).limit(),
            final(bus)@ == old(bus)@.handle_tagged(this, userdata),
    {
        let ghost v = bus@;
        let ghost m0 = bus.handles@;
        assert(m0.contains_key(this));
        bus.handles.get_mut(this).userdata = userdata;
        proof {
            let w = v.handle_tagged(this, userdata);
            assert(bus@.handles =~= w.handles);
            lemma_nodes_frame(bus.nodes@, bus.nodes@, m0, bus.handles@);
            lemma_ops_frame(
                bus.ops@,
                bus.ops@,
                bus.messages@,
                bus.messages@,
                bus.nodes@,
                bus.nodes@,
                m0,
                bus.handles@,
            );
            lemma_relabelled(v, w);
            lemma_unmoved(v, w);
        }
    }
}

impl Node {
    /// Called by the node owner when the node is ready.
    ///
    /// Since nodes are completely independent, there is nothing to be done. The
    /// node will remain isolated for as long as the owner does not pass it
    /// along.
    pub fn begin(bus: &Bus, this: Addr)
        requires
            bus.wf(),
            bus@.nodes.contains_key(this),
    {
    }

    /// Called when a node has been released and a node owner will refrain from
    /// using it, anymore.
    ///
    /// Preferably, this would verify that the node has a transaction assigned
    /// (yet might be pending), but nodes do not carry such information, only
    /// their linked handles. Hence, no validation is performed.
    pub fn end(bus: &Bus, this: Addr)
        requires
            bus.wf(),
            bus@.nodes.contains_key(this),
    {
    }
}

} // verus!
