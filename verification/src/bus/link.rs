//! Links between objects.
//!
//! Handles are linked into their nodes, to be notified if these are released.
//! Everything that takes part in an operation is linked into it.

use core::cmp::Ordering;
use crate::bus::frame::{lemma_nodes_frame, lemma_ops_frame};
use crate::bus::model::{
    all_in, lemma_handle_linked, lemma_handle_unlinked, lemma_node_cleared, lemma_ok,
    lemma_op_handle_linked, lemma_op_handle_unlinked, lemma_op_handles_cleared,
    lemma_op_message_linked, lemma_op_message_unlinked, lemma_op_messages_cleared,
    lemma_op_node_linked, lemma_op_nodes_cleared, lemma_place, lemma_unmoved, message_sent,
    rearranged, sent_as, similar,
};
use crate::bus::{
    nodes_linked, ops_linked, Bus, Handle, HandleNodeRb, HandleOpRb, Message, MessageError,
    MessageOpRb, Node, NodeOpRb, Op, Peer,
};
use crate::util::arena::{Addr, AllocError, Object};
use crate::util::{order_of, ptr_cmp, rb, slist};
use vstd::prelude::*;

verus! {

/// Linking or unlinking a handle does not affect other nodes.
proof fn lemma_handles_retagged(
    nodes0: Map<Addr, Object<Node>>,
    nodes1: Map<Addr, Object<Node>>,
    m0: Map<Addr, Object<Handle>>,
    m1: Map<Addr, Object<Handle>>,
    n: Addr,
    h: Addr,
)
    requires
        nodes_linked(nodes0, m0),
        nodes0.contains_key(n),
        m0.contains_key(h),
        m0[h].value.node == n,
        nodes1.dom() =~= nodes0.dom(),
        forall|b: Addr| b != n && #[trigger] nodes0.contains_key(b) ==> nodes1[b] == nodes0[b],
        nodes1[n].value.addr == n,
        nodes1[n].value.handles.wf(m1),
        nodes1[n].value.handles.owner() == n,
        m1 == m0 || rb::tagged::<HandleNodeRb>(m0, m1, h, None) || rb::tagged::<HandleNodeRb>(
            m0,
            m1,
            h,
            Some(n),
        ),
    ensures
        nodes_linked(nodes1, m1),
        m1.dom() == m0.dom(),
        forall|b: Addr| #[trigger]
            m0.contains_key(b) ==> {
                &&& m1[b].value.op_rb == m0[b].value.op_rb
                &&& m1[b].value.node == m0[b].value.node
                &&& m1[b].value.owner == m0[b].value.owner
                &&& m1[b].value.userdata == m0[b].value.userdata
                &&& m1[b].value.release_node == m0[b].value.release_node
                &&& m1[b].value.release_handle == m0[b].value.release_handle
                &&& b != h ==> m1[b] == m0[b]
            },
{
    assert forall|b: Addr| #[trigger] m0.contains_key(b) implies {
        &&& m1.contains_key(b)
        &&& m1[b].value == (Handle { node_rb: m1[b].value.node_rb, ..m0[b].value })
        &&& b != h ==> m1[b] == m0[b]
    } by {
        assert(m1[b].value == m1[b].value);
    }
    assert forall|b: Addr| #[trigger] nodes1.contains_key(b) implies
        nodes1[b].value.handles.wf(m1) && nodes1[b].value.handles.owner() == b by {
        if b != n {
            assert(nodes0.contains_key(b));
            rb::lemma_tree_frame::<HandleNodeRb>(&nodes0[b].value.handles, m0, m1);
        }
    }
    assert forall|b: Addr| #[trigger] m1.contains_key(b) implies m1[b].value.node_rb.owner is None
        || m1[b].value.node_rb.owner == Some(m1[b].value.node) by {
        assert(m0.contains_key(b));
    }
}

impl Handle {
    /// Link a handle into its node.
    ///
    /// It is safe to call this multiple times. If the handle is already
    /// linked, this is a no-op.
    pub(super) fn link(bus: &mut Bus, this: Addr)
        requires
            old(bus).sound(),
            old(bus)@.handles.contains_key(this),
        ensures
            final(bus).sound(),
            final(bus).limit() == old(bus).limit(),
            final(bus)@ == if old(bus)@.handles[this].linked {
                old(bus)@
            } else {
                old(bus)@.handle_linked(this)
            },
    {
        let ghost v = bus@;
        let ghost nodes0 = bus.nodes@;
        let ghost m0 = bus.handles@;
        proof {
            lemma_ok(v);
            assert(v.handle_ok(this));
            assert(m0.contains_key(this));
        }
        let n = bus.handles.get(this).node;
        assert(nodes0.contains_key(n));
        let ghost s = nodes0[n].value.handles@;
        let node = bus.nodes.get_mut(n);
        // Handles of the same owner are linked behind each other. The slot
        // cannot be occupied, since they never compare equal.
        let order = |v: &Handle, other: &Handle| -> (o: Ordering)
            ensures
                o == if v.owner < other.owner {
                    Ordering::Less
                } else {
                    Ordering::Greater
                },
            {
                match ptr_cmp(v.owner, other.owner) {
                    Ordering::Less => Ordering::Less,
                    _ => Ordering::Greater,
                }
            };
        let r = node.handles.try_link_by(&mut bus.handles, this, order);
        proof {
            let nodes1 = bus.nodes@;
            let m1 = bus.handles@;
            lemma_handles_retagged(nodes0, nodes1, m0, m1, n, this);
            lemma_ops_frame(
                bus.ops@,
                bus.ops@,
                bus.messages@,
                bus.messages@,
                nodes0,
                nodes1,
                m0,
                m1,
            );
            if r is Ok {
                let k = v.handles[this].owner - 0;
                let keys = v.link_keys(s);
                let i = choose|i: int|
                    {
                        &&& 0 <= i <= s.len()
                        &&& nodes1[n].value.handles@ == #[trigger] s.insert(i, this)
                        &&& i > 0 ==> order.ensures(
                            (&m0[this].value, &rb::nth::<HandleNodeRb>(m0, s, i - 1)),
                            Ordering::Greater,
                        )
                        &&& i < s.len() ==> order.ensures(
                            (&m0[this].value, &rb::nth::<HandleNodeRb>(m0, s, i)),
                            Ordering::Less,
                        )
                    };
                assert(v.node_ok(n));
                lemma_place(keys, k, i);
                assert(bus@.nodes =~= v.handle_linked(this).nodes);
                assert(bus@.handles =~= v.handle_linked(this).handles);
                lemma_handle_linked(v, this);
            } else {
                assert(bus@.nodes =~= v.nodes);
                assert(bus@.handles =~= v.handles);
            }
        }
    }

    /// Unlink a handle from its node.
    ///
    /// If the handle is not linked, this is a no-op.
    pub(super) fn unlink(bus: &mut Bus, this: Addr)
        requires
            old(bus).sound(),
            old(bus)@.handles.contains_key(this),
        ensures
            final(bus).sound(),
            final(bus).limit() == old(bus).limit(),
            final(bus)@ == if old(bus)@.handles[this].linked {
                old(bus)@.handle_unlinked(this)
            } else {
                old(bus)@
            },
    {
        let ghost v = bus@;
        let ghost nodes0 = bus.nodes@;
        let ghost m0 = bus.handles@;
        proof {
            lemma_ok(v);
            assert(v.handle_ok(this));
            assert(m0.contains_key(this));
        }
        let n = bus.handles.get(this).node;
        assert(nodes0.contains_key(n));
        let node = bus.nodes.get_mut(n);
        let r = node.handles.try_unlink(&mut bus.handles, this);
        proof {
            let nodes1 = bus.nodes@;
            let m1 = bus.handles@;
            lemma_handles_retagged(nodes0, nodes1, m0, m1, n, this);
            lemma_ops_frame(
                bus.ops@,
                bus.ops@,
                bus.messages@,
                bus.messages@,
                nodes0,
                nodes1,
                m0,
                m1,
            );
            assert(v.node_ok(n));
            if r is Some {
                let s = v.nodes[n].handles;
                assert(s[s.index_of(this)] == this);
                assert(bus@.nodes =~= v.handle_unlinked(this).nodes);
                assert(bus@.handles =~= v.handle_unlinked(this).handles);
                lemma_handle_unlinked(v, this);
            } else {
                assert(bus@.nodes =~= v.nodes);
                assert(bus@.handles =~= v.handles);
            }
        }
    }

    /// Called when the handle owner is ready to make use of the handle.
    ///
    /// This links the handle into its node, to ensure it will take part in the
    /// notification system.
    pub fn begin(bus: &mut Bus, this: Addr)
        requires
            old(bus).wf(),
            old(bus)@.handles.contains_key(this),
        ensures
            final(bus).wf(),
            final(bus).limit() == old(bus).limit(),
            final(bus)@ == if old(bus)@.handles[this].linked {
                old(bus)@
            } else {
                old(bus)@.handle_linked(this)
            },
    {
        let ghost v = bus@;
        Handle::link(bus, this);
        proof {
            lemma_unmoved(v, bus@);
        }
    }

    /// Called when the handle owner released the handle and no longer manages
    /// it.
    ///
    /// Returns whether the handle is unlinked, since a proper release of the
    /// handle will have done that.
    pub fn end(bus: &Bus, this: Addr) -> (r: bool)
        requires
            bus.wf(),
            bus@.handles.contains_key(this),
        ensures
            r == !bus@.handles[this].linked,
    {
        !bus.handles.get(this).node_rb.is_linked()
    }
}

impl Node {
    /// Unlink all handles from a node, and hand them out in no particular order.
    pub(super) fn clear(bus: &mut Bus, this: Addr) -> (r: Vec<Addr>)
        requires
            old(bus).sound(),
            old(bus)@.nodes.contains_key(this),
        ensures
            final(bus).sound(),
            final(bus).limit() == old(bus).limit(),
            final(bus)@ == old(bus)@.node_cleared(this),
            rearranged(r@, old(bus)@.nodes[this].handles),
            similar(old(bus)@, final(bus)@),
    {
        let ghost v = bus@;
        let ghost nodes0 = bus.nodes@;
        let ghost m0 = bus.handles@;
        let ghost s = v.nodes[this].handles;
        proof {
            lemma_ok(v);
            assert(v.node_ok(this));
            assert(nodes0.contains_key(this));
        }
        let node = bus.nodes.get_mut(this);
        let r = node.handles.clear_with(&mut bus.handles);
        proof {
            let m1 = bus.handles@;
            let nodes1 = bus.nodes@;
            assert forall|b: Addr| #[trigger] m0.contains_key(b) implies {
                &&& m1.contains_key(b)
                &&& m1[b].value == (Handle { node_rb: m1[b].value.node_rb, ..m0[b].value })
                &&& !s.contains(b) ==> m1[b] == m0[b]
                &&& s.contains(b) ==> m1[b].value.node_rb.owner is None
                    && m0[b].value.node_rb.owner == Some(this)
            } by {
                assert(m1[b].value == m1[b].value);
                if s.contains(b) {
                    let i = choose|i: int| 0 <= i < s.len() && s[i] == b;
                    assert(rb::owner_of::<HandleNodeRb>(m1, s[i]) is None);
                    assert(rb::owner_of::<HandleNodeRb>(m0, s[i]) == Some(this));
                } else {
                    assert(!s.to_set().contains(b));
                }
            }
            assert forall|b: Addr| #[trigger] nodes1.contains_key(b) implies
                nodes1[b].value.handles.wf(m1) && nodes1[b].value.handles.owner() == b
                && nodes1[b].value.addr == b by {
                assert(nodes0.contains_key(b));
                if b != this {
                    assert forall|a: Addr| #![trigger m0[a]] #![trigger m1[a]]
                        (m1.contains_key(a) && rb::owner_of::<HandleNodeRb>(m1, a) == Some(b))
                            <==> (m0.contains_key(a) && rb::owner_of::<HandleNodeRb>(m0, a)
                            == Some(b)) by {
                        assert(m0.contains_key(a) ==> m1.contains_key(a));
                    }
                    rb::lemma_tree_frame::<HandleNodeRb>(&nodes0[b].value.handles, m0, m1);
                }
            }
            lemma_ops_frame(
                bus.ops@,
                bus.ops@,
                bus.messages@,
                bus.messages@,
                nodes0,
                nodes1,
                m0,
                m1,
            );
            let w = v.node_cleared(this);
            assert(bus@.nodes =~= w.nodes);
            assert(bus@.handles =~= w.handles);
            lemma_node_cleared(v, this);
            assert forall|a: Addr| #[trigger] r@.contains(a) <==> s.contains(a) by {
                assert(r@.to_set().contains(a) <==> s.to_set().contains(a));
            }
        }
        r
    }
}

/// Linking or unlinking a message does not affect other operations.
proof fn lemma_op_messages_retagged(
    ops0: Map<Addr, Object<Op>>,
    ops1: Map<Addr, Object<Op>>,
    nodes: Map<Addr, Object<Node>>,
    handles: Map<Addr, Object<Handle>>,
    m0: Map<Addr, Object<Message>>,
    m1: Map<Addr, Object<Message>>,
    o: Addr,
    touched: Set<Addr>,
)
    requires
        ops_linked(ops0, m0, nodes, handles),
        ops0.contains_key(o),
        ops1.dom() =~= ops0.dom(),
        forall|b: Addr| b != o && #[trigger] ops0.contains_key(b) ==> ops1[b] == ops0[b],
        ops1[o].value.nodes == ops0[o].value.nodes,
        ops1[o].value.handles == ops0[o].value.handles,
        ops1[o].value.messages.wf(m1),
        ops1[o].value.messages.owner() == o,
        slist::relinked::<MessageOpRb>(m0, m1, touched),
        forall|b: Addr| #[trigger]
            touched.contains(b) && m0.contains_key(b) ==> {
                &&& m0[b].value.op_rb.owner is None || m0[b].value.op_rb.owner == Some(o)
                &&& m1[b].value.op_rb.owner is None || m1[b].value.op_rb.owner == Some(o)
            },
    ensures
        ops_linked(ops1, m1, nodes, handles),
        m1.dom() == m0.dom(),
        forall|b: Addr| #[trigger]
            m0.contains_key(b) ==> {
                &&& m1[b].value.via == m0[b].value.via
                &&& m1[b].value.transfers == m0[b].value.transfers
                &&& m1[b].value.shared == m0[b].value.shared
                &&& m1[b].value.tx_node == m0[b].value.tx_node
                &&& !touched.contains(b) ==> m1[b] == m0[b]
            },
{
    assert forall|b: Addr| #[trigger] m0.contains_key(b) implies {
        &&& m1.contains_key(b)
        &&& m1[b].value == (Message { op_rb: m1[b].value.op_rb, ..m0[b].value })
        &&& !touched.contains(b) ==> m1[b] == m0[b]
    } by {
        assert(m1[b].value == m1[b].value);
    }
    assert forall|b: Addr| #[trigger] ops1.contains_key(b) implies {
        &&& ops1[b].value.messages.wf(m1)
        &&& ops1[b].value.messages.owner() == b
    } by {
        if b != o {
            assert(ops0.contains_key(b));
            assert forall|a: Addr| #![trigger m0[a]] #![trigger m1[a]]
                (m1.contains_key(a) && rb::owner_of::<MessageOpRb>(m1, a) == Some(b)) <==> (
                m0.contains_key(a) && rb::owner_of::<MessageOpRb>(m0, a) == Some(b)) by {
                assert(m0.contains_key(a) ==> m1.contains_key(a));
                assert(touched.contains(a) || !touched.contains(a));
            }
            rb::lemma_tree_frame::<MessageOpRb>(&ops0[b].value.messages, m0, m1);
        }
    }
    assert forall|b: Addr| #[trigger] ops1.contains_key(b) implies {
        &&& ops1[b].value.nodes.wf(nodes)
        &&& ops1[b].value.nodes.owner() == b
        &&& ops1[b].value.handles.wf(handles)
        &&& ops1[b].value.handles.owner() == b
    } by {
        assert(ops0.contains_key(b));
    }
}

/// Linking or unlinking a node does not affect other operations.
proof fn lemma_op_nodes_retagged(
    ops0: Map<Addr, Object<Op>>,
    ops1: Map<Addr, Object<Op>>,
    messages: Map<Addr, Object<Message>>,
    handles: Map<Addr, Object<Handle>>,
    m0: Map<Addr, Object<Node>>,
    m1: Map<Addr, Object<Node>>,
    o: Addr,
    touched: Set<Addr>,
)
    requires
        ops_linked(ops0, messages, m0, handles),
        ops0.contains_key(o),
        ops1.dom() =~= ops0.dom(),
        forall|b: Addr| b != o && #[trigger] ops0.contains_key(b) ==> ops1[b] == ops0[b],
        ops1[o].value.messages == ops0[o].value.messages,
        ops1[o].value.handles == ops0[o].value.handles,
        ops1[o].value.nodes.wf(m1),
        ops1[o].value.nodes.owner() == o,
        slist::relinked::<NodeOpRb>(m0, m1, touched),
        forall|b: Addr| #[trigger]
            touched.contains(b) && m0.contains_key(b) ==> {
                &&& m0[b].value.op_rb.owner is None || m0[b].value.op_rb.owner == Some(o)
                &&& m1[b].value.op_rb.owner is None || m1[b].value.op_rb.owner == Some(o)
            },
    ensures
        ops_linked(ops1, messages, m1, handles),
        m1.dom() == m0.dom(),
        forall|b: Addr| #[trigger]
            m0.contains_key(b) ==> {
                &&& m1[b].value.addr == m0[b].value.addr
                &&& m1[b].value.owner == m0[b].value.owner
                &&& m1[b].value.userdata == m0[b].value.userdata
                &&& m1[b].value.handles == m0[b].value.handles
                &&& !touched.contains(b) ==> m1[b] == m0[b]
            },
{
    assert forall|b: Addr| #[trigger] m0.contains_key(b) implies {
        &&& m1.contains_key(b)
        &&& m1[b].value == (Node { op_rb: m1[b].value.op_rb, ..m0[b].value })
        &&& !touched.contains(b) ==> m1[b] == m0[b]
    } by {
        assert(m1[b].value == m1[b].value);
    }
    assert forall|b: Addr| #[trigger] ops1.contains_key(b) implies {
        &&& ops1[b].value.nodes.wf(m1)
        &&& ops1[b].value.nodes.owner() == b
    } by {
        if b != o {
            assert(ops0.contains_key(b));
            assert forall|a: Addr| #![trigger m0[a]] #![trigger m1[a]]
                (m1.contains_key(a) && rb::owner_of::<NodeOpRb>(m1, a) == Some(b)) <==> (
                m0.contains_key(a) && rb::owner_of::<NodeOpRb>(m0, a) == Some(b)) by {
                assert(m0.contains_key(a) ==> m1.contains_key(a));
                assert(touched.contains(a) || !touched.contains(a));
            }
            rb::lemma_tree_frame::<NodeOpRb>(&ops0[b].value.nodes, m0, m1);
        }
    }
    assert forall|b: Addr| #[trigger] ops1.contains_key(b) implies {
        &&& ops1[b].value.messages.wf(messages)
        &&& ops1[b].value.messages.owner() == b
        &&& ops1[b].value.handles.wf(handles)
        &&& ops1[b].value.handles.owner() == b
    } by {
        assert(ops0.contains_key(b));
    }
}

/// Linking or unlinking a handle does not affect other operations.
proof fn lemma_op_handles_retagged(
    ops0: Map<Addr, Object<Op>>,
    ops1: Map<Addr, Object<Op>>,
    messages: Map<Addr, Object<Message>>,
    nodes: Map<Addr, Object<Node>>,
    m0: Map<Addr, Object<Handle>>,
    m1: Map<Addr, Object<Handle>>,
    o: Addr,
    touched: Set<Addr>,
)
    requires
        ops_linked(ops0, messages, nodes, m0),
        ops0.contains_key(o),
        ops1.dom() =~= ops0.dom(),
        forall|b: Addr| b != o && #[trigger] ops0.contains_key(b) ==> ops1[b] == ops0[b],
        ops1[o].value.messages == ops0[o].value.messages,
        ops1[o].value.nodes == ops0[o].value.nodes,
        ops1[o].value.handles.wf(m1),
        ops1[o].value.handles.owner() == o,
        slist::relinked::<HandleOpRb>(m0, m1, touched),
        forall|b: Addr| #[trigger]
            touched.contains(b) && m0.contains_key(b) ==> {
                &&& m0[b].value.op_rb.owner is None || m0[b].value.op_rb.owner == Some(o)
                &&& m1[b].value.op_rb.owner is None || m1[b].value.op_rb.owner == Some(o)
            },
    ensures
        ops_linked(ops1, messages, nodes, m1),
        m1.dom() == m0.dom(),
        forall|b: Addr| #[trigger]
            m0.contains_key(b) ==> {
                &&& m1[b].value.node == m0[b].value.node
                &&& m1[b].value.owner == m0[b].value.owner
                &&& m1[b].value.userdata == m0[b].value.userdata
                &&& m1[b].value.node_rb == m0[b].value.node_rb
                &&& m1[b].value.release_node == m0[b].value.release_node
                &&& m1[b].value.release_handle == m0[b].value.release_handle
                &&& !touched.contains(b) ==> m1[b] == m0[b]
            },
{
    assert forall|b: Addr| #[trigger] m0.contains_key(b) implies {
        &&& m1.contains_key(b)
        &&& m1[b].value == (Handle { op_rb: m1[b].value.op_rb, ..m0[b].value })
        &&& !touched.contains(b) ==> m1[b] == m0[b]
    } by {
        assert(m1[b].value == m1[b].value);
    }
    assert forall|b: Addr| #[trigger] ops1.contains_key(b) implies {
        &&& ops1[b].value.handles.wf(m1)
        &&& ops1[b].value.handles.owner() == b
    } by {
        if b != o {
            assert(ops0.contains_key(b));
            assert forall|a: Addr| #![trigger m0[a]] #![trigger m1[a]]
                (m1.contains_key(a) && rb::owner_of::<HandleOpRb>(m1, a) == Some(b)) <==> (
                m0.contains_key(a) && rb::owner_of::<HandleOpRb>(m0, a) == Some(b)) by {
                assert(m0.contains_key(a) ==> m1.contains_key(a));
                assert(touched.contains(a) || !touched.contains(a));
            }
            rb::lemma_tree_frame::<HandleOpRb>(&ops0[b].value.handles, m0, m1);
        }
    }
    assert forall|b: Addr| #[trigger] ops1.contains_key(b) implies {
        &&& ops1[b].value.messages.wf(messages)
        &&& ops1[b].value.messages.owner() == b
        &&& ops1[b].value.nodes.wf(nodes)
        &&& ops1[b].value.nodes.owner() == b
    } by {
        assert(ops0.contains_key(b));
    }
}

/// The peer that a handle leads to.
spec fn leads_to(
    handles: Map<Addr, Object<Handle>>,
    nodes: Map<Addr, Object<Node>>,
    h: Addr,
) -> int {
    nodes[handles[h].value.node].value.owner as int
}

impl Op {
    /// Link a message into an operation.
    ///
    /// Messages are ordered by the peer they are sent to. Messages to the same
    /// peer are linked behind each other.
    #[verifier::rlimit(40)]
    fn link_message(bus: &mut Bus, this: Addr, m: Addr)
        requires
            old(bus).sound(),
            old(bus)@.ops.contains_key(this),
            old(bus)@.messages.contains_key(m),
            old(bus)@.messages[m].op is None,
        ensures
            final(bus).sound(),
            final(bus).limit() == old(bus).limit(),
            final(bus)@ == old(bus)@.op_message_linked(this, m),
    {
        let ghost v = bus@;
        let ghost ops0 = bus.ops@;
        let ghost m0 = bus.messages@;
        let ghost hm = bus.handles@;
        let ghost nm = bus.nodes@;
        let ghost s = v.ops[this].messages;
        proof {
            lemma_ok(v);
            assert(v.op_ok(this));
            assert(v.message_ok(m));
            assert(ops0.contains_key(this));
            assert(m0.contains_key(m));
        }
        let op = bus.ops.get_mut(this);
        let handles = &bus.handles;
        let nodes = &bus.nodes;
        let order = |v: &Message, other: &Message| -> (o: Ordering)
            requires
                handles@.contains_key(v.via),
                nodes@.contains_key(handles@[v.via].value.node),
                handles@.contains_key(other.via),
                nodes@.contains_key(handles@[other.via].value.node),
            ensures
                o == order_of(
                    leads_to(handles@, nodes@, v.via),
                    leads_to(handles@, nodes@, other.via),
                ),
            {
                ptr_cmp(
                    nodes.get(handles.get(v.via).node).owner,
                    nodes.get(handles.get(other.via).node).owner,
                )
            };
        proof {
            assert(v.handle_ok(v.messages[m].via));
            assert forall|i: int| #![trigger s[i]] 0 <= i < s.len() implies order.requires(
                (&m0[m].value, &rb::nth::<MessageOpRb>(m0, s, i)),
            ) by {
                assert(v.messages.contains_key(s[i]));
                assert(v.message_ok(s[i]));
                assert(v.handle_ok(v.messages[s[i]].via));
            }
        }
        let r = op.messages.try_link_last_by(&mut bus.messages, m, order);
        proof {
            let m1 = bus.messages@;
            let ops1 = bus.ops@;
            lemma_op_messages_retagged(ops0, ops1, nm, hm, m0, m1, this, set![m]);
            let i = choose|i: int|
                {
                    &&& 0 <= i <= s.len()
                    &&& ops1[this].value.messages@ == #[trigger] s.insert(i, m)
                    &&& i > 0 ==> order.ensures(
                        (&m0[m].value, &rb::nth::<MessageOpRb>(m0, s, i - 1)),
                        Ordering::Greater,
                    ) || order.ensures(
                        (&m0[m].value, &rb::nth::<MessageOpRb>(m0, s, i - 1)),
                        Ordering::Equal,
                    )
                    &&& i < s.len() ==> order.ensures(
                        (&m0[m].value, &rb::nth::<MessageOpRb>(m0, s, i)),
                        Ordering::Less,
                    )
                };
            let keys = v.message_keys(s);
            let key = v.message_dest(m) - 0;
            if i > 0 {
                assert(v.messages.contains_key(s[i - 1]));
                assert(v.message_ok(s[i - 1]));
                assert(v.handle_ok(v.messages[s[i - 1]].via));
            }
            if i < s.len() {
                assert(v.messages.contains_key(s[i]));
                assert(v.message_ok(s[i]));
                assert(v.handle_ok(v.messages[s[i]].via));
            }
            lemma_place(keys, key, i);
            assert(bus@.ops =~= v.op_message_linked(this, m).ops);
            assert(bus@.messages =~= v.op_message_linked(this, m).messages);
            lemma_op_message_linked(v, this, m);
        }
    }

    /// Send a message via a handle.
    ///
    /// The message becomes part of the operation. Messages to the same peer are
    /// kept in order. The handle must be owned by the operator.
    pub fn send_message(
        bus: &mut Bus,
        this: Addr,
        to: Addr,
        transfers: Vec<Addr>,
        shared: Addr,
    ) -> (r: Result<(), MessageError>)
        requires
            old(bus).wf(),
            old(bus)@.ops.contains_key(this),
            old(bus)@.handles.contains_key(to),
            old(bus)@.shareds.contains_key(shared),
            forall|i: int| #![trigger transfers@[i]]
                0 <= i < transfers@.len() ==> old(bus)@.handles.contains_key(transfers@[i]),
        ensures
            final(bus).wf(),
            final(bus).limit() == old(bus).limit(),
            r == if old(bus)@.handles[to].owner != old(bus)@.ops[this].operator {
                Err::<(), MessageError>(MessageError::HandleForeign)
            } else if old(bus)@.messages_full(old(bus).limit()) {
                Err(MessageError::Alloc(AllocError))
            } else {
                Ok(())
            },
            r is Err ==> final(bus)@ == old(bus)@,
            r is Ok ==> message_sent(old(bus)@, final(bus)@, this, to, transfers@, shared),
    {
        let ghost v = bus@;
        let operator = bus.ops.get(this).operator;
        if !Peer::owns_handle(bus, operator, to) {
            return Err(MessageError::HandleForeign);
        }
        let m = match Message::with(bus, to, transfers, shared) {
            Ok(m) => m,
            Err(e) => return Err(MessageError::from(e)),
        };
        Op::link_message(bus, this, m);
        proof {
            let e = bus@.messages[m].tx_node;
            assert(sent_as(v, bus@, this, to, transfers@, shared, m, e));
            lemma_unmoved(v, bus@);
        }
        Ok(())
    }

    /// Release a node.
    ///
    /// The node must be owned by the operator, and must not be part of another
    /// operation. Otherwise, this is a no-op. It also is a no-op if the node is
    /// part of the operation already.
    #[verifier::rlimit(40)]
    pub fn release_node(bus: &mut Bus, this: Addr, node: Addr)
        requires
            old(bus).wf(),
            old(bus)@.ops.contains_key(this),
            old(bus)@.nodes.contains_key(node),
        ensures
            final(bus).wf(),
            final(bus).limit() == old(bus).limit(),
            final(bus)@ == old(bus)@.node_released(this, node),
    {
        let ghost v = bus@;
        let ghost ops0 = bus.ops@;
        let ghost m0 = bus.nodes@;
        let ghost s = v.ops[this].nodes;
        proof {
            lemma_ok(v);
            assert(v.op_ok(this));
            assert(v.node_ok(node));
            assert(ops0.contains_key(this));
            assert(m0.contains_key(node));
        }
        let operator = bus.ops.get(this).operator;
        if !Peer::owns_node(bus, operator, node) {
            return;
        }
        let op = bus.ops.get_mut(this);
        if !op.nodes.contains(&bus.nodes, node) {
            let order = |v: &Node, other: &Node| -> (o: Ordering)
                ensures
                    o == order_of(v.addr - 0, other.addr - 0),
                {
                    ptr_cmp(v.addr, other.addr)
                };
            let r = op.nodes.try_link_by(&mut bus.nodes, node, order);
            proof {
                let m1 = bus.nodes@;
                let ops1 = bus.ops@;
                assert forall|i: int| #![trigger s[i]] 0 <= i < s.len() implies m0[s[i]].value.addr
                    == s[i] && s[i] != node by {
                    assert(v.nodes.contains_key(s[i]));
                    assert(m0.contains_key(s[i]));
                    assert(s.contains(s[i]));
                }
                if r is Ok {
                    lemma_op_nodes_retagged(
                        ops0,
                        ops1,
                        bus.messages@,
                        bus.handles@,
                        m0,
                        m1,
                        this,
                        set![node],
                    );
                    let i = choose|i: int|
                        {
                            &&& 0 <= i <= s.len()
                            &&& ops1[this].value.nodes@ == #[trigger] s.insert(i, node)
                            &&& i > 0 ==> order.ensures(
                                (&m0[node].value, &rb::nth::<NodeOpRb>(m0, s, i - 1)),
                                Ordering::Greater,
                            )
                            &&& i < s.len() ==> order.ensures(
                                (&m0[node].value, &rb::nth::<NodeOpRb>(m0, s, i)),
                                Ordering::Less,
                            )
                        };
                    if i > 0 {
                        assert(m0[s[i - 1]].value.addr == s[i - 1]);
                    }
                    if i < s.len() {
                        assert(m0[s[i]].value.addr == s[i]);
                    }
                    lemma_place(v.node_keys(s), node - 0, i);
                    lemma_nodes_frame(m0, m1, bus.handles@, bus.handles@);
                    assert(bus@.ops =~= v.op_node_linked(this, node).ops);
                    assert(bus@.nodes =~= v.op_node_linked(this, node).nodes);
                    lemma_op_node_linked(v, this, node);
                    lemma_unmoved(v, bus@);
                } else {
                    assert(v.nodes[node].op is Some) by {
                        if v.nodes[node].op is None {
                            let i = choose|i: int|
                                0 <= i < s.len() && order.ensures(
                                    (
                                        &m0[node].value,
                                        #[trigger] &rb::nth::<NodeOpRb>(m0, s, i),
                                    ),
                                    Ordering::Equal,
                                );
                            assert(m0[s[i]].value.addr == s[i]);
                        }
                    }
                    assert(bus@.ops =~= v.ops);
                }
            }
        } else {
            assert(bus@.ops =~= v.ops);
            assert(v.nodes[node].op == Some(this));
        }
    }

    /// Release a handle.
    ///
    /// The handle must be owned by the operator, and must not be part of another
    /// operation. Otherwise, this is a no-op. It also is a no-op if the handle
    /// is part of the operation already.
    #[verifier::rlimit(40)]
    pub fn release_handle(bus: &mut Bus, this: Addr, handle: Addr)
        requires
            old(bus).wf(),
            old(bus)@.ops.contains_key(this),
            old(bus)@.handles.contains_key(handle),
        ensures
            final(bus).wf(),
            final(bus).limit() == old(bus).limit(),
            final(bus)@ == old(bus)@.handle_released(this, handle),
    {
        let ghost v = bus@;
        let ghost ops0 = bus.ops@;
        let ghost m0 = bus.handles@;
        let ghost nm = bus.nodes@;
        let ghost s = v.ops[this].handles;
        proof {
            lemma_ok(v);
            assert(v.op_ok(this));
            assert(v.handle_ok(handle));
            assert(ops0.contains_key(this));
            assert(m0.contains_key(handle));
        }
        let operator = bus.ops.get(this).operator;
        if !Peer::owns_handle(bus, operator, handle) {
            return;
        }
        let op = bus.ops.get_mut(this);
        if !op.handles.contains(&bus.handles, handle) {
            let nodes = &bus.nodes;
            let order = |v: &Handle, other: &Handle| -> (o: Ordering)
                requires
                    nodes@.contains_key(v.node),
                    nodes@.contains_key(other.node),
                ensures
                    o == order_of(
                        nodes@[v.node].value.owner - 0,
                        nodes@[other.node].value.owner - 0,
                    ),
                {
                    ptr_cmp(nodes.get(v.node).owner, nodes.get(other.node).owner)
                };
            proof {
                assert forall|i: int| #![trigger s[i]] 0 <= i < s.len() implies order.requires(
                    (&m0[handle].value, &rb::nth::<HandleOpRb>(m0, s, i)),
                ) by {
                    assert(v.handles.contains_key(s[i]));
                    assert(v.handle_ok(s[i]));
                }
            }
            let r = op.handles.try_link_last_by(&mut bus.handles, handle, order);
            proof {
                let m1 = bus.handles@;
                let ops1 = bus.ops@;
                if r is Ok {
                    lemma_op_handles_retagged(
                        ops0,
                        ops1,
                        bus.messages@,
                        nm,
                        m0,
                        m1,
                        this,
                        set![handle],
                    );
                    let i = choose|i: int|
                        {
                            &&& 0 <= i <= s.len()
                            &&& ops1[this].value.handles@ == #[trigger] s.insert(i, handle)
                            &&& i > 0 ==> order.ensures(
                                (&m0[handle].value, &rb::nth::<HandleOpRb>(m0, s, i - 1)),
                                Ordering::Greater,
                            ) || order.ensures(
                                (&m0[handle].value, &rb::nth::<HandleOpRb>(m0, s, i - 1)),
                                Ordering::Equal,
                            )
                            &&& i < s.len() ==> order.ensures(
                                (&m0[handle].value, &rb::nth::<HandleOpRb>(m0, s, i)),
                                Ordering::Less,
                            )
                        };
                    if i > 0 {
                        assert(v.handles.contains_key(s[i - 1]));
                        assert(v.handle_ok(s[i - 1]));
                    }
                    if i < s.len() {
                        assert(v.handles.contains_key(s[i]));
                        assert(v.handle_ok(s[i]));
                    }
                    lemma_place(v.handle_keys(s), v.handle_dest(handle) - 0, i);
                    lemma_nodes_frame(nm, nm, m0, m1);
                    assert(bus@.ops =~= v.op_handle_linked(this, handle).ops);
                    assert(bus@.handles =~= v.op_handle_linked(this, handle).handles);
                    lemma_op_handle_linked(v, this, handle);
                    lemma_unmoved(v, bus@);
                } else {
                    assert(bus@.ops =~= v.ops);
                }
            }
        } else {
            assert(bus@.ops =~= v.ops);
            assert(v.handles[handle].op == Some(this));
        }
    }

    /// Unlink a message from an operation.
    pub(super) fn unlink_message(bus: &mut Bus, this: Addr, m: Addr)
        requires
            old(bus).sound(),
            old(bus)@.ops.contains_key(this),
            old(bus)@.ops[this].messages.contains(m),
        ensures
            final(bus).sound(),
            final(bus).limit() == old(bus).limit(),
            final(bus)@ == old(bus)@.op_message_unlinked(this, m),
    {
        let ghost v = bus@;
        let ghost ops0 = bus.ops@;
        let ghost m0 = bus.messages@;
        proof {
            lemma_ok(v);
            assert(v.op_ok(this));
            let s = v.ops[this].messages;
            assert(s[s.index_of(m)] == m);
            assert(v.messages.contains_key(m));
            assert(ops0.contains_key(this));
            assert(m0.contains_key(m));
        }
        let op = bus.ops.get_mut(this);
        let _ = op.messages.try_unlink(&mut bus.messages, m);
        proof {
            lemma_op_messages_retagged(
                ops0,
                bus.ops@,
                bus.nodes@,
                bus.handles@,
                m0,
                bus.messages@,
                this,
                set![m],
            );
            assert(bus@.ops =~= v.op_message_unlinked(this, m).ops);
            assert(bus@.messages =~= v.op_message_unlinked(this, m).messages);
            lemma_op_message_unlinked(v, this, m);
        }
    }

    /// Unlink a handle from an operation.
    pub(super) fn unlink_handle(bus: &mut Bus, this: Addr, h: Addr)
        requires
            old(bus).sound(),
            old(bus)@.ops.contains_key(this),
            old(bus)@.ops[this].handles.contains(h),
        ensures
            final(bus).sound(),
            final(bus).limit() == old(bus).limit(),
            final(bus)@ == old(bus)@.op_handle_unlinked(this, h),
    {
        let ghost v = bus@;
        let ghost ops0 = bus.ops@;
        let ghost m0 = bus.handles@;
        proof {
            lemma_ok(v);
            assert(v.op_ok(this));
            let s = v.ops[this].handles;
            assert(s[s.index_of(h)] == h);
            assert(v.handles.contains_key(h));
            assert(ops0.contains_key(this));
            assert(m0.contains_key(h));
        }
        let op = bus.ops.get_mut(this);
        let _ = op.handles.try_unlink(&mut bus.handles, h);
        proof {
            lemma_op_handles_retagged(
                ops0,
                bus.ops@,
                bus.messages@,
                bus.nodes@,
                m0,
                bus.handles@,
                this,
                set![h],
            );
            lemma_nodes_frame(bus.nodes@, bus.nodes@, m0, bus.handles@);
            assert(bus@.ops =~= v.op_handle_unlinked(this, h).ops);
            assert(bus@.handles =~= v.op_handle_unlinked(this, h).handles);
            lemma_op_handle_unlinked(v, this, h);
        }
    }

    /// Unlink all messages from an operation, and hand them out in no particular
    /// order.
    pub(super) fn clear_messages(bus: &mut Bus, this: Addr) -> (r: Vec<Addr>)
        requires
            old(bus).sound(),
            old(bus)@.ops.contains_key(this),
        ensures
            final(bus).sound(),
            final(bus).limit() == old(bus).limit(),
            final(bus)@ == old(bus)@.op_messages_cleared(this),
            rearranged(r@, old(bus)@.ops[this].messages),
            all_in(r@, old(bus)@.messages.dom()),
            similar(old(bus)@, final(bus)@),
    {
        let ghost v = bus@;
        let ghost ops0 = bus.ops@;
        let ghost m0 = bus.messages@;
        let ghost s = v.ops[this].messages;
        proof {
            lemma_ok(v);
            assert(v.op_ok(this));
            assert(ops0.contains_key(this));
        }
        let op = bus.ops.get_mut(this);
        let r = op.messages.clear_with(&mut bus.messages);
        proof {
            let m1 = bus.messages@;
            assert forall|b: Addr| #[trigger] s.to_set().contains(b) && m0.contains_key(b) implies
                m0[b].value.op_rb.owner == Some(this) && m1[b].value.op_rb.owner is None by {
                let i = choose|i: int| 0 <= i < s.len() && s[i] == b;
                assert(rb::owner_of::<MessageOpRb>(m1, s[i]) is None);
                assert(v.messages[s[i]].op == Some(this));
            }
            lemma_op_messages_retagged(
                ops0,
                bus.ops@,
                bus.nodes@,
                bus.handles@,
                m0,
                m1,
                this,
                s.to_set(),
            );
            let w = v.op_messages_cleared(this);
            assert forall|b: Addr| #[trigger] s.contains(b) implies s.to_set().contains(b) by {}
            assert(bus@.ops =~= w.ops);
            assert(bus@.messages =~= w.messages);
            lemma_op_messages_cleared(v, this);
            assert forall|a: Addr| #[trigger] r@.contains(a) <==> s.contains(a) by {
                assert(r@.to_set().contains(a) <==> s.to_set().contains(a));
            }
            assert forall|i: int| #![trigger r@[i]] 0 <= i < r@.len() implies v.messages.contains_key(
                r@[i],
            ) by {
                assert(r@.contains(r@[i]));
                let j = choose|j: int| 0 <= j < s.len() && s[j] == r@[i];
                assert(v.messages.contains_key(s[j]));
            }
        }
        r
    }

    /// Unlink all nodes from an operation, and hand them out in no particular
    /// order.
    pub(super) fn clear_nodes(bus: &mut Bus, this: Addr) -> (r: Vec<Addr>)
        requires
            old(bus).sound(),
            old(bus)@.ops.contains_key(this),
        ensures
            final(bus).sound(),
            final(bus).limit() == old(bus).limit(),
            final(bus)@ == old(bus)@.op_nodes_cleared(this),
            rearranged(r@, old(bus)@.ops[this].nodes),
            all_in(r@, old(bus)@.nodes.dom()),
            similar(old(bus)@, final(bus)@),
    {
        let ghost v = bus@;
        let ghost ops0 = bus.ops@;
        let ghost m0 = bus.nodes@;
        let ghost s = v.ops[this].nodes;
        proof {
            lemma_ok(v);
            assert(v.op_ok(this));
            assert(ops0.contains_key(this));
        }
        let op = bus.ops.get_mut(this);
        let r = op.nodes.clear_with(&mut bus.nodes);
        proof {
            let m1 = bus.nodes@;
            assert forall|b: Addr| #[trigger] s.to_set().contains(b) && m0.contains_key(b) implies
                m0[b].value.op_rb.owner == Some(this) && m1[b].value.op_rb.owner is None by {
                let i = choose|i: int| 0 <= i < s.len() && s[i] == b;
                assert(rb::owner_of::<NodeOpRb>(m1, s[i]) is None);
                assert(v.nodes[s[i]].op == Some(this));
            }
            lemma_op_nodes_retagged(
                ops0,
                bus.ops@,
                bus.messages@,
                bus.handles@,
                m0,
                m1,
                this,
                s.to_set(),
            );
            lemma_nodes_frame(m0, m1, bus.handles@, bus.handles@);
            let w = v.op_nodes_cleared(this);
            assert forall|b: Addr| #[trigger] s.contains(b) implies s.to_set().contains(b) by {}
            assert(bus@.ops =~= w.ops);
            assert(bus@.nodes =~= w.nodes);
            lemma_op_nodes_cleared(v, this);
            assert forall|a: Addr| #[trigger] r@.contains(a) <==> s.contains(a) by {
                assert(r@.to_set().contains(a) <==> s.to_set().contains(a));
            }
            assert forall|i: int| #![trigger r@[i]] 0 <= i < r@.len() implies v.nodes.contains_key(
                r@[i],
            ) by {
                assert(r@.contains(r@[i]));
                let j = choose|j: int| 0 <= j < s.len() && s[j] == r@[i];
                assert(v.nodes.contains_key(s[j]));
            }
        }
        r
    }

    /// Unlink all handles from an operation, and hand them out in no particular
    /// order.
    pub(super) fn clear_handles(bus: &mut Bus, this: Addr) -> (r: Vec<Addr>)
        requires
            old(bus).sound(),
            old(bus)@.ops.contains_key(this),
        ensures
            final(bus).sound(),
            final(bus).limit() == old(bus).limit(),
            final(bus)@ == old(bus)@.op_handles_cleared(this),
            rearranged(r@, old(bus)@.ops[this].handles),
            all_in(r@, old(bus)@.handles.dom()),
            similar(old(bus)@, final(bus)@),
    {
        let ghost v = bus@;
        let ghost ops0 = bus.ops@;
        let ghost m0 = bus.handles@;
        let ghost s = v.ops[this].handles;
        proof {
            lemma_ok(v);
            assert(v.op_ok(this));
            assert(ops0.contains_key(this));
        }
        let op = bus.ops.get_mut(this);
        let r = op.handles.clear_with(&mut bus.handles);
        proof {
            let m1 = bus.handles@;
            assert forall|b: Addr| #[trigger] s.to_set().contains(b) && m0.contains_key(b) implies
                m0[b].value.op_rb.owner == Some(this) && m1[b].value.op_rb.owner is None by {
                let i = choose|i: int| 0 <= i < s.len() && s[i] == b;
                assert(rb::owner_of::<HandleOpRb>(m1, s[i]) is None);
                assert(v.handles[s[i]].op == Some(this));
            }
            lemma_op_handles_retagged(
                ops0,
                bus.ops@,
                bus.messages@,
                bus.nodes@,
                m0,
                m1,
                this,
                s.to_set(),
            );
            lemma_nodes_frame(bus.nodes@, bus.nodes@, m0, m1);
            let w = v.op_handles_cleared(this);
            assert forall|b: Addr| #[trigger] s.contains(b) implies s.to_set().contains(b) by {}
            assert(bus@.ops =~= w.ops);
            assert(bus@.handles =~= w.handles);
            lemma_op_handles_cleared(v, this);
            assert forall|a: Addr| #[trigger] r@.contains(a) <==> s.contains(a) by {
                assert(r@.to_set().contains(a) <==> s.to_set().contains(a));
            }
            assert forall|i: int| #![trigger r@[i]] 0 <= i < r@.len() implies v.handles.contains_key(
                r@[i],
            ) by {
                assert(r@.contains(r@[i]));
                let j = choose|j: int| 0 <= j < s.len() && s[j] == r@[i];
                assert(v.handles.contains_key(s[j]));
            }
        }
        r
    }
}

} // verus!
