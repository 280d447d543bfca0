//! Receiving what is queued on a peer.
//!
//! New entries are queued at the front of the queue of a peer. Once the peer has
//! received everything that is ready, the queue is sorted out: all committed
//! entries are ready then, oldest first, and all others are kept for the next
//! time.

use crate::bus::delivery::{lemma_peek_misses_nothing, lemma_receive_is_settled};
use crate::bus::frame::{lemma_list_apart, lemma_peer_apart};
use crate::bus::model::{
    lemma_add_contains, lemma_filter_once, lemma_insert_once, lemma_lists, lemma_ok, lemma_popped,
    lemma_prefetched, lemma_remove_once, lemma_reverse_once, BusView, TxNodeKind,
};
use crate::bus::txnode::TxNodeRef;
use crate::bus::{
    peer_view, queues_linked, tx_node_view, Bus, Peer, PeerLocked, Tx, TxNode, TxNodePeerLink,
};
use crate::util::arena::{Addr, Arena, Object};
use crate::util::slist::{lemma_chain_frame, Ptr};
use crate::util::{lll, slist};
use vstd::prelude::*;

verus! {

/// Whether the transaction of an entry is committed.
spec fn committed(
    tx_nodes: Map<Addr, Object<TxNode>>,
    txs: Map<Addr, Object<Tx>>,
) -> spec_fn(Addr) -> bool {
    |e: Addr|
        match tx_nodes[e].value.tx {
            Some(t) => txs[t].value.committed,
            None => false,
        }
}

/// Whether the transaction of an entry is not committed.
spec fn pending(
    tx_nodes: Map<Addr, Object<TxNode>>,
    txs: Map<Addr, Object<Tx>>,
) -> spec_fn(Addr) -> bool {
    |e: Addr| !committed(tx_nodes, txs)(e)
}

/// The transactions of entries exist.
spec fn attached(
    tx_nodes: Map<Addr, Object<TxNode>>,
    txs: Map<Addr, Object<Tx>>,
    s: Seq<Addr>,
) -> bool {
    forall|i: int| #![trigger s[i]]
        0 <= i < s.len() ==> tx_nodes.contains_key(s[i]) && (tx_nodes[s[i]].value.tx matches Some(
            t,
        ) ==> txs.contains_key(t))
}

/// Nothing is sorted out at first.
proof fn lemma_sort_start(s: Seq<Addr>, f: spec_fn(Addr) -> bool)
    ensures
        s.take(0).filter(f) == Seq::<Addr>::empty(),
{
    reveal(Seq::filter);
}

/// Sorting out one more entry.
proof fn lemma_sort_step(s: Seq<Addr>, k: int, f: spec_fn(Addr) -> bool)
    requires
        0 <= k < s.len(),
    ensures
        s.take(k + 1).filter(f) == if f(s[k]) {
            s.take(k).filter(f).push(s[k])
        } else {
            s.take(k).filter(f)
        },
        f(s[k]) ==> s.take(k + 1).filter(f).reverse() == s.take(k).filter(f).reverse().insert(
            0,
            s[k],
        ),
{
    reveal(Seq::filter);
    let t = s.take(k + 1);
    assert(t.drop_last() =~= s.take(k));
    assert(t.last() == s[k]);
    let u = s.take(k).filter(f);
    assert(u.push(s[k]).reverse() =~= u.reverse().insert(0, s[k]));
}

impl TxNode {
    /// Check whether the transaction of the entry is committed.
    fn is_committed(&self, txs: &Arena<Tx>) -> (r: bool)
        requires
            self.tx matches Some(t) ==> txs@.contains_key(t),
        ensures
            r == match self.tx {
                Some(t) => txs@[t].value.committed,
                None => false,
            },
    {
        match self.tx {
            Some(t) => txs.get(t).committed,
            None => false,
        }
    }
}

/// Three lists have no elements in common.
spec fn apart(a: Seq<Addr>, b: Seq<Addr>, c: Seq<Addr>) -> bool {
    &&& forall|x: Addr| #[trigger] a.contains(x) ==> !b.contains(x) && !c.contains(x)
    &&& forall|x: Addr| #[trigger] b.contains(x) ==> !c.contains(x)
}

impl PeerLocked {
    /// Both lists are properly linked, and so is a third one. They have no
    /// elements in common.
    spec fn apart_from(
        &self,
        todo: slist::List<TxNodePeerLink>,
        m: Map<Addr, Object<TxNode>>,
    ) -> bool {
        &&& todo.wf(m)
        &&& self.queue_ready.wf(m)
        &&& self.queue_busy.wf(m)
        &&& apart(todo@, self.queue_ready@, self.queue_busy@)
    }

    /// All elements of the lists.
    spec fn elements(&self, todo: slist::List<TxNodePeerLink>) -> Set<Addr> {
        todo@.to_set().union(self.queue_ready@.to_set()).union(self.queue_busy@.to_set())
    }

    /// Move an entry from the todo list to the ready list.
    fn todo_ready(
        &mut self,
        c: &mut slist::CursorMut,
        todo: &mut slist::List<TxNodePeerLink>,
        tx_nodes: &mut Arena<TxNode>,
    )
        requires
            old(self).apart_from(*old(todo), old(tx_nodes)@),
            old(c).valid(old(todo)@),
            0 <= old(c).index() < old(todo)@.len(),
        ensures
            final(self).apart_from(*final(todo), final(tx_nodes)@),
            final(self).elements(*final(todo)) == old(self).elements(*old(todo)),
            final(todo)@ == old(todo)@.remove(old(c).index()),
            final(self).queue_ready@ == old(self).queue_ready@.insert(
                0,
                old(todo)@[old(c).index()],
            ),
            final(self).queue_busy@ == old(self).queue_busy@,
            final(c).valid(final(todo)@),
            final(c).index() == old(c).index(),
            slist::relinked::<TxNodePeerLink>(
                old(tx_nodes)@,
                final(tx_nodes)@,
                old(self).elements(*old(todo)),
            ),
            final(tx_nodes).limit() == old(tx_nodes).limit(),
            old(tx_nodes).wf() ==> final(tx_nodes).wf(),
    {
        let ghost m0 = tx_nodes@;
        let ghost t0 = todo@;
        let ghost r0 = self.queue_ready@;
        let ghost u = self.elements(*todo);
        let ghost i = c.index();
        match c.unlink(todo, tx_nodes) {
            Some(e) => {
                let ghost m1 = tx_nodes@;
                proof {
                    assert(t0.contains(t0[i]));
                    lemma_list_apart(m0, m1, self.queue_ready, t0.to_set());
                    lemma_list_apart(m0, m1, self.queue_busy, t0.to_set());
                    slist::lemma_relinked_more::<TxNodePeerLink>(m0, m1, t0.to_set(), u);
                    lemma_remove_once(t0, i);
                }
                let _ = self.queue_ready.try_link_front(tx_nodes, e);
                proof {
                    let m2 = tx_nodes@;
                    let touched = r0.to_set().insert(e);
                    lemma_list_apart(m1, m2, *todo, touched);
                    lemma_list_apart(m1, m2, self.queue_busy, touched);
                    slist::lemma_relinked_more::<TxNodePeerLink>(m1, m2, touched, u);
                    slist::lemma_relinked_trans::<TxNodePeerLink>(m0, m1, m2, u);
                    lemma_insert_once(r0, 0, e);
                    assert(self.elements(*todo) =~= u);
                }
            },
            None => (),
        }
    }

    /// Move the first entry from the busy list to the ready list.
    fn busy_ready(
        &mut self,
        todo: &slist::List<TxNodePeerLink>,
        tx_nodes: &mut Arena<TxNode>,
    )
        requires
            old(self).apart_from(*todo, old(tx_nodes)@),
            old(self).queue_busy@.len() > 0,
        ensures
            final(self).apart_from(*todo, final(tx_nodes)@),
            final(self).elements(*todo) == old(self).elements(*todo),
            final(self).queue_ready@ == old(self).queue_ready@.insert(
                0,
                old(self).queue_busy@[0],
            ),
            final(self).queue_busy@ == old(self).queue_busy@.remove(0),
            slist::relinked::<TxNodePeerLink>(
                old(tx_nodes)@,
                final(tx_nodes)@,
                old(self).elements(*todo),
            ),
            final(tx_nodes).limit() == old(tx_nodes).limit(),
            old(tx_nodes).wf() ==> final(tx_nodes).wf(),
    {
        let ghost m0 = tx_nodes@;
        let ghost b0 = self.queue_busy@;
        let ghost r0 = self.queue_ready@;
        let ghost u = self.elements(*todo);
        match self.queue_busy.unlink_front(tx_nodes) {
            Some(e) => {
                let ghost m1 = tx_nodes@;
                proof {
                    assert(b0.contains(b0[0]));
                    lemma_list_apart(m0, m1, self.queue_ready, b0.to_set());
                    lemma_list_apart(m0, m1, *todo, b0.to_set());
                    slist::lemma_relinked_more::<TxNodePeerLink>(m0, m1, b0.to_set(), u);
                    lemma_remove_once(b0, 0);
                }
                let _ = self.queue_ready.try_link_front(tx_nodes, e);
                proof {
                    let m2 = tx_nodes@;
                    let touched = r0.to_set().insert(e);
                    lemma_list_apart(m1, m2, *todo, touched);
                    lemma_list_apart(m1, m2, self.queue_busy, touched);
                    slist::lemma_relinked_more::<TxNodePeerLink>(m1, m2, touched, u);
                    slist::lemma_relinked_trans::<TxNodePeerLink>(m0, m1, m2, u);
                    lemma_insert_once(r0, 0, e);
                    assert(self.elements(*todo) =~= u);
                }
            },
            None => (),
        }
    }

    /// Move the first entry from the busy list to the end of the todo list.
    fn busy_todo(
        &mut self,
        c: &mut slist::CursorMut,
        todo: &mut slist::List<TxNodePeerLink>,
        tx_nodes: &mut Arena<TxNode>,
    )
        requires
            old(self).apart_from(*old(todo), old(tx_nodes)@),
            old(self).queue_busy@.len() > 0,
            old(c).valid(old(todo)@),
            old(c).index() == old(todo)@.len(),
        ensures
            final(self).apart_from(*final(todo), final(tx_nodes)@),
            final(self).elements(*final(todo)) == old(self).elements(*old(todo)),
            final(todo)@ == old(todo)@.push(old(self).queue_busy@[0]),
            final(self).queue_ready@ == old(self).queue_ready@,
            final(self).queue_busy@ == old(self).queue_busy@.remove(0),
            final(c).valid(final(todo)@),
            final(c).index() == final(todo)@.len(),
            slist::relinked::<TxNodePeerLink>(
                old(tx_nodes)@,
                final(tx_nodes)@,
                old(self).elements(*old(todo)),
            ),
            final(tx_nodes).limit() == old(tx_nodes).limit(),
            old(tx_nodes).wf() ==> final(tx_nodes).wf(),
    {
        let ghost m0 = tx_nodes@;
        let ghost b0 = self.queue_busy@;
        let ghost t0 = todo@;
        let ghost u = self.elements(*todo);
        match self.queue_busy.unlink_front(tx_nodes) {
            Some(e) => {
                let ghost m1 = tx_nodes@;
                proof {
                    assert(b0.contains(b0[0]));
                    lemma_list_apart(m0, m1, self.queue_ready, b0.to_set());
                    lemma_list_apart(m0, m1, *todo, b0.to_set());
                    slist::lemma_relinked_more::<TxNodePeerLink>(m0, m1, b0.to_set(), u);
                    lemma_remove_once(b0, 0);
                }
                let _ = c.try_link(todo, tx_nodes, e);
                proof {
                    let m2 = tx_nodes@;
                    let touched = t0.to_set().insert(e);
                    lemma_list_apart(m1, m2, self.queue_ready, touched);
                    lemma_list_apart(m1, m2, self.queue_busy, touched);
                    slist::lemma_relinked_more::<TxNodePeerLink>(m1, m2, touched, u);
                    slist::lemma_relinked_trans::<TxNodePeerLink>(m0, m1, m2, u);
                    lemma_insert_once(t0, t0.len() as int, e);
                    assert(t0.insert(t0.len() as int, e) =~= t0.push(e));
                    assert(self.elements(*todo) =~= u);
                }
                c.move_next(todo, tx_nodes);
            },
            None => (),
        }
    }

    /// Sort out the entries of the incoming queue.
    ///
    /// New entries are added at the front of the incoming queue, so it is in
    /// reverse order. Iterate the queue in this reverse order (so newest
    /// entries first). Any entry that is committed is then pushed to the ready
    /// list, uncommitted entries are left on the todo list. When done, the
    /// ready list contains the ready items in chronological order, so oldest
    /// message first, but the todo list has the remaining uncommitted items in
    /// the same inverse chronological order.
    ///
    /// This todo list is then saved as the busy list, to be iterated on the
    /// next prefetch. However, first, any previous leftover busy list is
    /// appended to the end of the todo list, with any committed entries moved
    /// to the ready list.
    fn prefetch(
        &mut self,
        queue: &mut lll::List<TxNodePeerLink>,
        tx_nodes: &mut Arena<TxNode>,
        txs: &Arena<Tx>,
    )
        requires
            old(queue).wf(old(tx_nodes)@),
            old(self).queue_ready.wf(old(tx_nodes)@),
            old(self).queue_busy.wf(old(tx_nodes)@),
            (old(queue)@ + old(self).queue_ready@ + old(self).queue_busy@).no_duplicates(),
            attached(old(tx_nodes)@, txs@, old(queue)@ + old(self).queue_busy@),
        ensures
            final(queue).wf(final(tx_nodes)@),
            final(self).queue_ready.wf(final(tx_nodes)@),
            final(self).queue_busy.wf(final(tx_nodes)@),
            final(queue).sealed() == old(queue).sealed(),
            slist::relinked::<TxNodePeerLink>(
                old(tx_nodes)@,
                final(tx_nodes)@,
                (old(queue)@ + old(self).queue_busy@).to_set(),
            ),
            old(self).queue_ready@.len() > 0 ==> {
                &&& final(queue)@ == old(queue)@
                &&& final(self).queue_ready@ == old(self).queue_ready@
                &&& final(self).queue_busy@ == old(self).queue_busy@
            },
            old(self).queue_ready@.len() == 0 ==> {
                let todo = old(queue)@ + old(self).queue_busy@;
                &&& final(queue)@ == Seq::<Addr>::empty()
                &&& final(self).queue_ready@ == todo.filter(
                    committed(old(tx_nodes)@, txs@),
                ).reverse()
                &&& final(self).queue_busy@ == todo.filter(pending(old(tx_nodes)@, txs@))
            },
            final(tx_nodes).limit() == old(tx_nodes).limit(),
            old(tx_nodes).wf() ==> final(tx_nodes).wf(),
    {
        let ghost m0 = tx_nodes@;
        let ghost q0 = queue@;
        let ghost b0 = self.queue_busy@;
        let ghost all = q0 + b0;
        let ghost f = committed(m0, txs@);
        let ghost g = pending(m0, txs@);
        proof {
            slist::lemma_relinked_refl::<TxNodePeerLink>(m0, all.to_set());
        }

        if !self.queue_ready.is_empty(tx_nodes) {
            return;
        }

        let mut todo = queue.clear(tx_nodes);
        let mut c = todo.cursor_mut();
        let ghost mut k: int = 0;
        proof {
            lemma_sort_start(all, f);
            lemma_sort_start(all, g);
            assert(self.queue_ready@ =~= all.take(0).filter(f).reverse());
            assert(todo@ =~= all.take(0).filter(g) + q0.skip(0));
            assert(q0 + self.queue_ready@ + b0 =~= all);
            lemma_halves(q0, b0);
            assert(self.elements(todo) =~= all.to_set());
        }
        loop
            invariant
                all == q0 + b0,
                attached(m0, txs@, all),
                f == committed(m0, txs@),
                g == pending(m0, txs@),
                0 <= k <= q0.len(),
                self.queue_ready@ == all.take(k).filter(f).reverse(),
                todo@ == all.take(k).filter(g) + q0.skip(k),
                self.queue_busy@ == b0,
                c.valid(todo@),
                c.index() == all.take(k).filter(g).len(),
                self.apart_from(todo, tx_nodes@),
                self.elements(todo) == all.to_set(),
                slist::relinked::<TxNodePeerLink>(m0, tx_nodes@, all.to_set()),
                tx_nodes.limit() == old(tx_nodes).limit(),
                old(tx_nodes).wf() ==> tx_nodes.wf(),
            ensures
                k == q0.len(),
            decreases q0.len() - k,
        {
            let ghost m = tx_nodes@;
            let ghost kept = all.take(k).filter(g);
            let e = match c.get_ptr(&todo, tx_nodes) {
                Some(e) => e,
                None => {
                    assert(k == q0.len());
                    break;
                },
            };
            proof {
                assert(e == q0[k]);
                assert(e == all[k]);
                lemma_sort_step(all, k, f);
                lemma_sort_step(all, k, g);
                assert(m0.contains_key(e));
                assert(m[e].value.tx == m0[e].value.tx);
            }
            if tx_nodes.get(e).is_committed(txs) {
                self.todo_ready(&mut c, &mut todo, tx_nodes);
                proof {
                    assert(todo@ =~= kept + q0.skip(k + 1));
                    slist::lemma_relinked_trans::<TxNodePeerLink>(
                        m0,
                        m,
                        tx_nodes@,
                        all.to_set(),
                    );
                }
            } else {
                c.move_next(&todo, tx_nodes);
                assert(todo@ =~= kept.push(e) + q0.skip(k + 1));
            }
            proof {
                k = k + 1;
            }
        }
        proof {
            assert(q0.skip(k) =~= Seq::empty());
            assert(todo@ =~= all.take(k).filter(g));
            assert(b0 =~= all.skip(k));
        }
        loop
            invariant
                attached(m0, txs@, all),
                f == committed(m0, txs@),
                g == pending(m0, txs@),
                0 <= k <= all.len(),
                self.queue_ready@ == all.take(k).filter(f).reverse(),
                todo@ == all.take(k).filter(g),
                self.queue_busy@ == all.skip(k),
                c.valid(todo@),
                c.index() == todo@.len(),
                self.apart_from(todo, tx_nodes@),
                self.elements(todo) == all.to_set(),
                slist::relinked::<TxNodePeerLink>(m0, tx_nodes@, all.to_set()),
                tx_nodes.limit() == old(tx_nodes).limit(),
                old(tx_nodes).wf() ==> tx_nodes.wf(),
            ensures
                k == all.len(),
            decreases all.len() - k,
        {
            let ghost m = tx_nodes@;
            let e = match self.queue_busy.cursor_mut().get_ptr(&self.queue_busy, tx_nodes) {
                Some(e) => e,
                None => {
                    assert(k == all.len());
                    break;
                },
            };
            proof {
                assert(e == all[k]);
                assert(self.queue_busy@.remove(0) =~= all.skip(k + 1));
                lemma_sort_step(all, k, f);
                lemma_sort_step(all, k, g);
                assert(m0.contains_key(e));
                assert(m[e].value.tx == m0[e].value.tx);
            }
            if tx_nodes.get(e).is_committed(txs) {
                self.busy_ready(&todo, tx_nodes);
            } else {
                self.busy_todo(&mut c, &mut todo, tx_nodes);
            }
            proof {
                slist::lemma_relinked_trans::<TxNodePeerLink>(m0, m, tx_nodes@, all.to_set());
                k = k + 1;
            }
        }
        assert(all.take(k) =~= all);
        core::mem::swap(&mut self.queue_busy, &mut todo);
    }
}

/// The halves of a sequence without duplicates have no elements in common.
proof fn lemma_halves(a: Seq<Addr>, b: Seq<Addr>)
    requires
        (a + b).no_duplicates(),
    ensures
        apart(a, Seq::empty(), b),
        forall|x: Addr| #[trigger] (a + b).contains(x) <==> a.contains(x) || b.contains(x),
{
    lemma_add_contains(a, b);
    assert forall|x: Addr| #[trigger] a.contains(x) implies !b.contains(x) by {
        let i = choose|i: int| 0 <= i < a.len() && a[i] == x;
        assert((a + b)[i] == x);
        if b.contains(x) {
            let j = choose|j: int| 0 <= j < b.len() && b[j] == x;
            assert((a + b)[a.len() + j] == x);
        }
    }
}

/// Filters that agree on all elements give the same result.
pub(super) proof fn lemma_filter_same(
    s: Seq<Addr>,
    f: spec_fn(Addr) -> bool,
    g: spec_fn(Addr) -> bool,
)
    requires
        forall|i: int| #![trigger s[i]] 0 <= i < s.len() ==> f(s[i]) == g(s[i]),
    ensures
        s.filter(f) == s.filter(g),
    decreases s.len(),
{
    reveal(Seq::filter);
    if s.len() > 0 {
        let t = s.drop_last();
        assert forall|i: int| #![trigger t[i]] 0 <= i < t.len() implies f(t[i]) == g(t[i]) by {
            assert(t[i] == s[i]);
        }
        assert(f(s[s.len() - 1]) == g(s[s.len() - 1]));
        lemma_filter_same(t, f, g);
    }
}

/// Sorting out the entries of a peer does not affect other peers.
proof fn lemma_prefetch_frame(
    v: BusView,
    peers0: Map<Addr, Object<Peer>>,
    peers1: Map<Addr, Object<Peer>>,
    m0: Map<Addr, Object<TxNode>>,
    m1: Map<Addr, Object<TxNode>>,
    p: Addr,
)
    requires
        v.intact(),
        v.peers == peers0.map_values(peer_view()),
        v.tx_nodes == m0.map_values(tx_node_view()),
        queues_linked(peers0, m0),
        peers0.contains_key(p),
        peers1.dom() =~= peers0.dom(),
        forall|b: Addr| b != p && #[trigger] peers0.contains_key(b) ==> peers1[b] == peers0[b],
        peers1[p].value.queue.wf(m1),
        peers1[p].value.inner.queue_ready.wf(m1),
        peers1[p].value.inner.queue_busy.wf(m1),
        slist::relinked::<TxNodePeerLink>(
            m0,
            m1,
            (v.peers[p].queue + v.peers[p].busy).to_set(),
        ),
        forall|e: Addr| #[trigger]
            (v.peers[p].queue + v.peers[p].busy).contains(e) ==> m1[e].value.peer_link.next
                != Ptr::Null,
    ensures
        queues_linked(peers1, m1),
        m1.map_values(tx_node_view()) == v.tx_nodes,
{
    let todo = v.peers[p].queue + v.peers[p].busy;
    let old_peer = v.peers[p];
    lemma_ok(v);
    assert(v.peers.contains_key(p) && v.peer_ok(p));
    lemma_add_contains(old_peer.queue, old_peer.busy);
    lemma_add_contains(old_peer.queue, old_peer.ready);
    lemma_add_contains(old_peer.queue + old_peer.ready, old_peer.busy);
    assert forall|e: Addr| #[trigger] todo.contains(e) implies v.tx_nodes.contains_key(e)
        && v.tx_nodes[e].queued && v.dest(e) == p by {
        let s = v.lists(p);
        assert(s.contains(e));
        let j = choose|j: int| 0 <= j < s.len() && s[j] == e;
        assert(v.tx_nodes.contains_key(s[j]));
    }
    assert forall|b: Addr| #[trigger] m0.contains_key(b) implies {
        &&& m1.contains_key(b)
        &&& m1[b].value == (TxNode { peer_link: m1[b].value.peer_link, ..m0[b].value })
        &&& !todo.contains(b) ==> m1[b] == m0[b]
    } by {
        assert(m1[b].value == m1[b].value);
    }
    assert forall|b: Addr| #[trigger] peers1.contains_key(b) implies {
        &&& peers1[b].value.queue.wf(m1)
        &&& peers1[b].value.inner.queue_ready.wf(m1)
        &&& peers1[b].value.inner.queue_busy.wf(m1)
    } by {
        assert(peers0.contains_key(b));
        if b != p {
            lemma_peer_apart(v, peers0, m0, m1, b, todo.to_set());
        }
    }
    assert(m1.map_values(tx_node_view()) =~= v.tx_nodes);
}

/// What is next to be received by a peer.
pub enum Peek<'a> {
    /// A message that was sent to a node.
    User {
        /// The node the message was sent to.
        node: Addr,
        /// The handles that are transferred with the message.
        transfers: &'a Vec<Addr>,
        /// The data of the message.
        data: &'a Vec<u8>,
    },
    /// A notification that the node of a handle was released.
    NodeRelease {
        /// The handle whose node was released.
        handle: Addr,
    },
    /// A notification that a handle to a node was released.
    HandleRelease {
        /// The node that the handle refers to.
        node: Addr,
    },
}

impl<'a> Peek<'a> {
    /// This presents the given entry.
    pub open spec fn shows(self, v: BusView, e: Addr) -> bool {
        let base = v.tx_nodes[e].base;
        match v.tx_nodes[e].kind {
            TxNodeKind::User => self matches Peek::User { node, transfers, data } && {
                &&& node == v.handles[v.messages[base].via].node
                &&& transfers@ == v.messages[base].transfers
                &&& data@ == v.shareds[v.messages[base].shared].data
            },
            TxNodeKind::ReleaseNode => self matches Peek::NodeRelease { handle } && handle == base,
            TxNodeKind::ReleaseHandle => self matches Peek::HandleRelease { node } && node
                == v.handles[base].node,
        }
    }
}

impl Peer {
    /// Sort out the entries that are queued on a peer.
    fn prefetch(bus: &mut Bus, this: Addr)
        requires
            old(bus).wf(),
            old(bus)@.peers.contains_key(this),
        ensures
            final(bus).wf(),
            final(bus).limit() == old(bus).limit(),
            final(bus)@ == old(bus)@.prefetched(this),
    {
        let ghost v = bus@;
        let ghost peers0 = bus.peers@;
        let ghost m0 = bus.tx_nodes@;
        let ghost old_peer = v.peers[this];
        let ghost todo = old_peer.queue + old_peer.busy;
        proof {
            lemma_ok(v);
            assert(v.peer_ok(this));
            assert(peers0.contains_key(this));
            lemma_add_contains(old_peer.queue, old_peer.busy);
            lemma_add_contains(old_peer.queue, old_peer.ready);
            lemma_add_contains(old_peer.queue + old_peer.ready, old_peer.busy);
            assert forall|i: int| #![trigger todo[i]] 0 <= i < todo.len() implies m0.contains_key(
                todo[i],
            ) && (m0[todo[i]].value.tx matches Some(t) ==> bus.txs@.contains_key(t)) by {
                assert(todo.contains(todo[i]));
                let s = v.lists(this);
                assert(s.contains(todo[i]));
                let j = choose|j: int| 0 <= j < s.len() && s[j] == todo[i];
                assert(v.tx_nodes.contains_key(s[j]));
                assert(v.tx_node_ok(s[j]));
            }
        }
        let peer = bus.peers.get_mut(this);
        peer.inner.prefetch(&mut peer.queue, &mut bus.tx_nodes, &bus.txs);
        proof {
            let peers1 = bus.peers@;
            let m1 = bus.tx_nodes@;
            assert forall|e: Addr| #[trigger] todo.contains(e) implies m1[e].value.peer_link.next
                != Ptr::Null by {
                if old_peer.ready.len() > 0 {
                    let q = peers1[this].value.queue;
                    let b = peers1[this].value.inner.queue_busy;
                    if old_peer.queue.contains(e) {
                        let i = choose|i: int| 0 <= i < q@.len() && q@[i] == e;
                        assert(slist::next_of::<TxNodePeerLink>(m1, q@[i]) != Ptr::Null);
                    } else {
                        let i = choose|i: int| 0 <= i < b@.len() && b@[i] == e;
                        assert(slist::next_of::<TxNodePeerLink>(m1, b@[i]) != Ptr::Null);
                    }
                } else {
                    assert(todo =~= v.lists(this));
                    let f = committed(m0, bus.txs@);
                    let g = pending(m0, bus.txs@);
                    lemma_filter_once(todo, f);
                    lemma_filter_once(todo, g);
                    lemma_reverse_once(todo.filter(f));
                    let r = peers1[this].value.inner.queue_ready;
                    let b = peers1[this].value.inner.queue_busy;
                    if f(e) {
                        assert(r@.contains(e));
                        let i = choose|i: int| 0 <= i < r@.len() && r@[i] == e;
                        assert(slist::next_of::<TxNodePeerLink>(m1, r@[i]) != Ptr::Null);
                    } else {
                        assert(b@.contains(e));
                        let i = choose|i: int| 0 <= i < b@.len() && b@[i] == e;
                        assert(slist::next_of::<TxNodePeerLink>(m1, b@[i]) != Ptr::Null);
                    }
                }
            }
            lemma_prefetch_frame(v, peers0, peers1, m0, m1, this);
            assert forall|i: int| #![trigger todo[i]] 0 <= i < todo.len() implies v.is_committed(
                todo[i],
            ) == committed(m0, bus.txs@)(todo[i]) by {
                assert(m0.contains_key(todo[i]));
                assert(v.tx_nodes.contains_key(todo[i]));
            }
            lemma_filter_same(todo, committed(m0, bus.txs@), v.committed_fn());
            lemma_filter_same(todo, pending(m0, bus.txs@), v.pending_fn());
            assert(bus@.peers =~= v.prefetched(this).peers);
            assert(bus@.tx_nodes =~= v.tx_nodes);
            lemma_prefetched(v, this);
            lemma_receive_is_settled(v, this);
        }
    }

    /// Check whether anything was ever committed to be received by a peer.
    pub fn readable(bus: &Bus, this: Addr) -> (r: bool)
        requires
            bus.wf(),
            bus@.peers.contains_key(this),
        ensures
            r == bus@.readable(this),
    {
        assert(bus.peers@.contains_key(this));
        bus.peers.get(this).queue_committed > 0
    }

    /// Look at what is next to be received by a peer.
    ///
    /// Entries are received in the order they were queued, but not before their
    /// transaction is committed. Nothing is missed, unless the counter of the
    /// peer has wrapped around.
    pub fn peek<'a>(bus: &'a mut Bus, this: Addr) -> (r: Option<Peek<'a>>)
        requires
            old(bus).wf(),
            old(bus)@.peers.contains_key(this),
        ensures
            final(bus).wf(),
            final(bus).limit() == old(bus).limit(),
            final(bus)@ == if old(bus)@.readable(this) {
                old(bus)@.prefetched(this)
            } else {
                old(bus)@
            },
            r is Some <==> old(bus)@.readable(this) && final(bus)@.peers[this].ready.len() > 0,
            r matches Some(peek) ==> peek.shows(final(bus)@, final(bus)@.peers[this].ready[0]),
            old(bus)@.peers[this].committed <= usize::MAX ==> (r is None <==> old(bus)@.lists(
                this,
            ).len() == 0),
    {
        proof {
            lemma_peek_misses_nothing(bus@, this);
        }
        if !Peer::readable(bus, this) {
            return None;
        }
        proof {
            lemma_prefetched(bus@, this);
        }
        Peer::prefetch(bus, this);
        let ghost v = bus@;
        let ready = &bus.peers.get(this).inner.queue_ready;
        match ready.cursor_mut().get_ptr(ready, &bus.tx_nodes) {
            Some(e) => {
                proof {
                    lemma_ok(v);
                    assert(v.peer_ok(this));
                    let s = v.lists(this);
                    let k = v.peers[this].queue.len() as int;
                    assert(s[k] == e);
                    assert(v.tx_nodes.contains_key(s[k]));
                    assert(v.tx_node_ok(e));
                }
                match TxNodeRef::release(bus, e) {
                    TxNodeRef::User(m) => {
                        assert(v.message_ok(m));
                        let m = bus.messages.get(m);
                        Some(
                            Peek::User {
                                node: bus.handles.get(m.via).node,
                                transfers: &m.transfers,
                                data: &bus.shareds.get(m.shared).data,
                            },
                        )
                    },
                    TxNodeRef::ReleaseNode(h) => Some(Peek::NodeRelease { handle: h }),
                    TxNodeRef::ReleaseHandle(h) => {
                        Some(Peek::HandleRelease { node: bus.handles.get(h).node })
                    },
                }
            },
            None => None,
        }
    }

    /// Remove what is next to be received by a peer.
    pub fn pop(bus: &mut Bus, this: Addr)
        requires
            old(bus).wf(),
            old(bus)@.peers.contains_key(this),
        ensures
            final(bus).wf(),
            final(bus).limit() == old(bus).limit(),
            final(bus)@ == old(bus)@.popped(this),
    {
        let ghost v = bus@;
        let ghost peers0 = bus.peers@;
        let ghost m0 = bus.tx_nodes@;
        assert(peers0.contains_key(this));
        let peer = bus.peers.get_mut(this);
        let r = peer.inner.queue_ready.unlink_front(&mut bus.tx_nodes);
        proof {
            let peers1 = bus.peers@;
            let m1 = bus.tx_nodes@;
            lemma_popped(v, this);
            lemma_receive_is_settled(v, this);
            lemma_pop_frame(v, peers0, peers1, m0, m1, this);
            assert(bus@.peers =~= v.popped(this).peers);
            assert(bus@.tx_nodes =~= v.popped(this).tx_nodes);
        }
    }
}

/// Removing a ready entry does not affect other lists.
proof fn lemma_pop_frame(
    v: BusView,
    peers0: Map<Addr, Object<Peer>>,
    peers1: Map<Addr, Object<Peer>>,
    m0: Map<Addr, Object<TxNode>>,
    m1: Map<Addr, Object<TxNode>>,
    p: Addr,
)
    requires
        v.intact(),
        v.peers == peers0.map_values(peer_view()),
        v.tx_nodes == m0.map_values(tx_node_view()),
        queues_linked(peers0, m0),
        peers0.contains_key(p),
        peers1.dom() =~= peers0.dom(),
        forall|b: Addr| b != p && #[trigger] peers0.contains_key(b) ==> peers1[b] == peers0[b],
        peers1[p].value.queue == peers0[p].value.queue,
        peers1[p].value.inner.queue_busy == peers0[p].value.inner.queue_busy,
        peers1[p].value.inner.queue_ready.wf(m1),
        v.peers[p].ready.len() == 0 ==> m1 == m0,
        v.peers[p].ready.len() > 0 ==> {
            let e = v.peers[p].ready[0];
            &&& peers1[p].value.inner.queue_ready@ == v.peers[p].ready.remove(0)
            &&& m1[e].value.peer_link.next == Ptr::Null
        },
        slist::relinked::<TxNodePeerLink>(m0, m1, v.peers[p].ready.to_set()),
    ensures
        queues_linked(peers1, m1),
        m1.map_values(tx_node_view()) == v.popped(p).tx_nodes,
{
    let ready = v.peers[p].ready;
    lemma_lists(v, p);
    assert forall|b: Addr| #[trigger] m0.contains_key(b) implies {
        &&& m1.contains_key(b)
        &&& m1[b].value == (TxNode { peer_link: m1[b].value.peer_link, ..m0[b].value })
        &&& !ready.contains(b) ==> m1[b] == m0[b]
    } by {
        assert(m1[b].value == m1[b].value);
    }
    assert forall|b: Addr| #[trigger] peers1.contains_key(b) implies {
        &&& peers1[b].value.queue.wf(m1)
        &&& peers1[b].value.inner.queue_ready.wf(m1)
        &&& peers1[b].value.inner.queue_busy.wf(m1)
    } by {
        assert(peers0.contains_key(b));
        if b != p {
            lemma_peer_apart(v, peers0, m0, m1, b, ready.to_set());
        } else {
            lemma_list_apart(m0, m1, peers0[p].value.inner.queue_busy, ready.to_set());
            let queue = peers0[p].value.queue;
            if !queue.sealed() {
                assert forall|i: int| #![trigger queue@[i]] 0 <= i < queue@.len() implies
                    m1.contains_key(queue@[i]) && m1[queue@[i]] == m0[queue@[i]] by {
                    assert(queue@.contains(queue@[i]));
                }
                lemma_chain_frame::<TxNodePeerLink>(m0, m1, queue.first(), queue@);
            }
        }
    }
    assert forall|e: Addr| #[trigger] m0.contains_key(e) implies tx_node_view()(m1[e])
        == v.popped(p).tx_nodes[e] by {
        assert(v.tx_nodes.contains_key(e));
        if ready.contains(e) && e != ready[0] {
            let r = peers1[p].value.inner.queue_ready;
            let i = choose|i: int| 0 <= i < ready.len() && ready[i] == e;
            assert(r@[i - 1] == e);
            assert(slist::next_of::<TxNodePeerLink>(m1, r@[i - 1]) != Ptr::Null);
        }
    }
    if ready.len() > 0 {
        assert(ready.contains(ready[0]));
    }
    assert(m1.map_values(tx_node_view()) =~= v.popped(p).tx_nodes);
}

} // verus!
