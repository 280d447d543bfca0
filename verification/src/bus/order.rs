//! The order in which entries are queued.
//!
//! An operation consists of a series of entries: first those of its messages,
//! then those of the handles to its nodes, and last those of its handles. A
//! commit queues them in this order, and hence every peer receives them in this
//! order.

use crate::bus::model::{
    all_in, lemma_dest, lemma_enqueued, lemma_handle_queued, lemma_message_queued, lemma_ok,
    lemma_remove_once, lemma_similar, lemma_similar_trans, same_ops, similar, BusView, PeerView,
    TxNodeKind, TxNodeView,
};
use crate::util::arena::Addr;
use vstd::prelude::*;

verus! {

impl BusView {
    /// The bus after a series of entries was queued.
    pub open spec fn entries_queued(self, tx: Addr, s: Seq<Addr>) -> BusView
        decreases s.len(),
    {
        if s.len() == 0 {
            self
        } else {
            self.entries_queued(tx, s.drop_last()).enqueued(tx, s.last())
        }
    }

    /// Tells which entries are queued on a peer if they are attempted to be
    /// queued.
    pub open spec fn arrives_fn(self, p: Addr) -> spec_fn(Addr) -> bool {
        |e: Addr| self.dest(e) == p && self.queueable(e)
    }

    /// An entry after an attempt to queue it.
    pub open spec fn attempted(self, tx: Addr, e: Addr) -> TxNodeView {
        TxNodeView {
            tx: if self.tx_nodes[e].tx is None {
                Some(tx)
            } else {
                self.tx_nodes[e].tx
            },
            queued: self.tx_nodes[e].queued || self.queueable(e),
            ..self.tx_nodes[e]
        }
    }

    /// A peer after an attempt to queue a series of entries.
    pub open spec fn filled(self, p: Addr, s: Seq<Addr>) -> PeerView {
        PeerView {
            queue: s.filter(self.arrives_fn(p)).reverse() + self.peers[p].queue,
            ..self.peers[p]
        }
    }

    /// The entries of a series of messages.
    pub open spec fn message_entries(self, s: Seq<Addr>) -> Seq<Addr> {
        s.map_values(|m: Addr| self.messages[m].tx_node)
    }

    /// The entries that notify the owners of a series of handles about the
    /// release of a node.
    pub open spec fn owner_entries(self, s: Seq<Addr>) -> Seq<Addr> {
        s.map_values(|h: Addr| self.handles[h].release_node)
    }

    /// The entries that notify about the release of a series of nodes.
    pub open spec fn node_entries(self, s: Seq<Addr>) -> Seq<Addr>
        decreases s.len(),
    {
        if s.len() == 0 {
            Seq::empty()
        } else {
            self.node_entries(s.drop_last()) + self.owner_entries(self.nodes[s.last()].handles)
        }
    }

    /// The entries that notify about the release of a series of handles.
    pub open spec fn handle_entries(self, s: Seq<Addr>) -> Seq<Addr> {
        s.map_values(|h: Addr| self.handles[h].release_handle)
    }

    /// All entries of an operation, in order.
    pub open spec fn op_entries(self, o: Addr) -> Seq<Addr> {
        self.message_entries(self.ops[o].messages) + self.node_entries(self.ops[o].nodes)
            + self.handle_entries(self.ops[o].handles)
    }
}

/// The effect of queueing a series of entries, on peers and on entries.
pub proof fn lemma_entries_queued(v: BusView, tx: Addr, s: Seq<Addr>)
    requires
        v.intact(),
        v.txs.contains_key(tx),
        s.no_duplicates(),
        all_in(s, v.tx_nodes.dom()),
    ensures
        v.entries_queued(tx, s).intact(),
        similar(v, v.entries_queued(tx, s)),
        v.entries_queued(tx, s) == (BusView {
            peers: v.entries_queued(tx, s).peers,
            tx_nodes: v.entries_queued(tx, s).tx_nodes,
            ..v
        }),
        forall|p: Addr| #[trigger]
            v.peers.contains_key(p) ==> v.entries_queued(tx, s).peers[p] == v.filled(p, s),
        forall|e: Addr| #[trigger]
            v.tx_nodes.contains_key(e) ==> v.entries_queued(tx, s).tx_nodes[e] == if s.contains(
                e,
            ) {
                v.attempted(tx, e)
            } else {
                v.tx_nodes[e]
            },
    decreases s.len(),
{
    if s.len() == 0 {
        assert forall|p: Addr| #[trigger] v.peers.contains_key(p) implies v.peers[p] == v.filled(
            p,
            s,
        ) by {
            reveal(Seq::filter);
            assert(s.filter(v.arrives_fn(p)).reverse() + v.peers[p].queue =~= v.peers[p].queue);
        }
    } else {
        let t = s.drop_last();
        let e = s.last();
        let w = v.entries_queued(tx, t);
        let x = v.entries_queued(tx, s);
        assert forall|i: int| #![trigger t[i]] 0 <= i < t.len() implies v.tx_nodes.contains_key(
            t[i],
        ) by {
            assert(s[i] == t[i]);
        }
        lemma_entries_queued(v, tx, t);
        assert(s[s.len() - 1] == e);
        assert(v.tx_nodes.contains_key(e));
        assert(!t.contains(e));
        lemma_enqueued(w, tx, e);
        lemma_similar_trans(v, w, x);
        lemma_similar(v, w);
        lemma_dest(v, e);
        let d = v.dest(e);
        assert(w.dest(e) == d);
        assert(w.peers[d] == v.filled(d, t));
        assert(w.tx_nodes[e] == v.tx_nodes[e]);
        assert(w.queueable(e) == v.queueable(e));
        assert forall|p: Addr| #[trigger] v.peers.contains_key(p) implies x.peers[p] == v.filled(
            p,
            s,
        ) by {
            let f = v.arrives_fn(p);
            assert(s =~= t.push(e));
            lemma_filter_push(t, e, f);
            assert(w.peers[p] == v.filled(p, t));
            if f(e) {
                assert(t.filter(f).push(e).reverse() + v.peers[p].queue =~= (t.filter(f).reverse()
                    + v.peers[p].queue).insert(0, e));
            }
        }
        assert forall|b: Addr| #[trigger] v.tx_nodes.contains_key(b) implies x.tx_nodes[b]
            == if s.contains(b) {
            v.attempted(tx, b)
        } else {
            v.tx_nodes[b]
        } by {
            assert(s.contains(b) <==> t.contains(b) || b == e) by {
                if t.contains(b) {
                    let i = choose|i: int| 0 <= i < t.len() && t[i] == b;
                    assert(s[i] == b);
                }
                if s.contains(b) && b != e {
                    let i = choose|i: int| 0 <= i < s.len() && s[i] == b;
                    assert(t[i] == b);
                }
            }
        }
    }
}

/// Filtering a sequence with one more element.
proof fn lemma_filter_push(s: Seq<Addr>, a: Addr, f: spec_fn(Addr) -> bool)
    ensures
        s.push(a).filter(f) == if f(a) {
            s.filter(f).push(a)
        } else {
            s.filter(f)
        },
{
    reveal(Seq::filter);
    assert(s.push(a).drop_last() =~= s);
}

/// Queueing one series of entries after another one.
proof fn lemma_entries_add(v: BusView, tx: Addr, s: Seq<Addr>, t: Seq<Addr>)
    ensures
        v.entries_queued(tx, s + t) == v.entries_queued(tx, s).entries_queued(tx, t),
    decreases t.len(),
{
    if t.len() == 0 {
        assert(s + t =~= s);
    } else {
        assert((s + t).drop_last() =~= s + t.drop_last());
        assert((s + t).last() == t.last());
        lemma_entries_add(v, tx, s, t.drop_last());
    }
}

/// What is queued, and what is committed, is the same.
pub open spec fn same_queues(v: BusView, w: BusView) -> bool {
    &&& similar(v, w)
    &&& w.peers == v.peers
    &&& w.tx_nodes == v.tx_nodes
    &&& w.txs == v.txs
}

/// Queueing an entry does not depend on anything but queues.
proof fn lemma_enqueued_same(v: BusView, w: BusView, tx: Addr, e: Addr)
    requires
        v.intact(),
        same_queues(v, w),
        v.tx_nodes.contains_key(e),
        v.txs.contains_key(tx),
    ensures
        same_queues(v.enqueued(tx, e), w.enqueued(tx, e)),
{
    lemma_similar(v, w);
    lemma_enqueued(v, tx, e);
    assert(w.dest(e) == v.dest(e));
    assert(w.queueable(e) == v.queueable(e));
}

/// Queueing messages does not affect whether another one can be queued.
proof fn lemma_message_stays_queueable(
    v: BusView,
    x: BusView,
    o: Addr,
    t: Seq<Addr>,
    m: Addr,
)
    requires
        v.intact(),
        v.ops.contains_key(o),
        t.no_duplicates(),
        forall|i: int| #![trigger t[i]] 0 <= i < t.len() ==> v.ops[o].messages.contains(t[i]),
        v.ops[o].messages.contains(m),
        !t.contains(m),
        similar(v, x),
        same_queues(v.entries_queued(v.ops[o].tx, v.message_entries(t)), x),
    ensures
        x.queueable(v.messages[m].tx_node) == v.queueable(v.messages[m].tx_node),
{
    let ms = v.ops[o].messages;
    let es = v.message_entries(t);
    let e = v.messages[m].tx_node;
    lemma_ok(v);
    assert(v.op_ok(o));
    assert forall|a: Addr| #[trigger] ms.contains(a) implies v.messages.contains_key(a)
        && v.message_ok(a) by {
        let j = choose|j: int| 0 <= j < ms.len() && ms[j] == a;
        assert(v.messages.contains_key(ms[j]));
    }
    assert forall|i: int| #![trigger es[i]] 0 <= i < es.len() implies v.tx_nodes.contains_key(es[i])
        && v.tx_nodes[es[i]].base == t[i] by {
        assert(ms.contains(t[i]));
    }
    assert(!es.contains(e)) by {
        if es.contains(e) {
            let i = choose|i: int| 0 <= i < es.len() && es[i] == e;
            assert(t[i] == m);
        }
    }
    lemma_entries_queued(v, v.ops[o].tx, es);
    lemma_dest(v, e);
    lemma_similar(v, x);
}

/// Queueing a series of messages is the same as queueing their entries.
proof fn lemma_messages_queued(v: BusView, o: Addr, s: Seq<Addr>)
    requires
        v.intact(),
        v.ops.contains_key(o),
        s.no_duplicates(),
        forall|i: int| #![trigger s[i]] 0 <= i < s.len() ==> v.ops[o].messages.contains(s[i]),
    ensures
        v.messages_queued(o, s).intact(),
        same_queues(
            v.entries_queued(v.ops[o].tx, v.message_entries(s)),
            v.messages_queued(o, s),
        ),
        similar(v, v.messages_queued(o, s)),
        v.messages_queued(o, s).nodes == v.nodes,
        v.messages_queued(o, s).handles == v.handles,
        same_ops(v, v.messages_queued(o, s), o),
        v.messages_queued(o, s).ops[o].nodes == v.ops[o].nodes,
        v.messages_queued(o, s).ops[o].handles == v.ops[o].handles,
        forall|b: Addr| #[trigger]
            v.messages_queued(o, s).ops[o].messages.contains(b) ==> v.ops[o].messages.contains(b),
        forall|i: int| #![trigger s[i]]
            0 <= i < s.len() && v.queueable(v.messages[s[i]].tx_node) ==> v.messages_queued(
                o,
                s,
            ).ops[o].messages.contains(s[i]),
        forall|i: int| #![trigger s[i]]
            0 <= i < s.len() && !v.queueable(v.messages[s[i]].tx_node) ==> !v.messages_queued(
                o,
                s,
            ).ops[o].messages.contains(s[i]),
        forall|b: Addr| !s.contains(b) && #[trigger] v.ops[o].messages.contains(b)
            ==> v.messages_queued(o, s).ops[o].messages.contains(b),
        v.entries_queued(v.ops[o].tx, v.message_entries(s)).intact(),
    decreases s.len(),
{
    let tx = v.ops[o].tx;
    let es = v.message_entries(s);
    if s.len() > 0 {
        let t = s.drop_last();
        let m = s.last();
        let x = v.messages_queued(o, t);
        assert forall|i: int| #![trigger t[i]] 0 <= i < t.len() implies v.ops[o].messages.contains(
            t[i],
        ) by {
            assert(s[i] == t[i]);
        }
        lemma_messages_queued(v, o, t);
        assert(s[s.len() - 1] == m);
        assert(!t.contains(m));
        assert(x.ops[o].messages.contains(m));
        let e = v.messages[m].tx_node;
        assert(es.drop_last() =~= v.message_entries(t));
        assert(es.last() == e);
        let y = v.entries_queued(tx, es.drop_last());
        lemma_ok(x);
        assert(x.op_ok(o));
        let ms = x.ops[o].messages;
        assert(ms[ms.index_of(m)] == m);
        assert(x.message_ok(m));
        assert(x.messages[m].tx_node == e);
        lemma_enqueued_same(y, x, tx, e);
        lemma_message_queued(x, o, m);
        lemma_similar_trans(v, x, x.message_queued(o, m));
        let z = x.enqueued(tx, e);
        lemma_enqueued(x, tx, e);
        lemma_enqueued(y, tx, e);
        assert(similar(z, x.message_queued(o, m)));
        lemma_similar_trans(y.enqueued(tx, e), z, x.message_queued(o, m));
        assert(x.queueable(e) == v.queueable(e)) by {
            lemma_message_stays_queueable(v, x, o, t, m);
        }
        assert forall|i: int| #![trigger s[i]]
            0 <= i < s.len() && v.queueable(v.messages[s[i]].tx_node) implies v.messages_queued(
            o,
            s,
        ).ops[o].messages.contains(s[i]) by {
            if i < t.len() {
                assert(t[i] == s[i]);
                assert(x.ops[o].messages.contains(t[i]));
            }
        }
        assert forall|i: int| #![trigger s[i]]
            0 <= i < s.len() && !v.queueable(v.messages[s[i]].tx_node) implies !v.messages_queued(
            o,
            s,
        ).ops[o].messages.contains(s[i]) by {
            if !x.queueable(e) {
                lemma_remove_once(ms, ms.index_of(m));
            }
            if i < t.len() {
                assert(t[i] == s[i]);
                assert(!x.ops[o].messages.contains(t[i]));
            }
        }
        assert forall|b: Addr| #[trigger]
            v.messages_queued(o, s).ops[o].messages.contains(b) implies v.ops[o].messages.contains(
            b,
        ) by {
            if !x.queueable(e) {
                lemma_remove_once(ms, ms.index_of(m));
            }
            assert(x.ops[o].messages.contains(b));
        }
        assert forall|b: Addr| !s.contains(b) && #[trigger] v.ops[o].messages.contains(
            b,
        ) implies v.messages_queued(o, s).ops[o].messages.contains(b) by {
            assert(b != m);
            if t.contains(b) {
                let i = choose|i: int| 0 <= i < t.len() && t[i] == b;
                assert(s[i] == b);
            }
            assert(x.ops[o].messages.contains(b));
        }
    } else {
        assert(es.len() == 0);
    }
}

/// Notifying the owners of a series of handles is the same as queueing the
/// entries.
proof fn lemma_owners_queued(v: BusView, o: Addr, s: Seq<Addr>)
    ensures
        v.owners_queued(o, s) == v.entries_queued(v.ops[o].tx, v.owner_entries(s)),
        v.owners_queued(o, s).ops == v.ops,
        v.owners_queued(o, s).handles == v.handles,
        v.owners_queued(o, s).nodes == v.nodes,
    decreases s.len(),
{
    let es = v.owner_entries(s);
    if s.len() > 0 {
        lemma_owners_queued(v, o, s.drop_last());
        assert(es.drop_last() =~= v.owner_entries(s.drop_last()));
        assert(es.last() == v.handles[s.last()].release_node);
    }
}

/// Notifying about the release of a series of nodes is the same as queueing the
/// entries.
proof fn lemma_nodes_queued(v: BusView, o: Addr, s: Seq<Addr>)
    ensures
        v.nodes_queued(o, s) == v.entries_queued(v.ops[o].tx, v.node_entries(s)),
        v.nodes_queued(o, s).ops == v.ops,
        v.nodes_queued(o, s).handles == v.handles,
        v.nodes_queued(o, s).nodes == v.nodes,
    decreases s.len(),
{
    if s.len() > 0 {
        let w = v.nodes_queued(o, s.drop_last());
        let hs = v.nodes[s.last()].handles;
        lemma_nodes_queued(v, o, s.drop_last());
        lemma_owners_queued(w, o, hs);
        assert(w.owner_entries(hs) =~= v.owner_entries(hs));
        lemma_entries_add(
            v,
            v.ops[o].tx,
            v.node_entries(s.drop_last()),
            v.owner_entries(hs),
        );
    }
}

/// Queueing the release of a series of handles is the same as queueing their
/// entries.
proof fn lemma_handles_queued(v: BusView, o: Addr, s: Seq<Addr>)
    requires
        v.intact(),
        v.ops.contains_key(o),
        s.no_duplicates(),
        forall|i: int| #![trigger s[i]] 0 <= i < s.len() ==> v.ops[o].handles.contains(s[i]),
    ensures
        v.handles_queued(o, s).intact(),
        same_queues(v.entries_queued(v.ops[o].tx, v.handle_entries(s)), v.handles_queued(o, s)),
        similar(v, v.handles_queued(o, s)),
        same_ops(v, v.handles_queued(o, s), o),
        v.handles_queued(o, s).ops[o].nodes == v.ops[o].nodes,
        v.handles_queued(o, s).ops[o].messages == v.ops[o].messages,
        forall|b: Addr| !s.contains(b) && #[trigger] v.handles.contains_key(b)
            ==> v.handles_queued(o, s).handles[b].linked == v.handles[b].linked,
        forall|b: Addr| !s.contains(b) && #[trigger] v.ops[o].handles.contains(b)
            ==> v.handles_queued(o, s).ops[o].handles.contains(b),
        forall|b: Addr| #[trigger]
            v.handles_queued(o, s).ops[o].handles.contains(b) ==> v.ops[o].handles.contains(b),
        v.entries_queued(v.ops[o].tx, v.handle_entries(s)).intact(),
    decreases s.len(),
{
    let tx = v.ops[o].tx;
    let es = v.handle_entries(s);
    if s.len() > 0 {
        let t = s.drop_last();
        let h = s.last();
        let x = v.handles_queued(o, t);
        assert forall|i: int| #![trigger t[i]] 0 <= i < t.len() implies v.ops[o].handles.contains(
            t[i],
        ) by {
            assert(s[i] == t[i]);
        }
        lemma_handles_queued(v, o, t);
        assert(s[s.len() - 1] == h);
        assert(!t.contains(h));
        assert(x.ops[o].handles.contains(h));
        let e = v.handles[h].release_handle;
        assert(es.drop_last() =~= v.handle_entries(t));
        assert(es.last() == e);
        let y = v.entries_queued(tx, es.drop_last());
        lemma_ok(x);
        assert(x.op_ok(o));
        let hs = x.ops[o].handles;
        assert(hs[hs.index_of(h)] == h);
        assert(x.handle_ok(h));
        assert(x.handles[h].release_handle == e);
        lemma_enqueued_same(y, x, tx, e);
        lemma_handle_queued(x, o, h);
        lemma_similar_trans(v, x, x.handle_queued(o, h));
        let z = x.enqueued(tx, e);
        lemma_enqueued(x, tx, e);
        lemma_enqueued(y, tx, e);
        lemma_ok(z);
        assert(z.handle_ok(h));
        assert(similar(z, x.handle_queued(o, h)));
        lemma_similar_trans(y.enqueued(tx, e), z, x.handle_queued(o, h));
        assert forall|b: Addr| !s.contains(b) && #[trigger] v.handles.contains_key(b) implies
            v.handles_queued(o, s).handles[b].linked == v.handles[b].linked by {
            assert(b != h);
            if t.contains(b) {
                let i = choose|i: int| 0 <= i < t.len() && t[i] == b;
                assert(s[i] == b);
            }
            assert(x.handles[b].linked == v.handles[b].linked);
        }
        assert forall|b: Addr| !s.contains(b) && #[trigger] v.ops[o].handles.contains(
            b,
        ) implies v.handles_queued(o, s).ops[o].handles.contains(b) by {
            assert(b != h);
            if t.contains(b) {
                let i = choose|i: int| 0 <= i < t.len() && t[i] == b;
                assert(s[i] == b);
            }
            assert(x.ops[o].handles.contains(b));
        }
        assert forall|b: Addr| #[trigger]
            v.handles_queued(o, s).ops[o].handles.contains(b) implies v.ops[o].handles.contains(
            b,
        ) by {
            if !x.queueable(e) {
                lemma_remove_once(hs, hs.index_of(h));
            }
            assert(x.ops[o].handles.contains(b));
        }
    } else {
        assert(es.len() == 0);
    }
}

/// Queueing a series of entries does not depend on anything but queues.
proof fn lemma_entries_same(v: BusView, w: BusView, tx: Addr, s: Seq<Addr>)
    requires
        v.intact(),
        same_queues(v, w),
        v.txs.contains_key(tx),
        all_in(s, v.tx_nodes.dom()),
    ensures
        same_queues(v.entries_queued(tx, s), w.entries_queued(tx, s)),
        v.entries_queued(tx, s).intact(),
        similar(v, v.entries_queued(tx, s)),
        v.entries_queued(tx, s).txs == v.txs,
    decreases s.len(),
{
    if s.len() > 0 {
        let t = s.drop_last();
        let x = v.entries_queued(tx, t);
        assert forall|i: int| #![trigger t[i]] 0 <= i < t.len() implies v.tx_nodes.contains_key(
            t[i],
        ) by {
            assert(s[i] == t[i]);
        }
        lemma_entries_same(v, w, tx, t);
        assert(s[s.len() - 1] == s.last());
        assert(x.tx_nodes.contains_key(s.last()));
        lemma_enqueued_same(x, w.entries_queued(tx, t), tx, s.last());
        lemma_enqueued(x, tx, s.last());
        lemma_similar_trans(v, x, v.entries_queued(tx, s));
    }
}

/// The entries that notify about the release of nodes belong to handles of
/// these nodes.
pub(super) proof fn lemma_node_entries(v: BusView, s: Seq<Addr>)
    requires
        v.intact(),
        s.no_duplicates(),
        all_in(s, v.nodes.dom()),
    ensures
        v.node_entries(s).no_duplicates(),
        forall|i: int| #![trigger v.node_entries(s)[i]]
            0 <= i < v.node_entries(s).len() ==> {
                let e = v.node_entries(s)[i];
                &&& v.tx_nodes.contains_key(e)
                &&& v.tx_nodes[e].kind == TxNodeKind::ReleaseNode
                &&& s.contains(v.handles[v.tx_nodes[e].base].node)
                &&& v.handles[v.tx_nodes[e].base].linked
            },
    decreases s.len(),
{
    if s.len() > 0 {
        let t = s.drop_last();
        let n = s.last();
        let hs = v.nodes[n].handles;
        let a = v.node_entries(t);
        let b = v.owner_entries(hs);
        let c = v.node_entries(s);
        assert forall|i: int| #![trigger t[i]] 0 <= i < t.len() implies v.nodes.contains_key(
            t[i],
        ) by {
            assert(s[i] == t[i]);
        }
        lemma_node_entries(v, t);
        lemma_ok(v);
        assert(s[s.len() - 1] == n);
        assert(v.nodes.contains_key(n));
        assert(v.node_ok(n));
        assert forall|i: int| #![trigger b[i]] 0 <= i < b.len() implies {
            &&& v.tx_nodes.contains_key(b[i])
            &&& v.tx_nodes[b[i]].kind == TxNodeKind::ReleaseNode
            &&& v.tx_nodes[b[i]].base == hs[i]
            &&& v.handles[hs[i]].node == n
            &&& v.handles[hs[i]].linked
        } by {
            assert(v.handles.contains_key(hs[i]));
            assert(v.handle_ok(hs[i]));
        }
        assert(!t.contains(n));
        assert forall|i: int| #![trigger c[i]] 0 <= i < c.len() implies {
            &&& v.tx_nodes.contains_key(c[i])
            &&& v.tx_nodes[c[i]].kind == TxNodeKind::ReleaseNode
            &&& s.contains(v.handles[v.tx_nodes[c[i]].base].node)
            &&& v.handles[v.tx_nodes[c[i]].base].linked
        } by {
            if i < a.len() {
                assert(c[i] == a[i]);
                let k = v.handles[v.tx_nodes[a[i]].base].node;
                let j = choose|j: int| 0 <= j < t.len() && t[j] == k;
                assert(s[j] == k);
            } else {
                assert(c[i] == b[i - a.len()]);
            }
        }
        assert forall|i: int, j: int| 0 <= i < c.len() && 0 <= j < c.len() && i != j implies c[i]
            != c[j] by {
            if i < a.len() {
                assert(c[i] == a[i]);
            } else {
                assert(c[i] == b[i - a.len()]);
            }
            if j < a.len() {
                assert(c[j] == a[j]);
            } else {
                assert(c[j] == b[j - a.len()]);
            }
        }
    }
}

/// The entries of an operation are distinct.
pub proof fn lemma_op_entries(v: BusView, o: Addr)
    requires
        v.intact(),
        v.ops.contains_key(o),
    ensures
        v.op_entries(o).no_duplicates(),
        all_in(v.op_entries(o), v.tx_nodes.dom()),
{
    let op = v.ops[o];
    let a = v.message_entries(op.messages);
    let b = v.node_entries(op.nodes);
    let c = v.handle_entries(op.handles);
    let s = v.op_entries(o);
    lemma_ok(v);
    assert(v.op_ok(o));
    lemma_node_entries(v, op.nodes);
    assert forall|i: int| #![trigger a[i]] 0 <= i < a.len() implies {
        &&& v.tx_nodes.contains_key(a[i])
        &&& v.tx_nodes[a[i]].kind == TxNodeKind::User
        &&& v.tx_nodes[a[i]].base == op.messages[i]
    } by {
        assert(v.messages.contains_key(op.messages[i]));
        assert(v.message_ok(op.messages[i]));
    }
    assert forall|i: int| #![trigger c[i]] 0 <= i < c.len() implies {
        &&& v.tx_nodes.contains_key(c[i])
        &&& v.tx_nodes[c[i]].kind == TxNodeKind::ReleaseHandle
        &&& v.tx_nodes[c[i]].base == op.handles[i]
    } by {
        assert(v.handles.contains_key(op.handles[i]));
        assert(v.handle_ok(op.handles[i]));
    }
    assert forall|i: int| #![trigger s[i]] 0 <= i < s.len() implies {
        &&& v.tx_nodes.contains_key(s[i])
        &&& i < a.len() ==> s[i] == a[i]
        &&& a.len() <= i < a.len() + b.len() ==> s[i] == b[i - a.len()]
        &&& i >= a.len() + b.len() ==> s[i] == c[i - a.len() - b.len()]
    } by {
        if i < a.len() {
            assert(s[i] == a[i]);
        } else if i < a.len() + b.len() {
            assert(s[i] == b[i - a.len()]);
        } else {
            assert(s[i] == c[i - a.len() - b.len()]);
        }
    }
}

/// Every entry of an operation belongs to one of its messages, to a handle that
/// is linked into one of its nodes, or to one of its handles.
pub proof fn lemma_op_entry(v: BusView, o: Addr, e: Addr)
    requires
        v.intact(),
        v.ops.contains_key(o),
        v.op_entries(o).contains(e),
    ensures
        v.tx_nodes.contains_key(e),
        match v.tx_nodes[e].kind {
            TxNodeKind::User => {
                let m = v.tx_nodes[e].base;
                &&& v.ops[o].messages.contains(m)
                &&& v.messages[m].tx_node == e
            },
            TxNodeKind::ReleaseNode => {
                let h = v.tx_nodes[e].base;
                &&& v.handles.contains_key(h)
                &&& v.handles[h].linked
                &&& v.ops[o].nodes.contains(v.handles[h].node)
                &&& v.handles[h].release_node == e
            },
            TxNodeKind::ReleaseHandle => {
                let h = v.tx_nodes[e].base;
                &&& v.ops[o].handles.contains(h)
                &&& v.handles[h].release_handle == e
            },
        },
{
    let op = v.ops[o];
    let a = v.message_entries(op.messages);
    let b = v.node_entries(op.nodes);
    let c = v.handle_entries(op.handles);
    let s = v.op_entries(o);
    lemma_ok(v);
    assert(v.op_ok(o));
    lemma_op_entries(v, o);
    lemma_node_entries(v, op.nodes);
    let i = choose|i: int| 0 <= i < s.len() && s[i] == e;
    assert(v.tx_nodes.contains_key(s[i]));
    assert(v.tx_node_ok(e));
    if i < a.len() {
        assert(a[i] == e);
        assert(v.messages.contains_key(op.messages[i]));
        assert(v.message_ok(op.messages[i]));
    } else if i < a.len() + b.len() {
        assert(b[i - a.len()] == e);
    } else {
        let j = i - a.len() - b.len();
        assert(c[j] == e);
        assert(v.handles.contains_key(op.handles[j]));
        assert(v.handle_ok(op.handles[j]));
    }
}

/// Queueing everything in an operation is the same as queueing its entries.
pub proof fn lemma_op_queued(v: BusView, o: Addr)
    requires
        v.intact(),
        v.ops.contains_key(o),
    ensures
        v.op_queued(o).intact(),
        same_queues(v.entries_queued(v.ops[o].tx, v.op_entries(o)), v.op_queued(o)),
        similar(v, v.op_queued(o)),
        same_ops(v, v.op_queued(o), o),
        v.op_queued(o).ops[o].nodes == v.ops[o].nodes,
        forall|m: Addr| #[trigger]
            v.op_queued(o).ops[o].messages.contains(m) ==> v.ops[o].messages.contains(m)
                && v.queueable(v.messages[m].tx_node),
        forall|h: Addr| #[trigger]
            v.op_queued(o).ops[o].handles.contains(h) ==> v.ops[o].handles.contains(h)
                && v.queueable(v.handles[h].release_handle),
        forall|h: Addr| #[trigger]
            v.ops[o].handles.contains(h) && !v.queueable(v.handles[h].release_handle)
                ==> v.op_queued(o).handles[h].linked == v.handles[h].linked,
        forall|h: Addr| #[trigger]
            v.ops[o].handles.contains(h) && v.queueable(v.handles[h].release_handle)
                ==> !v.op_queued(o).handles[h].linked && v.op_queued(o).ops[o].handles.contains(h),
        forall|m: Addr| #[trigger]
            v.ops[o].messages.contains(m) && v.queueable(v.messages[m].tx_node) ==> v.op_queued(
                o,
            ).ops[o].messages.contains(m),
        forall|h: Addr| #[trigger]
            v.handles.contains_key(h) && !v.ops[o].handles.contains(h) ==> v.op_queued(
                o,
            ).handles[h].linked == v.handles[h].linked,
{
    let op = v.ops[o];
    let tx = op.tx;
    let a = v.message_entries(op.messages);
    let b = v.node_entries(op.nodes);
    let c = v.handle_entries(op.handles);
    lemma_ok(v);
    assert(v.op_ok(o));
    lemma_op_entries(v, o);
    lemma_entries_in(v, a, b, c);
    assert forall|i: int| #![trigger op.messages[i]]
        0 <= i < op.messages.len() implies op.messages.contains(op.messages[i]) by {}
    lemma_messages_queued(v, o, op.messages);
    let v1 = v.messages_queued(o, op.messages);
    let e1 = v.entries_queued(tx, a);
    lemma_nodes_queued(v1, o, op.nodes);
    let v2 = v1.nodes_queued(o, op.nodes);
    assert(v1.node_entries(op.nodes) == b) by {
        lemma_node_entries_same(v, v1, op.nodes);
    }
    lemma_entries_same(e1, v1, tx, b);
    lemma_entries_same(v1, v1, tx, b);
    let e2 = e1.entries_queued(tx, b);
    lemma_similar_trans(v, v1, v2);
    lemma_ok(v2);
    assert(v2.op_ok(o));
    assert forall|i: int| #![trigger op.handles[i]]
        0 <= i < op.handles.len() implies op.handles.contains(op.handles[i]) by {}
    lemma_handles_queued(v2, o, op.handles);
    let v3 = v2.handles_queued(o, op.handles);
    assert(v2.handle_entries(op.handles) =~= c) by {
        assert forall|i: int| 0 <= i < op.handles.len() implies v2.handle_entries(op.handles)[i]
            == c[i] by {
            assert(v.handles.contains_key(op.handles[i]));
        }
    }
    lemma_entries_same(e2, v2, tx, c);
    let e3 = e2.entries_queued(tx, c);
    let y3 = v2.entries_queued(tx, c);
    lemma_similar_trans(e3, y3, v3);
    lemma_similar_trans(v, v2, v3);
    lemma_entries_add(v, tx, a, b);
    lemma_entries_add(v, tx, a + b, c);
    assert forall|m: Addr| #[trigger]
        v.ops[o].messages.contains(m) && v.queueable(v.messages[m].tx_node) implies
        v3.ops[o].messages.contains(m) by {
        let i = choose|i: int| 0 <= i < op.messages.len() && op.messages[i] == m;
        assert(v1.ops[o].messages.contains(op.messages[i]));
    }
    lemma_handles_unlinked(v2, o, op.handles);
    assert forall|h: Addr| #[trigger] v.ops[o].handles.contains(h) implies {
        &&& v2.queueable(v.handles[h].release_handle) == v.queueable(v.handles[h].release_handle)
        &&& v2.handles[h].release_handle == v.handles[h].release_handle
        &&& v2.handles[h].linked == v.handles[h].linked
        &&& op.handles.contains(h)
    } by {
        let i = choose|i: int| 0 <= i < op.handles.len() && op.handles[i] == h;
        assert(v.handles.contains_key(op.handles[i]));
        assert(v.handle_ok(h));
        let e = v.handles[h].release_handle;
        assert(c[i] == e);
        let s = a + b;
        assert forall|k: int| #![trigger s[k]] 0 <= k < s.len() implies s[k] != e
            && v.tx_nodes.contains_key(s[k]) by {
            assert((s + c)[k] == s[k]);
            assert((s + c)[s.len() + i] == e);
        }
        assert forall|k: int, l: int| 0 <= k < s.len() && 0 <= l < s.len() && k != l implies s[k]
            != s[l] by {
            assert((s + c)[k] == s[k]);
            assert((s + c)[l] == s[l]);
        }
        lemma_entries_queued(v, tx, s);
        assert(!s.contains(e));
        assert(v2.tx_nodes[e] == v.tx_nodes[e]);
        lemma_similar(v, v2);
        lemma_dest(v, e);
        assert(v2.queueable(e) == v.queueable(e));
    }
    assert forall|h: Addr| #[trigger]
        v.ops[o].handles.contains(h) && v.queueable(v.handles[h].release_handle) implies
        !v3.handles[h].linked && v3.ops[o].handles.contains(h) by {
        let i = choose|i: int| 0 <= i < op.handles.len() && op.handles[i] == h;
        assert(v2.handles[op.handles[i]].release_handle == v.handles[h].release_handle);
    }
    assert forall|h: Addr| #[trigger]
        v.ops[o].handles.contains(h) && !v.queueable(v.handles[h].release_handle) implies
        v3.handles[h].linked == v.handles[h].linked && !v3.ops[o].handles.contains(h) by {
        let i = choose|i: int| 0 <= i < op.handles.len() && op.handles[i] == h;
        assert(v2.handles[op.handles[i]].release_handle == v.handles[h].release_handle);
    }
    assert forall|h: Addr| #[trigger] v3.ops[o].handles.contains(h) implies
        v.ops[o].handles.contains(h) && v.queueable(v.handles[h].release_handle) by {
        assert(v2.ops[o].handles.contains(h));
    }
    assert forall|m: Addr| #[trigger] v3.ops[o].messages.contains(m) implies
        v.ops[o].messages.contains(m) && v.queueable(v.messages[m].tx_node) by {
        assert(v1.ops[o].messages.contains(m));
        let i = choose|i: int| 0 <= i < op.messages.len() && op.messages[i] == m;
        assert(op.messages[i] == m);
    }
}

/// Parts of a series of entries.
proof fn lemma_entries_in(v: BusView, a: Seq<Addr>, b: Seq<Addr>, c: Seq<Addr>)
    requires
        all_in(a + b + c, v.tx_nodes.dom()),
    ensures
        all_in(a, v.tx_nodes.dom()),
        all_in(b, v.tx_nodes.dom()),
        all_in(c, v.tx_nodes.dom()),
{
    let s = a + b + c;
    assert forall|i: int| #![trigger a[i]] 0 <= i < a.len() implies v.tx_nodes.contains_key(
        a[i],
    ) by {
        assert(s[i] == a[i]);
    }
    assert forall|i: int| #![trigger b[i]] 0 <= i < b.len() implies v.tx_nodes.contains_key(
        b[i],
    ) by {
        assert(s[a.len() + i] == b[i]);
    }
    assert forall|i: int| #![trigger c[i]] 0 <= i < c.len() implies v.tx_nodes.contains_key(
        c[i],
    ) by {
        assert(s[a.len() + b.len() + i] == c[i]);
    }
}

/// The entries that notify about the release of nodes depend on nothing but
/// nodes and handles.
proof fn lemma_node_entries_same(v: BusView, w: BusView, s: Seq<Addr>)
    requires
        w.nodes == v.nodes,
        w.handles == v.handles,
    ensures
        w.node_entries(s) == v.node_entries(s),
    decreases s.len(),
{
    if s.len() > 0 {
        lemma_node_entries_same(v, w, s.drop_last());
        let hs = v.nodes[s.last()].handles;
        assert(w.owner_entries(hs) =~= v.owner_entries(hs));
    }
}

/// Once its release is queued, a handle is no longer linked. If the release
/// cannot be queued, the handle is not affected, but it is no longer part of the
/// operation.
pub proof fn lemma_handles_unlinked(v: BusView, o: Addr, s: Seq<Addr>)
    requires
        v.intact(),
        v.ops.contains_key(o),
        s.no_duplicates(),
        forall|i: int| #![trigger s[i]] 0 <= i < s.len() ==> v.ops[o].handles.contains(s[i]),
    ensures
        forall|i: int| #![trigger s[i]]
            0 <= i < s.len() && v.queueable(v.handles[s[i]].release_handle) ==> !v.handles_queued(
                o,
                s,
            ).handles[s[i]].linked && v.handles_queued(o, s).ops[o].handles.contains(s[i]),
        forall|i: int| #![trigger s[i]]
            0 <= i < s.len() && !v.queueable(v.handles[s[i]].release_handle) ==> v.handles_queued(
                o,
                s,
            ).handles[s[i]].linked == v.handles[s[i]].linked && !v.handles_queued(
                o,
                s,
            ).ops[o].handles.contains(s[i]),
    decreases s.len(),
{
    if s.len() > 0 {
        let t = s.drop_last();
        let h = s.last();
        let tx = v.ops[o].tx;
        let x = v.handles_queued(o, t);
        let e = v.handles[h].release_handle;
        assert forall|i: int| #![trigger t[i]] 0 <= i < t.len() implies v.ops[o].handles.contains(
            t[i],
        ) by {
            assert(s[i] == t[i]);
        }
        lemma_handles_unlinked(v, o, t);
        lemma_handles_queued(v, o, t);
        lemma_ok(v);
        assert(v.op_ok(o));
        let hs = v.ops[o].handles;
        let es = v.handle_entries(t);
        assert forall|i: int| #![trigger s[i]] 0 <= i < s.len() implies v.handle_ok(s[i])
            && v.handles.contains_key(s[i]) by {
            let j = choose|j: int| 0 <= j < hs.len() && hs[j] == s[i];
            assert(v.handles.contains_key(hs[j]));
        }
        assert(s[s.len() - 1] == h);
        assert forall|i: int| #![trigger es[i]] 0 <= i < es.len() implies v.tx_nodes.contains_key(
            es[i],
        ) && v.tx_nodes[es[i]].base == t[i] by {
            assert(s[i] == t[i]);
        }
        assert(es.no_duplicates());
        assert(!es.contains(e)) by {
            if es.contains(e) {
                let i = choose|i: int| 0 <= i < es.len() && es[i] == e;
                assert(t[i] == h);
            }
        }
        lemma_entries_queued(v, tx, es);
        lemma_dest(v, e);
        lemma_similar(v, x);
        assert(x.queueable(e) == v.queueable(e));
        assert(x.handles[h].release_handle == e);
        assert(!t.contains(h));
        assert(x.ops[o].handles.contains(h));
        lemma_handle_queued(x, o, h);
        assert forall|i: int| #![trigger s[i]]
            0 <= i < s.len() && v.queueable(v.handles[s[i]].release_handle) implies
            !v.handles_queued(o, s).handles[s[i]].linked && v.handles_queued(
            o,
            s,
        ).ops[o].handles.contains(s[i]) by {
            if i < t.len() {
                assert(t[i] == s[i]);
                assert(!x.handles[t[i]].linked);
                assert(x.ops[o].handles.contains(t[i]));
            }
        }
        let xs = x.ops[o].handles;
        assert forall|i: int| #![trigger s[i]]
            0 <= i < s.len() && !v.queueable(v.handles[s[i]].release_handle) implies
            v.handles_queued(o, s).handles[s[i]].linked == v.handles[s[i]].linked
            && !v.handles_queued(o, s).ops[o].handles.contains(s[i]) by {
            if !x.queueable(e) {
                lemma_ok(x);
                assert(x.op_ok(o));
                assert(xs[xs.index_of(h)] == h);
                lemma_remove_once(xs, xs.index_of(h));
            }
            if i < t.len() {
                assert(t[i] == s[i]);
                assert(s[i] != h);
                assert(x.handles[t[i]].linked == v.handles[t[i]].linked);
                assert(!xs.contains(t[i]));
            }
        }
    }
}

} // verus!
