//! Histories of lockless lists.
//!
//! Any number of tasks can link elements into a lockless list, take its elements,
//! and seal it, all at the same time. A [`Moment`] is the state of such a list in
//! between two atomic accesses, together with a record of what has happened so
//! far. A history is a series of moments, with a single atomic access of some
//! task in between any two of them. Whatever the tasks do, every element that was
//! linked is handed out once, or still in the list.

use crate::util::arena::{Addr, Object};
use crate::util::field::Field;
use crate::util::lll::{
    lemma_clear_interleaves, lemma_link_interleaves, separate, Clear, LinkFront, List, Node,
};
use crate::util::slist::lemma_chain_frame;
use vstd::prelude::*;

verus! {

/// The state of a list that is shared by tasks.
///
/// Tasks that link an element are kept in `links`, and those that take all
/// elements in `clears`. All elements that were ever linked are recorded in
/// `linked`, in the order in which they were. All lists that were handed out by
/// clearing or sealing the list are recorded in `taken`.
#[verifier::reject_recursive_types(F)]
pub struct Moment<F: Field<Type = Node>> {
    pub list: List<F>,
    pub elements: Map<Addr, Object<F::Base>>,
    pub links: Map<int, LinkFront>,
    pub clears: Map<int, Clear<F>>,
    pub linked: Seq<Addr>,
    pub taken: Seq<Seq<Addr>>,
}

/// The elements of a series of lists, oldest first.
pub open spec fn handed_out(taken: Seq<Seq<Addr>>) -> Seq<Addr>
    decreases taken.len(),
{
    if taken.len() == 0 {
        Seq::empty()
    } else {
        handed_out(taken.drop_last()) + taken.last().reverse()
    }
}

/// The element that an operation is about to link.
pub open spec fn subject(op: LinkFront) -> Option<Addr> {
    match op {
        LinkFront::Load { ent } => Some(ent),
        LinkFront::Claim { ent, .. } => Some(ent),
        _ => op.claimed(),
    }
}

impl<F: Field<Type = Node>> Moment<F> {
    /// A new list, that no task makes use of yet.
    pub open spec fn fresh(self) -> bool {
        &&& self.list@ == Seq::<Addr>::empty()
        &&& self.list.wf(self.elements)
        &&& !self.list.sealed()
        &&& self.links == Map::<int, LinkFront>::empty()
        &&& self.clears == Map::<int, Clear<F>>::empty()
        &&& self.linked == Seq::<Addr>::empty()
        &&& self.taken == Seq::<Seq<Addr>>::empty()
    }

    /// Every element that was linked was handed out, or is still in the list.
    /// Each of the lists that were handed out, and the list itself, have their
    /// elements in reverse order.
    pub open spec fn conserved(self) -> bool {
        self.linked == handed_out(self.taken) + self.list@.reverse()
    }

    /// List and operations are consistent.
    pub open spec fn intact(self) -> bool {
        &&& self.list.wf(self.elements)
        &&& forall|t: int| #[trigger]
            self.links.contains_key(t) ==> self.links[t].valid(&self.list, self.elements)
        &&& forall|t: int, u: int| #![trigger self.links[t], self.links[u]]
            t != u && self.links.contains_key(t) && self.links.contains_key(u) ==> separate(
                self.links[t],
                self.links[u],
            )
    }

    /// A task starts to link an element.
    pub open spec fn link_started(self, next: Self, t: int, ent: Addr) -> bool {
        &&& !self.links.contains_key(t) || self.links[t].claimed() is None
        &&& self.elements.contains_key(ent)
        &&& next == (Moment { links: self.links.insert(t, LinkFront::Load { ent }), ..self })
    }

    /// A task performs the next access of linking an element.
    pub open spec fn link_stepped(self, next: Self, t: int, r: LinkFront) -> bool {
        &&& self.links.contains_key(t)
        &&& self.links[t].stepped(r, &self.list, &next.list, self.elements, next.elements)
        &&& next.list.wf(next.elements)
        &&& next.list.sealed() == self.list.sealed()
        &&& r.valid(&next.list, next.elements)
        &&& next == (Moment {
            list: next.list,
            elements: next.elements,
            links: self.links.insert(t, r),
            linked: if r is Linked && self.links[t] is Push {
                self.linked.push(self.links[t]->Push_ent)
            } else {
                self.linked
            },
            ..self
        })
    }

    /// A task starts to take all elements.
    pub open spec fn clear_started(self, next: Self, t: int) -> bool {
        next == (Moment { clears: self.clears.insert(t, Clear::Load), ..self })
    }

    /// A task performs the next access of taking all elements.
    pub open spec fn clear_stepped(self, next: Self, t: int, r: Clear<F>) -> bool {
        &&& self.clears.contains_key(t)
        &&& self.clears[t].stepped(r, &self.list, &next.list)
        &&& next.list.wf(self.elements)
        &&& next.list.sealed() == self.list.sealed()
        &&& next == (Moment {
            list: next.list,
            clears: self.clears.insert(t, r),
            taken: if r is Done && !(self.clears[t] is Done) {
                self.taken.push(r->list@)
            } else {
                self.taken
            },
            ..self
        })
    }

    /// A task seals the list, which takes all elements as well.
    pub open spec fn sealed_by(self, next: Self) -> bool {
        &&& next.list@ == Seq::<Addr>::empty()
        &&& next.list.wf(self.elements)
        &&& next.list.sealed()
        &&& next == (Moment { list: next.list, taken: self.taken.push(self.list@), ..self })
    }

    /// Elements change, come, and go, but for those in the list, and those that
    /// are about to be linked. This is what owners of elements do with those
    /// that they were handed out.
    pub open spec fn elements_changed(self, next: Self) -> bool {
        &&& forall|i: int| #![trigger self.list@[i]]
            0 <= i < self.list@.len() ==> {
                &&& next.elements.contains_key(self.list@[i])
                &&& next.elements[self.list@[i]] == self.elements[self.list@[i]]
            }
        &&& forall|t: int| #[trigger]
            self.links.contains_key(t) ==> {
                &&& subject(self.links[t]) matches Some(a) ==> next.elements.contains_key(a)
                &&& self.links[t].claimed() matches Some(a) ==> next.elements[a]
                    == self.elements[a]
            }
        &&& next == (Moment { elements: next.elements, ..self })
    }

    /// Something happens.
    pub open spec fn advances(self, next: Self) -> bool {
        ||| exists|t: int, ent: Addr| #[trigger] self.link_started(next, t, ent)
        ||| exists|t: int, r: LinkFront| #[trigger] self.link_stepped(next, t, r)
        ||| exists|t: int| #[trigger] self.clear_started(next, t)
        ||| exists|t: int, r: Clear<F>| #[trigger] self.clear_stepped(next, t, r)
        ||| self.sealed_by(next)
        ||| self.elements_changed(next)
    }
}

/// A series of moments, starting with a new list.
pub open spec fn is_history<F: Field<Type = Node>>(h: Seq<Moment<F>>) -> bool {
    &&& h.len() > 0
    &&& h[0].fresh()
    &&& forall|i: int, j: int| #![trigger h[i], h[j]]
        0 <= i && j == i + 1 && j < h.len() ==> h[i].advances(h[j])
}

/// What happens to a list keeps it intact, neither loses elements, nor hands any
/// out twice. Nothing that happened is undone, and a sealed list stays sealed.
pub proof fn lemma_moment<F: Field<Type = Node>>(a: Moment<F>, b: Moment<F>)
    requires
        a.intact(),
        a.conserved(),
        a.advances(b),
    ensures
        b.intact(),
        b.conserved(),
        a.linked.is_prefix_of(b.linked),
        a.taken.is_prefix_of(b.taken),
        a.list.sealed() ==> b.list.sealed(),
{
    if exists|t: int, ent: Addr| #[trigger] a.link_started(b, t, ent) {
    } else if exists|t: int, r: LinkFront| #[trigger] a.link_stepped(b, t, r) {
        let (t, r) = choose|t: int, r: LinkFront| #[trigger] a.link_stepped(b, t, r);
        lemma_link_step(a, b, t, r);
    } else if exists|t: int| #[trigger] a.clear_started(b, t) {
    } else if exists|t: int, r: Clear<F>| #[trigger] a.clear_stepped(b, t, r) {
        let (t, r) = choose|t: int, r: Clear<F>| #[trigger] a.clear_stepped(b, t, r);
        lemma_clear_step(a, b, t, r);
    } else if a.sealed_by(b) {
        assert(b.taken.drop_last() =~= a.taken);
        assert(b.list@.reverse() =~= Seq::<Addr>::empty());
        assert(b.linked =~= handed_out(b.taken) + b.list@.reverse());
    } else {
        if !b.list.sealed() {
            lemma_chain_frame::<F>(a.elements, b.elements, a.list.first(), a.list@);
        }
    }
}

proof fn lemma_link_step<F: Field<Type = Node>>(
    a: Moment<F>,
    b: Moment<F>,
    t: int,
    r: LinkFront,
)
    requires
        a.intact(),
        a.conserved(),
        a.link_stepped(b, t, r),
    ensures
        b.intact(),
        b.conserved(),
        a.linked.is_prefix_of(b.linked),
{
    let op = a.links[t];
    assert forall|u: int| #[trigger] b.links.contains_key(u) implies b.links[u].valid(
        &b.list,
        b.elements,
    ) by {
        if u != t {
            assert(a.links.contains_key(u));
            lemma_link_interleaves(op, r, a.links[u], &a.list, &b.list, a.elements, b.elements);
        }
    }
    assert forall|u: int, x: int| #![trigger b.links[u], b.links[x]]
        u != x && b.links.contains_key(u) && b.links.contains_key(x) implies separate(
        b.links[u],
        b.links[x],
    ) by {
        if u == t {
            lemma_link_interleaves(op, r, a.links[x], &a.list, &b.list, a.elements, b.elements);
        } else if x == t {
            lemma_link_interleaves(op, r, a.links[u], &a.list, &b.list, a.elements, b.elements);
        } else {
            assert(separate(a.links[u], a.links[x]));
        }
    }
    if r is Linked && op is Push {
        let ent = op->Push_ent;
        assert(a.list@.insert(0, ent).reverse() =~= a.list@.reverse().push(ent));
        assert(b.linked =~= handed_out(b.taken) + b.list@.reverse());
    }
}

proof fn lemma_clear_step<F: Field<Type = Node>>(a: Moment<F>, b: Moment<F>, t: int, r: Clear<F>)
    requires
        a.intact(),
        a.conserved(),
        a.clear_stepped(b, t, r),
    ensures
        b.intact(),
        b.conserved(),
        a.taken.is_prefix_of(b.taken),
{
    let op = a.clears[t];
    assert forall|u: int| #[trigger] b.links.contains_key(u) implies b.links[u].valid(
        &b.list,
        b.elements,
    ) by {
        lemma_clear_interleaves(op, r, a.links[u], &a.list, &b.list, a.elements);
    }
    if r is Done && !(op is Done) {
        assert(b.taken.drop_last() =~= a.taken);
        assert(b.taken.last() =~= r->list@);
        assert(Seq::<Addr>::empty().reverse() =~= Seq::<Addr>::empty());
        assert(b.linked =~= handed_out(b.taken) + b.list@.reverse());
    }
}

/// At any moment of a history, every element that was linked was handed out in
/// exactly one of the lists that were taken, or is still in the list: together
/// they are what was linked, in order, with nothing lost and nothing twice.
/// Within each of the lists, elements are in reverse order of linking.
pub proof fn lemma_history<F: Field<Type = Node>>(h: Seq<Moment<F>>, k: int)
    requires
        is_history(h),
        0 <= k < h.len(),
    ensures
        h[k].intact(),
        h[k].linked == handed_out(h[k].taken) + h[k].list@.reverse(),
        h[k].list.sealed() ==> h[k].list@ == Seq::<Addr>::empty(),
    decreases k,
{
    if k == 0 {
        assert(h[0].list@.reverse() =~= Seq::<Addr>::empty());
        assert(h[0].linked =~= handed_out(h[0].taken) + h[0].list@.reverse());
    } else {
        lemma_history(h, k - 1);
        assert(h[k - 1].advances(h[k]));
        lemma_moment(h[k - 1], h[k]);
    }
}

/// Nothing in a history is undone: what was linked, and what was handed out,
/// stays on record, and a sealed list stays sealed.
pub proof fn lemma_history_is_kept<F: Field<Type = Node>>(h: Seq<Moment<F>>, j: int, k: int)
    requires
        is_history(h),
        0 <= j <= k < h.len(),
    ensures
        h[j].linked.is_prefix_of(h[k].linked),
        h[j].taken.is_prefix_of(h[k].taken),
        h[j].list.sealed() ==> h[k].list.sealed(),
    decreases k,
{
    if j < k {
        lemma_history_is_kept(h, j, k - 1);
        lemma_history(h, k - 1);
        assert(h[k - 1].advances(h[k]));
        lemma_moment(h[k - 1], h[k]);
    }
}

} // verus!
