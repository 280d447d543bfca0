//! Intrusive lockless linked lists.
//!
//! The core entrypoint is [`List`], which maintains a single pointer to the
//! last entry in a single-linked list. Elements are stored by their [`Node`]
//! metadata field, which again is just a single pointer to the respective
//! previous element in a list.
//!
//! More generally, [`List`] can be seen as a multi-producer/multi-consumer
//! channel. Producers and consumers do not take locks: a list is only ever
//! accessed through single atomic operations on its front pointer and on the
//! pointers of the nodes. [`LinkFront`] and [`Clear`] spell the operations out
//! as sequences of such accesses, any of which can be interleaved with those of
//! other tasks. [`List::try_link_front()`] and [`List::clear()`] run them to
//! their end without interruption.

use crate::util::arena::{Addr, Arena, Object};
use crate::util::field::Field;
use crate::util::slist::{chain, next_of, relinked, Ptr};
use crate::util::slist;
use vstd::prelude::*;

verus! {

/// Metadata required for elements of a [`List`].
///
/// This is an alias for [`slist::Node`]. That is, this uses the same node type
/// as the general purpose single-linked list.
pub type Node = slist::Node;

/// Intrusive lockless single-linked list to store elements.
///
/// A [`List`] effectively provides two operations: push a new element to the
/// front of the list, and remove all elements from the list and return them.
///
/// [`List`] uses the same nodes as [`slist`], and thus can move nodes from one
/// to another.
#[verifier::reject_recursive_types(F)]
pub struct List<F> {
    // Pointer to the first node in the list. `Ptr::End` if the list is empty,
    // `Ptr::Null` if it was sealed and can no longer be pushed to.
    first: Ptr,
    entries: Ghost<Seq<Addr>>,
    _frt: core::marker::PhantomData<F>,
}

/// An operation in progress that links an element at the front of a list.
#[derive(Clone, Copy, Debug)]
pub enum LinkFront {
    /// About to load the front of the list.
    Load { ent: Addr },
    /// About to claim the node, if it is not linked.
    Claim { ent: Addr, first: Ptr },
    /// About to replace the front of the list, if it did not change.
    Push { ent: Addr, first: Ptr },
    /// About to update the node, as the front of the list did change.
    Store { ent: Addr, first: Ptr },
    /// About to release the node, as the list was sealed in between.
    Abort { ent: Addr },
    /// The element is linked.
    Linked,
    /// The element is not linked by this operation.
    Refused { ent: Addr },
}

/// An operation in progress that takes all elements of a list.
#[verifier::reject_recursive_types(F)]
pub enum Clear<F> {
    /// About to load the front of the list.
    Load,
    /// About to take the list, if its front did not change.
    Take { first: Ptr },
    /// The elements were taken.
    Done { list: slist::List<F> },
}

impl<F: Field<Type = Node>> View for List<F> {
    type V = Seq<Addr>;

    /// The elements of the list, newest first.
    closed spec fn view(&self) -> Seq<Addr> {
        self.entries@
    }
}

impl LinkFront {
    /// The operation owns the node of this element exclusively, though it is
    /// not linked yet.
    pub open spec fn claimed(self) -> Option<Addr> {
        match self {
            LinkFront::Push { ent, .. } => Some(ent),
            LinkFront::Store { ent, .. } => Some(ent),
            LinkFront::Abort { ent } => Some(ent),
            _ => None,
        }
    }

    /// The operation is consistent with the state of list and elements.
    pub open spec fn valid<F: Field<Type = Node>>(
        self,
        list: &List<F>,
        m: Map<Addr, Object<F::Base>>,
    ) -> bool {
        &&& match self {
            LinkFront::Load { ent } => m.contains_key(ent),
            LinkFront::Claim { ent, first } => m.contains_key(ent) && first != Ptr::Null,
            LinkFront::Push { ent, first } => first != Ptr::Null && next_of::<F>(m, ent) == first,
            LinkFront::Store { ent, first } => first != Ptr::Null && next_of::<F>(m, ent)
                != Ptr::Null,
            LinkFront::Abort { ent } => next_of::<F>(m, ent) != Ptr::Null,
            _ => true,
        }
        &&& self.claimed() matches Some(a) ==> m.contains_key(a) && !list@.contains(a)
    }

    /// How far the operation is from its end if nobody interferes.
    pub open spec fn remaining(self, front: Ptr) -> int {
        match self {
            LinkFront::Load { .. } => 5,
            LinkFront::Claim { .. } => 4,
            LinkFront::Push { first, .. } => if first == front {
                1
            } else {
                3
            },
            LinkFront::Store { first, .. } => if first == front {
                2
            } else {
                4
            },
            LinkFront::Abort { .. } => 1,
            _ => 0,
        }
    }

    /// What a single atomic access of the operation does: it turns the
    /// operation into `r`, the list `l0` into `l1`, and the elements `m0` into
    /// `m1`.
    pub open spec fn stepped<F: Field<Type = Node>>(
        self,
        r: LinkFront,
        l0: &List<F>,
        l1: &List<F>,
        m0: Map<Addr, Object<F::Base>>,
        m1: Map<Addr, Object<F::Base>>,
    ) -> bool {
        match self {
            LinkFront::Load { ent } => {
                &&& *l1 == *l0
                &&& m1 == m0
                &&& r == if l0.sealed() {
                    LinkFront::Refused { ent }
                } else {
                    LinkFront::Claim { ent, first: l0.first() }
                }
            },
            LinkFront::Claim { ent, first } => {
                &&& *l1 == *l0
                &&& if next_of::<F>(m0, ent) == Ptr::Null {
                    stored::<F>(m0, m1, ent, first) && r == (LinkFront::Push { ent, first })
                } else {
                    m1 == m0 && r == (LinkFront::Refused { ent })
                }
            },
            LinkFront::Push { ent, first } => {
                &&& m1 == m0
                &&& if l0.first() == first {
                    l1@ == l0@.insert(0, ent) && r == LinkFront::Linked
                } else {
                    *l1 == *l0 && r == if l0.sealed() {
                        LinkFront::Abort { ent }
                    } else {
                        LinkFront::Store { ent, first: l0.first() }
                    }
                }
            },
            LinkFront::Store { ent, first } => {
                &&& *l1 == *l0
                &&& stored::<F>(m0, m1, ent, first)
                &&& r == (LinkFront::Push { ent, first })
            },
            LinkFront::Abort { ent } => {
                &&& *l1 == *l0
                &&& stored::<F>(m0, m1, ent, Ptr::Null)
                &&& r == (LinkFront::Refused { ent })
            },
            _ => *l1 == *l0 && m1 == m0 && r == self,
        }
    }

    /// Perform the next atomic access of the operation.
    pub fn step<F: Field<Type = Node>>(
        self,
        list: &mut List<F>,
        arena: &mut Arena<F::Base>,
    ) -> (r: LinkFront)
        requires
            old(list).wf(old(arena)@),
            self.valid(old(list), old(arena)@),
        ensures
            self.stepped(r, old(list), final(list), old(arena)@, final(arena)@),
            final(list).wf(final(arena)@),
            final(list).sealed() == old(list).sealed(),
            r.valid(final(list), final(arena)@),
            final(arena).limit() == old(arena).limit(),
            old(arena).wf() ==> final(arena).wf(),
    {
        match self {
            LinkFront::Load { ent } => {
                if list.first == Ptr::Null {
                    // Sealed lists cannot be linked to.
                    LinkFront::Refused { ent }
                } else {
                    LinkFront::Claim { ent, first: list.first }
                }
            },
            LinkFront::Claim { ent, first } => {
                if F::get(arena.get(ent)).next == Ptr::Null {
                    proof {
                        assert(!list@.contains(ent)) by {
                            if list@.contains(ent) {
                                let s = list@;
                                let i = choose|i: int| 0 <= i < s.len() && s[i] == ent;
                                assert(next_of::<F>(arena@, s[i]) == slist::ptr_at(s, i + 1));
                            }
                        }
                    }
                    slist::store::<F>(arena, ent, first);
                    proof {
                        lemma_stored::<F>(old(arena)@, arena@, ent, first, list.first, list@);
                    }
                    LinkFront::Push { ent, first }
                } else {
                    // The node is already linked into another list.
                    LinkFront::Refused { ent }
                }
            },
            LinkFront::Push { ent, first } => {
                if list.first == first {
                    list.first = Ptr::Node(ent);
                    list.entries = Ghost(list@.insert(0, ent));
                    proof {
                        let s = old(list)@;
                        let t = list@;
                        assert forall|i: int| 0 <= i < t.len() implies arena@.contains_key(
                            #[trigger] t[i],
                        ) && next_of::<F>(arena@, t[i]) == slist::ptr_at(t, i + 1) by {
                            if i > 0 {
                                assert(t[i] == s[i - 1]);
                            }
                        }
                    }
                    LinkFront::Linked
                } else if list.first == Ptr::Null {
                    // If the list is sealed, no more entries can be linked.
                    LinkFront::Abort { ent }
                } else {
                    LinkFront::Store { ent, first: list.first }
                }
            },
            LinkFront::Store { ent, first } => {
                slist::store::<F>(arena, ent, first);
                proof {
                    lemma_stored::<F>(old(arena)@, arena@, ent, first, list.first, list@);
                }
                LinkFront::Push { ent, first }
            },
            LinkFront::Abort { ent } => {
                slist::store::<F>(arena, ent, Ptr::Null);
                proof {
                    lemma_stored::<F>(old(arena)@, arena@, ent, Ptr::Null, list.first, list@);
                }
                LinkFront::Refused { ent }
            },
            LinkFront::Linked => self,
            LinkFront::Refused { .. } => self,
        }
    }
}

/// `m1` is `m0` with the `next` pointer of a single element replaced.
pub open spec fn stored<F: Field<Type = Node>>(
    m0: Map<Addr, Object<F::Base>>,
    m1: Map<Addr, Object<F::Base>>,
    ent: Addr,
    next: Ptr,
) -> bool {
    &&& relinked::<F>(m0, m1, set![ent])
    &&& next_of::<F>(m1, ent) == next
}

proof fn lemma_stored<F: Field<Type = Node>>(
    m0: Map<Addr, Object<F::Base>>,
    m1: Map<Addr, Object<F::Base>>,
    ent: Addr,
    next: Ptr,
    front: Ptr,
    s: Seq<Addr>,
)
    requires
        m0.contains_key(ent),
        !s.contains(ent),
        m1 == m0.insert(
            ent,
            Object { refs: m0[ent].refs, value: F::with_field(m0[ent].value, (Node { next })) },
        ),
    ensures
        stored::<F>(m0, m1, ent, next),
        chain::<F>(m0, front, s) ==> chain::<F>(m1, front, s),
{
    slist::lemma_relinked_store::<F>(m0, m1, ent, (Node { next }), set![ent]);
    if chain::<F>(m0, front, s) {
        assert forall|i: int| #![trigger s[i]] 0 <= i < s.len() implies m1[s[i]] == m0[s[i]] by {
            assert(s.contains(s[i]));
        }
        slist::lemma_chain_frame::<F>(m0, m1, front, s);
    }
}

impl<F: Field<Type = Node>> List<F> {
    /// The pointer to the first element.
    pub closed spec fn first(&self) -> Ptr {
        self.first
    }

    /// No more entries can be linked.
    pub open spec fn sealed(&self) -> bool {
        self.first() == Ptr::Null
    }

    /// The list is properly linked through the elements in the arena. A sealed
    /// list is always empty.
    pub open spec fn wf(&self, m: Map<Addr, Object<F::Base>>) -> bool {
        if self.sealed() {
            self@ == Seq::<Addr>::empty()
        } else {
            chain::<F>(m, self.first(), self@)
        }
    }

    /// Create a new empty list.
    pub fn new() -> (r: Self)
        ensures
            r@ == Seq::<Addr>::empty(),
            !r.sealed(),
            forall|m: Map<Addr, Object<F::Base>>| #[trigger] r.wf(m),
    {
        List { first: Ptr::End, entries: Ghost(Seq::empty()), _frt: core::marker::PhantomData }
    }

    /// Check whether the list is empty.
    ///
    /// This returns `true` if no entries are linked, `false` if at least one
    /// entry is linked.
    pub fn is_empty(&self, arena: &Arena<F::Base>) -> (r: bool)
        requires
            self.wf(arena@),
        ensures
            r == (self@.len() == 0),
    {
        match self.first {
            Ptr::Null => true,
            Ptr::End => true,
            Ptr::Node(_) => false,
        }
    }

    /// Check whether the list is sealed.
    ///
    /// This returns `true` if the list is sealed. A sealed list is always
    /// empty and cannot be modified, anymore (nor can the seal be removed).
    pub fn is_sealed(&self) -> (r: bool)
        ensures
            r == self.sealed(),
    {
        self.first == Ptr::Null
    }

    /// Link a node at the front of a list.
    ///
    /// On success, `Ok` is returned and the node is linked at the front of the
    /// list.
    ///
    /// If the node is already on another list, or if the list is sealed, this
    /// will return `Err` and change nothing.
    pub fn try_link_front(&mut self, arena: &mut Arena<F::Base>, ent: Addr) -> (r: Result<
        (),
        Addr,
    >)
        requires
            old(self).wf(old(arena)@),
            old(arena)@.contains_key(ent),
        ensures
            r == if !old(self).sealed() && next_of::<F>(old(arena)@, ent) == Ptr::Null {
                Ok::<(), Addr>(())
            } else {
                Err::<(), Addr>(ent)
            },
            r is Err ==> *final(self) == *old(self) && final(arena)@ == old(arena)@,
            r is Ok ==> final(self)@ == old(self)@.insert(0, ent) && stored::<F>(
                old(arena)@,
                final(arena)@,
                ent,
                old(self).first(),
            ),
            final(self).wf(final(arena)@),
            final(self).sealed() == old(self).sealed(),
            final(arena).limit() == old(arena).limit(),
            old(arena).wf() ==> final(arena).wf(),
    {
        let mut op = LinkFront::Load { ent };
        loop
            invariant
                self.wf(arena@),
                op.valid(self, arena@),
                !(op is Store || op is Abort),
                op matches LinkFront::Load { ent: e } ==> e == ent && *self == *old(self)
                    && arena@ == old(arena)@,
                op matches LinkFront::Claim { ent: e, first } ==> e == ent && first
                    == self.first() && !self.sealed() && *self == *old(self) && arena@
                    == old(arena)@,
                op matches LinkFront::Push { ent: e, first } ==> e == ent && first == self.first()
                    && !self.sealed() && *self == *old(self) && stored::<F>(
                    old(arena)@,
                    arena@,
                    ent,
                    first,
                ) && next_of::<F>(old(arena)@, ent) == Ptr::Null,
                op is Linked ==> !old(self).sealed() && !self.sealed() && next_of::<F>(
                    old(arena)@,
                    ent,
                ) == Ptr::Null && self@ == old(self)@.insert(0, ent) && stored::<F>(
                    old(arena)@,
                    arena@,
                    ent,
                    old(self).first(),
                ),
                op matches LinkFront::Refused { ent: e } ==> e == ent && (old(self).sealed()
                    || next_of::<F>(old(arena)@, ent) != Ptr::Null) && *self == *old(self) && arena@
                    == old(arena)@,
                arena.limit() == old(arena).limit(),
                old(arena).wf() ==> arena.wf(),
            decreases op.remaining(self.first()),
        {
            match op {
                LinkFront::Linked => return Ok(()),
                LinkFront::Refused { ent } => return Err(ent),
                _ => {
                    op = op.step(self, arena);
                },
            }
        }
    }

    /// Clear the entire list and return the entries to the caller.
    ///
    /// This will atomically remove all entries from the list, and return those
    /// entries as a general purpose single-linked list to the caller.
    ///
    /// Note that [`List`] only supports adding entries at the front. Hence,
    /// the returned list will be in LIFO (last-in-first-out) order.
    pub fn clear(&mut self, arena: &Arena<F::Base>) -> (r: slist::List<F>)
        requires
            old(self).wf(arena@),
        ensures
            r@ == old(self)@,
            r.wf(arena@),
            final(self)@ == Seq::<Addr>::empty(),
            final(self).wf(arena@),
            final(self).sealed() == old(self).sealed(),
    {
        let mut op: Clear<F> = Clear::Load;
        loop
            invariant
                self.wf(arena@),
                op matches Clear::Load ==> *self == *old(self),
                op matches Clear::Take { first } ==> *self == *old(self) && first
                    == self.first() && !self.sealed(),
                op matches Clear::Done { list } ==> list@ == old(self)@ && list.wf(arena@)
                    && self@ == Seq::<Addr>::empty(),
                self.sealed() == old(self).sealed(),
            decreases op.remaining(),
        {
            match op {
                Clear::Done { list } => return list,
                _ => {
                    op = op.step(self, arena);
                },
            }
        }
    }

    /// Seal the entire list and return all entries to the caller.
    ///
    /// This will atomically remove all entries from the list and seal it, so
    /// any new attempt to link more entries will fail.
    ///
    /// A sealed list will remain sealed and cannot be unsealed. This also
    /// implies that the list will remain empty.
    ///
    /// If the list is already sealed, this is a no-op and will return an empty
    /// list.
    pub fn seal(&mut self, arena: &Arena<F::Base>) -> (r: slist::List<F>)
        requires
            old(self).wf(arena@),
        ensures
            r@ == old(self)@,
            r.wf(arena@),
            final(self)@ == Seq::<Addr>::empty(),
            final(self).wf(arena@),
            final(self).sealed(),
    {
        let v = self.first;
        let ghost s = self@;
        self.first = Ptr::Null;
        self.entries = Ghost(Seq::empty());
        if v == Ptr::Null {
            slist::List::new()
        } else {
            slist::List::with(v, Ghost(s))
        }
    }

    /// Link a node at the front of a list.
    ///
    /// Works like [`List::try_link_front()`] but gives up on the entry if it
    /// cannot be linked.
    pub fn link_front(&mut self, arena: &mut Arena<F::Base>, ent: Addr)
        requires
            old(self).wf(old(arena)@),
            old(arena)@.contains_key(ent),
        ensures
            if !old(self).sealed() && next_of::<F>(old(arena)@, ent) == Ptr::Null {
                final(self)@ == old(self)@.insert(0, ent) && stored::<F>(
                    old(arena)@,
                    final(arena)@,
                    ent,
                    old(self).first(),
                )
            } else {
                *final(self) == *old(self) && final(arena)@ == old(arena)@
            },
            final(self).wf(final(arena)@),
            final(self).sealed() == old(self).sealed(),
            final(arena).limit() == old(arena).limit(),
            old(arena).wf() ==> final(arena).wf(),
    {
        let _ = self.try_link_front(arena, ent);
    }
}

impl<F: Field<Type = Node>> Clear<F> {
    /// How far the operation is from its end if nobody interferes.
    spec fn remaining(self) -> int {
        match self {
            Clear::Load => 2,
            Clear::Take { .. } => 1,
            Clear::Done { .. } => 0,
        }
    }

    /// What a single atomic access of the operation does: it turns the
    /// operation into `r`, and the list `l0` into `l1`.
    pub open spec fn stepped(self, r: Clear<F>, l0: &List<F>, l1: &List<F>) -> bool {
        match self {
            Clear::Load => {
                &&& *l1 == *l0
                &&& if l0.sealed() {
                    r matches Clear::Done { list } && list@ == Seq::<Addr>::empty()
                } else {
                    r == (Clear::<F>::Take { first: l0.first() })
                }
            },
            Clear::Take { first } => {
                if l0.sealed() {
                    &&& *l1 == *l0
                    &&& r matches Clear::Done { list } && list@ == Seq::<Addr>::empty()
                } else if l0.first() == first {
                    &&& l1@ == Seq::<Addr>::empty()
                    &&& r matches Clear::Done { list } && list@ == l0@
                } else {
                    &&& *l1 == *l0
                    &&& r == (Clear::<F>::Take { first: l0.first() })
                }
            },
            Clear::Done { .. } => *l1 == *l0 && r == self,
        }
    }

    /// Perform the next atomic access of the operation.
    pub fn step(self, list: &mut List<F>, arena: &Arena<F::Base>) -> (r: Clear<F>)
        requires
            old(list).wf(arena@),
        ensures
            self.stepped(r, old(list), final(list)),
            !(self is Done) && r is Done ==> r->list.wf(arena@),
            final(list).wf(arena@),
            final(list).sealed() == old(list).sealed(),
    {
        match self {
            Clear::Load => {
                if list.first == Ptr::Null {
                    Clear::Done { list: slist::List::new() }
                } else {
                    Clear::Take { first: list.first }
                }
            },
            Clear::Take { first } => {
                if list.first == Ptr::Null {
                    Clear::Done { list: slist::List::new() }
                } else if list.first == first {
                    let ghost s = list@;
                    list.first = Ptr::End;
                    list.entries = Ghost(Seq::empty());
                    Clear::Done { list: slist::List::with(first, Ghost(s)) }
                } else {
                    Clear::Take { first: list.first }
                }
            },
            Clear::Done { list: l } => Clear::Done { list: l },
        }
    }
}

impl<F: Field<Type = Node>> Default for List<F> {
    /// Return a new empty list.
    fn default() -> (r: Self)
        ensures
            r@ == Seq::<Addr>::empty(),
            !r.sealed(),
            forall|m: Map<Addr, Object<F::Base>>| #[trigger] r.wf(m),
    {
        List::new()
    }
}

/// Two operations never hold the same node.
pub open spec fn separate(a: LinkFront, b: LinkFront) -> bool {
    a.claimed() is Some ==> a.claimed() != b.claimed()
}

/// Link operations can be interleaved freely.
///
/// An access of one operation leaves any other one in a valid state, and no two
/// operations ever get hold of the same node.
pub proof fn lemma_link_interleaves<F: Field<Type = Node>>(
    op: LinkFront,
    r: LinkFront,
    other: LinkFront,
    l0: &List<F>,
    l1: &List<F>,
    m0: Map<Addr, Object<F::Base>>,
    m1: Map<Addr, Object<F::Base>>,
)
    requires
        l0.wf(m0),
        op.valid(l0, m0),
        other.valid(l0, m0),
        separate(op, other),
        op.stepped(r, l0, l1, m0, m1),
    ensures
        other.valid(l1, m1),
        separate(r, other),
{
    if op is Push && r is Linked {
        let ent = op->Push_ent;
        if let Some(a) = other.claimed() {
            assert(a != ent);
            assert(!l0@.insert(0, ent).contains(a)) by {
                if l0@.insert(0, ent).contains(a) {
                    let i = choose|i: int|
                        0 <= i < l0@.insert(0, ent).len() && l0@.insert(0, ent)[i] == a;
                    if i > 0 {
                        assert(l0@[i - 1] == a);
                    }
                }
            }
        }
    }
}

/// Taking the elements of a list does not disturb a link operation, and never
/// takes an element that is not linked yet.
pub proof fn lemma_clear_interleaves<F: Field<Type = Node>>(
    op: Clear<F>,
    r: Clear<F>,
    other: LinkFront,
    l0: &List<F>,
    l1: &List<F>,
    m: Map<Addr, Object<F::Base>>,
)
    requires
        l0.wf(m),
        other.valid(l0, m),
        op.stepped(r, l0, l1),
    ensures
        other.valid(l1, m),
        !(op is Done) && r is Done && other.claimed() is Some ==> !r->list@.contains(
            other.claimed()->0,
        ),
{
}

} // verus!
