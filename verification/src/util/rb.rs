//! Intrusive ordered trees.
//!
//! [`Tree`] is the entry-point of every tree operation, and it manages all
//! entries stored in this tree. Entries live in an [`Arena`] and embed a
//! [`Node`] as metadata. The node carries a tag that identifies the tree the
//! entry is linked into, so tree membership can be asserted from an entry alone.
//!
//! The entries of a tree are in a total order, which is fixed by the slots they
//! are linked into. Slots are found by binary search, in logarithmic time. To
//! find the position of an explicit entry takes linear time.

use core::cmp::Ordering;
use crate::util::arena::{Addr, Arena, Object};
use crate::util::field::Field;
use crate::util::slist::{lemma_relinked_refl, lemma_relinked_store, lemma_relinked_trans, relinked};
use vstd::prelude::*;

verus! {

/// Metadata required on each element of a [`Tree`].
///
/// Every element that is stored in a [`Tree`] must have a member field of type
/// [`Node`]. A [`Tree`] is generic over the member field used, so a single
/// element can have multiple nodes to be stored in multiple different trees.
#[derive(Debug)]
pub struct Node {
    /// Tag of the tree this node is linked into, if any.
    pub owner: Option<usize>,
}

/// Ordered tree that stores and manages elements.
///
/// All elements stored in a tree use the same member field `F`. The tag of a
/// tree must be different from those of all other trees that use the same
/// member field of elements of the same arena.
#[verifier::reject_recursive_types(F)]
pub struct Tree<F> {
    owner: usize,
    // The entries, in tree order.
    entries: Vec<Addr>,
    _frt: core::marker::PhantomData<F>,
}

/// Mutable cursor over entries of a tree.
///
/// This cursor either points at an empty tree, or directly at a node in a
/// non-empty tree. The cursor can be moved back and forth, and elements can be
/// removed at will.
pub struct CursorMut {
    pos: Option<usize>,
}

/// Mutable slot in a tree.
///
/// This slot points at a location in a tree, which can either be an existing
/// element, or an empty slot. It is usually obtained by searching a tree for a
/// specific key. If an element matching the key is found, the slot of that
/// element is returned. Otherwise, an empty slot suitable for insertion of an
/// element with such a key is returned.
pub struct Slot {
    index: usize,
    state: SlotState,
}

/// State of a [`Slot`].
#[derive(Clone, Copy, Debug, PartialEq, Eq, Structural)]
pub enum SlotState {
    /// The slot is in front of the entry at its index.
    Vacant,
    /// The slot refers to the entry at its index.
    Occupied,
    /// The slot was used to link an entry.
    Used,
}

/// The tag of the tree an element is linked into.
pub open spec fn owner_of<F: Field<Type = Node>>(
    m: Map<Addr, Object<F::Base>>,
    a: Addr,
) -> Option<usize> {
    F::field_of(m[a].value).owner
}

/// No element is tagged as linked into the tree with the given tag.
pub open spec fn unclaimed<F: Field<Type = Node>>(
    m: Map<Addr, Object<F::Base>>,
    owner: usize,
) -> bool {
    forall|a: Addr| #![trigger m[a]] m.contains_key(a) ==> owner_of::<F>(m, a) != Some(owner)
}

/// The element at position `i`.
pub open spec fn nth<F: Field<Type = Node>>(
    m: Map<Addr, Object<F::Base>>,
    s: Seq<Addr>,
    i: int,
) -> F::Base {
    m[s[i]].value
}

/// `m1` is `m0` with the tag of a single element replaced.
pub open spec fn tagged<F: Field<Type = Node>>(
    m0: Map<Addr, Object<F::Base>>,
    m1: Map<Addr, Object<F::Base>>,
    ent: Addr,
    owner: Option<usize>,
) -> bool {
    &&& relinked::<F>(m0, m1, set![ent])
    &&& owner_of::<F>(m1, ent) == owner
}

/// The elements of a tree are strictly ordered by their keys.
pub open spec fn sorted<F: Field<Type = Node>>(
    m: Map<Addr, Object<F::Base>>,
    s: Seq<Addr>,
    key: spec_fn(F::Base) -> int,
) -> bool {
    forall|i: int, j: int| #![trigger s[i], s[j]]
        0 <= i < j < s.len() ==> key(nth::<F>(m, s, i)) < key(nth::<F>(m, s, j))
}

/// The slot refers to an element that compares equal to what is looked for, or
/// it lies in between elements that compare unequal.
pub open spec fn found<F: Field<Type = Node>, C: Fn(&F::Base) -> Ordering>(
    m: Map<Addr, Object<F::Base>>,
    s: Seq<Addr>,
    order: C,
    slot: Slot,
) -> bool {
    &&& slot.fits(s)
    &&& slot.state() != SlotState::Used
    &&& slot.state() == SlotState::Occupied ==> order.ensures(
        (&nth::<F>(m, s, slot.index()),),
        Ordering::Equal,
    )
    &&& slot.state() == SlotState::Vacant && slot.index() > 0 ==> order.ensures(
        (&nth::<F>(m, s, slot.index() - 1),),
        Ordering::Greater,
    )
    &&& slot.state() == SlotState::Vacant && slot.index() < s.len() ==> order.ensures(
        (&nth::<F>(m, s, slot.index()),),
        Ordering::Less,
    )
}

/// An element compares greater than the one in front of position `i`, and less
/// than the one at it.
pub open spec fn belongs<F: Field<Type = Node>, C: Fn(&F::Base, &F::Base) -> Ordering>(
    m: Map<Addr, Object<F::Base>>,
    s: Seq<Addr>,
    order: C,
    ent: Addr,
    i: int,
) -> bool {
    &&& 0 <= i <= s.len()
    &&& i > 0 ==> order.ensures((&m[ent].value, &nth::<F>(m, s, i - 1)), Ordering::Greater)
    &&& i < s.len() ==> order.ensures((&m[ent].value, &nth::<F>(m, s, i)), Ordering::Less)
}

/// A binary tree.
pub enum Shape {
    /// No element at all.
    Empty,
    /// An element with its children to the left and to the right.
    Root(Box<Shape>, Addr, Box<Shape>),
}

/// The elements of a binary tree in order.
pub open spec fn inorder(t: Shape) -> Seq<Addr>
    decreases t,
{
    match t {
        Shape::Empty => Seq::empty(),
        Shape::Root(l, a, r) => inorder(*l).push(a) + inorder(*r),
    }
}

/// The elements of a binary tree in postorder: every element follows its
/// children.
pub open spec fn postorder(t: Shape) -> Seq<Addr>
    decreases t,
{
    match t {
        Shape::Empty => Seq::empty(),
        Shape::Root(l, a, r) => (postorder(*l) + postorder(*r)).push(a),
    }
}

/// `r` are the elements `s` in postorder, for a binary tree that has `s` in
/// order.
pub open spec fn is_postorder(r: Seq<Addr>, s: Seq<Addr>) -> bool {
    exists|t: Shape| #[trigger] inorder(t) == s && postorder(t) == r
}

/// The binary tree with the element in its middle as root, and thus with the one
/// that a search looks at first.
spec fn balanced(s: Seq<Addr>) -> Shape
    decreases s.len(),
{
    if s.len() == 0 {
        Shape::Empty
    } else {
        let mid = s.len() as int / 2;
        Shape::Root(
            Box::new(balanced(s.take(mid))),
            s[mid],
            Box::new(balanced(s.skip(mid + 1))),
        )
    }
}

proof fn lemma_balanced(s: Seq<Addr>)
    ensures
        inorder(balanced(s)) == s,
    decreases s.len(),
{
    if s.len() == 0 {
        assert(inorder(balanced(s)) =~= s);
    } else {
        let mid = s.len() as int / 2;
        lemma_balanced(s.take(mid));
        lemma_balanced(s.skip(mid + 1));
        assert(s =~= s.take(mid).push(s[mid]) + s.skip(mid + 1));
    }
}

proof fn lemma_shape(t: Shape)
    ensures
        postorder(t).len() == inorder(t).len(),
        postorder(t).to_multiset() == inorder(t).to_multiset(),
    decreases t,
{
    broadcast use vstd::seq_lib::group_to_multiset_ensures;

    if let Shape::Root(l, a, r) = t {
        lemma_shape(*l);
        lemma_shape(*r);
        vstd::seq_lib::lemma_multiset_commutative(postorder(*l), postorder(*r));
        vstd::seq_lib::lemma_multiset_commutative(inorder(*l).push(a), inorder(*r));
        assert(postorder(t).to_multiset() =~= inorder(t).to_multiset());
    }
}

/// A postorder traversal visits every element once.
pub proof fn lemma_postorder(r: Seq<Addr>, s: Seq<Addr>)
    requires
        is_postorder(r, s),
    ensures
        r.len() == s.len(),
        r.to_multiset() == s.to_multiset(),
        r.to_set() == s.to_set(),
        s.no_duplicates() ==> r.no_duplicates(),
{
    broadcast use vstd::seq_lib::group_to_multiset_ensures;

    let t = choose|t: Shape| #[trigger] inorder(t) == s && postorder(t) == r;
    lemma_shape(t);
    assert forall|e: Addr| #[trigger] r.to_set().contains(e) <==> s.to_set().contains(e) by {
        assert(r.contains(e) <==> r.to_multiset().count(e) > 0);
        assert(s.contains(e) <==> s.to_multiset().count(e) > 0);
    }
    assert(r.to_set() =~= s.to_set());
    if s.no_duplicates() {
        s.lemma_multiset_has_no_duplicates();
        r.lemma_multiset_has_no_duplicates_conv();
    }
}

/// Collect part of the elements of a tree in postorder.
fn collect_postorder(s: &Vec<Addr>, lo: usize, hi: usize, r: &mut Vec<Addr>)
    requires
        lo <= hi <= s@.len(),
    ensures
        final(r)@ == old(r)@ + postorder(balanced(s@.subrange(lo - 0, hi - 0))),
    decreases hi - lo,
{
    let ghost t = s@.subrange(lo - 0, hi - 0);
    if lo < hi {
        let mid: usize = lo + (hi - lo) / 2;
        proof {
            let k = t.len() as int / 2;
            assert(mid - lo == k);
            assert(t.take(k) =~= s@.subrange(lo - 0, mid - 0));
            assert(t.skip(k + 1) =~= s@.subrange(mid + 1, hi - 0));
            assert(t[k] == s@[mid - 0]);
        }
        collect_postorder(s, lo, mid, r);
        collect_postorder(s, mid + 1, hi, r);
        r.push(s[mid]);
        proof {
            let a = postorder(balanced(s@.subrange(lo - 0, mid - 0)));
            let b = postorder(balanced(s@.subrange(mid + 1, hi - 0)));
            assert(r@ =~= old(r)@ + (a + b).push(s@[mid - 0]));
        }
    } else {
        assert(r@ =~= old(r)@ + postorder(balanced(t)));
    }
}

fn store<F: Field<Type = Node>>(arena: &mut Arena<F::Base>, a: Addr, owner: Option<usize>)
    requires
        old(arena)@.contains_key(a),
    ensures
        tagged::<F>(old(arena)@, final(arena)@, a, owner),
        final(arena).limit() == old(arena).limit(),
        old(arena).wf() ==> final(arena).wf(),
{
    let ghost m0 = arena@;
    let v = arena.get_mut(a);
    F::set(v, Node { owner });
    proof {
        lemma_relinked_store::<F>(m0, arena@, a, (Node { owner }), set![a]);
    }
}

impl Node {
    /// Create a new unlinked node.
    pub fn new() -> (r: Self)
        ensures
            !r.linked(),
    {
        Node { owner: None }
    }

    /// Whether this node is linked into a tree.
    pub open spec fn linked(&self) -> bool {
        self.owner is Some
    }

    /// Check whether this node is linked into a tree.
    pub fn is_linked(&self) -> (r: bool)
        ensures
            r == self.linked(),
    {
        self.owner.is_some()
    }
}

impl Clone for Node {
    /// Returns a clean and unlinked node.
    ///
    /// Cloning a node always yields a new node that is unlinked and in no way
    /// tied to the original node.
    fn clone(&self) -> (r: Self)
        ensures
            !r.linked(),
    {
        Node::new()
    }
}

impl Default for Node {
    /// Return a clean and unlinked node.
    fn default() -> (r: Self)
        ensures
            !r.linked(),
    {
        Node::new()
    }
}

impl<F: Field<Type = Node>> View for Tree<F> {
    type V = Seq<Addr>;

    /// The entries, in tree order.
    closed spec fn view(&self) -> Seq<Addr> {
        self.entries@
    }
}

impl<F: Field<Type = Node>> Tree<F> {
    /// The tag of this tree.
    pub closed spec fn owner(&self) -> usize {
        self.owner
    }

    /// The entries of the tree are exactly the elements that carry its tag.
    pub open spec fn wf(&self, m: Map<Addr, Object<F::Base>>) -> bool {
        &&& self@.no_duplicates()
        &&& forall|i: int| #![trigger self@[i]]
            0 <= i < self@.len() ==> m.contains_key(self@[i]) && owner_of::<F>(m, self@[i])
                == Some(self.owner())
        &&& forall|a: Addr| #![trigger m[a]]
            m.contains_key(a) && owner_of::<F>(m, a) == Some(self.owner()) ==> self@.contains(a)
    }

    /// Create a new empty tree with the given tag.
    pub fn new(owner: usize) -> (r: Self)
        ensures
            r.owner() == owner,
            r@ == Seq::<Addr>::empty(),
            forall|m: Map<Addr, Object<F::Base>>| #[trigger]
                unclaimed::<F>(m, owner) ==> r.wf(m),
    {
        Tree { owner, entries: Vec::new(), _frt: core::marker::PhantomData }
    }

    /// Check whether the tree is empty.
    ///
    /// This returns `true` if no entries are linked, `false` if at least one
    /// entry is linked.
    pub fn is_empty(&self) -> (r: bool)
        ensures
            r == (self@.len() == 0),
    {
        self.entries.len() == 0
    }

    /// Count the entries.
    pub fn len(&self) -> (r: usize)
        ensures
            r == self@.len(),
    {
        self.entries.len()
    }

    /// The number of entries is a machine integer.
    pub proof fn lemma_len(&self)
        ensures
            self@.len() <= usize::MAX,
    {
        assert(self.entries@.len() == self.entries.len());
    }

    /// Get the entry at a position.
    pub fn at(&self, i: usize) -> (r: Addr)
        requires
            i < self@.len(),
        ensures
            r == self@[i as int],
    {
        self.entries[i]
    }

    /// List the entries, in tree order.
    pub fn to_vec(&self) -> (r: Vec<Addr>)
        ensures
            r@ == self@,
    {
        let mut r: Vec<Addr> = Vec::new();
        let mut i: usize = 0;
        while i < self.entries.len()
            invariant
                i <= self.entries.len(),
                r@ == self.entries@.take(i as int),
            decreases self.entries.len() - i,
        {
            r.push(self.entries[i]);
            i += 1;
            assert(r@ =~= self.entries@.take(i as int));
        }
        assert(r@ =~= self.entries@);
        r
    }

    /// Check whether an element is linked into this tree.
    pub fn contains(&self, arena: &Arena<F::Base>, ent: Addr) -> (r: bool)
        requires
            self.wf(arena@),
            arena@.contains_key(ent),
        ensures
            r == self@.contains(ent),
    {
        match F::get(arena.get(ent)).owner {
            Some(v) => v == self.owner,
            None => false,
        }
    }

    /// Try creating a mutable cursor to an explicit element.
    ///
    /// This tries to create a [`CursorMut`] for the given element. If the
    /// element is not linked in this tree, this will return `None` instead.
    pub fn try_claim_mut(&self, arena: &Arena<F::Base>, ent: Addr) -> (r: Option<CursorMut>)
        requires
            self.wf(arena@),
            arena@.contains_key(ent),
        ensures
            r is Some <==> self@.contains(ent),
            r matches Some(c) ==> c.valid(self@) && c.pos() is Some && self@[c.pos()->0] == ent,
    {
        if !self.contains(arena, ent) {
            return None;
        }
        let mut i: usize = 0;
        while self.entries[i] != ent
            invariant
                i < self.entries.len(),
                self.entries@.contains(ent),
                forall|j: int| 0 <= j < i ==> self.entries@[j] != ent,
            decreases self.entries@.len() - i,
        {
            proof {
                let k = choose|k: int| 0 <= k < self.entries@.len() && self.entries@[k] == ent;
                assert(k > i);
            }
            i += 1;
        }
        Some(CursorMut { pos: Some(i) })
    }

    /// Create a mutable cursor to an explicit element.
    ///
    /// Works like [`Tree::try_claim_mut()`], for elements that are known to be
    /// linked into this tree.
    pub fn claim_mut(&self, arena: &Arena<F::Base>, ent: Addr) -> (r: CursorMut)
        requires
            self.wf(arena@),
            arena@.contains_key(ent),
            self@.contains(ent),
        ensures
            r.valid(self@),
            r.pos() is Some,
            self@[r.pos()->0] == ent,
    {
        match self.try_claim_mut(arena, ent) {
            Some(c) => c,
            None => vstd::pervasive::unreached(),
        }
    }

    /// Find a slot in the tree.
    ///
    /// Search through the tree with the given comparison function, looking for
    /// a specific slot. Regardless whether the slot is occupied or not, this
    /// will return a `Slot` object.
    ///
    /// `order` tells how what is looked for compares to an entry. It can be
    /// chosen freely, but should preferably implement a partial order to ensure
    /// a coherent tree order.
    pub fn find_slot_by<C: Fn(&F::Base) -> Ordering>(
        &self,
        arena: &Arena<F::Base>,
        order: C,
    ) -> (r: Slot)
        requires
            self.wf(arena@),
            forall|i: int| #![trigger self@[i]]
                0 <= i < self@.len() ==> order.requires((&nth::<F>(arena@, self@, i),)),
        ensures
            found::<F, C>(arena@, self@, order, r),
    {
        let mut lo: usize = 0;
        let mut hi: usize = self.entries.len();
        while lo < hi
            invariant
                lo <= hi <= self@.len(),
                self.wf(arena@),
                forall|i: int| #![trigger self@[i]]
                    0 <= i < self@.len() ==> order.requires((&nth::<F>(arena@, self@, i),)),
                lo > 0 ==> order.ensures((&nth::<F>(arena@, self@, lo - 1),), Ordering::Greater),
                hi < self@.len() ==> order.ensures(
                    (&nth::<F>(arena@, self@, hi - 0),),
                    Ordering::Less,
                ),
            decreases hi - lo,
        {
            let mid: usize = lo + (hi - lo) / 2;
            assert(arena@.contains_key(self@[mid - 0]));
            match order(arena.get(self.entries[mid])) {
                Ordering::Less => {
                    hi = mid;
                },
                Ordering::Greater => {
                    lo = mid + 1;
                },
                Ordering::Equal => {
                    return Slot { index: mid, state: SlotState::Occupied };
                },
            }
        }
        Slot { index: lo, state: SlotState::Vacant }
    }
}

impl<F: Field<Type = Node>> Tree<F> {
    /// Find the last slot in the tree.
    ///
    /// Works like [`Tree::find_slot_by()`], but looks for the slot behind all
    /// entries that compare equal. This slot is always vacant.
    pub fn find_last_slot_by<C: Fn(&F::Base) -> Ordering>(
        &self,
        arena: &Arena<F::Base>,
        order: C,
    ) -> (r: Slot)
        requires
            self.wf(arena@),
            forall|i: int| #![trigger self@[i]]
                0 <= i < self@.len() ==> order.requires((&nth::<F>(arena@, self@, i),)),
        ensures
            r.fits(self@),
            r.state() == SlotState::Vacant,
            r.index() > 0 ==> order.ensures(
                (&nth::<F>(arena@, self@, r.index() - 1),),
                Ordering::Greater,
            ) || order.ensures((&nth::<F>(arena@, self@, r.index() - 1),), Ordering::Equal),
            r.index() < self@.len() ==> order.ensures(
                (&nth::<F>(arena@, self@, r.index()),),
                Ordering::Less,
            ),
    {
        let mut lo: usize = 0;
        let mut hi: usize = self.entries.len();
        while lo < hi
            invariant
                lo <= hi <= self@.len(),
                self.wf(arena@),
                forall|i: int| #![trigger self@[i]]
                    0 <= i < self@.len() ==> order.requires((&nth::<F>(arena@, self@, i),)),
                lo > 0 ==> order.ensures((&nth::<F>(arena@, self@, lo - 1),), Ordering::Greater)
                    || order.ensures((&nth::<F>(arena@, self@, lo - 1),), Ordering::Equal),
                hi < self@.len() ==> order.ensures(
                    (&nth::<F>(arena@, self@, hi - 0),),
                    Ordering::Less,
                ),
            decreases hi - lo,
        {
            let mid: usize = lo + (hi - lo) / 2;
            assert(arena@.contains_key(self@[mid - 0]));
            match order(arena.get(self.entries[mid])) {
                Ordering::Less => {
                    hi = mid;
                },
                Ordering::Greater => {
                    lo = mid + 1;
                },
                Ordering::Equal => {
                    lo = mid + 1;
                },
            }
        }
        Slot { index: lo, state: SlotState::Vacant }
    }

    /// Try linking an entry into the slot it belongs to.
    ///
    /// `order` tells how the entry compares to another one. If an entry that
    /// compares equal is found, or if the entry is already linked into a tree,
    /// this will return `Err`.
    pub fn try_link_by<C: Fn(&F::Base, &F::Base) -> Ordering>(
        &mut self,
        arena: &mut Arena<F::Base>,
        ent: Addr,
        order: C,
    ) -> (r: Result<Addr, Addr>)
        requires
            old(self).wf(old(arena)@),
            old(arena)@.contains_key(ent),
            forall|i: int| #![trigger old(self)@[i]]
                0 <= i < old(self)@.len() ==> order.requires(
                    (&old(arena)@[ent].value, &nth::<F>(old(arena)@, old(self)@, i)),
                ),
        ensures
            r == Ok::<Addr, Addr>(ent) || r == Err::<Addr, Addr>(ent),
            owner_of::<F>(old(arena)@, ent) is Some ==> r is Err,
            r is Err ==> final(self)@ == old(self)@ && final(arena)@ == old(arena)@,
            r is Err ==> owner_of::<F>(old(arena)@, ent) is Some || exists|i: int|
                0 <= i < old(self)@.len() && order.ensures(
                    (&old(arena)@[ent].value, #[trigger] &nth::<F>(old(arena)@, old(self)@, i)),
                    Ordering::Equal,
                ),
            r is Ok ==> exists|i: int|
                {
                    &&& final(self)@ == #[trigger] old(self)@.insert(i, ent)
                    &&& belongs::<F, C>(old(arena)@, old(self)@, order, ent, i)
                },
            r is Ok ==> tagged::<F>(old(arena)@, final(arena)@, ent, Some(old(self).owner())),
            final(self).wf(final(arena)@),
            final(self).owner() == old(self).owner(),
            final(arena).limit() == old(arena).limit(),
            old(arena).wf() ==> final(arena).wf(),
    {
        let v = arena.get(ent);
        let order_ent = |w: &F::Base| -> (o: Ordering)
            requires
                call_requires(&order, (v, w)),
            ensures
                call_ensures(&order, (v, w), o),
        {
            order(v, w)
        };
        let mut slot = self.find_slot_by(arena, order_ent);
        slot.try_link(self, arena, ent)
    }

    /// Try linking an entry behind all entries that do not compare greater.
    ///
    /// `order` tells how the entry compares to another one. If the entry is
    /// already linked into a tree, this will return `Err`.
    pub fn try_link_last_by<C: Fn(&F::Base, &F::Base) -> Ordering>(
        &mut self,
        arena: &mut Arena<F::Base>,
        ent: Addr,
        order: C,
    ) -> (r: Result<Addr, Addr>)
        requires
            old(self).wf(old(arena)@),
            old(arena)@.contains_key(ent),
            forall|i: int| #![trigger old(self)@[i]]
                0 <= i < old(self)@.len() ==> order.requires(
                    (&old(arena)@[ent].value, &nth::<F>(old(arena)@, old(self)@, i)),
                ),
        ensures
            r == if owner_of::<F>(old(arena)@, ent) is None {
                Ok::<Addr, Addr>(ent)
            } else {
                Err::<Addr, Addr>(ent)
            },
            r is Err ==> final(self)@ == old(self)@ && final(arena)@ == old(arena)@,
            r is Ok ==> exists|i: int|
                {
                    &&& 0 <= i <= old(self)@.len()
                    &&& final(self)@ == #[trigger] old(self)@.insert(i, ent)
                    &&& i > 0 ==> order.ensures(
                        (&old(arena)@[ent].value, &nth::<F>(old(arena)@, old(self)@, i - 1)),
                        Ordering::Greater,
                    ) || order.ensures(
                        (&old(arena)@[ent].value, &nth::<F>(old(arena)@, old(self)@, i - 1)),
                        Ordering::Equal,
                    )
                    &&& i < old(self)@.len() ==> order.ensures(
                        (&old(arena)@[ent].value, &nth::<F>(old(arena)@, old(self)@, i)),
                        Ordering::Less,
                    )
                },
            r is Ok ==> tagged::<F>(old(arena)@, final(arena)@, ent, Some(old(self).owner())),
            final(self).wf(final(arena)@),
            final(self).owner() == old(self).owner(),
            final(arena).limit() == old(arena).limit(),
            old(arena).wf() ==> final(arena).wf(),
    {
        let v = arena.get(ent);
        let order_ent = |w: &F::Base| -> (o: Ordering)
            requires
                call_requires(&order, (v, w)),
            ensures
                call_ensures(&order, (v, w), o),
        {
            order(v, w)
        };
        let mut slot = self.find_last_slot_by(arena, order_ent);
        slot.try_link(self, arena, ent)
    }

    /// Try unlinking an explicit element.
    ///
    /// If the element is not linked in this tree, this is a no-op and `None` is
    /// returned. Otherwise, the removed entry is returned.
    pub fn try_unlink(&mut self, arena: &mut Arena<F::Base>, ent: Addr) -> (r: Option<Addr>)
        requires
            old(self).wf(old(arena)@),
            old(arena)@.contains_key(ent),
        ensures
            r == if old(self)@.contains(ent) {
                Some(ent)
            } else {
                None::<Addr>
            },
            r is None ==> final(self)@ == old(self)@ && final(arena)@ == old(arena)@,
            r is Some ==> final(self)@ == old(self)@.remove(old(self)@.index_of(ent))
                && tagged::<F>(old(arena)@, final(arena)@, ent, None),
            final(self).wf(final(arena)@),
            final(self).owner() == old(self).owner(),
            final(arena).limit() == old(arena).limit(),
            old(arena).wf() ==> final(arena).wf(),
    {
        match self.try_claim_mut(arena, ent) {
            Some(c) => {
                proof {
                    let i = c.pos()->0;
                    let j = self@.index_of(ent);
                    assert(self@[j] == ent);
                    assert(i == j);
                }
                c.try_unlink(self, arena)
            },
            None => None,
        }
    }

    /// Remove all entries from a tree.
    ///
    /// Clear the entire tree and hand out its entries. This will iterate the
    /// tree in postorder, that is all entries follow their children. How a tree
    /// is balanced is not specified.
    pub fn clear_with(&mut self, arena: &mut Arena<F::Base>) -> (r: Vec<Addr>)
        requires
            old(self).wf(old(arena)@),
        ensures
            is_postorder(r@, old(self)@),
            r@.no_duplicates(),
            r@.to_set() == old(self)@.to_set(),
            r@.len() == old(self)@.len(),
            final(self)@ == Seq::<Addr>::empty(),
            final(self).wf(final(arena)@),
            final(self).owner() == old(self).owner(),
            forall|i: int| #![trigger old(self)@[i]]
                0 <= i < old(self)@.len() ==> owner_of::<F>(final(arena)@, old(self)@[i]) is None,
            relinked::<F>(old(arena)@, final(arena)@, old(self)@.to_set()),
            final(arena).limit() == old(arena).limit(),
            old(arena).wf() ==> final(arena).wf(),
    {
        let ghost s = self@;
        let mut entries: Vec<Addr> = Vec::new();
        core::mem::swap(&mut entries, &mut self.entries);
        proof {
            lemma_relinked_refl::<F>(arena@, s.to_set());
        }
        let mut i: usize = 0;
        while i < entries.len()
            invariant
                entries@ == s,
                i <= s.len(),
                s == old(self)@,
                old(self).wf(old(arena)@),
                relinked::<F>(old(arena)@, arena@, s.to_set()),
                forall|j: int| #![trigger s[j]]
                    0 <= j < i ==> owner_of::<F>(arena@, s[j]) is None,
                arena.limit() == old(arena).limit(),
                old(arena).wf() ==> arena.wf(),
            decreases s.len() - i,
        {
            let ghost m = arena@;
            assert(old(arena)@.contains_key(s[i as int]));
            store::<F>(arena, entries[i], None);
            proof {
                assert(s.to_set().contains(s[i as int]));
                assert(relinked::<F>(m, arena@, s.to_set()));
                lemma_relinked_trans::<F>(old(arena)@, m, arena@, s.to_set());
                assert forall|j: int| 0 <= j <= i implies owner_of::<F>(
                    arena@,
                    #[trigger] s[j],
                ) is None by {
                    if j < i {
                        assert(old(arena)@.contains_key(s[j]));
                        assert(arena@[s[j]] == m[s[j]]);
                    }
                }
            }
            i += 1;
        }
        proof {
            assert forall|a: Addr| arena@.contains_key(a) implies owner_of::<F>(
                #[trigger] arena@,
                a,
            ) != Some(self.owner()) by {
                if s.contains(a) {
                    let j = choose|j: int| 0 <= j < s.len() && s[j] == a;
                    assert(owner_of::<F>(arena@, s[j]) is None);
                } else {
                    assert(arena@[a] == old(arena)@[a]);
                }
            }
        }
        let mut r: Vec<Addr> = Vec::new();
        collect_postorder(&entries, 0, entries.len(), &mut r);
        proof {
            assert(s.subrange(0, s.len() - 0) =~= s);
            lemma_balanced(s);
            assert(r@ =~= postorder(balanced(s)));
            lemma_postorder(r@, s);
        }
        r
    }

    /// Remove all entries from a tree.
    ///
    /// Works like [`Tree::clear_with()`] but does not hand out the entries.
    pub fn clear(&mut self, arena: &mut Arena<F::Base>)
        requires
            old(self).wf(old(arena)@),
        ensures
            final(self)@ == Seq::<Addr>::empty(),
            final(self).wf(final(arena)@),
            final(self).owner() == old(self).owner(),
            forall|i: int| #![trigger old(self)@[i]]
                0 <= i < old(self)@.len() ==> owner_of::<F>(final(arena)@, old(self)@[i]) is None,
            relinked::<F>(old(arena)@, final(arena)@, old(self)@.to_set()),
            final(arena).limit() == old(arena).limit(),
            old(arena).wf() ==> final(arena).wf(),
    {
        let _ = self.clear_with(arena);
    }
}

/// A tree is not affected by changes that keep the set of elements with its
/// tag.
pub proof fn lemma_tree_frame<F: Field<Type = Node>>(
    tree: &Tree<F>,
    m0: Map<Addr, Object<F::Base>>,
    m1: Map<Addr, Object<F::Base>>,
)
    requires
        tree.wf(m0),
        forall|a: Addr| #![trigger m0[a]] #![trigger m1[a]]
            (m1.contains_key(a) && owner_of::<F>(m1, a) == Some(tree.owner())) <==> (
            m0.contains_key(a) && owner_of::<F>(m0, a) == Some(tree.owner())),
    ensures
        tree.wf(m1),
{
    assert forall|i: int| 0 <= i < tree@.len() implies m1.contains_key(#[trigger] tree@[i])
        && owner_of::<F>(m1, tree@[i]) == Some(tree.owner()) by {
        let a = tree@[i];
        assert(m0.contains_key(a) && owner_of::<F>(m0, a) == Some(tree.owner()));
        assert(m0[a] == m0[a]);
    }
    assert forall|a: Addr| m1.contains_key(a) && owner_of::<F>(m1, a) == Some(
        tree.owner(),
    ) implies #[trigger] tree@.contains(a) by {
        assert(m1[a] == m1[a]);
        assert(m0.contains_key(a) && owner_of::<F>(m0, a) == Some(tree.owner()));
    }
}

impl CursorMut {
    /// The position of the entry the cursor points at, unless the tree is
    /// empty.
    pub closed spec fn pos(&self) -> Option<int> {
        match self.pos {
            Some(i) => Some(i as int),
            None => None,
        }
    }

    /// The cursor points at an entry, or the tree is empty.
    pub open spec fn valid(&self, s: Seq<Addr>) -> bool {
        match self.pos() {
            Some(i) => 0 <= i < s.len(),
            None => s.len() == 0,
        }
    }

    /// Unlink a specific entry from the tree.
    fn unlink_at<F: Field<Type = Node>>(
        tree: &mut Tree<F>,
        arena: &mut Arena<F::Base>,
        i: usize,
    ) -> (r: Addr)
        requires
            old(tree).wf(old(arena)@),
            i < old(tree)@.len(),
        ensures
            r == old(tree)@[i as int],
            final(tree)@ == old(tree)@.remove(i as int),
            tagged::<F>(old(arena)@, final(arena)@, r, None),
            final(tree).wf(final(arena)@),
            final(tree).owner() == old(tree).owner(),
            final(arena).limit() == old(arena).limit(),
            old(arena).wf() ==> final(arena).wf(),
    {
        let ghost s = tree@;
        let ent = tree.entries.remove(i);
        assert(old(arena)@.contains_key(s[i as int]));
        store::<F>(arena, ent, None);
        proof {
            let t = tree@;
            assert forall|j: int| 0 <= j < t.len() implies arena@.contains_key(#[trigger] t[j])
                && owner_of::<F>(arena@, t[j]) == Some(tree.owner()) by {
                let k = if j < i { j } else { j + 1 };
                assert(t[j] == s[k]);
                assert(arena@[s[k]] == old(arena)@[s[k]]);
            }
            assert forall|a: Addr| arena@.contains_key(a) && owner_of::<F>(arena@, a) == Some(
                tree.owner(),
            ) implies t.contains(a) by {
                assert(a != ent);
                assert(arena@[a] == old(arena)@[a]);
                let k = choose|k: int| 0 <= k < s.len() && s[k] == a;
                let j = if k < i { k } else { k - 1 };
                assert(t[j] == a);
            }
        }
        ent
    }

    /// Get the entry the cursor points at.
    pub fn get<F: Field<Type = Node>>(&self, tree: &Tree<F>) -> (r: Option<Addr>)
        requires
            self.valid(tree@),
        ensures
            r == match self.pos() {
                Some(i) => Some(tree@[i]),
                None => None,
            },
    {
        match self.pos {
            Some(i) => Some(tree.entries[i]),
            None => None,
        }
    }

    /// Move to the next entry, if any.
    ///
    /// Move the cursor to point to the next entry. If the tree is empty, or if
    /// the cursor points to the last element, this is a no-op.
    ///
    /// Returns `true` if, and only if, the cursor was actually moved.
    pub fn move_next<F: Field<Type = Node>>(&mut self, tree: &Tree<F>) -> (r: bool)
        requires
            old(self).valid(tree@),
        ensures
            final(self).valid(tree@),
            r == (old(self).pos() is Some && old(self).pos()->0 + 1 < tree@.len()),
            r ==> final(self).pos() == Some(old(self).pos()->0 + 1),
            !r ==> *final(self) == *old(self),
    {
        match self.pos {
            Some(i) => {
                if i < tree.entries.len() - 1 {
                    self.pos = Some(i + 1);
                    true
                } else {
                    false
                }
            },
            None => false,
        }
    }

    /// Move to the previous entry, if any.
    ///
    /// Move the cursor to point to the previous entry. If the tree is empty,
    /// or if the cursor points to the first element, this is a no-op.
    ///
    /// Returns `true` if, and only if, the cursor was actually moved.
    pub fn move_prev<F: Field<Type = Node>>(&mut self, tree: &Tree<F>) -> (r: bool)
        requires
            old(self).valid(tree@),
        ensures
            final(self).valid(tree@),
            r == (old(self).pos() is Some && old(self).pos()->0 > 0),
            r ==> final(self).pos() == Some(old(self).pos()->0 - 1),
            !r ==> *final(self) == *old(self),
    {
        match self.pos {
            Some(i) => {
                if i > 0 {
                    self.pos = Some(i - 1);
                    true
                } else {
                    false
                }
            },
            None => false,
        }
    }

    /// Move to the next entry, trying to unlink the current entry first.
    ///
    /// If the tree is empty, this is a no-op and returns `None`. Otherwise,
    /// the entry at the cursor is unlinked and is returned together with the
    /// result of [`Self::move_next()`]. If there is no next entry, the cursor
    /// is moved to the previous one.
    pub fn move_next_try_unlink<F: Field<Type = Node>>(
        &mut self,
        tree: &mut Tree<F>,
        arena: &mut Arena<F::Base>,
    ) -> (r: Option<(bool, Addr)>)
        requires
            old(tree).wf(old(arena)@),
            old(self).valid(old(tree)@),
        ensures
            r == match old(self).pos() {
                Some(i) => Some((i + 1 < old(tree)@.len(), old(tree)@[i])),
                None => None::<(bool, Addr)>,
            },
            r is None ==> final(tree)@ == old(tree)@ && final(arena)@ == old(arena)@,
            r matches Some((moved, ent)) ==> ({
                let i = old(self).pos()->0;
                &&& final(tree)@ == old(tree)@.remove(i)
                &&& tagged::<F>(old(arena)@, final(arena)@, ent, None)
                &&& final(self).pos() == if moved {
                    Some(i)
                } else if i > 0 {
                    Some(i - 1)
                } else {
                    None::<int>
                }
            }),
            final(self).valid(final(tree)@),
            final(tree).wf(final(arena)@),
            final(tree).owner() == old(tree).owner(),
            final(arena).limit() == old(arena).limit(),
            old(arena).wf() ==> final(arena).wf(),
    {
        let i = match self.pos {
            Some(i) => i,
            None => return None,
        };
        let r = self.move_next(tree);
        if r {
            // The next entry takes the place of the one that is unlinked.
            self.pos = Some(i);
        } else if !self.move_prev(tree) {
            self.pos = None;
        }
        let ent = Self::unlink_at(tree, arena, i);
        Some((r, ent))
    }

    /// Move to the previous entry, trying to unlink the current entry first.
    ///
    /// If the tree is empty, this is a no-op and returns `None`. Otherwise,
    /// the entry at the cursor is unlinked and is returned together with the
    /// result of [`Self::move_prev()`]. If there is no previous entry, the
    /// cursor is moved to the next one.
    pub fn move_prev_try_unlink<F: Field<Type = Node>>(
        &mut self,
        tree: &mut Tree<F>,
        arena: &mut Arena<F::Base>,
    ) -> (r: Option<(bool, Addr)>)
        requires
            old(tree).wf(old(arena)@),
            old(self).valid(old(tree)@),
        ensures
            r == match old(self).pos() {
                Some(i) => Some((i > 0, old(tree)@[i])),
                None => None::<(bool, Addr)>,
            },
            r is None ==> final(tree)@ == old(tree)@ && final(arena)@ == old(arena)@,
            r matches Some((moved, ent)) ==> ({
                let i = old(self).pos()->0;
                &&& final(tree)@ == old(tree)@.remove(i)
                &&& tagged::<F>(old(arena)@, final(arena)@, ent, None)
                &&& final(self).pos() == if moved {
                    Some(i - 1)
                } else if old(tree)@.len() > 1 {
                    Some(0int)
                } else {
                    None::<int>
                }
            }),
            final(self).valid(final(tree)@),
            final(tree).wf(final(arena)@),
            final(tree).owner() == old(tree).owner(),
            final(arena).limit() == old(arena).limit(),
            old(arena).wf() ==> final(arena).wf(),
    {
        let i = match self.pos {
            Some(i) => i,
            None => return None,
        };
        let r = self.move_prev(tree);
        if !r {
            if self.move_next(tree) {
                // The next entry takes the place of the one that is unlinked.
                self.pos = Some(i);
            } else {
                self.pos = None;
            }
        }
        let ent = Self::unlink_at(tree, arena, i);
        Some((r, ent))
    }

    /// Try unlinking the current entry from the tree, consuming the cursor.
    ///
    /// This will unlink the current entry under the cursor from the tree. If
    /// the cursor refers to an empty tree, this is a no-op and `None` is
    /// returned. Otherwise, the removed entry is returned.
    pub fn try_unlink<F: Field<Type = Node>>(
        self,
        tree: &mut Tree<F>,
        arena: &mut Arena<F::Base>,
    ) -> (r: Option<Addr>)
        requires
            old(tree).wf(old(arena)@),
            self.valid(old(tree)@),
        ensures
            r == match self.pos() {
                Some(i) => Some(old(tree)@[i]),
                None => None::<Addr>,
            },
            r is None ==> final(tree)@ == old(tree)@ && final(arena)@ == old(arena)@,
            r matches Some(ent) ==> final(tree)@ == old(tree)@.remove(self.pos()->0)
                && tagged::<F>(old(arena)@, final(arena)@, ent, None),
            final(tree).wf(final(arena)@),
            final(tree).owner() == old(tree).owner(),
            final(arena).limit() == old(arena).limit(),
            old(arena).wf() ==> final(arena).wf(),
    {
        match self.pos {
            Some(i) => Some(Self::unlink_at(tree, arena, i)),
            None => None,
        }
    }

    /// Move to the next entry, unlinking the current entry first.
    ///
    /// Works like [`Self::move_next_try_unlink()`], for trees that are known to
    /// hold an entry.
    pub fn move_next_unlink<F: Field<Type = Node>>(
        &mut self,
        tree: &mut Tree<F>,
        arena: &mut Arena<F::Base>,
    ) -> (r: (bool, Addr))
        requires
            old(tree).wf(old(arena)@),
            old(self).valid(old(tree)@),
            old(tree)@.len() > 0,
        ensures
            r.0 == (old(self).pos()->0 + 1 < old(tree)@.len()),
            r.1 == old(tree)@[old(self).pos()->0],
            final(tree)@ == old(tree)@.remove(old(self).pos()->0),
            tagged::<F>(old(arena)@, final(arena)@, r.1, None),
            final(self).pos() == if r.0 {
                old(self).pos()
            } else if old(self).pos()->0 > 0 {
                Some(old(self).pos()->0 - 1)
            } else {
                None::<int>
            },
            final(self).valid(final(tree)@),
            final(tree).wf(final(arena)@),
            final(tree).owner() == old(tree).owner(),
            final(arena).limit() == old(arena).limit(),
            old(arena).wf() ==> final(arena).wf(),
    {
        match self.move_next_try_unlink(tree, arena) {
            Some(v) => v,
            None => vstd::pervasive::unreached(),
        }
    }

    /// Move to the previous entry, unlinking the current entry first.
    ///
    /// Works like [`Self::move_prev_try_unlink()`], for trees that are known to
    /// hold an entry.
    pub fn move_prev_unlink<F: Field<Type = Node>>(
        &mut self,
        tree: &mut Tree<F>,
        arena: &mut Arena<F::Base>,
    ) -> (r: (bool, Addr))
        requires
            old(tree).wf(old(arena)@),
            old(self).valid(old(tree)@),
            old(tree)@.len() > 0,
        ensures
            r.0 == (old(self).pos()->0 > 0),
            r.1 == old(tree)@[old(self).pos()->0],
            final(tree)@ == old(tree)@.remove(old(self).pos()->0),
            tagged::<F>(old(arena)@, final(arena)@, r.1, None),
            final(self).pos() == if r.0 {
                Some(old(self).pos()->0 - 1)
            } else if old(tree)@.len() > 1 {
                Some(0int)
            } else {
                None::<int>
            },
            final(self).valid(final(tree)@),
            final(tree).wf(final(arena)@),
            final(tree).owner() == old(tree).owner(),
            final(arena).limit() == old(arena).limit(),
            old(arena).wf() ==> final(arena).wf(),
    {
        match self.move_prev_try_unlink(tree, arena) {
            Some(v) => v,
            None => vstd::pervasive::unreached(),
        }
    }

    /// Unlink the current entry from the tree, consuming the cursor.
    ///
    /// Works like [`Self::try_unlink()`], for trees that are known to hold an
    /// entry.
    pub fn unlink<F: Field<Type = Node>>(
        self,
        tree: &mut Tree<F>,
        arena: &mut Arena<F::Base>,
    ) -> (r: Addr)
        requires
            old(tree).wf(old(arena)@),
            self.valid(old(tree)@),
            old(tree)@.len() > 0,
        ensures
            r == old(tree)@[self.pos()->0],
            final(tree)@ == old(tree)@.remove(self.pos()->0),
            tagged::<F>(old(arena)@, final(arena)@, r, None),
            final(tree).wf(final(arena)@),
            final(tree).owner() == old(tree).owner(),
            final(arena).limit() == old(arena).limit(),
            old(arena).wf() ==> final(arena).wf(),
    {
        match self.try_unlink(tree, arena) {
            Some(v) => v,
            None => vstd::pervasive::unreached(),
        }
    }
}

impl Slot {
    /// The position of the slot in the tree order.
    pub closed spec fn index(&self) -> int {
        self.index as int
    }

    /// The state of the slot.
    pub closed spec fn state(&self) -> SlotState {
        self.state
    }

    /// The slot is a location in a tree with the given entries.
    pub open spec fn fits(&self, s: Seq<Addr>) -> bool {
        match self.state() {
            SlotState::Vacant => 0 <= self.index() <= s.len(),
            SlotState::Occupied => 0 <= self.index() < s.len(),
            SlotState::Used => true,
        }
    }

    /// Check whether the slot is available for insertion.
    ///
    /// If the slot was already occupied by another entry of the tree, or if
    /// the slot was already consumed for an insertion, this will return
    /// `false`. Otherwise, this will return `true`.
    ///
    /// If this returns `true`, a following attempt of [`Self::try_link()`] is
    /// guaranteed to succeed for any unclaimed entry.
    pub fn available(&self) -> (r: bool)
        ensures
            r == (self.state() == SlotState::Vacant),
    {
        self.state == SlotState::Vacant
    }

    /// Get the entry in this slot.
    ///
    /// If the slot is occupied, this will return the entry in this slot.
    /// Otherwise, this will return `None`.
    pub fn entry_clone<F: Field<Type = Node>>(&self, tree: &Tree<F>) -> (r: Option<Addr>)
        requires
            self.fits(tree@),
        ensures
            r == if self.state() == SlotState::Occupied {
                Some(tree@[self.index()])
            } else {
                None::<Addr>
            },
    {
        match self.state {
            SlotState::Occupied => Some(tree.entries[self.index]),
            _ => None,
        }
    }

    /// Get a reference to the entry in this slot.
    ///
    /// If the slot is occupied, this will return a reference to the entry in
    /// this slot. Otherwise, this will return `None`.
    pub fn entry<'a, F: Field<Type = Node>>(
        &self,
        tree: &Tree<F>,
        arena: &'a Arena<F::Base>,
    ) -> (r: Option<&'a F::Base>)
        requires
            tree.wf(arena@),
            self.fits(tree@),
        ensures
            r == if self.state() == SlotState::Occupied {
                Some(&arena@[tree@[self.index()]].value)
            } else {
                None
            },
    {
        match self.entry_clone(tree) {
            Some(a) => {
                assert(arena@.contains_key(tree@[self.index()]));
                Some(arena.get(a))
            },
            None => None,
        }
    }

    /// Try linking a new entry in this slot.
    ///
    /// If the slot is occupied, was already used for linking, or if the passed
    /// entry is already linked into a tree, this will return `Err`.
    ///
    /// Otherwise, this will link the entry in this slot. The linked entry is
    /// returned via `Ok`.
    ///
    /// Note that a slot can only be used once to link an entry. Once linked
    /// successfully, the slot must be considered unavailable. The only reason
    /// this does not consume the slot, is to allow re-use of the slot in case
    /// the link failed.
    pub fn try_link<F: Field<Type = Node>>(
        &mut self,
        tree: &mut Tree<F>,
        arena: &mut Arena<F::Base>,
        ent: Addr,
    ) -> (r: Result<Addr, Addr>)
        requires
            old(tree).wf(old(arena)@),
            old(self).fits(old(tree)@),
            old(arena)@.contains_key(ent),
        ensures
            r == if old(self).state() == SlotState::Vacant && owner_of::<F>(
                old(arena)@,
                ent,
            ) is None {
                Ok::<Addr, Addr>(ent)
            } else {
                Err::<Addr, Addr>(ent)
            },
            r is Err ==> *final(self) == *old(self) && final(tree)@ == old(tree)@ && final(arena)@
                == old(arena)@,
            r is Ok ==> {
                &&& final(self).state() == SlotState::Used
                &&& final(tree)@ == old(tree)@.insert(old(self).index(), ent)
                &&& tagged::<F>(old(arena)@, final(arena)@, ent, Some(old(tree).owner()))
            },
            final(tree).wf(final(arena)@),
            final(tree).owner() == old(tree).owner(),
            final(arena).limit() == old(arena).limit(),
            old(arena).wf() ==> final(arena).wf(),
    {
        // If the entry was already occupied, or already used for insertion, it
        // is no longer available. Refuse to attempt the link.
        if !self.available() {
            return Err(ent);
        }
        // If the entry is already claimed (either by this tree or another
        // tree), refuse to use it.
        if F::get(arena.get(ent)).owner.is_some() {
            return Err(ent);
        }
        let ghost s = tree@;
        store::<F>(arena, ent, Some(tree.owner));
        tree.entries.insert(self.index, ent);
        self.state = SlotState::Used;
        proof {
            let p = self.index as int;
            let t = tree@;
            assert(!s.contains(ent)) by {
                if s.contains(ent) {
                    let k = choose|k: int| 0 <= k < s.len() && s[k] == ent;
                    assert(owner_of::<F>(old(arena)@, s[k]) is Some);
                }
            }
            assert forall|j: int| 0 <= j < t.len() implies arena@.contains_key(#[trigger] t[j])
                && owner_of::<F>(arena@, t[j]) == Some(tree.owner()) by {
                if j != p {
                    let k = if j < p { j } else { j - 1 };
                    assert(t[j] == s[k]);
                    assert(s.contains(s[k]));
                    assert(old(arena)@.contains_key(s[k]));
                    assert(arena@[s[k]] == old(arena)@[s[k]]);
                }
            }
            assert forall|a: Addr| arena@.contains_key(a) && owner_of::<F>(arena@, a) == Some(
                tree.owner(),
            ) implies t.contains(a) by {
                if a == ent {
                    assert(t[p] == ent);
                } else {
                    assert(arena@[a] == old(arena)@[a]);
                    let k = choose|k: int| 0 <= k < s.len() && s[k] == a;
                    let j = if k < p { k } else { k + 1 };
                    assert(t[j] == a);
                }
            }
        }
        Ok(ent)
    }

    /// Link a new entry into this slot.
    ///
    /// Works like [`Self::try_link()`], for slots that are known to be
    /// available and entries that are known to be unlinked.
    pub fn link<F: Field<Type = Node>>(
        self,
        tree: &mut Tree<F>,
        arena: &mut Arena<F::Base>,
        ent: Addr,
    ) -> (r: Addr)
        requires
            old(tree).wf(old(arena)@),
            self.fits(old(tree)@),
            self.state() == SlotState::Vacant,
            old(arena)@.contains_key(ent),
            owner_of::<F>(old(arena)@, ent) is None,
        ensures
            r == ent,
            final(tree)@ == old(tree)@.insert(self.index(), ent),
            tagged::<F>(old(arena)@, final(arena)@, ent, Some(old(tree).owner())),
            final(tree).wf(final(arena)@),
            final(tree).owner() == old(tree).owner(),
            final(arena).limit() == old(arena).limit(),
            old(arena).wf() ==> final(arena).wf(),
    {
        let mut slot = self;
        match slot.try_link(tree, arena, ent) {
            Ok(v) => v,
            Err(v) => v,
        }
    }
}

} // verus!
