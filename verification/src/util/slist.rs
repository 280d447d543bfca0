//! Intrusive single-linked lists.
//!
//! [`List`] represents a single-linked list and maintains a pointer to its
//! first element. Elements live in an [`Arena`] and embed a [`Node`], which is
//! used by the list to store metadata: a pointer to the next node in the list.
//!
//! Since elements of a single-linked list do not have a pointer to their
//! previous element, they cannot be unlinked ad-hoc. Instead, they can only be
//! unlinked during iteration or if they are the first element. It is possible
//! to check whether an element is linked or not, but not whether it is linked
//! into a specific list.

use crate::util::arena::{Addr, Arena, Object};
use crate::util::field::Field;
use vstd::prelude::*;

verus! {

/// A pointer as stored in a list or in a node.
#[derive(Clone, Copy, Debug, PartialEq, Eq, Structural)]
pub enum Ptr {
    /// In a node: the node is not linked. Never stored in a list.
    Null,
    /// The end of a list, to be able to distinguish unlinked nodes from tail
    /// nodes.
    End,
    /// The node of the given element.
    Node(Addr),
}

/// Metadata required for elements of a [`List`].
///
/// Every element that is stored in a [`List`] must have a member field of type
/// [`Node`]. [`List`] is generic over the member field used, so a single
/// element can have multiple nodes to be stored in multiple different lists.
#[derive(Debug)]
pub struct Node {
    /// Pointer to the next node. This is [`Ptr::Null`] if the node is
    /// unlinked, [`Ptr::End`] if it is the last element in the list.
    pub next: Ptr,
}

/// Intrusive single-linked list to store elements.
///
/// All elements stored in a list use the same member field `F`.
#[verifier::reject_recursive_types(F)]
pub struct List<F> {
    first: Ptr,
    entries: Ghost<Seq<Addr>>,
    _frt: core::marker::PhantomData<F>,
}

/// Mutable cursor to move over the elements of a [`List`].
///
/// Single-linked lists can only be iterated in one direction, so this cursor
/// behaves very similar to standard iterators. It is positioned in front of an
/// element, or past the last one.
pub struct CursorMut {
    // Element whose `next` pointer the cursor refers to, or `None` for the
    // pointer in the list itself. This always refers to the pointer to an
    // element, rather than to the element itself, to allow its removal.
    pos: Option<Addr>,
    index: Ghost<int>,
}

/// The pointer to the element at position `i` of a list with elements `s`.
pub open spec fn ptr_at(s: Seq<Addr>, i: int) -> Ptr {
    if 0 <= i < s.len() {
        Ptr::Node(s[i])
    } else {
        Ptr::End
    }
}

/// The `next` pointer of an element.
pub open spec fn next_of<F: Field<Type = Node>>(
    m: Map<Addr, Object<F::Base>>,
    a: Addr,
) -> Ptr {
    F::field_of(m[a].value).next
}

/// Following `p` visits exactly the elements `s`, in this order, and each once.
pub open spec fn chain<F: Field<Type = Node>>(
    m: Map<Addr, Object<F::Base>>,
    p: Ptr,
    s: Seq<Addr>,
) -> bool {
    &&& s.no_duplicates()
    &&& p == ptr_at(s, 0)
    &&& forall|i: int| #![trigger s[i]] 0 <= i < s.len() ==> m.contains_key(s[i])
    &&& forall|i: int| #![trigger next_of::<F>(m, s[i])]
        0 <= i < s.len() ==> next_of::<F>(m, s[i]) == ptr_at(s, i + 1)
}

/// `m1` differs from `m0` at most in the member field `F` of the elements in
/// `touched`.
pub open spec fn relinked<F: Field>(
    m0: Map<Addr, Object<F::Base>>,
    m1: Map<Addr, Object<F::Base>>,
    touched: Set<Addr>,
) -> bool {
    &&& m1.dom() == m0.dom()
    &&& forall|a: Addr| #![trigger m1[a]]
        m0.contains_key(a) ==> m1[a].refs == m0[a].refs && m1[a].value == F::with_field(
            m0[a].value,
            F::field_of(m1[a].value),
        )
    &&& forall|a: Addr| #![trigger m1[a]]
        m0.contains_key(a) && !touched.contains(a) ==> m1[a] == m0[a]
}

/// Nothing is relinked if nothing changes.
pub proof fn lemma_relinked_refl<F: Field>(m: Map<Addr, Object<F::Base>>, touched: Set<Addr>)
    ensures
        relinked::<F>(m, m, touched),
{
    assert forall|a: Addr| m.contains_key(a) implies m[a].value == F::with_field(
        m[a].value,
        F::field_of(#[trigger] m[a].value),
    ) by {
        F::lemma_put_get(m[a].value);
    }
}

/// Storing to the member field of a single element.
pub proof fn lemma_relinked_store<F: Field>(
    m0: Map<Addr, Object<F::Base>>,
    m1: Map<Addr, Object<F::Base>>,
    a: Addr,
    v: F::Type,
    touched: Set<Addr>,
)
    requires
        m0.contains_key(a),
        touched.contains(a),
        m1 == m0.insert(
            a,
            Object { refs: m0[a].refs, value: F::with_field(m0[a].value, v) },
        ),
    ensures
        relinked::<F>(m0, m1, touched),
        F::field_of(m1[a].value) == v,
{
    F::lemma_get_put(m0[a].value, v);
    assert(m1.dom() =~= m0.dom());
    assert forall|b: Addr| m0.contains_key(b) implies m1[b].value == F::with_field(
        m0[b].value,
        F::field_of(#[trigger] m1[b].value),
    ) by {
        F::lemma_put_get(m0[b].value);
    }
}

/// Two changes in a row are one change.
pub proof fn lemma_relinked_trans<F: Field>(
    m0: Map<Addr, Object<F::Base>>,
    m1: Map<Addr, Object<F::Base>>,
    m2: Map<Addr, Object<F::Base>>,
    touched: Set<Addr>,
)
    requires
        relinked::<F>(m0, m1, touched),
        relinked::<F>(m1, m2, touched),
    ensures
        relinked::<F>(m0, m2, touched),
{
    assert forall|a: Addr| m0.contains_key(a) implies #[trigger] m2[a].refs == m0[a].refs
        && m2[a].value == F::with_field(m0[a].value, F::field_of(m2[a].value)) by {
        assert(m1.contains_key(a));
        assert(m1[a].refs == m0[a].refs);
        F::lemma_put_put(m0[a].value, F::field_of(m1[a].value), F::field_of(m2[a].value));
    }
    assert forall|a: Addr| m0.contains_key(a) && !touched.contains(a) implies #[trigger] m2[a]
        == m0[a] by {
        assert(m1.contains_key(a));
        assert(m1[a] == m0[a]);
    }
}

/// What changes at most some elements changes at most more of them.
pub proof fn lemma_relinked_more<F: Field>(
    m0: Map<Addr, Object<F::Base>>,
    m1: Map<Addr, Object<F::Base>>,
    touched: Set<Addr>,
    more: Set<Addr>,
)
    requires
        relinked::<F>(m0, m1, touched),
        forall|a: Addr| #[trigger] touched.contains(a) ==> more.contains(a),
    ensures
        relinked::<F>(m0, m1, more),
{
}

/// Linking an element at a position of a chain.
proof fn lemma_chain_insert<F: Field<Type = Node>>(
    m0: Map<Addr, Object<F::Base>>,
    m1: Map<Addr, Object<F::Base>>,
    p: Ptr,
    s: Seq<Addr>,
    i: int,
    ent: Addr,
)
    requires
        chain::<F>(m0, p, s),
        0 <= i <= s.len(),
        !s.contains(ent),
        m1.contains_key(ent),
        next_of::<F>(m1, ent) == ptr_at(s, i),
        i > 0 ==> next_of::<F>(m1, s[i - 1]) == Ptr::Node(ent),
        forall|j: int| #![trigger s[j]]
            0 <= j < s.len() ==> m1.contains_key(s[j]) && (j == i - 1 || next_of::<F>(m1, s[j])
                == next_of::<F>(m0, s[j])),
    ensures
        chain::<F>(
            m1,
            if i == 0 {
                Ptr::Node(ent)
            } else {
                p
            },
            s.insert(i, ent),
        ),
{
    let t = s.insert(i, ent);
    assert forall|j: int| 0 <= j < t.len() implies m1.contains_key(#[trigger] t[j])
        && next_of::<F>(m1, t[j]) == ptr_at(t, j + 1) by {
        if j < i {
            assert(t[j] == s[j]);
            assert(next_of::<F>(m0, s[j]) == ptr_at(s, j + 1));
        } else if j > i {
            assert(t[j] == s[j - 1]);
            assert(next_of::<F>(m0, s[j - 1]) == ptr_at(s, j));
        }
    }
    assert forall|x: int, y: int| 0 <= x < t.len() && 0 <= y < t.len() && x != y implies t[x]
        != t[y] by {
        assert(x < i ==> t[x] == s[x]);
        assert(x > i ==> t[x] == s[x - 1]);
        assert(y < i ==> t[y] == s[y]);
        assert(y > i ==> t[y] == s[y - 1]);
    }
}

/// A chain is not affected by changes to elements that are not part of it.
pub proof fn lemma_chain_frame<F: Field<Type = Node>>(
    m0: Map<Addr, Object<F::Base>>,
    m1: Map<Addr, Object<F::Base>>,
    p: Ptr,
    s: Seq<Addr>,
)
    requires
        chain::<F>(m0, p, s),
        forall|i: int| #![trigger s[i]]
            0 <= i < s.len() ==> m1.contains_key(s[i]) && next_of::<F>(m1, s[i]) == next_of::<F>(
                m0,
                s[i],
            ),
    ensures
        chain::<F>(m1, p, s),
{
    assert forall|i: int| 0 <= i < s.len() implies #[trigger] next_of::<F>(m1, s[i]) == ptr_at(
        s,
        i + 1,
    ) by {
        assert(next_of::<F>(m0, s[i]) == ptr_at(s, i + 1));
    }
}

/// Store the node of an element.
pub fn store<F: Field<Type = Node>>(arena: &mut Arena<F::Base>, a: Addr, next: Ptr)
    requires
        old(arena)@.contains_key(a),
    ensures
        final(arena)@ == old(arena)@.insert(
            a,
            Object {
                refs: old(arena)@[a].refs,
                value: F::with_field(old(arena)@[a].value, (Node { next })),
            },
        ),
        final(arena).limit() == old(arena).limit(),
        old(arena).wf() ==> final(arena).wf(),
{
    let v = arena.get_mut(a);
    F::set(v, Node { next });
}

impl Node {
    /// Create a new unlinked node.
    pub fn new() -> (r: Self)
        ensures
            !r.linked(),
    {
        Node { next: Ptr::Null }
    }

    /// Whether this node is linked into a list.
    pub open spec fn linked(&self) -> bool {
        self.next != Ptr::Null
    }

    /// Check whether this node is linked into a list.
    pub fn is_linked(&self) -> (r: bool)
        ensures
            r == self.linked(),
    {
        self.next != Ptr::Null
    }
}

impl Clone for Node {
    /// Returns a clean and unlinked node.
    ///
    /// Cloning a node always yields a new node that is unlinked and in no way
    /// tied to the original node.
    fn clone(&self) -> (r: Self)
        ensures
            !r.linked(),
    {
        Node::new()
    }
}

impl Default for Node {
    /// Create a new unlinked node.
    fn default() -> (r: Self)
        ensures
            !r.linked(),
    {
        Node::new()
    }
}

impl<F: Field<Type = Node>> View for List<F> {
    type V = Seq<Addr>;

    /// The elements of the list, first to last.
    closed spec fn view(&self) -> Seq<Addr> {
        self.entries@
    }
}

impl<F: Field<Type = Node>> List<F> {
    /// The pointer to the first element.
    pub closed spec fn first(&self) -> Ptr {
        self.first
    }

    /// The list is properly linked through the elements in `arena`.
    pub open spec fn wf(&self, m: Map<Addr, Object<F::Base>>) -> bool {
        chain::<F>(m, self.first(), self@)
    }

    /// Create a list from the pointer to its first element.
    pub(crate) fn with(first: Ptr, Ghost(entries): Ghost<Seq<Addr>>) -> (r: Self)
        ensures
            r.first() == first,
            r@ == entries,
    {
        List { first, entries: Ghost(entries), _frt: core::marker::PhantomData }
    }

    /// Create a new empty list.
    pub fn new() -> (r: Self)
        ensures
            r@ == Seq::<Addr>::empty(),
            r.first() == Ptr::End,
            forall|m: Map<Addr, Object<F::Base>>| #[trigger] r.wf(m),
    {
        Self::with(Ptr::End, Ghost(Seq::empty()))
    }

    /// Check whether the list is empty.
    ///
    /// This returns `true` if no entries are linked, `false` if at least one
    /// entry is linked.
    pub fn is_empty(&self, arena: &Arena<F::Base>) -> (r: bool)
        requires
            self.wf(arena@),
        ensures
            r == (self@.len() == 0),
    {
        self.first == Ptr::End
    }

    /// Return a mutable cursor for this list, starting at the front.
    pub fn cursor_mut(&self) -> (r: CursorMut)
        ensures
            r.valid(self@),
            r.index() == 0,
    {
        CursorMut { pos: None, index: Ghost(0) }
    }

    /// Link a node at the front of the list.
    ///
    /// On success, `Ok` is returned and the node is linked at the front of the
    /// list. If the node is already on another list, this will return `Err`
    /// and change nothing.
    pub fn try_link_front(&mut self, arena: &mut Arena<F::Base>, ent: Addr) -> (r: Result<
        Addr,
        Addr,
    >)
        requires
            old(self).wf(old(arena)@),
            old(arena)@.contains_key(ent),
        ensures
            r == if next_of::<F>(old(arena)@, ent) == Ptr::Null {
                Ok::<Addr, Addr>(ent)
            } else {
                Err::<Addr, Addr>(ent)
            },
            r is Err ==> final(self)@ == old(self)@ && final(arena)@ == old(arena)@,
            r is Ok ==> final(self)@ == old(self)@.insert(0, ent),
            final(self).wf(final(arena)@),
            relinked::<F>(old(arena)@, final(arena)@, old(self)@.to_set().insert(ent)),
            final(arena).limit() == old(arena).limit(),
            old(arena).wf() ==> final(arena).wf(),
    {
        self.cursor_mut().try_link_consume(self, arena, ent)
    }

    /// Unlink the first element of the list.
    ///
    /// If the list is empty, this will return `None`. Otherwise, the first
    /// entry is removed from the list and returned.
    pub fn unlink_front(&mut self, arena: &mut Arena<F::Base>) -> (r: Option<Addr>)
        requires
            old(self).wf(old(arena)@),
        ensures
            r == if old(self)@.len() > 0 {
                Some(old(self)@[0])
            } else {
                None::<Addr>
            },
            r is None ==> final(self)@ == old(self)@ && final(arena)@ == old(arena)@,
            r matches Some(ent) ==> final(self)@ == old(self)@.remove(0) && next_of::<F>(
                final(arena)@,
                ent,
            ) == Ptr::Null,
            final(self).wf(final(arena)@),
            relinked::<F>(old(arena)@, final(arena)@, old(self)@.to_set()),
            final(arena).limit() == old(arena).limit(),
            old(arena).wf() ==> final(arena).wf(),
    {
        let mut c = self.cursor_mut();
        c.unlink(self, arena)
    }

    /// Clear the list and hand out all entries.
    ///
    /// Entries are removed sequentially starting from the front of the list,
    /// and are returned in this order.
    pub fn clear_with(&mut self, arena: &mut Arena<F::Base>) -> (r: Vec<Addr>)
        requires
            old(self).wf(old(arena)@),
        ensures
            r@ == old(self)@,
            final(self)@ == Seq::<Addr>::empty(),
            final(self).wf(final(arena)@),
            forall|i: int| #![trigger r@[i]]
                0 <= i < r@.len() ==> next_of::<F>(final(arena)@, r@[i]) == Ptr::Null,
            relinked::<F>(old(arena)@, final(arena)@, old(self)@.to_set()),
            final(arena).limit() == old(arena).limit(),
            old(arena).wf() ==> final(arena).wf(),
    {
        let ghost s = self@;
        let mut r: Vec<Addr> = Vec::new();
        proof {
            lemma_relinked_refl::<F>(arena@, s.to_set());
            assert(self@ =~= s.skip(0));
            assert(r@ =~= s.take(0));
        }
        loop
            invariant
                s == old(self)@,
                s.no_duplicates(),
                r@.len() <= s.len(),
                r@ == s.take(r@.len() as int),
                self@ == s.skip(r@.len() as int),
                self.wf(arena@),
                forall|i: int| #![trigger s[i]]
                    0 <= i < s.len() ==> old(arena)@.contains_key(s[i]),
                forall|i: int| #![trigger s[i]]
                    0 <= i < r@.len() ==> next_of::<F>(arena@, s[i]) == Ptr::Null,
                relinked::<F>(old(arena)@, arena@, s.to_set()),
                arena.limit() == old(arena).limit(),
                old(arena).wf() ==> arena.wf(),
            ensures
                r@.len() == s.len(),
            decreases self@.len(),
        {
            let ghost m = arena@;
            let ghost t = self@;
            match self.unlink_front(arena) {
                None => break,
                Some(ent) => {
                    proof {
                        let k = r@.len() as int;
                        assert(t[0] == s[k]);
                        assert(s.take(k).push(ent) =~= s.take(k + 1));
                        assert(t.remove(0) =~= s.skip(k + 1));
                        assert forall|i: int| 0 <= i < k implies next_of::<F>(
                            arena@,
                            #[trigger] s[i],
                        ) == Ptr::Null by {
                            assert(m.contains_key(s[i]));
                            assert(!t.contains(s[i]));
                            assert(arena@[s[i]] == m[s[i]]);
                        }
                        assert(relinked::<F>(m, arena@, s.to_set())) by {
                            assert forall|a: Addr| t.to_set().contains(a) implies
                                s.to_set().contains(a) by {
                                let j = choose|j: int| 0 <= j < t.len() && t[j] == a;
                                assert(s[k + j] == a);
                            }
                        }
                        lemma_relinked_trans::<F>(old(arena)@, m, arena@, s.to_set());
                    }
                    r.push(ent);
                },
            }
        }
        assert(self@ =~= Seq::<Addr>::empty());
        assert(r@ =~= s);
        r
    }

    /// Link a node at the front of the list.
    ///
    /// Works like [`List::try_link_front()`], for nodes that are known to be
    /// unlinked.
    pub fn link_front(&mut self, arena: &mut Arena<F::Base>, ent: Addr) -> (r: Addr)
        requires
            old(self).wf(old(arena)@),
            old(arena)@.contains_key(ent),
            next_of::<F>(old(arena)@, ent) == Ptr::Null,
        ensures
            r == ent,
            final(self)@ == old(self)@.insert(0, ent),
            final(self).wf(final(arena)@),
            relinked::<F>(old(arena)@, final(arena)@, old(self)@.to_set().insert(ent)),
            final(arena).limit() == old(arena).limit(),
            old(arena).wf() ==> final(arena).wf(),
    {
        match self.try_link_front(arena, ent) {
            Ok(v) => v,
            Err(v) => v,
        }
    }

    /// Clear the list and drop all elements.
    ///
    /// Works like [`List::clear_with()`] but does not hand out the elements.
    pub fn clear(&mut self, arena: &mut Arena<F::Base>)
        requires
            old(self).wf(old(arena)@),
        ensures
            final(self)@ == Seq::<Addr>::empty(),
            final(self).wf(final(arena)@),
            forall|i: int| #![trigger old(self)@[i]]
                0 <= i < old(self)@.len() ==> next_of::<F>(final(arena)@, old(self)@[i])
                    == Ptr::Null,
            relinked::<F>(old(arena)@, final(arena)@, old(self)@.to_set()),
            final(arena).limit() == old(arena).limit(),
            old(arena).wf() ==> final(arena).wf(),
    {
        let _ = self.clear_with(arena);
    }
}

impl<F: Field<Type = Node>> Default for List<F> {
    /// Return a new empty list.
    fn default() -> (r: Self)
        ensures
            r@ == Seq::<Addr>::empty(),
            forall|m: Map<Addr, Object<F::Base>>| #[trigger] r.wf(m),
    {
        List::new()
    }
}

impl CursorMut {
    /// The position of the cursor: the number of elements in front of it.
    pub closed spec fn index(&self) -> int {
        self.index@
    }

    /// The cursor refers to a position in a list with the given elements.
    pub closed spec fn valid(&self, s: Seq<Addr>) -> bool {
        &&& 0 <= self.index@ <= s.len()
        &&& self.pos == if self.index@ == 0 {
            None::<Addr>
        } else {
            Some(s[self.index@ - 1])
        }
    }

    fn as_pos<F: Field<Type = Node>>(&self, list: &List<F>, arena: &Arena<F::Base>) -> (r: Ptr)
        requires
            list.wf(arena@),
            self.valid(list@),
        ensures
            r == ptr_at(list@, self.index()),
    {
        match self.pos {
            None => list.first,
            Some(a) => {
                assert(list@[self.index@ - 1] == a);
                assert(next_of::<F>(arena@, list@[self.index@ - 1]) == ptr_at(list@, self.index@));
                F::get(arena.get(a)).next
            },
        }
    }

    /// Get the element the cursor points to.
    ///
    /// If the cursor points past the last element, `None` is returned.
    pub fn get_ptr<F: Field<Type = Node>>(
        &self,
        list: &List<F>,
        arena: &Arena<F::Base>,
    ) -> (r: Option<Addr>)
        requires
            list.wf(arena@),
            self.valid(list@),
        ensures
            r == if self.index() < list@.len() {
                Some(list@[self.index()])
            } else {
                None::<Addr>
            },
    {
        match self.as_pos(list, arena) {
            Ptr::Node(a) => Some(a),
            _ => None,
        }
    }

    fn link<F: Field<Type = Node>>(
        &self,
        list: &mut List<F>,
        arena: &mut Arena<F::Base>,
        ent: Addr,
    ) -> (r: Result<Addr, Addr>)
        requires
            old(list).wf(old(arena)@),
            self.valid(old(list)@),
            old(arena)@.contains_key(ent),
        ensures
            r == if next_of::<F>(old(arena)@, ent) == Ptr::Null {
                Ok::<Addr, Addr>(ent)
            } else {
                Err::<Addr, Addr>(ent)
            },
            r is Err ==> final(list)@ == old(list)@ && final(arena)@ == old(arena)@,
            r is Ok ==> final(list)@ == old(list)@.insert(self.index(), ent),
            final(list).wf(final(arena)@),
            self.valid(final(list)@),
            relinked::<F>(old(arena)@, final(arena)@, old(list)@.to_set().insert(ent)),
            final(arena).limit() == old(arena).limit(),
            old(arena).wf() ==> final(arena).wf(),
    {
        let ghost s = list@;
        let ghost touched = s.to_set().insert(ent);
        proof {
            lemma_relinked_refl::<F>(arena@, touched);
        }
        if F::get(arena.get(ent)).next != Ptr::Null {
            return Err(ent);
        }
        let next = self.as_pos(list, arena);
        store::<F>(arena, ent, next);
        let ghost m1 = arena@;
        proof {
            lemma_relinked_store::<F>(old(arena)@, m1, ent, (Node { next }), touched);
            assert(!s.contains(ent)) by {
                if s.contains(ent) {
                    let i = choose|i: int| 0 <= i < s.len() && s[i] == ent;
                    assert(next_of::<F>(old(arena)@, s[i]) == ptr_at(s, i + 1));
                }
            }
        }
        match self.pos {
            None => {
                list.first = Ptr::Node(ent);
            },
            Some(a) => {
                assert(a == s[self.index@ - 1]);
                store::<F>(arena, a, Ptr::Node(ent));
                proof {
                    lemma_relinked_store::<F>(
                        m1,
                        arena@,
                        a,
                        (Node { next: Ptr::Node(ent) }),
                        touched,
                    );
                    lemma_relinked_trans::<F>(old(arena)@, m1, arena@, touched);
                }
            },
        }
        list.entries = Ghost(s.insert(self.index@, ent));
        proof {
            lemma_chain_insert::<F>(old(arena)@, arena@, old(list).first, s, self.index@, ent);
        }
        Ok(ent)
    }

    /// Get a reference to the element the cursor points to.
    ///
    /// If the cursor points past the last element, `None` is returned.
    /// Otherwise, a reference to the element is returned.
    pub fn get<'a, F: Field<Type = Node>>(
        &self,
        list: &List<F>,
        arena: &'a Arena<F::Base>,
    ) -> (r: Option<&'a F::Base>)
        requires
            list.wf(arena@),
            self.valid(list@),
        ensures
            r == if self.index() < list@.len() {
                Some(&arena@[list@[self.index()]].value)
            } else {
                None
            },
    {
        match self.get_ptr(list, arena) {
            None => None,
            Some(a) => {
                assert(list@[self.index()] == a);
                Some(arena.get(a))
            },
        }
    }

    /// Get a mutable reference to the element the cursor points to.
    ///
    /// If the cursor points past the last element, `None` is returned.
    /// Otherwise, a mutable reference to the element is returned. The list
    /// stays linked for as long as the node of the element is left alone.
    pub fn get_mut<'a, F: Field<Type = Node>>(
        &self,
        list: &List<F>,
        arena: &'a mut Arena<F::Base>,
    ) -> (r: Option<&'a mut F::Base>)
        requires
            list.wf(old(arena)@),
            self.valid(list@),
        ensures
            r is Some <==> self.index() < list@.len(),
            r is None ==> final(arena)@ == old(arena)@,
            r matches Some(v) ==> ({
                let a = list@[self.index()];
                &&& *v == old(arena)@[a].value
                &&& final(arena)@ == old(arena)@.insert(
                    a,
                    Object { refs: old(arena)@[a].refs, value: *final(v) },
                )
                &&& F::field_of(*final(v)).next == F::field_of(*v).next ==> list.wf(final(arena)@)
            }),
            final(arena).limit() == old(arena).limit(),
            old(arena).wf() ==> final(arena).wf(),
    {
        match self.get_ptr(list, arena) {
            None => None,
            Some(a) => {
                proof {
                    assert(list@[self.index()] == a);
                    assert forall|v: F::Base|
                        F::field_of(v).next == F::field_of(arena@[a].value).next implies list.wf(
                        #[trigger] arena@.insert(a, Object { refs: arena@[a].refs, value: v }),
                    ) by {
                        let m1 = arena@.insert(a, Object { refs: arena@[a].refs, value: v });
                        lemma_chain_frame::<F>(arena@, m1, list.first(), list@);
                    }
                }
                Some(arena.get_mut(a))
            },
        }
    }

    /// Move the cursor to the next element.
    ///
    /// If the cursor already points past the last element, this is a no-op.
    /// Otherwise, the cursor is moved to the next element.
    pub fn move_next<F: Field<Type = Node>>(&mut self, list: &List<F>, arena: &Arena<F::Base>)
        requires
            list.wf(arena@),
            old(self).valid(list@),
        ensures
            final(self).valid(list@),
            final(self).index() == if old(self).index() < list@.len() {
                old(self).index() + 1
            } else {
                old(self).index()
            },
    {
        match self.get_ptr(list, arena) {
            None => {},
            Some(a) => {
                self.pos = Some(a);
                self.index = Ghost(self.index@ + 1);
            },
        }
    }

    /// Link a node at the cursor position.
    ///
    /// On success, `Ok` is returned and the node is linked at the cursor
    /// position (i.e., the cursor points to the node).
    ///
    /// If the node is already on another list, this will return `Err`. The
    /// cursor and list remain unmodified.
    pub fn try_link<F: Field<Type = Node>>(
        &mut self,
        list: &mut List<F>,
        arena: &mut Arena<F::Base>,
        ent: Addr,
    ) -> (r: Result<Addr, Addr>)
        requires
            old(list).wf(old(arena)@),
            old(self).valid(old(list)@),
            old(arena)@.contains_key(ent),
        ensures
            r == if next_of::<F>(old(arena)@, ent) == Ptr::Null {
                Ok::<Addr, Addr>(ent)
            } else {
                Err::<Addr, Addr>(ent)
            },
            r is Err ==> final(list)@ == old(list)@ && final(arena)@ == old(arena)@,
            r is Ok ==> final(list)@ == old(list)@.insert(old(self).index(), ent),
            final(list).wf(final(arena)@),
            *final(self) == *old(self),
            final(self).valid(final(list)@),
            relinked::<F>(old(arena)@, final(arena)@, old(list)@.to_set().insert(ent)),
            final(arena).limit() == old(arena).limit(),
            old(arena).wf() ==> final(arena).wf(),
    {
        self.link(list, arena, ent)
    }

    /// Unlink the current element without moving the cursor.
    ///
    /// If the cursor points past the last element, this is a no-op and returns
    /// `None`. Otherwise, the element is unlinked and returned. The cursor now
    /// points to the following element.
    pub fn unlink<F: Field<Type = Node>>(
        &mut self,
        list: &mut List<F>,
        arena: &mut Arena<F::Base>,
    ) -> (r: Option<Addr>)
        requires
            old(list).wf(old(arena)@),
            old(self).valid(old(list)@),
        ensures
            r == if old(self).index() < old(list)@.len() {
                Some(old(list)@[old(self).index()])
            } else {
                None::<Addr>
            },
            r is None ==> final(list)@ == old(list)@ && final(arena)@ == old(arena)@,
            r matches Some(ent) ==> final(list)@ == old(list)@.remove(old(self).index())
                && next_of::<F>(final(arena)@, ent) == Ptr::Null,
            final(list).wf(final(arena)@),
            *final(self) == *old(self),
            final(self).valid(final(list)@),
            relinked::<F>(old(arena)@, final(arena)@, old(list)@.to_set()),
            final(arena).limit() == old(arena).limit(),
            old(arena).wf() ==> final(arena).wf(),
    {
        let ghost s = list@;
        let ghost touched = s.to_set();
        proof {
            lemma_relinked_refl::<F>(arena@, touched);
        }
        let ent = match self.get_ptr(list, arena) {
            None => return None,
            Some(ent) => ent,
        };
        let ghost k = self.index@;
        assert(s[k] == ent);
        assert(next_of::<F>(arena@, s[k]) == ptr_at(s, k + 1));

        // Update the list position to skip the node, then mark the node as
        // unlinked.
        let next = F::get(arena.get(ent)).next;
        match self.pos {
            None => {
                list.first = next;
            },
            Some(a) => {
                assert(a == s[k - 1]);
                store::<F>(arena, a, next);
                proof {
                    lemma_relinked_store::<F>(old(arena)@, arena@, a, (Node { next }), touched);
                }
            },
        }
        let ghost m1 = arena@;
        store::<F>(arena, ent, Ptr::Null);
        list.entries = Ghost(s.remove(k));
        proof {
            lemma_relinked_store::<F>(m1, arena@, ent, (Node { next: Ptr::Null }), touched);
            lemma_relinked_trans::<F>(old(arena)@, m1, arena@, touched);
            let t = list@;
            assert forall|i: int| 0 <= i < t.len() implies arena@.contains_key(#[trigger] t[i])
                && next_of::<F>(arena@, t[i]) == ptr_at(t, i + 1) by {
                if i < k {
                    assert(t[i] == s[i]);
                    assert(next_of::<F>(old(arena)@, s[i]) == ptr_at(s, i + 1));
                } else {
                    assert(t[i] == s[i + 1]);
                    assert(next_of::<F>(old(arena)@, s[i + 1]) == ptr_at(s, i + 2));
                }
            }
        }
        Some(ent)
    }

    /// Consume the cursor and return the element it pointed to.
    ///
    /// Works like [`Self::get()`], but consumes the cursor.
    pub fn get_consume<'a, F: Field<Type = Node>>(
        self,
        list: &List<F>,
        arena: &'a Arena<F::Base>,
    ) -> (r: Option<&'a F::Base>)
        requires
            list.wf(arena@),
            self.valid(list@),
        ensures
            r == if self.index() < list@.len() {
                Some(&arena@[list@[self.index()]].value)
            } else {
                None
            },
    {
        self.get(list, arena)
    }

    /// Get a reference to the element the cursor points to and move forward.
    ///
    /// Works like [`Self::get()`] but calls [`Self::move_next()`] afterwards.
    pub fn get_and_move_next<'a, F: Field<Type = Node>>(
        &mut self,
        list: &List<F>,
        arena: &'a Arena<F::Base>,
    ) -> (r: Option<&'a F::Base>)
        requires
            list.wf(arena@),
            old(self).valid(list@),
        ensures
            r == if old(self).index() < list@.len() {
                Some(&arena@[list@[old(self).index()]].value)
            } else {
                None
            },
            final(self).valid(list@),
            final(self).index() == if old(self).index() < list@.len() {
                old(self).index() + 1
            } else {
                old(self).index()
            },
    {
        let r = self.get(list, arena);
        self.move_next(list, arena);
        r
    }

    /// Link a node at the cursor position, consuming the cursor.
    ///
    /// Works like [`Self::try_link()`] but consumes the cursor.
    pub fn try_link_consume<F: Field<Type = Node>>(
        self,
        list: &mut List<F>,
        arena: &mut Arena<F::Base>,
        ent: Addr,
    ) -> (r: Result<Addr, Addr>)
        requires
            old(list).wf(old(arena)@),
            self.valid(old(list)@),
            old(arena)@.contains_key(ent),
        ensures
            r == if next_of::<F>(old(arena)@, ent) == Ptr::Null {
                Ok::<Addr, Addr>(ent)
            } else {
                Err::<Addr, Addr>(ent)
            },
            r is Err ==> final(list)@ == old(list)@ && final(arena)@ == old(arena)@,
            r is Ok ==> final(list)@ == old(list)@.insert(self.index(), ent),
            final(list).wf(final(arena)@),
            relinked::<F>(old(arena)@, final(arena)@, old(list)@.to_set().insert(ent)),
            final(arena).limit() == old(arena).limit(),
            old(arena).wf() ==> final(arena).wf(),
    {
        self.link(list, arena, ent)
    }
}

} // verus!
