//! Arena of reference-counted objects.
//!
//! All shared objects of the library live in an [`Arena`] and are referred to
//! by their address in it. Every object carries a reference count and stays
//! allocated until its last reference is released.

use vstd::prelude::*;

verus! {

/// Address of an object in its arena.
pub type Addr = usize;

/// The memory for an object could not be provided.
#[derive(Clone, Copy, Debug, PartialEq, Eq, Structural)]
pub struct AllocError;

/// An allocated object together with its reference count.
pub struct Object<T> {
    pub refs: usize,
    pub value: T,
}

/// Arena of reference-counted objects.
pub struct Arena<T> {
    slots: Vec<Option<Object<T>>>,
    free: Vec<usize>,
    limit: usize,
}

/// The addresses of the occupied slots.
spec fn live<T>(slots: Seq<Option<T>>) -> Set<Addr> {
    Set::new(|a: Addr| a < slots.len() && slots[a as int] is Some)
}

impl<T> View for Arena<T> {
    type V = Map<Addr, Object<T>>;

    closed spec fn view(&self) -> Map<Addr, Object<T>> {
        live(self.slots@).mk_map(|a: Addr| self.slots@[a as int]->0)
    }
}

impl<T> Arena<T> {
    /// Number of objects the arena can hold at the same time.
    pub closed spec fn limit(&self) -> usize {
        self.limit
    }

    /// Every vacant slot is on the free list, exactly once.
    pub closed spec fn wf(&self) -> bool {
        &&& self.free@.no_duplicates()
        &&& forall|i: int| #![trigger self.free@[i]]
            0 <= i < self.free@.len() ==> self.free@[i] < self.slots@.len()
                && self.slots@[self.free@[i] as int] is None
        &&& live(self.slots@).finite()
        &&& live(self.slots@).len() + self.free@.len() == self.slots@.len()
    }

    /// Create an empty arena that holds at most `limit` objects at a time.
    pub fn new(limit: usize) -> (r: Self)
        ensures
            r.wf(),
            r.limit() == limit,
            r@ == Map::<Addr, Object<T>>::empty(),
    {
        let r = Arena { slots: Vec::new(), free: Vec::new(), limit };
        assert(r@ =~= Map::<Addr, Object<T>>::empty());
        assert(live(r.slots@) =~= Set::<Addr>::empty());
        r
    }

    /// Check whether an object is allocated at an address.
    pub fn contains(&self, a: Addr) -> (r: bool)
        ensures
            r == self@.contains_key(a),
    {
        a < self.slots.len() && self.slots[a].is_some()
    }

    /// Get an upper bound for the addresses of all objects.
    pub fn bound(&self) -> (r: usize)
        ensures
            forall|a: Addr| #[trigger] self@.contains_key(a) ==> a < r,
    {
        self.slots.len()
    }

    /// Borrow the object at an address.
    pub fn get(&self, a: Addr) -> (r: &T)
        requires
            self@.contains_key(a),
        ensures
            *r == self@[a].value,
    {
        match &self.slots[a] {
            Some(o) => &o.value,
            None => vstd::pervasive::unreached(),
        }
    }

    /// Mutably borrow the object at an address.
    pub fn get_mut(&mut self, a: Addr) -> (r: &mut T)
        requires
            old(self)@.contains_key(a),
        ensures
            *r == old(self)@[a].value,
            final(self)@ == old(self)@.insert(
                a,
                Object { refs: old(self)@[a].refs, value: *final(r) },
            ),
            final(self).limit() == old(self).limit(),
            old(self).wf() ==> final(self).wf(),
    {
        proof {
            assert forall|o: Object<T>|
                #[trigger] live(self.slots@.update(a as int, Some(o))) == live(self.slots@) by {
                assert(live(self.slots@.update(a as int, Some(o))) =~= live(self.slots@));
            }
        }
        match &mut self.slots[a] {
            Some(o) => &mut o.value,
            None => vstd::pervasive::unreached(),
        }
    }

    /// Count how many references to the object at an address exist.
    pub fn refs(&self, a: Addr) -> (r: usize)
        requires
            self@.contains_key(a),
        ensures
            r == self@[a].refs,
    {
        match &self.slots[a] {
            Some(o) => o.refs,
            None => vstd::pervasive::unreached(),
        }
    }

    /// Check whether the reference counts of all objects are below a bound.
    pub fn refs_below(&self, bound: usize) -> (r: bool)
        ensures
            r == forall|a: Addr| #![trigger self@[a]]
                self@.contains_key(a) ==> self@[a].refs < bound,
    {
        let mut k: usize = 0;
        while k < self.slots.len()
            invariant
                k <= self.slots@.len(),
                forall|a: Addr| #![trigger self@[a]]
                    self@.contains_key(a) && a < k ==> self@[a].refs < bound,
            decreases self.slots@.len() - k,
        {
            if self.contains(k) && self.refs(k) >= bound {
                return false;
            }
            k += 1;
        }
        true
    }

    /// An arena holds finitely many objects, and no more than its limit if
    /// none was ever exceeded.
    pub proof fn lemma_finite(&self)
        requires
            self.wf(),
        ensures
            self@.dom().finite(),
            self@.dom().len() <= usize::MAX,
    {
        assert(self@.dom() =~= live(self.slots@));
        assert(self.slots@.len() == self.slots.len());
    }

    /// Check whether no more objects can be allocated.
    pub fn is_full(&self) -> (r: bool)
        requires
            self.wf(),
        ensures
            r == (self@.dom().len() >= self.limit()),
    {
        assert(self@.dom() =~= live(self.slots@));
        self.slots.len() - self.free.len() >= self.limit
    }

    /// Count how many more objects can be allocated.
    pub fn available(&self) -> (r: usize)
        requires
            self.wf(),
        ensures
            r == if self@.dom().len() >= self.limit() {
                0int
            } else {
                self.limit() - self@.dom().len()
            },
    {
        assert(self@.dom() =~= live(self.slots@));
        if self.is_full() {
            0
        } else {
            self.limit - (self.slots.len() - self.free.len())
        }
    }

    /// Allocate an object, with a single reference to it.
    ///
    /// This fails if, and only if, the arena is full.
    pub fn insert(&mut self, value: T) -> (r: Result<Addr, AllocError>)
        requires
            old(self).wf(),
        ensures
            final(self).wf(),
            final(self).limit() == old(self).limit(),
            r is Err <==> old(self)@.dom().len() >= old(self).limit(),
            r is Err ==> final(self)@ == old(self)@,
            r matches Ok(a) ==> !old(self)@.contains_key(a) && final(self)@
                == old(self)@.insert(a, (Object { refs: 1, value })),
    {
        assert(self@.dom() =~= live(self.slots@));
        if self.is_full() {
            return Err(AllocError);
        }
        let obj = Some(Object { refs: 1, value });
        let a: Addr;
        match self.free.pop() {
            Some(i) => {
                assert(old(self).free@[old(self).free@.len() - 1] == i);
                a = i;
                self.slots[i] = obj;
            },
            None => {
                a = self.slots.len();
                self.slots.push(obj);
            },
        }
        proof {
            assert(live(self.slots@) =~= live(old(self).slots@).insert(a));
            assert(self@ =~= old(self)@.insert(a, (Object { refs: 1, value })));
        }
        Ok(a)
    }

    /// Acquire another reference to an object.
    pub fn acquire(&mut self, a: Addr)
        requires
            old(self)@.contains_key(a),
            old(self)@[a].refs < usize::MAX,
        ensures
            final(self)@ == old(self)@.insert(
                a,
                Object {
                    refs: (old(self)@[a].refs + 1) as usize,
                    value: old(self)@[a].value,
                },
            ),
            final(self).limit() == old(self).limit(),
            old(self).wf() ==> final(self).wf(),
    {
        match &mut self.slots[a] {
            Some(o) => {
                o.refs = o.refs + 1;
            },
            None => (),
        }
        proof {
            assert(live(self.slots@) =~= live(old(self).slots@));
            assert(self@ =~= old(self)@.insert(
                a,
                Object {
                    refs: (old(self)@[a].refs + 1) as usize,
                    value: old(self)@[a].value,
                },
            ));
        }
    }

    /// Release a reference to an object, unless it is the last one.
    ///
    /// Returns `true` if the reference was released. If it is the last one,
    /// the object is left alone and `false` is returned.
    pub fn drop_unless_unique(&mut self, a: Addr) -> (r: bool)
        requires
            old(self)@.contains_key(a),
        ensures
            r == (old(self)@[a].refs > 1),
            r ==> final(self)@ == old(self)@.insert(
                a,
                Object {
                    refs: (old(self)@[a].refs - 1) as usize,
                    value: old(self)@[a].value,
                },
            ),
            !r ==> final(self)@ == old(self)@,
            final(self).limit() == old(self).limit(),
            old(self).wf() ==> final(self).wf(),
    {
        let r = match &mut self.slots[a] {
            Some(o) => if o.refs > 1 {
                o.refs = o.refs - 1;
                true
            } else {
                false
            },
            None => false,
        };
        proof {
            assert(live(self.slots@) =~= live(old(self).slots@));
            if r {
                assert(self@ =~= old(self)@.insert(
                    a,
                    Object {
                        refs: (old(self)@[a].refs - 1) as usize,
                        value: old(self)@[a].value,
                    },
                ));
            } else {
                assert(self@ =~= old(self)@);
            }
        }
        r
    }

    /// Deallocate an object and hand out its value.
    pub fn remove(&mut self, a: Addr) -> (r: T)
        requires
            old(self).wf(),
            old(self)@.contains_key(a),
        ensures
            final(self).wf(),
            final(self).limit() == old(self).limit(),
            r == old(self)@[a].value,
            final(self)@ == old(self)@.remove(a),
    {
        let o = match self.slots[a].take() {
            Some(o) => o,
            None => vstd::pervasive::unreached(),
        };
        self.free.push(a);
        proof {
            assert(live(self.slots@) =~= live(old(self).slots@).remove(a));
            assert(self@ =~= old(self)@.remove(a));
            assert forall|i: int| 0 <= i < old(self).free@.len() implies
                #[trigger] old(self).free@[i] != a by {}
        }
        o.value
    }
}

} // verus!
