//! Lookup trees of shared objects.

use core::cmp::Ordering;
use crate::util::arena::{Addr, AllocError, Arena, Object};
use crate::util::field::Field;
use crate::util::order_of;
use crate::util::rb::{lemma_tree_frame, nth, owner_of, sorted, tagged, Node, Tree};
use vstd::prelude::*;

verus! {

/// An entry with the given key.
pub open spec fn keyed<F: Field<Type = Node>>(
    m: Map<Addr, Object<F::Base>>,
    s: Seq<Addr>,
    key: spec_fn(F::Base) -> int,
    want: int,
    a: Addr,
) -> bool {
    s.contains(a) && key(m[a].value) == want
}

/// A lookup tree that is in order, with the given number of entries.
pub open spec fn tree_ok<F: Field<Type = Node>>(
    tree: Tree<F>,
    len: usize,
    tag: usize,
    m: Map<Addr, Object<F::Base>>,
    key: spec_fn(F::Base) -> int,
) -> bool {
    &&& tree.wf(m)
    &&& tree.owner() == tag
    &&& tree@.len() == len
    &&& sorted::<F>(m, tree@, key)
}

/// A lookup tree is not affected by changes that keep the set of elements with
/// its tag, and the keys of those.
pub proof fn lemma_tree_ok_frame<F: Field<Type = Node>>(
    tree: Tree<F>,
    len: usize,
    tag: usize,
    m0: Map<Addr, Object<F::Base>>,
    m1: Map<Addr, Object<F::Base>>,
    key: spec_fn(F::Base) -> int,
)
    requires
        tree_ok::<F>(tree, len, tag, m0, key),
        forall|a: Addr| #![trigger m0[a]] #![trigger m1[a]]
            (m1.contains_key(a) && owner_of::<F>(m1, a) == Some(tag)) <==> (m0.contains_key(a)
                && owner_of::<F>(m0, a) == Some(tag)),
        forall|a: Addr| #![trigger m0[a]] #![trigger m1[a]]
            m0.contains_key(a) && owner_of::<F>(m0, a) == Some(tag) ==> key(m1[a].value) == key(
                m0[a].value,
            ),
    ensures
        tree_ok::<F>(tree, len, tag, m1, key),
{
    lemma_tree_frame(&tree, m0, m1);
    lemma_sorted_frame::<F>(m0, m1, tree@, key);
}

/// An object with another reference.
pub open spec fn acquired<T>(o: Object<T>) -> Object<T> {
    Object { refs: (o.refs + 1) as usize, value: o.value }
}

/// An object with one reference less.
pub open spec fn released<T>(o: Object<T>) -> Object<T> {
    Object { refs: (o.refs - 1) as usize, value: o.value }
}

/// Find an entry in a lookup tree, or insert a new one if not found.
///
/// This will use `order` to look for an entry in `tree`. If found, another
/// reference to the entry is acquired and returned. Otherwise, the new entry is
/// allocated and stored in `tree` at the same position. Whether this happened
/// is returned as well.
///
/// The tree itself does not own a reference to its entries, and thus
/// [`drop_or_unlink()`] must be used to drop the last reference.
pub fn find_or_insert<F: Field<Type = Node>, C: Fn(&F::Base) -> Ordering>(
    tree: &mut Tree<F>,
    tree_len: &mut usize,
    arena: &mut Arena<F::Base>,
    order: C,
    new: F::Base,
    Ghost(key): Ghost<spec_fn(F::Base) -> int>,
    Ghost(want): Ghost<int>,
) -> (r: Result<(Addr, bool), AllocError>)
    requires
        old(arena).wf(),
        old(tree).wf(old(arena)@),
        *old(tree_len) == old(tree)@.len(),
        sorted::<F>(old(arena)@, old(tree)@, key),
        forall|v: &F::Base| #[trigger] order.requires((v,)),
        forall|v: &F::Base, o: Ordering| #[trigger]
            order.ensures((v,), o) ==> o == order_of(want, key(*v)),
        F::field_of(new).owner is None,
        key(new) == want,
        forall|v: F::Base, n: Node| key(#[trigger] F::with_field(v, n)) == key(v),
        forall|a: Addr| #![trigger old(arena)@[a]]
            old(arena)@.contains_key(a) ==> old(arena)@[a].refs < usize::MAX,
    ensures
        final(arena).wf(),
        final(arena).limit() == old(arena).limit(),
        final(tree).wf(final(arena)@),
        final(tree).owner() == old(tree).owner(),
        *final(tree_len) == final(tree)@.len(),
        sorted::<F>(final(arena)@, final(tree)@, key),
        match r {
            Ok((a, fresh)) => if !fresh {
                &&& keyed::<F>(old(arena)@, old(tree)@, key, want, a)
                &&& *final(tree) == *old(tree)
                &&& *final(tree_len) == *old(tree_len)
                &&& final(arena)@ == old(arena)@.insert(a, acquired(old(arena)@[a]))
            } else {
                &&& forall|b: Addr| !keyed::<F>(old(arena)@, old(tree)@, key, want, b)
                &&& !old(arena)@.contains_key(a)
                &&& old(arena)@.dom().len() < old(arena).limit()
                &&& final(tree)@.len() == old(tree)@.len() + 1
                &&& final(arena)@ == old(arena)@.insert(
                    a,
                    Object {
                        refs: 1,
                        value: F::with_field(new, (Node { owner: Some(old(tree).owner()) })),
                    },
                )
            },
            Err(_) => {
                &&& forall|b: Addr| !keyed::<F>(old(arena)@, old(tree)@, key, want, b)
                &&& old(arena)@.dom().len() >= old(arena).limit()
                &&& *final(tree) == *old(tree)
                &&& *final(tree_len) == *old(tree_len)
                &&& final(arena)@ == old(arena)@
            },
        },
{
    let ghost m0 = arena@;
    let ghost s = tree@;
    let slot = tree.find_slot_by(arena, order);
    let ghost p = slot.index();
    match slot.entry_clone(tree) {
        Some(a) => {
            proof {
                assert(s[p] == a);
                assert(order.ensures((&nth::<F>(m0, s, p),), Ordering::Equal));
            }
            arena.acquire(a);
            proof {
                let m1 = arena@;
                lemma_tree_frame(tree, m0, m1);
                lemma_sorted_frame::<F>(m0, m1, s, key);
            }
            Ok((a, false))
        },
        None => {
            proof {
                if p > 0 {
                    assert(order.ensures((&nth::<F>(m0, s, p - 1),), Ordering::Greater));
                }
                if p < s.len() {
                    assert(order.ensures((&nth::<F>(m0, s, p),), Ordering::Less));
                }
                lemma_gap::<F>(m0, s, key, want, p);
            }
            let a = arena.insert(new)?;
            let ghost m1 = arena@;
            proof {
                lemma_tree_frame(tree, m0, m1);
            }
            let _ = slot.link(tree, arena, a);
            proof {
                tree.lemma_len();
            }
            *tree_len = *tree_len + 1;
            proof {
                let m2 = arena@;
                let n = Node { owner: Some(tree.owner()) };
                assert(m2[a].value == F::with_field(new, F::field_of(m2[a].value)));
                assert(F::field_of(m2[a].value) == n);
                assert(m2 =~= m0.insert(a, Object { refs: 1, value: F::with_field(new, n) }));
                lemma_sorted_insert::<F>(m0, m2, s, key, p, a);
            }
            Ok((a, true))
        },
    }
}

/// Unlink an entry from a tree, if there is only a single reference to it.
///
/// This tries to release a reference, but only if it is not the last one. If
/// that goes through, `None` is returned. If not, the entry is unlinked from
/// `tree`, if it is linked there, and returned to the caller.
pub fn drop_or_unlink<F: Field<Type = Node>>(
    tree: &mut Tree<F>,
    tree_len: &mut usize,
    arena: &mut Arena<F::Base>,
    ent: Addr,
    Ghost(key): Ghost<spec_fn(F::Base) -> int>,
) -> (r: Option<Addr>)
    requires
        old(tree).wf(old(arena)@),
        *old(tree_len) == old(tree)@.len(),
        sorted::<F>(old(arena)@, old(tree)@, key),
        forall|v: F::Base, n: Node| key(#[trigger] F::with_field(v, n)) == key(v),
        old(arena)@.contains_key(ent),
    ensures
        r == if old(arena)@[ent].refs > 1 {
            None::<Addr>
        } else {
            Some(ent)
        },
        r is None ==> {
            &&& *final(tree) == *old(tree)
            &&& *final(tree_len) == *old(tree_len)
            &&& final(arena)@ == old(arena)@.insert(ent, released(old(arena)@[ent]))
        },
        r is Some ==> if old(tree)@.contains(ent) {
            &&& final(tree)@ == old(tree)@.remove(old(tree)@.index_of(ent))
            &&& tagged::<F>(old(arena)@, final(arena)@, ent, None)
        } else {
            &&& final(tree)@ == old(tree)@
            &&& *final(tree_len) == *old(tree_len)
            &&& final(arena)@ == old(arena)@
        },
        final(tree).wf(final(arena)@),
        final(tree).owner() == old(tree).owner(),
        *final(tree_len) == final(tree)@.len(),
        sorted::<F>(final(arena)@, final(tree)@, key),
        final(arena).limit() == old(arena).limit(),
        old(arena).wf() ==> final(arena).wf(),
{
    let ghost m0 = arena@;
    let ghost s = tree@;
    if arena.drop_unless_unique(ent) {
        proof {
            lemma_tree_frame(tree, m0, arena@);
            lemma_sorted_frame::<F>(m0, arena@, s, key);
        }
        None
    } else {
        if tree.try_unlink(arena, ent).is_some() {
            *tree_len = *tree_len - 1;
        }
        proof {
            if s.contains(ent) {
                let m1 = arena@;
                assert forall|i: int| #![trigger s[i]] 0 <= i < s.len() implies key(m1[s[i]].value)
                    == key(m0[s[i]].value) by {
                    let a = s[i];
                    assert(m1[a].value == F::with_field(m0[a].value, F::field_of(m1[a].value)));
                }
                lemma_sorted_frame::<F>(m0, m1, s, key);
                lemma_sorted_remove::<F>(m1, s, key, s.index_of(ent));
            }
        }
        Some(ent)
    }
}

/// Keys that do not change stay ordered.
pub proof fn lemma_sorted_frame<F: Field<Type = Node>>(
    m0: Map<Addr, Object<F::Base>>,
    m1: Map<Addr, Object<F::Base>>,
    s: Seq<Addr>,
    key: spec_fn(F::Base) -> int,
)
    requires
        sorted::<F>(m0, s, key),
        forall|i: int| #![trigger s[i]]
            0 <= i < s.len() ==> key(m1[s[i]].value) == key(m0[s[i]].value),
    ensures
        sorted::<F>(m1, s, key),
{
    assert forall|i: int, j: int| #![trigger s[i], s[j]] 0 <= i < j < s.len() implies key(
        nth::<F>(m1, s, i),
    ) < key(nth::<F>(m1, s, j)) by {
        assert(key(nth::<F>(m0, s, i)) < key(nth::<F>(m0, s, j)));
    }
}

/// No entry has a key that lies between those of two neighbours.
proof fn lemma_gap<F: Field<Type = Node>>(
    m: Map<Addr, Object<F::Base>>,
    s: Seq<Addr>,
    key: spec_fn(F::Base) -> int,
    want: int,
    p: int,
)
    requires
        sorted::<F>(m, s, key),
        0 <= p <= s.len(),
        p > 0 ==> key(nth::<F>(m, s, p - 1)) < want,
        p < s.len() ==> want < key(nth::<F>(m, s, p)),
    ensures
        forall|i: int| #![trigger s[i]] 0 <= i < p ==> key(m[s[i]].value) < want,
        forall|i: int| #![trigger s[i]] p <= i < s.len() ==> want < key(m[s[i]].value),
        forall|b: Addr| !keyed::<F>(m, s, key, want, b),
{
    assert forall|i: int| 0 <= i < p implies key(m[#[trigger] s[i]].value) < want by {
        if i < p - 1 {
            assert(key(nth::<F>(m, s, i)) < key(nth::<F>(m, s, p - 1)));
        }
    }
    assert forall|i: int| p <= i < s.len() implies want < key(m[#[trigger] s[i]].value) by {
        if p < i {
            assert(key(nth::<F>(m, s, p)) < key(nth::<F>(m, s, i)));
        }
    }
    assert forall|b: Addr| !keyed::<F>(m, s, key, want, b) by {
        if s.contains(b) {
            let i = choose|i: int| 0 <= i < s.len() && s[i] == b;
            assert(key(m[s[i]].value) != want);
        }
    }
}

/// An entry can be inserted where it belongs.
proof fn lemma_sorted_insert<F: Field<Type = Node>>(
    m0: Map<Addr, Object<F::Base>>,
    m1: Map<Addr, Object<F::Base>>,
    s: Seq<Addr>,
    key: spec_fn(F::Base) -> int,
    p: int,
    a: Addr,
)
    requires
        sorted::<F>(m0, s, key),
        0 <= p <= s.len(),
        forall|i: int| #![trigger s[i]]
            0 <= i < s.len() ==> m1[s[i]].value == m0[s[i]].value,
        forall|i: int| #![trigger s[i]] 0 <= i < p ==> key(m0[s[i]].value) < key(m1[a].value),
        forall|i: int| #![trigger s[i]]
            p <= i < s.len() ==> key(m1[a].value) < key(m0[s[i]].value),
    ensures
        sorted::<F>(m1, s.insert(p, a), key),
{
    let t = s.insert(p, a);
    assert forall|i: int, j: int| #![trigger t[i], t[j]] 0 <= i < j < t.len() implies key(
        nth::<F>(m1, t, i),
    ) < key(nth::<F>(m1, t, j)) by {
        let x = if i < p { i } else { i - 1 };
        let y = if j < p { j } else { j - 1 };
        if i == p {
            assert(t[j] == s[y]);
        } else if j == p {
            assert(t[i] == s[x]);
        } else {
            assert(t[i] == s[x] && t[j] == s[y]);
            assert(key(nth::<F>(m0, s, x)) < key(nth::<F>(m0, s, y)));
        }
    }
}

/// Removing an entry keeps the others ordered.
pub proof fn lemma_sorted_remove<F: Field<Type = Node>>(
    m: Map<Addr, Object<F::Base>>,
    s: Seq<Addr>,
    key: spec_fn(F::Base) -> int,
    p: int,
)
    requires
        sorted::<F>(m, s, key),
        0 <= p < s.len(),
    ensures
        sorted::<F>(m, s.remove(p), key),
{
    let t = s.remove(p);
    assert forall|i: int, j: int| #![trigger t[i], t[j]] 0 <= i < j < t.len() implies key(
        nth::<F>(m, t, i),
    ) < key(nth::<F>(m, t, j)) by {
        let x = if i < p { i } else { i + 1 };
        let y = if j < p { j } else { j + 1 };
        assert(t[i] == s[x] && t[j] == s[y]);
        assert(key(nth::<F>(m, s, x)) < key(nth::<F>(m, s, y)));
    }
}

} // verus!
