//! Searching in ordered trees.
//!
//! A tree can be ordered in any way. If it is ordered by a key, then searching
//! it finds every element, and linking elements keeps it in order.

use core::cmp::Ordering;
use crate::util::arena::{Addr, Object};
use crate::util::field::Field;
use crate::util::order_of;
use crate::util::rb::{belongs, found, nth, sorted, tagged, Node, Slot, SlotState};
use vstd::prelude::*;

verus! {

/// If a tree is ordered by a key, then searching it by that key yields an
/// occupied slot if, and only if, there is an element with the key. A vacant
/// slot has all lesser elements in front of it, and all greater ones behind it.
pub proof fn lemma_search_is_complete<F: Field<Type = Node>, C: Fn(&F::Base) -> Ordering>(
    m: Map<Addr, Object<F::Base>>,
    s: Seq<Addr>,
    order: C,
    key: spec_fn(F::Base) -> int,
    want: int,
    slot: Slot,
)
    requires
        sorted::<F>(m, s, key),
        forall|v: &F::Base, o: Ordering| #[trigger]
            order.ensures((v,), o) ==> o == order_of(want, key(*v)),
        found::<F, C>(m, s, order, slot),
    ensures
        slot.state() == SlotState::Occupied <==> exists|i: int| #![trigger s[i]]
            0 <= i < s.len() && key(nth::<F>(m, s, i)) == want,
        slot.state() == SlotState::Occupied ==> key(nth::<F>(m, s, slot.index())) == want,
        slot.state() == SlotState::Vacant ==> forall|i: int| #![trigger s[i]]
            0 <= i < s.len() ==> if i < slot.index() {
                key(nth::<F>(m, s, i)) < want
            } else {
                key(nth::<F>(m, s, i)) > want
            },
{
    let p = slot.index();
    if slot.state() == SlotState::Occupied {
        assert(s[p] == s[p]);
    } else {
        assert forall|i: int| #![trigger s[i]] 0 <= i < s.len() implies if i < p {
            key(nth::<F>(m, s, i)) < want
        } else {
            key(nth::<F>(m, s, i)) > want
        } by {
            if i < p {
                assert(s[i] == s[i] && s[p - 1] == s[p - 1]);
            } else {
                assert(s[i] == s[i] && s[p] == s[p]);
            }
        }
    }
}

/// If a tree is ordered by a key, then it still is once an element was linked
/// where it belongs, and there was no other element with that key.
pub proof fn lemma_link_keeps_order<
    F: Field<Type = Node>,
    C: Fn(&F::Base, &F::Base) -> Ordering,
>(
    m0: Map<Addr, Object<F::Base>>,
    m1: Map<Addr, Object<F::Base>>,
    s: Seq<Addr>,
    order: C,
    key: spec_fn(F::Base) -> int,
    owner: Option<usize>,
    ent: Addr,
    i: int,
)
    requires
        sorted::<F>(m0, s, key),
        forall|v: &F::Base, w: &F::Base, o: Ordering| #[trigger]
            order.ensures((v, w), o) ==> o == order_of(key(*v), key(*w)),
        forall|v: F::Base, n: Node| key(#[trigger] F::with_field(v, n)) == key(v),
        forall|j: int| #![trigger s[j]] 0 <= j < s.len() ==> m0.contains_key(s[j]),
        m0.contains_key(ent),
        belongs::<F, C>(m0, s, order, ent, i),
        tagged::<F>(m0, m1, ent, owner),
    ensures
        sorted::<F>(m1, s.insert(i, ent), key),
        forall|j: int| #![trigger s[j]]
            0 <= j < s.len() ==> key(nth::<F>(m0, s, j)) != key(m0[ent].value),
{
    let k = key(m0[ent].value);
    let t = s.insert(i, ent);
    assert forall|j: int| #![trigger s[j]] 0 <= j < s.len() implies if j < i {
        key(nth::<F>(m0, s, j)) < k
    } else {
        key(nth::<F>(m0, s, j)) > k
    } by {
        if j < i {
            assert(s[j] == s[j] && s[i - 1] == s[i - 1]);
        } else {
            assert(s[j] == s[j] && s[i] == s[i]);
        }
    }
    assert forall|a: Addr| #[trigger] m0.contains_key(a) implies key(m1[a].value) == key(
        m0[a].value,
    ) by {
        assert(m1[a] == m1[a]);
    }
    assert forall|a: int, b: int| #![trigger t[a], t[b]] 0 <= a < b < t.len() implies key(
        nth::<F>(m1, t, a),
    ) < key(nth::<F>(m1, t, b)) by {
        let c = if a < i { a } else { a - 1 };
        let d = if b < i { b } else { b - 1 };
        assert(a != i ==> t[a] == s[c]);
        assert(b != i ==> t[b] == s[d]);
        assert(m0.contains_key(t[a]));
        assert(m0.contains_key(t[b]));
    }
}

} // verus!
