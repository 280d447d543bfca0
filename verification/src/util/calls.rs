//! What calls into the collections do, in terms of their arguments and their
//! results.

use core::cmp::Ordering;
use crate::util::arena::{Addr, Arena, Object};
use crate::util::field::Field;
use crate::util::lll::{Clear, LinkFront};
use crate::util::rb::{Slot, SlotState, Tree};
use crate::util::{lll, ptr_cmp, rb, slist};
use vstd::prelude::*;

verus! {

/// Addresses are compared by their value.
pub proof fn lemma_ptr_cmp(a: Addr, b: Addr, r: Ordering)
    requires
        call_ensures(ptr_cmp, (a, b), r),
    ensures
        r == Ordering::Less <==> a < b,
        r == Ordering::Equal <==> a == b,
        r == Ordering::Greater <==> a > b,
{
}

/// The key of the element at position `i`.
pub open spec fn key_at<F: Field>(
    m: Map<Addr, Object<F::Base>>,
    s: Seq<Addr>,
    key: spec_fn(F::Base) -> int,
    i: int,
) -> int {
    key(m[s[i]].value)
}

/// The keys of elements are in strict order.
pub open spec fn ascends<F: Field>(
    m: Map<Addr, Object<F::Base>>,
    s: Seq<Addr>,
    key: spec_fn(F::Base) -> int,
) -> bool {
    forall|i: int, j: int| #![trigger s[i], s[j]]
        0 <= i < j < s.len() ==> key_at::<F>(m, s, key, i) < key_at::<F>(m, s, key, j)
}

/// A search compares what is looked for with the keys of elements.
pub open spec fn looks_for<F: Field, C: Fn(&F::Base) -> Ordering>(
    order: C,
    key: spec_fn(F::Base) -> int,
    want: int,
) -> bool {
    forall|b: F::Base, o: Ordering| #[trigger]
        order.ensures((&b,), o) ==> {
            &&& o == Ordering::Less ==> want < key(b)
            &&& o == Ordering::Equal ==> want == key(b)
            &&& o == Ordering::Greater ==> want > key(b)
        }
}

/// A search in a tree finds the element with the key that is looked for. If there
/// is none, it finds the place where it belongs.
pub proof fn lemma_find_slot_by<F: Field<Type = rb::Node>, C: Fn(&F::Base) -> Ordering>(
    tree: &Tree<F>,
    arena: &Arena<F::Base>,
    order: C,
    r: Slot,
    key: spec_fn(F::Base) -> int,
    want: int,
)
    requires
        call_ensures(Tree::<F>::find_slot_by::<C>, (tree, arena, order), r),
        ascends::<F>(arena@, tree@, key),
        looks_for::<F, C>(order, key, want),
    ensures
        r.state() == SlotState::Occupied ==> {
            &&& 0 <= r.index() < tree@.len()
            &&& key_at::<F>(arena@, tree@, key, r.index()) == want
        },
        r.state() != SlotState::Occupied ==> {
            &&& r.state() == SlotState::Vacant
            &&& 0 <= r.index() <= tree@.len()
            &&& forall|i: int| #![trigger tree@[i]]
                0 <= i < r.index() ==> key_at::<F>(arena@, tree@, key, i) < want
            &&& forall|i: int| #![trigger tree@[i]]
                r.index() <= i < tree@.len() ==> key_at::<F>(arena@, tree@, key, i) > want
        },
{
    let s = tree@;
    let k = r.index();
    if r.state() != SlotState::Occupied {
        assert forall|i: int| #![trigger s[i]] 0 <= i < k implies key_at::<F>(arena@, s, key, i)
            < want by {
            assert(key_at::<F>(arena@, s, key, k - 1) < want);
            if i < k - 1 {
                let _ = (s[i], s[k - 1]);
            }
        }
        assert forall|i: int| #![trigger s[i]] k <= i < s.len() implies key_at::<F>(
            arena@,
            s,
            key,
            i,
        ) > want by {
            assert(key_at::<F>(arena@, s, key, k) > want);
            if i > k {
                let _ = (s[k], s[i]);
            }
        }
    }
}

/// An insertion compares elements by their keys.
pub open spec fn compares<F: Field, C: Fn(&F::Base, &F::Base) -> Ordering>(
    order: C,
    key: spec_fn(F::Base) -> int,
) -> bool {
    forall|a: F::Base, b: F::Base, o: Ordering| #[trigger]
        order.ensures((&a, &b), o) ==> {
            &&& o == Ordering::Less ==> key(a) < key(b)
            &&& o == Ordering::Equal ==> key(a) == key(b)
            &&& o == Ordering::Greater ==> key(a) > key(b)
        }
}

/// An element was inserted at a position, and others move up.
pub open spec fn gains(s: Seq<Addr>, t: Seq<Addr>, ent: Addr, i: int) -> bool {
    &&& 0 <= i <= s.len()
    &&& t.len() == s.len() + 1
    &&& t[i] == ent
    &&& forall|k: int| #![trigger t[k]] 0 <= k < i ==> t[k] == s[k]
    &&& forall|k: int| #![trigger t[k]] i < k < t.len() ==> t[k] == s[k - 1]
}

/// An element was removed from a position, and others close up.
pub open spec fn lacks(s: Seq<Addr>, t: Seq<Addr>, ent: Addr, i: int) -> bool {
    gains(t, s, ent, i)
}

/// An element is linked into a tree if, and only if, it is not linked yet, and
/// there is no element with the same key. It ends up in between those with
/// smaller and those with greater keys.
pub proof fn lemma_try_link_by<F: Field<Type = rb::Node>, C: Fn(
    &F::Base,
    &F::Base,
) -> Ordering>(
    tree: &mut Tree<F>,
    arena: &mut Arena<F::Base>,
    ent: Addr,
    order: C,
    r: Result<Addr, Addr>,
    key: spec_fn(F::Base) -> int,
)
    requires
        call_ensures(Tree::<F>::try_link_by::<C>, (tree, arena, ent, order), r),
        ascends::<F>(old(arena)@, old(tree)@, key),
        compares::<F, C>(order, key),
    ensures
        r is Ok <==> F::field_of(old(arena)@[ent].value).owner is None && forall|i: int|
            #![trigger old(tree)@[i]]
            0 <= i < old(tree)@.len() ==> key_at::<F>(old(arena)@, old(tree)@, key, i) != key(
                old(arena)@[ent].value,
            ),
        r is Ok ==> r->Ok_0 == ent && exists|i: int|
            {
                &&& #[trigger] gains(old(tree)@, final(tree)@, ent, i)
                &&& i > 0 ==> key_at::<F>(old(arena)@, old(tree)@, key, i - 1) < key(
                    old(arena)@[ent].value,
                )
                &&& i < old(tree)@.len() ==> key_at::<F>(old(arena)@, old(tree)@, key, i) > key(
                    old(arena)@[ent].value,
                )
            },
        r is Ok ==> F::field_of(final(arena)@[ent].value).owner == Some(old(tree).owner()),
        r is Err ==> r->Err_0 == ent && final(tree)@ == old(tree)@ && final(arena)@ == old(arena)@,
{
    let s = old(tree)@;
    let m = old(arena)@;
    if r is Ok {
        let i = choose|i: int|
            {
                &&& final(tree)@ == #[trigger] s.insert(i, ent)
                &&& rb::belongs::<F, C>(m, s, order, ent, i)
            };
        assert(gains(s, final(tree)@, ent, i));
        assert forall|k: int| #![trigger s[k]] 0 <= k < s.len() implies key_at::<F>(m, s, key, k)
            != key(m[ent].value) by {
            if k < i {
                let _ = (s[k], s[i - 1]);
                assert(key_at::<F>(m, s, key, i - 1) < key(m[ent].value));
            } else {
                let _ = (s[i], s[k]);
                assert(key_at::<F>(m, s, key, i) > key(m[ent].value));
            }
        }
    } else if F::field_of(m[ent].value).owner is None {
        let i = choose|i: int|
            0 <= i < s.len() && order.ensures(
                (&m[ent].value, #[trigger] &rb::nth::<F>(m, s, i)),
                Ordering::Equal,
            );
        assert(key_at::<F>(m, s, key, i) == key(m[ent].value));
        let _ = s[i];
    }
}

/// An element is linked into a tree if, and only if, it is not linked yet. It ends
/// up behind all those that have the same key.
pub proof fn lemma_try_link_last_by<F: Field<Type = rb::Node>, C: Fn(
    &F::Base,
    &F::Base,
) -> Ordering>(
    tree: &mut Tree<F>,
    arena: &mut Arena<F::Base>,
    ent: Addr,
    order: C,
    r: Result<Addr, Addr>,
    key: spec_fn(F::Base) -> int,
)
    requires
        call_ensures(Tree::<F>::try_link_last_by::<C>, (tree, arena, ent, order), r),
        compares::<F, C>(order, key),
    ensures
        r is Ok <==> F::field_of(old(arena)@[ent].value).owner is None,
        r is Ok ==> r->Ok_0 == ent && exists|i: int|
            {
                &&& #[trigger] gains(old(tree)@, final(tree)@, ent, i)
                &&& i > 0 ==> key_at::<F>(old(arena)@, old(tree)@, key, i - 1) <= key(
                    old(arena)@[ent].value,
                )
                &&& i < old(tree)@.len() ==> key_at::<F>(old(arena)@, old(tree)@, key, i) > key(
                    old(arena)@[ent].value,
                )
            },
        r is Ok ==> F::field_of(final(arena)@[ent].value).owner == Some(old(tree).owner()),
        r is Err ==> r->Err_0 == ent && final(tree)@ == old(tree)@ && final(arena)@ == old(arena)@,
{
    let s = old(tree)@;
    let m = old(arena)@;
    if r is Ok {
        let i = choose|i: int|
            {
                &&& 0 <= i <= s.len()
                &&& final(tree)@ == #[trigger] s.insert(i, ent)
                &&& i > 0 ==> order.ensures(
                    (&m[ent].value, &rb::nth::<F>(m, s, i - 1)),
                    Ordering::Greater,
                ) || order.ensures((&m[ent].value, &rb::nth::<F>(m, s, i - 1)), Ordering::Equal)
                &&& i < s.len() ==> order.ensures(
                    (&m[ent].value, &rb::nth::<F>(m, s, i)),
                    Ordering::Less,
                )
            };
        assert(gains(s, final(tree)@, ent, i));
    }
}

/// An element of a tree is unlinked, and can be linked again. Others stay.
pub proof fn lemma_try_unlink<F: Field<Type = rb::Node>>(
    tree: &mut Tree<F>,
    arena: &mut Arena<F::Base>,
    ent: Addr,
    r: Option<Addr>,
)
    requires
        call_ensures(Tree::<F>::try_unlink, (tree, arena, ent), r),
    ensures
        r is Some <==> old(tree)@.contains(ent),
        r matches Some(a) ==> {
            &&& a == ent
            &&& exists|i: int| #[trigger] lacks(old(tree)@, final(tree)@, ent, i)
            &&& F::field_of(final(arena)@[ent].value).owner is None
        },
        r is None ==> final(tree)@ == old(tree)@ && final(arena)@ == old(arena)@,
{
    let s = old(tree)@;
    if s.contains(ent) {
        let k = choose|k: int| 0 <= k < s.len() && s[k] == ent;
        assert(s[k] == ent);
        let i = s.index_of(ent);
        assert(0 <= i < s.len() && s[i] == ent);
        assert(lacks(s, final(tree)@, ent, i));
    }
}

/// Whatever is linked at the front of a list comes off it first.
pub proof fn lemma_link_front<F: Field<Type = slist::Node>>(
    list: &mut slist::List<F>,
    arena: &mut Arena<F::Base>,
    ent: Addr,
    r: Result<Addr, Addr>,
)
    requires
        call_ensures(slist::List::<F>::try_link_front, (list, arena, ent), r),
    ensures
        r is Ok <==> F::field_of(old(arena)@[ent].value).next == slist::Ptr::Null,
        r is Ok ==> r->Ok_0 == ent && gains(old(list)@, final(list)@, ent, 0),
        r is Err ==> r->Err_0 == ent && final(list)@ == old(list)@ && final(arena)@ == old(
            arena,
        )@,
{
}

/// Unlinking the front of a list hands out its first element.
pub proof fn lemma_unlink_front<F: Field<Type = slist::Node>>(
    list: &mut slist::List<F>,
    arena: &mut Arena<F::Base>,
    r: Option<Addr>,
)
    requires
        call_ensures(slist::List::<F>::unlink_front, (list, arena), r),
    ensures
        r is Some <==> old(list)@.len() > 0,
        r matches Some(a) ==> {
            &&& a == old(list)@[0]
            &&& lacks(old(list)@, final(list)@, a, 0)
            &&& F::field_of(final(arena)@[a].value).next == slist::Ptr::Null
        },
        r is None ==> final(list)@ == old(list)@ && final(arena)@ == old(arena)@,
{
}

/// Nothing can be linked into a list that is sealed, and nothing is linked twice.
/// Everything else ends up at the front.
pub proof fn lemma_lll_link_front<F: Field<Type = lll::Node>>(
    list: &mut lll::List<F>,
    arena: &mut Arena<F::Base>,
    ent: Addr,
    r: Result<(), Addr>,
)
    requires
        call_ensures(lll::List::<F>::try_link_front, (list, arena, ent), r),
    ensures
        r is Ok <==> !old(list).sealed() && F::field_of(old(arena)@[ent].value).next
            == slist::Ptr::Null,
        r is Ok ==> gains(old(list)@, final(list)@, ent, 0),
        r is Err ==> r->Err_0 == ent && final(list)@ == old(list)@ && final(arena)@ == old(
            arena,
        )@,
        final(list).sealed() == old(list).sealed(),
{
}

/// Taking all elements of a list leaves it empty, and keeps their order.
pub proof fn lemma_lll_clear<F: Field<Type = lll::Node>>(
    list: &mut lll::List<F>,
    arena: &Arena<F::Base>,
    r: slist::List<F>,
)
    requires
        call_ensures(lll::List::<F>::clear, (list, arena), r),
    ensures
        r@ == old(list)@,
        final(list)@.len() == 0,
        final(list).sealed() == old(list).sealed(),
{
}

/// Sealing a list takes all its elements, and closes it for good.
pub proof fn lemma_lll_seal<F: Field<Type = lll::Node>>(
    list: &mut lll::List<F>,
    arena: &Arena<F::Base>,
    r: slist::List<F>,
)
    requires
        call_ensures(lll::List::<F>::seal, (list, arena), r),
    ensures
        r@ == old(list)@,
        final(list)@.len() == 0,
        final(list).sealed(),
{
}

/// How a single access of linking an element works out. The element is linked at
/// the front, or it is refused and can be linked again, or the operation goes on.
/// Only an element that is not linked is claimed, and nothing is linked into a
/// list that is sealed.
pub proof fn lemma_lll_link_step<F: Field<Type = lll::Node>>(
    op: LinkFront,
    list: &mut lll::List<F>,
    arena: &mut Arena<F::Base>,
    r: LinkFront,
)
    requires
        old(list).wf(old(arena)@),
        op.valid(old(list), old(arena)@),
        call_ensures(LinkFront::step::<F>, (op, list, arena), r),
    ensures
        // The element is linked, in front of what was the front.
        r is Linked && !(op is Linked) ==> {
            &&& op is Push
            &&& !old(list).sealed()
            &&& gains(old(list)@, final(list)@, op->Push_ent, 0)
            &&& final(arena)@ == old(arena)@
        },
        op is Push && old(list).first() == op->Push_first ==> r is Linked,
        // The element is not linked, and is as it was.
        r is Refused && !(op is Refused) ==> {
            let ent = r->Refused_ent;
            &&& op is Load || op is Claim || op is Abort
            &&& op is Load ==> old(list).sealed() && op->Load_ent == ent
            &&& op is Claim ==> op->Claim_ent == ent && F::field_of(old(arena)@[ent].value).next
                != slist::Ptr::Null
            &&& op is Load || op is Claim ==> final(arena)@ == old(arena)@
            &&& op matches LinkFront::Abort { ent: a } ==> a == ent && F::field_of(
                final(arena)@[ent].value,
            ).next == slist::Ptr::Null
        },
        // A sealed list refuses.
        op is Load && old(list).sealed() ==> r is Refused,
        op is Push && old(list).sealed() ==> r is Abort,
        op is Abort ==> r is Refused,
        // An element is claimed if it is not linked, and points to the front.
        op is Claim ==> (r is Push <==> F::field_of(old(arena)@[op->Claim_ent].value).next
            == slist::Ptr::Null),
        op is Claim && r is Push ==> {
            &&& r->Push_ent == op->Claim_ent
            &&& F::field_of(final(arena)@[r->Push_ent].value).next == r->Push_first
        },
        op is Store ==> r is Push && r->Push_ent == op->Store_ent && F::field_of(
            final(arena)@[r->Push_ent].value,
        ).next == r->Push_first,
        // Nothing else happens to the list.
        !(r is Linked) || op is Linked ==> final(list)@ == old(list)@,
        final(list).sealed() == old(list).sealed(),
{
}

/// How a single access of taking all elements works out. Either all of them are
/// handed out, and the list is empty, or the operation goes on.
pub proof fn lemma_lll_clear_step<F: Field<Type = lll::Node>>(
    op: Clear<F>,
    list: &mut lll::List<F>,
    arena: &Arena<F::Base>,
    r: Clear<F>,
)
    requires
        old(list).wf(arena@),
        call_ensures(Clear::<F>::step, (op, list, arena), r),
    ensures
        r is Done && !(op is Done) ==> r->list@ == old(list)@ && final(list)@.len() == 0,
        !(r is Done) || op is Done ==> final(list)@ == old(list)@,
        op is Done ==> r == op,
        op is Take && old(list).first() == op->first ==> r is Done,
        !(op is Done) && old(list).sealed() ==> r is Done,
        final(list).sealed() == old(list).sealed(),
{
}

/// The element of a tree that a cursor points at.
pub open spec fn here(c: rb::CursorMut, s: Seq<Addr>) -> Option<Addr> {
    match c.pos() {
        Some(i) => Some(s[i]),
        None => None,
    }
}

/// A cursor moves from one element to the next, and stops at the last one.
pub proof fn lemma_cursor_next<F: Field<Type = rb::Node>>(
    cursor: &mut rb::CursorMut,
    tree: &Tree<F>,
    r: bool,
    i: int,
)
    requires
        old(cursor).valid(tree@),
        call_ensures(rb::CursorMut::move_next::<F>, (cursor, tree), r),
        0 <= i < tree@.len(),
        old(cursor).pos() == Some(i),
    ensures
        r <==> i < tree@.len() - 1,
        r ==> here(*final(cursor), tree@) == Some(tree@[i + 1]),
        !r ==> here(*final(cursor), tree@) == Some(tree@[i]),
{
}

/// A cursor moves from one element to the previous one, and stops at the first
/// one.
pub proof fn lemma_cursor_prev<F: Field<Type = rb::Node>>(
    cursor: &mut rb::CursorMut,
    tree: &Tree<F>,
    r: bool,
    i: int,
)
    requires
        old(cursor).valid(tree@),
        call_ensures(rb::CursorMut::move_prev::<F>, (cursor, tree), r),
        0 <= i < tree@.len(),
        old(cursor).pos() == Some(i),
    ensures
        r <==> i > 0,
        r ==> here(*final(cursor), tree@) == Some(tree@[i - 1]),
        !r ==> here(*final(cursor), tree@) == Some(tree@[i]),
{
}

/// A cursor unlinks the element it points at, and moves to the next one. If there
/// is none, it moves to the previous one.
pub proof fn lemma_cursor_next_unlink<F: Field<Type = rb::Node>>(
    cursor: &mut rb::CursorMut,
    tree: &mut Tree<F>,
    arena: &mut Arena<F::Base>,
    r: Option<(bool, Addr)>,
    q: (bool, Addr),
    i: int,
)
    requires
        old(cursor).valid(old(tree)@),
        old(cursor).pos() == Some(i),
        call_ensures(rb::CursorMut::move_next_try_unlink::<F>, (cursor, tree, arena), r) || r
            == Some(q) && call_ensures(
            rb::CursorMut::move_next_unlink::<F>,
            (cursor, tree, arena),
            q,
        ),
    ensures
        ({
            let (s, t) = (old(tree)@, final(tree)@);
            &&& r matches Some((moved, ent)) && ent == s[i] && (moved <==> i < s.len() - 1)
            &&& lacks(s, t, s[i], i)
            &&& F::field_of(final(arena)@[s[i]].value).owner is None
            &&& here(*final(cursor), t) == if i < s.len() - 1 {
                Some(s[i + 1])
            } else if i > 0 {
                Some(s[i - 1])
            } else {
                None
            }
        }),
{
}

/// A cursor unlinks the element it points at, and moves to the previous one. If
/// there is none, it moves to the next one.
pub proof fn lemma_cursor_prev_unlink<F: Field<Type = rb::Node>>(
    cursor: &mut rb::CursorMut,
    tree: &mut Tree<F>,
    arena: &mut Arena<F::Base>,
    r: Option<(bool, Addr)>,
    q: (bool, Addr),
    i: int,
)
    requires
        old(cursor).valid(old(tree)@),
        old(cursor).pos() == Some(i),
        call_ensures(rb::CursorMut::move_prev_try_unlink::<F>, (cursor, tree, arena), r) || r
            == Some(q) && call_ensures(
            rb::CursorMut::move_prev_unlink::<F>,
            (cursor, tree, arena),
            q,
        ),
    ensures
        ({
            let (s, t) = (old(tree)@, final(tree)@);
            &&& r matches Some((moved, ent)) && ent == s[i] && (moved <==> i > 0)
            &&& lacks(s, t, s[i], i)
            &&& F::field_of(final(arena)@[s[i]].value).owner is None
            &&& here(*final(cursor), t) == if i > 0 {
                Some(s[i - 1])
            } else if s.len() > 1 {
                Some(s[1])
            } else {
                None
            }
        }),
{
}

/// A cursor unlinks the element it points at.
pub proof fn lemma_cursor_unlink<F: Field<Type = rb::Node>>(
    cursor: rb::CursorMut,
    tree: &mut Tree<F>,
    arena: &mut Arena<F::Base>,
    r: Option<Addr>,
    q: Addr,
    i: int,
)
    requires
        cursor.valid(old(tree)@),
        cursor.pos() == Some(i),
        call_ensures(rb::CursorMut::try_unlink::<F>, (cursor, tree, arena), r) || r == Some(q)
            && call_ensures(rb::CursorMut::unlink::<F>, (cursor, tree, arena), q),
    ensures
        r == Some(old(tree)@[i]),
        lacks(old(tree)@, final(tree)@, old(tree)@[i], i),
        F::field_of(final(arena)@[old(tree)@[i]].value).owner is None,
{
}

/// A slot that is vacant links an element at its place, unless the element is
/// linked already. Then, the slot is used up.
pub proof fn lemma_slot_link<F: Field<Type = rb::Node>>(
    slot: &mut Slot,
    tree: &mut Tree<F>,
    arena: &mut Arena<F::Base>,
    ent: Addr,
    r: Result<Addr, Addr>,
)
    requires
        old(slot).fits(old(tree)@),
        call_ensures(Slot::try_link::<F>, (slot, tree, arena, ent), r),
    ensures
        r is Ok <==> old(slot).state() == SlotState::Vacant && F::field_of(
            old(arena)@[ent].value,
        ).owner is None,
        r is Ok ==> {
            &&& r->Ok_0 == ent
            &&& gains(old(tree)@, final(tree)@, ent, old(slot).index())
            &&& final(slot).state() == SlotState::Used
            &&& F::field_of(final(arena)@[ent].value).owner == Some(old(tree).owner())
        },
        r is Err ==> r->Err_0 == ent && *final(slot) == *old(slot) && final(tree)@ == old(tree)@
            && final(arena)@ == old(arena)@,
{
}

/// A cursor of a list presents the element behind it, and moves past it.
pub proof fn lemma_list_cursor<F: Field<Type = slist::Node>>(
    cursor: &mut slist::CursorMut,
    list: &slist::List<F>,
    arena: &Arena<F::Base>,
    r: Option<Addr>,
    q: (),
)
    requires
        old(cursor).valid(list@),
        call_ensures(slist::CursorMut::get_ptr::<F>, (&*old(cursor), list, arena), r),
        call_ensures(slist::CursorMut::move_next::<F>, (cursor, list, arena), q),
    ensures
        r is Some <==> old(cursor).index() < list@.len(),
        r is Some ==> r->0 == list@[old(cursor).index()] && final(cursor).index() == old(
            cursor,
        ).index() + 1,
        r is None ==> final(cursor).index() == old(cursor).index(),
{
}

/// A cursor of a list links an element behind it, unless the element is linked
/// already.
pub proof fn lemma_list_cursor_link<F: Field<Type = slist::Node>>(
    cursor: &mut slist::CursorMut,
    list: &mut slist::List<F>,
    arena: &mut Arena<F::Base>,
    ent: Addr,
    r: Result<Addr, Addr>,
)
    requires
        0 <= old(cursor).index() <= old(list)@.len(),
        call_ensures(slist::CursorMut::try_link::<F>, (cursor, list, arena, ent), r),
    ensures
        r is Ok <==> F::field_of(old(arena)@[ent].value).next == slist::Ptr::Null,
        r is Ok ==> r->Ok_0 == ent && gains(
            old(list)@,
            final(list)@,
            ent,
            old(cursor).index(),
        ),
        r is Err ==> r->Err_0 == ent && final(list)@ == old(list)@ && final(arena)@ == old(
            arena,
        )@,
        final(cursor).index() == old(cursor).index(),
{
}

/// A cursor of a list unlinks the element behind it, if there is one.
pub proof fn lemma_list_cursor_unlink<F: Field<Type = slist::Node>>(
    cursor: &mut slist::CursorMut,
    list: &mut slist::List<F>,
    arena: &mut Arena<F::Base>,
    r: Option<Addr>,
)
    requires
        0 <= old(cursor).index() <= old(list)@.len(),
        call_ensures(slist::CursorMut::unlink::<F>, (cursor, list, arena), r),
    ensures
        r is Some <==> old(cursor).index() < old(list)@.len(),
        r matches Some(a) ==> {
            &&& a == old(list)@[old(cursor).index()]
            &&& lacks(old(list)@, final(list)@, a, old(cursor).index())
            &&& F::field_of(final(arena)@[a].value).next == slist::Ptr::Null
        },
        r is None ==> final(list)@ == old(list)@ && final(arena)@ == old(arena)@,
        final(cursor).index() == old(cursor).index(),
{
}

/// Clearing a tree hands out all its elements, each of them once.
pub proof fn lemma_tree_clear<F: Field<Type = rb::Node>>(
    tree: &mut Tree<F>,
    arena: &mut Arena<F::Base>,
    r: Vec<Addr>,
)
    requires
        call_ensures(Tree::<F>::clear_with, (tree, arena), r),
    ensures
        final(tree)@.len() == 0,
        r@.no_duplicates(),
        r@.len() == old(tree)@.len(),
        forall|a: Addr| #[trigger] r@.contains(a) <==> old(tree)@.contains(a),
{
    assert forall|a: Addr| #[trigger] r@.contains(a) <==> old(tree)@.contains(a) by {
        assert(r@.to_set().contains(a) <==> old(tree)@.to_set().contains(a));
    }
}

/// Clearing a list hands out all its elements in order.
pub proof fn lemma_list_clear<F: Field<Type = slist::Node>>(
    list: &mut slist::List<F>,
    arena: &mut Arena<F::Base>,
    r: Vec<Addr>,
)
    requires
        call_ensures(slist::List::<F>::clear_with, (list, arena), r),
    ensures
        r@ == old(list)@,
        final(list)@.len() == 0,
{
}

} // verus!
