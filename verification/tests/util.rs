use bus1::util::arena::{AllocError, Arena};
use bus1::util::field::Field;
use bus1::util::{lll, ptr_cmp, rb, slist};
use std::cmp::Ordering;

struct ListEntry {
    key: u8,
    node: slist::Node,
}

struct ListEntryNode;

impl Field for ListEntryNode {
    type Base = ListEntry;
    type Type = slist::Node;

    fn get(base: &ListEntry) -> &slist::Node {
        &base.node
    }

    fn set(base: &mut ListEntry, v: slist::Node) {
        base.node = v;
    }

    // What follows is only there to state what fields are. It never runs.

    fn field_of(_: ListEntry) -> slist::Node {
        unreachable!()
    }

    fn with_field(_: ListEntry, _: slist::Node) -> ListEntry {
        unreachable!()
    }

    fn lemma_get_put(_: ListEntry, _: slist::Node) {
        unreachable!()
    }

    fn lemma_put_get(_: ListEntry) {
        unreachable!()
    }

    fn lemma_put_put(_: ListEntry, _: slist::Node, _: slist::Node) {
        unreachable!()
    }
}

struct TreeEntry {
    key: u8,
    rb: rb::Node,
}

struct TreeEntryRb;

impl Field for TreeEntryRb {
    type Base = TreeEntry;
    type Type = rb::Node;

    fn get(base: &TreeEntry) -> &rb::Node {
        &base.rb
    }

    fn set(base: &mut TreeEntry, v: rb::Node) {
        base.rb = v;
    }

    // What follows is only there to state what fields are. It never runs.

    fn field_of(_: TreeEntry) -> rb::Node {
        unreachable!()
    }

    fn with_field(_: TreeEntry, _: rb::Node) -> TreeEntry {
        unreachable!()
    }

    fn lemma_get_put(_: TreeEntry, _: rb::Node) {
        unreachable!()
    }

    fn lemma_put_get(_: TreeEntry) {
        unreachable!()
    }

    fn lemma_put_put(_: TreeEntry, _: rb::Node, _: rb::Node) {
        unreachable!()
    }
}

fn list_entries(n: u8) -> (Arena<ListEntry>, Vec<usize>) {
    let mut arena = Arena::new(usize::MAX);
    let mut addrs = Vec::new();
    for key in 0..n {
        let entry = ListEntry { key, node: slist::Node::new() };
        addrs.push(arena.insert(entry).unwrap());
    }
    (arena, addrs)
}

fn tree_entries(n: u8) -> (Arena<TreeEntry>, Vec<usize>) {
    let mut arena = Arena::new(usize::MAX);
    let mut addrs = Vec::new();
    for key in 0..n {
        let entry = TreeEntry { key, rb: rb::Node::new() };
        addrs.push(arena.insert(entry).unwrap());
    }
    (arena, addrs)
}

#[test]
fn lll_test_basic() {
    let (mut arena, addrs) = list_entries(2);
    let (e0, e1) = (addrs[0], addrs[1]);

    let mut list: lll::List<ListEntryNode> = lll::List::new();

    assert!(list.is_empty(&arena));
    assert!(!list.is_sealed());
    assert!(!arena.get(e0).node.is_linked());
    assert!(!arena.get(e1).node.is_linked());

    list.link_front(&mut arena, e0);
    list.link_front(&mut arena, e1);

    assert!(!list.is_empty(&arena));
    assert!(!list.is_sealed());
    assert!(arena.get(e0).node.is_linked());
    assert!(arena.get(e1).node.is_linked());

    assert!(list.try_link_front(&mut arena, e0).is_err());
    assert!(list.try_link_front(&mut arena, e1).is_err());

    let mut r = list.clear(&arena);
    let a = r.unlink_front(&mut arena).unwrap();
    assert_eq!(arena.get(a).key, 1);
    let a = r.unlink_front(&mut arena).unwrap();
    assert_eq!(arena.get(a).key, 0);
    assert!(r.unlink_front(&mut arena).is_none());

    assert!(list.is_empty(&arena));
    assert!(!list.is_sealed());
    assert!(!arena.get(e0).node.is_linked());
    assert!(!arena.get(e1).node.is_linked());

    list.link_front(&mut arena, e0);
    assert!(!list.is_empty(&arena));
    assert!(!list.is_sealed());
    assert!(arena.get(e0).node.is_linked());
    assert!(!arena.get(e1).node.is_linked());

    assert!(!list.is_sealed());
    let mut r = list.seal(&arena);
    assert!(list.is_empty(&arena));
    assert!(list.is_sealed());
    assert!(arena.get(e0).node.is_linked());
    assert!(!arena.get(e1).node.is_linked());
    assert!(list.try_link_front(&mut arena, e0).is_err());
    assert!(list.try_link_front(&mut arena, e1).is_err());

    let a = r.unlink_front(&mut arena).unwrap();
    assert_eq!(arena.get(a).key, 0);
    assert!(r.unlink_front(&mut arena).is_none());

    assert!(list.is_empty(&arena));
    assert!(list.is_sealed());
    assert!(!arena.get(e0).node.is_linked());
    assert!(!arena.get(e1).node.is_linked());
}

#[test]
fn lll_refused_entry_is_left_alone() {
    let (mut arena, addrs) = list_entries(2);
    let mut list: lll::List<ListEntryNode> = lll::List::new();

    let rest = list.seal(&arena);
    assert!(rest.is_empty(&arena));

    // Entries can still be used elsewhere if they were refused.
    assert_eq!(list.try_link_front(&mut arena, addrs[0]), Err(addrs[0]));
    assert!(!arena.get(addrs[0]).node.is_linked());
    let mut other: lll::List<ListEntryNode> = lll::List::new();
    assert!(other.try_link_front(&mut arena, addrs[0]).is_ok());
    assert!(arena.get(addrs[0]).node.is_linked());

    // Sealing again is a no-op.
    let again = list.seal(&arena);
    assert!(again.is_empty(&arena));
    assert!(list.is_sealed());
}

#[test]
fn lll_clear_is_last_in_first_out() {
    let (mut arena, addrs) = list_entries(4);
    let mut list: lll::List<ListEntryNode> = lll::List::new();
    for a in &addrs {
        list.link_front(&mut arena, *a);
    }
    let mut r = list.clear(&arena);
    assert_eq!(r.clear_with(&mut arena), vec![addrs[3], addrs[2], addrs[1], addrs[0]]);
    assert!(r.is_empty(&arena));
    for a in &addrs {
        assert!(!arena.get(*a).node.is_linked());
    }
}

#[test]
fn lll_accesses_interleave() {
    let (mut arena, addrs) = list_entries(3);
    let mut list: lll::List<ListEntryNode> = lll::List::new();
    let mut a = lll::LinkFront::Load { ent: addrs[0] };
    let mut b = lll::LinkFront::Load { ent: addrs[1] };
    let mut c: lll::Clear<ListEntryNode> = lll::Clear::Load;

    // Both operations see the empty list, but only one of them can be first.
    a = a.step(&mut list, &mut arena);
    b = b.step(&mut list, &mut arena);
    a = a.step(&mut list, &mut arena);
    b = b.step(&mut list, &mut arena);
    c = c.step(&mut list, &arena);
    b = b.step(&mut list, &mut arena);
    assert!(matches!(b, lll::LinkFront::Linked));
    a = a.step(&mut list, &mut arena);
    assert!(matches!(a, lll::LinkFront::Store { .. }));

    // What was linked in between is taken as well.
    c = c.step(&mut list, &arena);
    c = c.step(&mut list, &arena);
    match c {
        lll::Clear::Done { list: mut taken } => {
            assert_eq!(taken.clear_with(&mut arena), vec![addrs[1]]);
        },
        _ => panic!("not taken"),
    }

    // The other one is still linked later on.
    while !matches!(a, lll::LinkFront::Linked) {
        a = a.step(&mut list, &mut arena);
    }
    list.link_front(&mut arena, addrs[2]);

    // A node is released if the list is sealed before it is linked.
    let mut d = lll::LinkFront::Load { ent: addrs[1] };
    d = d.step(&mut list, &mut arena);
    d = d.step(&mut list, &mut arena);
    assert!(arena.get(addrs[1]).node.is_linked());
    let mut rest = list.seal(&arena);
    d = d.step(&mut list, &mut arena);
    d = d.step(&mut list, &mut arena);
    assert!(matches!(d, lll::LinkFront::Refused { ent } if ent == addrs[1]));
    assert!(!arena.get(addrs[1]).node.is_linked());
    assert_eq!(rest.clear_with(&mut arena), vec![addrs[2], addrs[0]]);
    assert!(list.clear(&arena).is_empty(&arena));
    assert!(list.is_sealed());
}

#[test]
fn rb_test_basic() {
    let (mut arena, addrs) = tree_entries(2);
    let (e0, e1) = (addrs[0], addrs[1]);

    let mut tree: rb::Tree<TreeEntryRb> = rb::Tree::new(7);

    assert!(tree.is_empty());
    let slot = tree.find_slot_by(&arena, |other: &TreeEntry| 0.cmp(&other.key));
    slot.link(&mut tree, &mut arena, e0);
    assert!(!tree.is_empty());
    let slot = tree.find_slot_by(&arena, |other: &TreeEntry| 0.cmp(&other.key));
    assert!(!slot.available());
    let slot = tree.find_slot_by(&arena, |other: &TreeEntry| 1.cmp(&other.key));
    slot.link(&mut tree, &mut arena, e1);
    assert!(!tree.is_empty());

    tree.clear(&mut arena);
    assert!(tree.is_empty());
}

// The last key is the root, with all lesser keys in front of all greater ones.
fn is_postorder(keys: &[u8]) -> bool {
    match keys.split_last() {
        None => true,
        Some((root, rest)) => {
            let n = rest.iter().take_while(|k| *k < root).count();
            rest[n..].iter().all(|k| k > root) && is_postorder(&rest[..n])
                && is_postorder(&rest[n..])
        },
    }
}

#[test]
fn rb_keeps_order() {
    let (mut arena, addrs) = tree_entries(6);
    let mut tree: rb::Tree<TreeEntryRb> = rb::Tree::new(7);
    let by_key = |a: &TreeEntry, b: &TreeEntry| a.key.cmp(&b.key);

    for i in [3, 0, 5, 1, 4, 2] {
        assert_eq!(tree.try_link_by(&mut arena, addrs[i], by_key), Ok(addrs[i]));
    }
    assert_eq!(tree.to_vec(), addrs);

    // An entry that is linked already, and one that is equal to another one,
    // are both refused.
    assert!(tree.try_link_by(&mut arena, addrs[2], by_key).is_err());
    let dup = arena.insert(TreeEntry { key: 2, rb: rb::Node::new() }).unwrap();
    assert!(tree.try_link_by(&mut arena, dup, by_key).is_err());
    assert!(!arena.get(dup).rb.is_linked());

    // Unless equal entries are allowed, in which case they end up last.
    assert!(tree.try_link_last_by(&mut arena, dup, by_key).is_ok());
    assert_eq!(
        tree.to_vec(),
        vec![addrs[0], addrs[1], addrs[2], dup, addrs[3], addrs[4], addrs[5]],
    );

    // Cursors move in order, and past the ends.
    let mut c = tree.claim_mut(&arena, addrs[4]);
    assert!(c.move_next(&tree));
    assert_eq!(c.get(&tree), Some(addrs[5]));
    assert!(c.move_prev(&tree));
    assert!(c.move_prev(&tree));
    assert_eq!(c.get(&tree), Some(addrs[3]));

    // Unlinking leaves the others in place.
    assert_eq!(tree.try_unlink(&mut arena, dup), Some(dup));
    assert_eq!(tree.try_unlink(&mut arena, dup), None);
    assert!(!tree.contains(&arena, dup));
    assert_eq!(tree.to_vec(), addrs);

    // Entries are handed out in postorder.
    let all = tree.clear_with(&mut arena);
    let keys: Vec<u8> = all.iter().map(|a| arena.get(*a).key).collect();
    assert!(is_postorder(&keys));
    let mut sorted = keys.clone();
    sorted.sort();
    assert_eq!(sorted, vec![0, 1, 2, 3, 4, 5]);
    assert!(tree.is_empty());
    for a in &addrs {
        assert!(!arena.get(*a).rb.is_linked());
    }
}

#[test]
fn rb_foreign_entries_are_refused() {
    let (mut arena, addrs) = tree_entries(2);
    let by_key = |a: &TreeEntry, b: &TreeEntry| a.key.cmp(&b.key);
    let mut t0: rb::Tree<TreeEntryRb> = rb::Tree::new(0);
    let mut t1: rb::Tree<TreeEntryRb> = rb::Tree::new(1);

    assert!(t0.try_link_by(&mut arena, addrs[0], by_key).is_ok());
    assert!(t1.try_link_by(&mut arena, addrs[0], by_key).is_err());
    assert!(t1.try_claim_mut(&arena, addrs[0]).is_none());
    assert_eq!(t1.try_unlink(&mut arena, addrs[0]), None);
    assert!(t0.contains(&arena, addrs[0]));
    assert!(t1.try_link_by(&mut arena, addrs[1], by_key).is_ok());
    assert_eq!(t0.len(), 1);
    assert_eq!(t1.len(), 1);
    assert_eq!(t1.at(0), addrs[1]);
}

#[test]
fn rb_cursor_unlinks_while_moving() {
    let (mut arena, addrs) = tree_entries(4);
    let by_key = |a: &TreeEntry, b: &TreeEntry| a.key.cmp(&b.key);
    let mut tree: rb::Tree<TreeEntryRb> = rb::Tree::new(0);
    for a in &addrs {
        assert!(tree.try_link_by(&mut arena, *a, by_key).is_ok());
    }

    let mut c = tree.claim_mut(&arena, addrs[1]);
    assert_eq!(c.move_next_unlink(&mut tree, &mut arena), (true, addrs[1]));
    assert_eq!(c.get(&tree), Some(addrs[2]));
    assert_eq!(c.move_prev_unlink(&mut tree, &mut arena), (true, addrs[2]));
    assert_eq!(c.get(&tree), Some(addrs[0]));
    assert_eq!(tree.to_vec(), vec![addrs[0], addrs[3]]);
    assert_eq!(c.unlink(&mut tree, &mut arena), addrs[0]);
    assert_eq!(tree.to_vec(), vec![addrs[3]]);
}

// Entries can be looked at even if stored in the list.
#[test]
fn shared_refs() {
    let (mut arena, addrs) = list_entries(2);
    let (e0, e1) = (addrs[0], addrs[1]);

    let mut list: slist::List<ListEntryNode> = slist::List::new();

    assert!(list.is_empty(&arena));
    assert!(!arena.get(e0).node.is_linked());
    assert!(!arena.get(e1).node.is_linked());

    list.link_front(&mut arena, e0);
    list.link_front(&mut arena, e1);

    assert!(!list.is_empty(&arena));
    assert!(arena.get(e0).node.is_linked());
    assert!(arena.get(e1).node.is_linked());

    assert!(list.try_link_front(&mut arena, e0).is_err());
    assert!(list.try_link_front(&mut arena, e1).is_err());

    let mut c = list.cursor_mut();
    assert_eq!(c.get(&list, &arena).unwrap().key, 1);
    assert_eq!(c.get_and_move_next(&list, &arena).unwrap().key, 1);
    assert_eq!(c.get(&list, &arena).unwrap().key, 0);
    assert_eq!(c.get_and_move_next(&list, &arena).unwrap().key, 0);
    assert!(c.get(&list, &arena).is_none());

    let a = list.unlink_front(&mut arena).unwrap();
    assert_eq!(arena.get(a).key, 1);
    let a = list.unlink_front(&mut arena).unwrap();
    assert_eq!(arena.get(a).key, 0);

    assert!(list.unlink_front(&mut arena).is_none());
    assert!(list.is_empty(&arena));

    drop(list);
    assert!(!arena.get_mut(e0).node.is_linked());
    assert!(!arena.get_mut(e1).node.is_linked());
}

// Entries can be modified through the list.
#[test]
fn mutable_refs() {
    let (mut arena, addrs) = list_entries(2);
    let (e0, e1) = (addrs[0], addrs[1]);

    let mut list: slist::List<ListEntryNode> = slist::List::new();

    assert!(list.is_empty(&arena));
    assert!(!arena.get(e0).node.is_linked());
    assert!(!arena.get(e1).node.is_linked());

    list.link_front(&mut arena, e0);
    list.link_front(&mut arena, e1);

    assert!(!list.is_empty(&arena));

    let mut c = list.cursor_mut();
    assert_eq!(c.get_mut(&list, &mut arena).unwrap().key, 1);
    c.move_next(&list, &arena);
    assert_eq!(c.get_mut(&list, &mut arena).unwrap().key, 0);
    c.move_next(&list, &arena);
    assert!(c.get(&list, &arena).is_none());

    let v = list.unlink_front(&mut arena).unwrap();
    assert_eq!(arena.get(v).key, 1);
    let v = list.unlink_front(&mut arena).unwrap();
    assert_eq!(arena.get(v).key, 0);

    assert!(list.unlink_front(&mut arena).is_none());
    assert!(list.is_empty(&arena));

    drop(list);
    assert!(!arena.get(e0).node.is_linked());
    assert!(!arena.get(e1).node.is_linked());
}

#[test]
fn slist_cursor_links_and_unlinks() {
    let (mut arena, addrs) = list_entries(3);
    let mut list: slist::List<ListEntryNode> = slist::List::new();
    list.link_front(&mut arena, addrs[2]);
    list.link_front(&mut arena, addrs[0]);

    // Link between the others.
    let mut c = list.cursor_mut();
    c.move_next(&list, &arena);
    assert_eq!(c.try_link(&mut list, &mut arena, addrs[1]), Ok(addrs[1]));
    assert_eq!(c.get(&list, &arena).unwrap().key, 1);

    // What is linked already is refused.
    assert_eq!(c.try_link(&mut list, &mut arena, addrs[2]), Err(addrs[2]));

    // Unlink the first, and then the last one.
    let mut c = list.cursor_mut();
    assert_eq!(c.unlink(&mut list, &mut arena), Some(addrs[0]));
    assert_eq!(c.get(&list, &arena).unwrap().key, 1);
    c.move_next(&list, &arena);
    assert_eq!(c.unlink(&mut list, &mut arena), Some(addrs[2]));
    assert!(c.get(&list, &arena).is_none());
    assert_eq!(c.unlink(&mut list, &mut arena), None);
    assert_eq!(list.clear_with(&mut arena), vec![addrs[1]]);
}

#[test]
fn arena_counts_references() {
    let mut arena: Arena<u8> = Arena::new(2);
    let a = arena.insert(71).unwrap();
    let b = arena.insert(72).unwrap();
    assert_eq!(arena.insert(73), Err(AllocError));
    assert!(arena.is_full());
    assert_eq!(arena.available(), 0);

    arena.acquire(a);
    assert_eq!(arena.refs(a), 2);
    assert!(arena.drop_unless_unique(a));
    assert!(!arena.drop_unless_unique(a));
    assert_eq!(*arena.get(a), 71);
    assert_eq!(arena.remove(a), 71);
    assert!(!arena.contains(a));
    assert!(arena.contains(b));

    // Space is available again.
    assert_eq!(arena.available(), 1);
    let c = arena.insert(73).unwrap();
    *arena.get_mut(c) += 1;
    assert_eq!(*arena.get(c), 74);
    assert!(b < arena.bound() && c < arena.bound());
}

#[test]
fn addresses_are_ordered() {
    assert_eq!(ptr_cmp(1, 2), Ordering::Less);
    assert_eq!(ptr_cmp(2, 2), Ordering::Equal);
    assert_eq!(ptr_cmp(3, 2), Ordering::Greater);
}
