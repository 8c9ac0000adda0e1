use arena::{Arena, ArenaId};

#[test]
fn test() {
    let mut arena = Arena::new();

    let d = arena.insert('D');
    let c = arena.insert('C');
    let b = arena.insert('B');
    let e = arena.insert('E');
    let a = arena.insert('A');

    println!("{:?}", arena.as_slice().iter().collect::<Vec<_>>());

    println!("{}", arena.get(a).unwrap());
    println!("{}", arena.get(b).unwrap());
    println!("{}", arena.get(c).unwrap());
    println!("{}", arena.get(d).unwrap());
    println!("{}", arena.get(e).unwrap());

    arena.sort();

    println!("{:?}", arena.as_slice().iter().collect::<Vec<_>>());

    println!("{}", arena.get(a).unwrap());
    println!("{}", arena.get(b).unwrap());
    println!("{}", arena.get(c).unwrap());
    println!("{}", arena.get(d).unwrap());
    println!("{}", arena.get(e).unwrap());

    assert_eq!(arena.as_slice(), &['A', 'B', 'C', 'D', 'E']);
    assert_eq!(arena.get(a), Some(&'A'));
    assert_eq!(arena.get(b), Some(&'B'));
    assert_eq!(arena.get(c), Some(&'C'));
    assert_eq!(arena.get(d), Some(&'D'));
    assert_eq!(arena.get(e), Some(&'E'));
}

#[test]
fn handles_survive_removal_from_the_middle() {
    let mut arena = Arena::new();
    let a = arena.insert('A');
    let b = arena.insert('B');
    let c = arena.insert('C');
    assert_eq!(arena.as_slice(), &['A', 'B', 'C']);
    assert_eq!(arena.get(a), Some(&'A'));
    assert_eq!(arena.get(b), Some(&'B'));
    assert_eq!(arena.get(c), Some(&'C'));

    assert_eq!(arena.remove(b), Some('B'));
    assert_eq!(arena.as_slice(), &['A', 'C']);
    assert_eq!(arena.get(a), Some(&'A'));
    assert_eq!(arena.get(b), None);
    assert_eq!(arena.get(c), Some(&'C'));

    let some_id = c;
    assert_eq!(arena.get(some_id), Some(&'C'));
}

#[test]
fn removing_the_first_moves_the_last_into_the_hole() {
    let mut arena = Arena::new();
    let a = arena.insert('A');
    let b = arena.insert('B');
    let c = arena.insert('C');
    assert_eq!(arena.remove(a), Some('A'));
    assert_eq!(arena.as_slice(), &['C', 'B']);
    assert_eq!(arena.get(a), None);
    assert_eq!(arena.get(b), Some(&'B'));
    assert_eq!(arena.get(c), Some(&'C'));
    assert_eq!(arena.index_of(c), Some(0));
    assert_eq!(arena.id_at(0), Some(c));
    assert_eq!(arena.id_at(1), Some(b));
}

#[test]
fn removing_the_last_is_a_truncation() {
    let mut arena = Arena::new();
    let a = arena.insert(1);
    let b = arena.insert(2);
    assert_eq!(arena.remove(b), Some(2));
    assert_eq!(arena.as_slice(), &[1]);
    assert_eq!(arena.get(a), Some(&1));
    assert_eq!(arena.id_at(0), Some(a));
    assert_eq!(arena.slot_count(), 2);
    assert_eq!(arena.free_slot_count(), 1);
}

#[test]
fn insert_then_get_returns_the_value() {
    let mut arena = Arena::new();
    for i in 0..10u32 {
        let id = arena.insert(i * 7);
        assert_eq!(arena.get(id), Some(&(i * 7)));
        if i % 3 == 0 {
            assert_eq!(arena.remove(id), Some(i * 7));
        }
    }
    assert_eq!(arena.len(), 6);
}

#[test]
fn new_arena_is_empty() {
    let mut arena: Arena<String> = Arena::new();
    assert!(arena.is_empty());
    assert_eq!(arena.len(), 0);
    assert_eq!(arena.slot_count(), 0);
    assert_eq!(arena.free_slot_count(), 0);
    arena.insert(String::from("A"));
    assert!(!arena.is_empty());

    let other: Arena<String> = Arena::with_capacity(1000);
    assert!(other.is_empty());
    assert_eq!(other.slot_count(), 0);

    let defaulted: Arena<u8> = Arena::default();
    assert!(defaulted.is_empty());
}

#[test]
fn slot_count_and_clear() {
    let mut arena = Arena::from_vec(vec!['A', 'B', 'C']);
    assert_eq!(arena.len(), 3);
    assert_eq!(arena.slot_count(), 3);
    arena.clear();
    assert_eq!(arena.len(), 0);
    assert_eq!(arena.slot_count(), 3);
    assert_eq!(arena.free_slot_count(), 3);
    assert!(arena.as_slice().is_empty());
}

#[test]
fn clear_all_drops_the_slots() {
    let mut arena = Arena::from_vec(vec!['A', 'B', 'C']);
    let a = arena.id_at(0).unwrap();
    assert_eq!(arena.len(), 3);
    assert_eq!(arena.slot_count(), 3);
    arena.clear_all();
    assert_eq!(arena.len(), 0);
    assert_eq!(arena.slot_count(), 0);
    assert_eq!(arena.free_slot_count(), 0);
    let x = arena.insert('X');
    assert_eq!(arena.get(a), None);
    assert_eq!(arena.get(x), Some(&'X'));
    assert_ne!(a, x);
}

#[test]
fn clear_on_empty_arena_does_nothing() {
    let mut arena: Arena<u8> = Arena::new();
    arena.clear();
    assert_eq!(arena.slot_count(), 0);
    arena.clear_all();
    assert_eq!(arena.slot_count(), 0);
}

#[test]
fn cleared_slots_are_reused() {
    let mut arena = Arena::new();
    let a = arena.insert('A');
    let b = arena.insert('B');
    let c = arena.insert('C');
    arena.clear();
    let x = arena.insert('X');
    let y = arena.insert('Y');
    assert_eq!(arena.slot_count(), 3);
    assert_eq!(arena.free_slot_count(), 1);
    assert_eq!(arena.get(a), None);
    assert_eq!(arena.get(b), None);
    assert_eq!(arena.get(c), None);
    assert_eq!(arena.get(x), Some(&'X'));
    assert_eq!(arena.get(y), Some(&'Y'));
    assert_eq!(arena.as_slice(), &['X', 'Y']);
}

#[test]
fn free_slot_count_after_pop() {
    let mut arena = Arena::from_vec(vec!['A', 'B', 'C']);
    assert_eq!(arena.slot_count(), 3);
    assert_eq!(arena.free_slot_count(), 0);
    let _ = arena.pop();
    assert_eq!(arena.slot_count(), 3);
    assert_eq!(arena.free_slot_count(), 1);
}

#[test]
fn slot_count_never_shrinks_while_cycling() {
    let mut arena = Arena::new();
    let mut last = 0;
    for round in 0..20u32 {
        let a = arena.insert(round);
        let b = arena.insert(round + 100);
        assert!(arena.slot_count() >= last);
        last = arena.slot_count();
        assert_eq!(arena.remove(a), Some(round));
        assert_eq!(arena.slot_count(), last);
        if round % 2 == 0 {
            assert_eq!(arena.remove(b), Some(round + 100));
        }
        assert_eq!(arena.free_slot_count(), arena.slot_count() - arena.len());
    }
    assert_eq!(arena.len(), 10);
    assert_eq!(arena.slot_count(), 11);
}

#[test]
fn as_slice_after_pop() {
    let mut arena = Arena::from_vec(vec!['A', 'B', 'C']);
    assert_eq!(arena.as_slice(), &['A', 'B', 'C']);
    let _ = arena.pop();
    assert_eq!(arena.as_slice(), &['A', 'B']);
}

#[test]
fn as_mut_slice_edits_in_place() {
    let mut arena: Arena<i32> = Arena::from_vec(vec![1, 2, 3, 4, 5]);
    let first = arena.id_at(0).unwrap();
    assert_eq!(arena.as_mut_slice(), &[1, 2, 3, 4, 5]);
    for num in arena.as_mut_slice() {
        *num += 1;
    }
    assert_eq!(arena.as_mut_slice(), &[2, 3, 4, 5, 6]);
    assert_eq!(arena.get(first), Some(&2));
}

#[test]
fn get_mut_writes_through() {
    let mut arena = Arena::new();
    let a = arena.insert('A');
    let b = arena.insert('B');
    assert_eq!(arena.as_slice(), &['A', 'B']);
    if let Some(a_val) = arena.get_mut(a) {
        *a_val = 'B';
    }
    if let Some(b_val) = arena.get_mut(b) {
        *b_val = 'A';
    }
    assert_eq!(arena.as_slice(), &['B', 'A']);
    arena.remove(a);
    assert!(arena.get_mut(a).is_none());
}

#[test]
fn contains_follows_removal() {
    let mut arena = Arena::new();
    let a = arena.insert('A');
    let b = arena.insert('B');
    let c = arena.insert('C');
    assert!(arena.contains(a));
    assert!(arena.contains(b));
    assert!(arena.contains(c));
    arena.remove(a);
    assert!(!arena.contains(a));
    assert!(arena.contains(b));
    assert!(arena.contains(c));
}

#[test]
fn id_at_follows_the_moved_value() {
    let mut arena = Arena::new();
    let a = arena.insert('A');
    let b = arena.insert('B');
    let c = arena.insert('C');
    assert_eq!(arena.id_at(0), Some(a));
    assert_eq!(arena.id_at(1), Some(b));
    assert_eq!(arena.id_at(2), Some(c));
    arena.remove(b);
    assert_eq!(arena.id_at(0), Some(a));
    assert_eq!(arena.id_at(1), Some(c));
    assert_eq!(arena.id_at(2), None);
}

#[test]
fn index_of_and_remove_at() {
    let mut arena = Arena::new();
    let a = arena.insert('A');
    let b = arena.insert('B');
    let c = arena.insert('C');
    let d = arena.insert('D');
    assert_eq!(arena.as_slice(), &['A', 'B', 'C', 'D']);
    assert_eq!(arena.index_of(a), Some(0));
    assert_eq!(arena.index_of(b), Some(1));
    assert_eq!(arena.index_of(c), Some(2));
    assert_eq!(arena.index_of(d), Some(3));
    arena.remove_at(1);
    assert_eq!(arena.as_slice(), &['A', 'D', 'C']);
    assert_eq!(arena.index_of(d), Some(1));
    assert_eq!(arena.index_of(b), None);
}

#[test]
fn remove_at_sequence() {
    let mut arena = Arena::from_vec(vec!['A', 'B', 'C']);
    assert_eq!(arena.remove_at(5), None);
    assert_eq!(arena.remove_at(1), Some('B'));
    assert_eq!(arena.remove_at(1), Some('C'));
    assert_eq!(arena.remove_at(1), None);
    assert_eq!(arena.remove_at(0), Some('A'));
    assert_eq!(arena.remove_at(0), None);
}

#[test]
fn remove_twice() {
    let mut arena = Arena::new();
    let foo = arena.insert("foo");
    assert_eq!(arena.remove(foo), Some("foo"));
    assert_eq!(arena.remove(foo), None);
    assert_eq!(arena.len(), 0);
}

#[test]
fn pop_yields_from_the_back() {
    let mut arena = Arena::from_vec(vec!['A', 'B', 'C']);
    assert_eq!(arena.pop(), Some('C'));
    assert_eq!(arena.pop(), Some('B'));
    assert_eq!(arena.pop(), Some('A'));
    assert_eq!(arena.pop(), None);
}

#[test]
fn removed_handle_never_resolves_again() {
    let mut arena = Arena::new();
    let old = arena.insert('A');
    arena.remove(old);
    let new = arena.insert('B');
    assert_eq!(arena.slot_count(), 1);
    assert_ne!(old, new);
    assert_eq!(arena.get(old), None);
    assert_eq!(arena.get(new), Some(&'B'));
    assert!(!arena.contains(old));
    assert_eq!(arena.remove(old), None);
    assert_eq!(arena.get(new), Some(&'B'));
}

#[test]
fn handles_are_ordered_by_generation() {
    let mut arena = Arena::new();
    let a = arena.insert(0);
    let b = arena.insert(1);
    arena.remove(a);
    let c = arena.insert(2);
    assert!(a < b);
    assert!(b < c);
    let mut ids: Vec<ArenaId> = vec![c, a, b];
    ids.sort();
    assert_eq!(ids, vec![a, b, c]);
}

#[test]
fn insert_with_hands_over_the_handle() {
    struct Person {
        id: ArenaId,
        name: &'static str,
    }
    let mut arena = Arena::new();
    let foo = arena.insert_with(|id| Person { id, name: "Foo" });
    let bar = arena.insert_with(|id| Person { id, name: "Bar" });
    assert_ne!(foo, bar);
    assert_eq!(arena.get(foo).unwrap().id, foo);
    assert_eq!(arena.get(foo).unwrap().name, "Foo");
    assert_eq!(arena.get(bar).unwrap().id, bar);
    assert_eq!(arena.get(bar).unwrap().name, "Bar");
}

#[test]
fn insert_with_reuses_a_free_slot() {
    let mut arena = Arena::new();
    let a = arena.insert(ArenaIdHolder(None));
    arena.remove(a);
    let b = arena.insert_with(|id| ArenaIdHolder(Some(id)));
    assert_eq!(arena.get(b).unwrap().0, Some(b));
    assert_eq!(arena.slot_count(), 1);
    assert!(arena.get(a).is_none());
}

#[derive(Debug, PartialEq)]
struct ArenaIdHolder(Option<ArenaId>);

#[test]
fn swap_positions_keeps_handles() {
    let mut arena = Arena::new();
    let a = arena.insert('A');
    let b = arena.insert('B');
    assert_eq!(arena.as_slice(), &['A', 'B']);
    assert!(arena.swap_positions(a, b));
    assert_eq!(arena.as_slice(), &['B', 'A']);
    assert_eq!(arena.get(a), Some(&'A'));
    assert_eq!(arena.get(b), Some(&'B'));
    arena.remove(a);
    assert!(!arena.swap_positions(a, b));
    assert_eq!(arena.as_slice(), &['B']);
}

#[test]
fn swap_keeps_handles() {
    let mut arena = Arena::new();
    let a = arena.insert('A');
    let b = arena.insert('B');
    let c = arena.insert('C');
    arena.swap(0, 1);
    assert_eq!(arena.as_slice(), &['B', 'A', 'C']);
    assert_eq!(arena.get(a), Some(&'A'));
    assert_eq!(arena.get(b), Some(&'B'));
    assert_eq!(arena.get(c), Some(&'C'));
    arena.swap(2, 0);
    assert_eq!(arena.as_slice(), &['C', 'A', 'B']);
    assert_eq!(arena.id_at(0), Some(c));
    assert_eq!(arena.id_at(2), Some(b));
    arena.swap(1, 1);
    assert_eq!(arena.as_slice(), &['C', 'A', 'B']);
    assert_eq!(arena.get(a), Some(&'A'));
    assert_eq!(arena.get(b), Some(&'B'));
    assert_eq!(arena.get(c), Some(&'C'));
    assert_eq!(arena.remove(c), Some('C'));
    assert_eq!(arena.get(b), Some(&'B'));
    assert_eq!(arena.get(a), Some(&'A'));
}

#[test]
fn sort_by_keeps_handles() {
    let mut arena = Arena::new();
    let c = arena.insert('C');
    let a = arena.insert('A');
    let b = arena.insert('B');
    assert_eq!(arena.as_slice(), &['C', 'A', 'B']);
    arena.sort_by(|x, y| x.cmp(y));
    assert_eq!(arena.as_slice(), &['A', 'B', 'C']);
    assert_eq!(arena.get(a), Some(&'A'));
    assert_eq!(arena.get(b), Some(&'B'));
    assert_eq!(arena.get(c), Some(&'C'));
    arena.sort_by(|x, y| y.cmp(x));
    assert_eq!(arena.as_slice(), &['C', 'B', 'A']);
    assert_eq!(arena.get(a), Some(&'A'));
    assert_eq!(arena.index_of(a), Some(2));
}

#[test]
fn sort_orders_values_and_keeps_handles() {
    let mut arena = Arena::new();
    let c = arena.insert('C');
    let a = arena.insert('A');
    let b = arena.insert('B');
    arena.sort();
    assert_eq!(arena.as_slice(), &['A', 'B', 'C']);
    assert_eq!(arena.get(a), Some(&'A'));
    assert_eq!(arena.get(b), Some(&'B'));
    assert_eq!(arena.get(c), Some(&'C'));
}

#[test]
fn sort_with_duplicates_and_removals() {
    let mut arena = Arena::new();
    let mut ids = Vec::new();
    for v in [5, 3, 9, 3, 1, 7, 5, 0, 8, 2] {
        ids.push((arena.insert(v), v));
    }
    arena.remove(ids[2].0);
    arena.sort();
    assert_eq!(arena.as_slice(), &[0, 1, 2, 3, 3, 5, 5, 7, 8]);
    for (k, (id, v)) in ids.iter().enumerate() {
        if k == 2 {
            assert_eq!(arena.get(*id), None);
        } else {
            assert_eq!(arena.get(*id), Some(v));
        }
    }
}

#[test]
fn sort_of_empty_and_single() {
    let mut arena: Arena<u8> = Arena::new();
    arena.sort();
    assert!(arena.is_empty());
    let a = arena.insert(4);
    arena.sort();
    assert_eq!(arena.get(a), Some(&4));
}

#[test]
fn pairs_walk_in_physical_order() {
    let mut arena = Arena::new();
    let a = arena.insert('A');
    let b = arena.insert('B');
    let c = arena.insert('C');
    let mut pairs = arena.pairs();
    assert_eq!(pairs.next(), Some((a, &'A')));
    assert_eq!(pairs.next(), Some((b, &'B')));
    assert_eq!(pairs.next(), Some((c, &'C')));
    assert_eq!(pairs.next(), None);
    assert_eq!(pairs.next(), None);
}

#[test]
fn ids_walk_in_physical_order() {
    let mut arena = Arena::new();
    let a = arena.insert('A');
    let b = arena.insert('B');
    let c = arena.insert('C');
    {
        let mut ids = arena.ids();
        assert_eq!(ids.next(), Some(a));
        assert_eq!(ids.next(), Some(b));
        assert_eq!(ids.next(), Some(c));
        assert_eq!(ids.next(), None);
    }
    arena.remove(a);
    let mut ids = arena.ids();
    assert_eq!(ids.next(), Some(c));
    assert_eq!(ids.next(), Some(b));
    assert_eq!(ids.next(), None);
}

#[test]
fn pairs_after_reuse_and_swap() {
    let mut arena = Arena::new();
    let a = arena.insert(10);
    let b = arena.insert(20);
    arena.remove(a);
    let c = arena.insert(30);
    arena.swap(0, 1);
    let mut pairs = arena.pairs();
    assert_eq!(pairs.next(), Some((c, &30)));
    assert_eq!(pairs.next(), Some((b, &20)));
    assert_eq!(pairs.next(), None);
}

#[test]
fn extend_from_slice_clones_in_order() {
    let mut arena = Arena::new();
    let x = arena.insert(String::from("x"));
    arena.remove(x);
    let words = [String::from("a"), String::from("b"), String::from("c")];
    arena.extend_from_slice(&words);
    assert_eq!(arena.len(), 3);
    assert_eq!(arena.slot_count(), 3);
    assert_eq!(arena.as_slice(), &words);
    assert_eq!(arena.get(x), None);
    let first = arena.id_at(0).unwrap();
    assert_eq!(arena.get(first).map(|s| s.as_str()), Some("a"));
}

#[test]
fn from_vec_matches_inserting_in_order() {
    let from = Arena::from_vec(vec![7, 8, 9]);
    let mut inserted = Arena::new();
    let a = inserted.insert(7);
    let b = inserted.insert(8);
    let c = inserted.insert(9);
    assert_eq!(from.id_at(0), Some(a));
    assert_eq!(from.id_at(1), Some(b));
    assert_eq!(from.id_at(2), Some(c));
    assert_eq!(from.get(b), Some(&8));
    let empty: Arena<u8> = Arena::from_vec(Vec::new());
    assert!(empty.is_empty());
}
