use arena::{Arena, Entry};

fn owned(arena: &Arena<char>) -> Vec<Entry<char>> {
    arena
        .entries()
        .into_iter()
        .map(|e| Entry { generation: e.generation, slot: e.slot, value: *e.value })
        .collect()
}

#[test]
fn test_ser() {
    let mut arena = Arena::new();
    let a = arena.insert('A');
    let b = arena.insert('B');
    let c = arena.insert('C');

    let stored = owned(&arena);
    assert_eq!(stored.len(), 3);
    let loaded: Arena<char> = Arena::from_entries(arena.next_generation(), stored).unwrap();
    assert_eq!(loaded.as_slice(), &['A', 'B', 'C']);
    assert_eq!(loaded.get(a), Some(&'A'));
    assert_eq!(loaded.get(b), Some(&'B'));
    assert_eq!(loaded.get(c), Some(&'C'));
    assert_eq!(loaded.next_generation(), arena.next_generation());
}

#[test]
fn entries_are_listed_by_slot() {
    let mut arena = Arena::new();
    let a = arena.insert('A');
    arena.insert('B');
    arena.insert('C');
    arena.remove(a);
    let d = arena.insert('D');
    arena.sort_by(|x, y| y.cmp(x));
    assert_eq!(arena.as_slice(), &['D', 'C', 'B']);
    let listed: Vec<(u64, usize, char)> =
        arena.entries().into_iter().map(|e| (e.generation, e.slot, *e.value)).collect();
    assert_eq!(listed, vec![(4, 0, 'D'), (2, 1, 'B'), (3, 2, 'C')]);
    assert_eq!(arena.get(d), Some(&'D'));
    assert_eq!(arena.next_generation(), 5);
}

#[test]
fn round_trip_after_removals_keeps_handles_and_gaps() {
    let mut arena = Arena::new();
    let ids: Vec<_> = "ABCDE".chars().map(|ch| (arena.insert(ch), ch)).collect();
    arena.remove(ids[1].0);
    arena.remove(ids[3].0);
    arena.swap(0, 2);

    let loaded = Arena::from_entries(arena.next_generation(), owned(&arena)).unwrap();
    for (k, (id, ch)) in ids.iter().enumerate() {
        if k == 1 || k == 3 {
            assert_eq!(loaded.get(*id), None);
        } else {
            assert_eq!(loaded.get(*id), Some(ch));
        }
    }
    assert_eq!(loaded.as_slice(), &['A', 'C', 'E']);
    assert_eq!(loaded.slot_count(), 5);
    assert_eq!(loaded.free_slot_count(), 2);

    let mut loaded = loaded;
    let x = loaded.insert('X');
    let y = loaded.insert('Y');
    let slots: Vec<(usize, char)> = loaded.entries().into_iter().map(|e| (e.slot, *e.value)).collect();
    assert_eq!(slots, vec![(0, 'A'), (1, 'X'), (2, 'C'), (3, 'Y'), (4, 'E')]);
    assert_eq!(loaded.get(x), Some(&'X'));
    assert_eq!(loaded.get(y), Some(&'Y'));
    assert_eq!(loaded.get(ids[1].0), None);
    assert_eq!(loaded.get(ids[3].0), None);
}

#[test]
fn from_entries_sorts_by_slot() {
    let entries = vec![
        Entry { generation: 3, slot: 4, value: 'c' },
        Entry { generation: 1, slot: 0, value: 'a' },
        Entry { generation: 2, slot: 2, value: 'b' },
    ];
    let arena = Arena::from_entries(10, entries).unwrap();
    assert_eq!(arena.as_slice(), &['a', 'b', 'c']);
    assert_eq!(arena.slot_count(), 5);
    assert_eq!(arena.free_slot_count(), 2);
    assert_eq!(arena.next_generation(), 10);
}

#[test]
fn from_entries_rejects_a_shared_slot() {
    let entries = vec![
        Entry { generation: 1, slot: 2, value: 'a' },
        Entry { generation: 2, slot: 2, value: 'b' },
    ];
    assert!(Arena::from_entries(10, entries).is_none());
}

#[test]
fn from_entries_rejects_an_unissued_generation() {
    let entries = vec![
        Entry { generation: 1, slot: 0, value: 'a' },
        Entry { generation: 10, slot: 1, value: 'b' },
    ];
    assert!(Arena::from_entries(10, entries).is_none());
}

#[test]
fn from_no_entries_is_empty() {
    let arena: Arena<u8> = Arena::from_entries(7, Vec::new()).unwrap();
    assert!(arena.is_empty());
    assert_eq!(arena.slot_count(), 0);
    assert_eq!(arena.next_generation(), 7);
}
