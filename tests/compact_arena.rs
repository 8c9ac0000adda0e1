use arena::CompactArena;

#[test]
fn compact_insert_remove_and_reuse() {
    let mut arena = CompactArena::new();
    let a = arena.insert('A');
    let b = arena.insert('B');
    let c = arena.insert('C');
    assert_eq!(arena.as_slice(), &['A', 'B', 'C']);
    assert_eq!(arena.len(), 3);
    assert_eq!(arena.remove(b), Some('B'));
    assert_eq!(arena.as_slice(), &['A', 'C']);
    assert_eq!(arena.remove(b), None);
    assert_eq!(arena.slot_count(), 3);
    assert_eq!(arena.free_slot_count(), 1);
    let d = arena.insert('D');
    assert_eq!(arena.slot_count(), 3);
    assert_eq!(arena.free_slot_count(), 0);
    assert_ne!(b, d);
    assert_eq!(arena.remove(c), Some('C'));
    assert_eq!(arena.remove(a), Some('A'));
    assert_eq!(arena.as_slice(), &['D']);
    assert_eq!(arena.remove(d), Some('D'));
    assert_eq!(arena.len(), 0);
}

#[test]
fn compact_remove_last_value() {
    let mut arena = CompactArena::with_capacity(4);
    let a = arena.insert(1u8);
    assert_eq!(arena.remove(a), Some(1));
    assert_eq!(arena.len(), 0);
    assert_eq!(arena.free_slot_count(), 1);
}

#[test]
fn compact_clear_keeps_slots() {
    let mut arena = CompactArena::new();
    let a = arena.insert(1);
    arena.insert(2);
    arena.clear();
    assert_eq!(arena.len(), 0);
    assert_eq!(arena.slot_count(), 2);
    assert_eq!(arena.free_slot_count(), 2);
    let b = arena.insert_with(|_| 3);
    assert_eq!(arena.remove(a), None);
    assert_eq!(arena.as_slice(), &[3]);
    assert_eq!(arena.remove(b), Some(3));
}
