use mcserv::slotmap::SlotMap;

#[test]
fn insert_hands_out_sequential_handles() {
    let mut m: SlotMap<u32> = SlotMap::new();
    assert_eq!(m.insert(10), 0);
    assert_eq!(m.insert(11), 1);
    assert_eq!(m.insert(12), 2);
    assert_eq!(m.get(0), Some(&10));
    assert_eq!(m.get(1), Some(&11));
    assert_eq!(m.get(2), Some(&12));
}

#[test]
fn release_then_insert_reuses_freed_indices_before_growing() {
    let mut m: SlotMap<u32> = SlotMap::new();
    for i in 0..6u32 {
        m.insert(100 + i);
    }
    // free a non-contiguous subset
    assert_eq!(m.release(1), Some(101));
    assert_eq!(m.release(4), Some(104));
    assert_eq!(m.release(2), Some(102));
    // the freed indices come back, most recently freed first, before
    // the arena grows
    let a = m.insert(201);
    let b = m.insert(202);
    let c = m.insert(203);
    assert_eq!(a, 2);
    assert_eq!(b, 4);
    assert_eq!(c, 1);
    // only now does a fresh insert grow
    assert_eq!(m.insert(204), 6);
    // a released-then-reused index returns the new value, never the old
    assert_eq!(m.get(2), Some(&201));
    assert_eq!(m.get(4), Some(&202));
    assert_eq!(m.get(1), Some(&203));
}

#[test]
fn release_stale_or_out_of_range_reports_not_found() {
    let mut m: SlotMap<u32> = SlotMap::new();
    m.insert(5);
    m.insert(6);
    // out of range
    assert_eq!(m.release(9), None);
    // double release
    assert_eq!(m.release(0), Some(5));
    assert_eq!(m.release(0), None);
    // the free chain still works: subsequent inserts produce unique,
    // live indices
    let a = m.insert(7);
    let b = m.insert(8);
    assert_ne!(a, b);
    assert_eq!(m.get(a), Some(&7));
    assert_eq!(m.get(b), Some(&8));
    assert_eq!(m.get(1), Some(&6));
}

#[test]
fn get_stale_handle_is_none() {
    let mut m: SlotMap<u32> = SlotMap::new();
    let i = m.insert(42);
    assert_eq!(m.release(i), Some(42));
    assert_eq!(m.get(i), None);
    assert_eq!(m.get(100), None);
}

#[test]
fn get_mut_updates_in_place() {
    let mut m: SlotMap<u32> = SlotMap::new();
    let i = m.insert(1);
    if let Some(v) = m.get_mut(i) {
        *v = 99;
    }
    assert_eq!(m.get(i), Some(&99));
    assert!(m.get_mut(77).is_none());
}

#[test]
fn next_idx_predicts_insert() {
    let mut m: SlotMap<u32> = SlotMap::new();
    assert_eq!(m.next_idx(), 0);
    m.insert(1);
    m.insert(2);
    m.release(0);
    assert_eq!(m.next_idx(), 0);
    assert_eq!(m.insert(3), 0);
    assert_eq!(m.next_idx(), 2);
}

#[test]
fn retain_drops_failing_entries_and_reuses_their_slots() {
    let mut m: SlotMap<u32> = SlotMap::new();
    for i in 0..5u32 {
        m.insert(i);
    }
    m.retain(|_, v| *v % 2 == 0);
    assert_eq!(m.get(0), Some(&0));
    assert_eq!(m.get(1), None);
    assert_eq!(m.get(2), Some(&2));
    assert_eq!(m.get(3), None);
    assert_eq!(m.get(4), Some(&4));
    // the freed slots thread onto the free chain
    let a = m.insert(10);
    let b = m.insert(11);
    assert!(a == 1 || a == 3);
    assert!(b == 1 || b == 3);
    assert_ne!(a, b);
}

#[test]
fn iter_mut_cursor_visits_live_slots_in_order() {
    let mut m: SlotMap<u32> = SlotMap::new();
    for i in 0..4u32 {
        m.insert(i);
    }
    m.release(1);
    let mut it = m.iter_mut();
    let mut seen: Vec<usize> = Vec::new();
    while let Some(i) = it.next(&m) {
        seen.push(i);
    }
    assert_eq!(seen, vec![0, 2, 3]);
}
