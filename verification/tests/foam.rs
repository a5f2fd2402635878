use benilla_world::foam::{alloc_slot, POOL_SIZE, SELF_SLOTS};

#[test]
fn pool_partitions_and_evicts() {
    let mut self_cursor: usize = 0;
    for _ in 0..SELF_SLOTS + 3 {
        let i = alloc_slot(&mut self_cursor, 0, SELF_SLOTS);
        assert!(i < SELF_SLOTS);
    }
    assert_eq!(self_cursor, 3);
    let mut other_cursor: usize = 0;
    for _ in 0..(POOL_SIZE - SELF_SLOTS) + 5 {
        let i = alloc_slot(&mut other_cursor, SELF_SLOTS, POOL_SIZE - SELF_SLOTS);
        assert!((SELF_SLOTS..POOL_SIZE).contains(&i));
    }
    assert_eq!(other_cursor, 5);
}

#[test]
fn the_oldest_slot_comes_back_after_a_full_lap() {
    let mut cursor: usize = 0;
    let first = alloc_slot(&mut cursor, SELF_SLOTS, 4);
    assert_eq!(first, 32);
    assert_eq!(alloc_slot(&mut cursor, SELF_SLOTS, 4), 33);
    assert_eq!(alloc_slot(&mut cursor, SELF_SLOTS, 4), 34);
    assert_eq!(alloc_slot(&mut cursor, SELF_SLOTS, 4), 35);
    assert_eq!(cursor, 0);
    assert_eq!(alloc_slot(&mut cursor, SELF_SLOTS, 4), first);
}
