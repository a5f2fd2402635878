use benilla_world::wdl::{ring_changes, WDL_LOADS_PER_FRAME, WDL_RADIUS};

/// The stale tiles leave in load order; the missing ones arrive in ring order, eight a frame.
#[test]
fn the_ring_drops_the_stale_and_paces_the_missing() {
    let loaded = [(1, 1), (2, 2), (3, 3)];
    let desired: Vec<(u32, u32)> = (0..4).flat_map(|x| (0..4).map(move |y| (x, y))).collect();
    let (stale, missing) = ring_changes(&loaded, &desired[..]);
    assert!(stale.is_empty());
    assert_eq!(missing.len(), WDL_LOADS_PER_FRAME);
    assert_eq!(missing[0], (0, 0));
    assert!(!missing.contains(&(1, 1)));
    assert_eq!(missing[5], (1, 2));

    let (stale, missing) = ring_changes(&[(9, 9), (0, 0), (8, 8)], &[(0, 0), (0, 1)]);
    assert_eq!(stale, vec![(9, 9), (8, 8)]);
    assert_eq!(missing, vec![(0, 1)]);
}

#[test]
fn the_ring_reaches_five_tiles() {
    assert_eq!(WDL_RADIUS, 5);
}
