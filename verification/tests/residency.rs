use benilla_world::residency::{
    publish_residency, release_candidates, request_order, residency, DesiredTile,
    GlobalWmoState, StreamActivity, WorldLoadProgress,
};
use benilla_world::window::StreamWindow;

/// A tile past the keep band is released; a kept one is not.
#[test]
fn stale_tiles_release_and_the_budget_takes_the_farthest() {
    let w = StreamWindow::around((32 * 16 + 7, 44 * 16 + 7), 24);
    let resident = [(32, 44), (40, 44), (20, 44), (36, 44), (32, 50)];
    assert_eq!(
        release_candidates(&resident, &w, 0),
        vec![(40, 44), (20, 44), (36, 44), (32, 50)]
    );
    let one = release_candidates(&resident, &w, 1);
    assert_eq!(one, vec![(20, 44)]);
    let two = release_candidates(&resident, &w, 2);
    assert_eq!(two.len(), 2);
    assert!(two.contains(&(20, 44)) && two.contains(&(40, 44)));
    assert!(release_candidates(&[(32, 44)], &w, 3).is_empty());
}

/// Everything missing while loading; only the nearest one at a time once settled.
#[test]
fn requests_stagger_once_settled() {
    let desired = [(1, 1), (2, 2), (3, 3), (4, 4)];
    let present = [false, true, false, false];
    assert_eq!(
        request_order(&desired, &present, (3, 3), false),
        vec![(1, 1), (3, 3), (4, 4)]
    );
    assert_eq!(request_order(&desired, &present, (3, 3), true), vec![(3, 3)]);
    assert_eq!(request_order(&desired, &present, (0, 0), true), vec![(1, 1)]);
    assert!(request_order(&desired, &[true; 4], (0, 0), true).is_empty());
}

#[test]
fn the_debug_residency_counts_furnished_tiles() {
    assert_eq!(residency(&[true, false, true]), (2, 3));
    assert_eq!(residency(&[]), (0, 0));
}

#[test]
fn readiness_needs_a_window_and_presentability_needs_no_backlog() {
    let mut p = WorldLoadProgress::default();
    assert!(!p.is_ready());
    p.total = 3;
    p.ready = 3;
    assert!(p.is_ready());
    p.scene_ready = true;
    assert!(p.presentable());
    p.merge_pending = 1;
    assert!(!p.presentable());
    p.merge_pending = 0;
    p.gx_pending = 2;
    assert!(p.should_flush_retained(false));
    assert!(!p.should_flush_retained(true));
}

#[test]
fn any_event_ignores_the_entity_tally() {
    let mut a = StreamActivity::default();
    assert!(!a.any_event());
    a.placement_entities_dropped = 9;
    assert!(!a.any_event());
    a.cells_spawned = 1;
    assert!(a.any_event());
}

fn desired(tile: (i32, i32), furnished: bool, up: Vec<bool>) -> DesiredTile {
    DesiredTile {
        tile,
        furnished,
        placements_up: up,
    }
}

/// The counts cover every wanted tile and the focus neighbourhood's placements, then latch.
#[test]
fn residency_counts_and_latches() {
    let mut p = WorldLoadProgress::default();
    let tiles = vec![
        desired((5, 5), true, vec![true, false]),
        desired((6, 5), true, vec![true]),
        desired((9, 9), false, vec![true, true]),
    ];
    publish_residency(&mut p, &tiles, (5, 5), true, None, false, false);
    assert_eq!(p.focus_tile, Some((5, 5)));
    assert!(p.focus_resident);
    assert_eq!(p.total, 3 + 3);
    assert_eq!(p.ready, 2 + 2);
    assert_eq!(p.placements_pending, 1);
    assert!(!p.scene_ready);
    assert!(!p.complete);

    let done = vec![
        desired((5, 5), true, vec![true, true]),
        desired((6, 5), true, vec![true]),
    ];
    publish_residency(&mut p, &done, (5, 5), true, None, false, false);
    assert!(p.scene_ready && p.is_ready() && p.complete);
    let (total, ready) = (p.total, p.ready);
    publish_residency(&mut p, &tiles, (5, 5), true, None, false, false);
    assert_eq!((p.total, p.ready), (total, ready), "the latch freezes the counts");
    publish_residency(&mut p, &tiles, (5, 5), true, None, true, false);
    assert!(!p.complete, "the edge into a load re-arms");
}

/// A WMO-only map counts its one building.
#[test]
fn a_wmo_only_map_counts_its_building() {
    let mut p = WorldLoadProgress::default();
    publish_residency(
        &mut p,
        &[],
        (0, 0),
        true,
        Some(GlobalWmoState {
            spawned: true,
            full: false,
        }),
        false,
        false,
    );
    assert_eq!(p.total, 1);
    assert_eq!(p.ready, 0);
}

use benilla_world::residency::{skip_unchanged_frame, streamer_settled};

#[test]
fn the_streamer_settles_only_with_every_tile_up() {
    assert!(streamer_settled(true, true, &[true, true]));
    assert!(!streamer_settled(true, true, &[true, false]));
    assert!(!streamer_settled(false, true, &[]));
    assert!(!streamer_settled(true, false, &[]));
    assert!(streamer_settled(true, true, &[]));
}

#[test]
fn an_unchanged_frame_is_skipped_only_when_everything_is_done() {
    let mut p = WorldLoadProgress::default();
    p.complete = true;
    p.scene_ready = true;
    assert!(skip_unchanged_frame(true, true, true, true, true, Some(&p)));
    assert!(skip_unchanged_frame(true, true, true, true, true, None));
    assert!(!skip_unchanged_frame(true, true, true, false, true, Some(&p)));
    assert!(!skip_unchanged_frame(true, true, false, false, true, Some(&p)));
    assert!(!skip_unchanged_frame(false, true, true, true, true, Some(&p)));
    assert!(!skip_unchanged_frame(true, true, true, true, false, Some(&p)));
    p.colliders_pending = 1;
    assert!(!skip_unchanged_frame(true, true, true, true, true, Some(&p)));
}

use benilla_world::residency::placement_priority;

#[test]
fn nearer_placements_build_first() {
    assert_eq!(placement_priority((32, 44), (32, 44)), 16);
    assert_eq!(placement_priority((33, 44), (32, 44)), 32);
    assert_eq!(placement_priority((30, 47), (32, 44)), 64);
}
