use benilla_world::merge::{
    elapsed, reconsolidation_due, reconsolidation_plan, retire_due, MergeAcc, MERGE_IDLE_FRAMES,
    MERGE_MAX_VERTS, RECONSOLIDATE_IDLE_FRAMES, RETIRE_FRAMES,
};

/// Two small fragments of one cell re-bake into one blob.
#[test]
fn two_small_fragments_rebake_into_one() {
    assert_eq!(reconsolidation_plan(&[3, 3]), Some(vec![0]));
}

/// Two fragments at the vertex cap cannot shrink, so the plan declines.
#[test]
fn capped_fragments_are_left_as_they_are() {
    assert_eq!(reconsolidation_plan(&[MERGE_MAX_VERTS, MERGE_MAX_VERTS]), None);
    assert_eq!(reconsolidation_plan(&[5]), None);
    assert_eq!(reconsolidation_plan(&[]), None);
}

/// First-fit in spawn order: a blob starts over when the next fragment would overflow it.
#[test]
fn first_fit_starts_a_blob_at_the_cap() {
    assert_eq!(
        reconsolidation_plan(&[30_000, 30_000, 30_000, 5_000]),
        Some(vec![0, 2])
    );
    assert_eq!(
        reconsolidation_plan(&[70_000, 1, 1, 70_000, 1]),
        Some(vec![0, 1, 3, 4])
    );
}

/// An accumulator closes at the vertex cap at once, else after its idle tail.
#[test]
fn a_blob_closes_at_the_cap_or_the_idle_tail() {
    let mut acc: MergeAcc<u8> = MergeAcc::new(100);
    acc.push(1, 3, None, 100);
    assert!(!acc.ready(100 + MERGE_IDLE_FRAMES - 1, MERGE_IDLE_FRAMES));
    assert!(acc.ready(100 + MERGE_IDLE_FRAMES, MERGE_IDLE_FRAMES));
    acc.push(2, MERGE_MAX_VERTS, None, 120);
    assert!(acc.ready(120, MERGE_IDLE_FRAMES));
    assert_eq!(acc.parts, vec![1, 2]);
    assert_eq!(acc.verts, MERGE_MAX_VERTS + 3);
    assert!(acc.slots.is_empty());
}

/// An interior prop's slots stay parallel to its parts.
#[test]
fn interior_slots_stay_parallel() {
    let mut acc: MergeAcc<u8> = MergeAcc::new(0);
    acc.push(1, 3, Some(11), 0);
    acc.push(2, 3, Some(12), 0);
    assert_eq!(acc.slots, vec![11, 12]);
    assert_eq!(acc.parts.len(), acc.slots.len());
}

/// The quiet window and the retire cushion read the wrapping clock.
#[test]
fn the_clocks_wrap() {
    assert_eq!(elapsed(5, u32::MAX), 6);
    assert!(!reconsolidation_due(true, 10, 0));
    assert!(reconsolidation_due(true, RECONSOLIDATE_IDLE_FRAMES, 0));
    assert!(!reconsolidation_due(false, RECONSOLIDATE_IDLE_FRAMES, 0));
    assert!(!retire_due(RETIRE_FRAMES - 1, 0));
    assert!(retire_due(RETIRE_FRAMES - 1, u32::MAX));
}

use benilla_world::merge::{
    flush_static_merge, prop_blob_tag, BlobHost, DoodadKey, PropAcc, StaticMerge,
};
use benilla_world::residency::WorldLoadProgress;
use benilla_world::placements::{Placement, Placements};

/// The doodad spatial cell, a quarter of a tile, in yards.
const CELL: f32 = 533.333_3 / 4.0;

/// The key a doodad at `(x, z)` (Bevy axes) falls under, with the default material.
fn key_at(owner: (i32, i32), x: f32, z: f32) -> DoodadKey {
    DoodadKey {
        owner,
        cell: ((x / CELL).floor() as i32, (z / CELL).floor() as i32),
        material: 0,
    }
}

/// The host side of a flush in these tests: entity ids drawn from `next`, each doodad blob
/// recorded on `merged` (the tiles' blob lists) and dropped from it on retirement.
struct TestHost<'a> {
    merged: &'a mut Vec<((i32, i32), u32)>,
    next: &'a mut u32,
}

impl BlobHost<usize, u32> for TestHost<'_> {
    fn spawn_doodad_blob(&mut self, owner: (i32, i32), _parts: &Vec<usize>) -> u32 {
        *self.next += 1;
        self.merged.push((owner, *self.next));
        *self.next
    }
    fn spawn_prop_blob(&mut self, _acc: &PropAcc<usize>) -> u32 {
        *self.next += 1;
        *self.next
    }
    fn despawn_fragment(&mut self, _owner: (i32, i32), entity: u32) {
        self.merged.retain(|&(_, e)| e != entity);
    }
}

/// One flush tick as the streamer runs it, through the library's flush; the published
/// `merge_pending` is the accumulators left.
fn flush(
    merge: &mut StaticMerge<usize, u32>,
    merged: &mut Vec<((i32, i32), u32)>,
    live: &[(i32, i32)],
    paced: bool,
    next: &mut u32,
) {
    let mut placements: Placements<(), u32> = Placements::new();
    let mut progress = Some(WorldLoadProgress::default());
    let mut host = TestHost { merged, next };
    flush_static_merge(merge, live, &mut placements, paced, &mut progress, &mut host);
    assert_eq!(
        progress.unwrap().merge_pending,
        merge.doodads.len() + merge.props.len()
    );
}

fn flush_n(
    merge: &mut StaticMerge<usize, u32>,
    merged: &mut Vec<((i32, i32), u32)>,
    live: &[(i32, i32)],
    n: u32,
    next: &mut u32,
) {
    for _ in 0..n {
        flush(merge, merged, live, true, next);
    }
}

fn tile_merged(merged: &[((i32, i32), u32)], tile: (i32, i32)) -> Vec<u32> {
    merged
        .iter()
        .filter(|(t, _)| *t == tile)
        .map(|&(_, e)| e)
        .collect()
}

#[test]
fn cell_key_partitions_doodad_accumulators() {
    let mut merge: StaticMerge<usize, u32> = StaticMerge::new();
    merge.divert_doodad(key_at((0, 0), 1.0, 1.0), 3, 3);
    merge.divert_doodad(key_at((0, 0), 2.0, 2.0), 3, 3);
    merge.divert_doodad(key_at((0, 0), CELL + 1.0, 1.0), 3, 3);
    assert_eq!(merge.doodads.len(), 2);
    let joint = merge
        .doodads
        .iter()
        .find(|a| a.acc.parts.len() == 2)
        .expect("same-cell parts share an accumulator");
    assert_eq!(joint.acc.verts, 6);
}

#[test]
fn interior_prop_blob_carries_rooms_and_baked_slots() {
    let mut placements: Placements<(), u32> = Placements::new();
    placements.by_id.insert(7, blank_placement());
    let instance = 42u64;
    let mut merge: StaticMerge<usize, u32> = StaticMerge::new();
    for slot in [11u16, 12] {
        merge.divert_prop(7, vec![3, 5], 0, 3, 3, Some(slot));
    }
    assert!(merge.close_doodads(&[], false).is_empty());
    let closed = merge.close_props(&placements, false);
    assert_eq!(closed.len(), 1);
    let vis = prop_blob_tag(&closed[0].key, Some(instance)).unwrap();
    assert_eq!(vis.instance, instance);
    assert_eq!(vis.groups, vec![3, 5]);
    assert_eq!(closed[0].acc.slots, vec![11, 12]);
    assert_eq!(closed[0].acc.parts.len(), closed[0].acc.slots.len());
}

#[test]
fn exterior_and_unnamed_prop_blobs_stay_plain() {
    let mut placements: Placements<(), u32> = Placements::new();
    placements.by_id.insert(9, blank_placement());
    let mut merge: StaticMerge<usize, u32> = StaticMerge::new();
    merge.divert_prop(9, vec![], 0, 3, 3, None);
    merge.close_doodads(&[], false);
    let closed = merge.close_props(&placements, false);
    assert_eq!(closed.len(), 1);
    assert!(prop_blob_tag(&closed[0].key, None).is_none());
    assert!(prop_blob_tag(&closed[0].key, Some(1)).is_none());
    assert!(closed[0].acc.slots.is_empty());
}

#[test]
fn idle_tail_closes_a_doodad_blob_onto_its_tile() {
    let mut merge: StaticMerge<usize, u32> = StaticMerge::new();
    let mut merged = Vec::new();
    let mut next = 0;
    merge.divert_doodad(key_at((3, 4), 5.0, 5.0), 1, 3);
    flush_n(&mut merge, &mut merged, &[(3, 4)], MERGE_IDLE_FRAMES - 1, &mut next);
    assert_eq!(merge.doodads.len(), 1);
    flush_n(&mut merge, &mut merged, &[(3, 4)], 1, &mut next);
    assert!(merge.doodads.is_empty());
    let owned = tile_merged(&merged, (3, 4));
    assert_eq!(owned.len(), 1);
    assert_eq!(merge.settled[0].blobs[0].verts, 3);
}

#[test]
fn dead_owner_discards_the_accumulator() {
    let mut merge: StaticMerge<usize, u32> = StaticMerge::new();
    let mut merged = Vec::new();
    let mut next = 0;
    merge.divert_doodad(key_at((9, 9), 0.0, 0.0), 1, 3);
    flush_n(&mut merge, &mut merged, &[], 1, &mut next);
    assert!(merge.doodads.is_empty());
    assert!(merged.is_empty());
    assert_eq!(next, 0, "nothing spawned");
}

#[test]
fn a_settled_cell_reconsolidates_its_fragments() {
    let mut merge: StaticMerge<usize, u32> = StaticMerge::new();
    let mut merged = Vec::new();
    let mut next = 0;
    let live = [(3, 4)];
    merge.divert_doodad(key_at((3, 4), 1.0, 1.0), 1, 3);
    flush_n(&mut merge, &mut merged, &live, MERGE_IDLE_FRAMES, &mut next);
    merge.divert_doodad(key_at((3, 4), 2.0, 2.0), 2, 3);
    flush_n(&mut merge, &mut merged, &live, MERGE_IDLE_FRAMES, &mut next);
    let fragments = tile_merged(&merged, (3, 4));
    assert_eq!(fragments.len(), 2, "two waves must close two fragments");
    flush_n(&mut merge, &mut merged, &live, RECONSOLIDATE_IDLE_FRAMES, &mut next);
    assert_eq!(
        tile_merged(&merged, (3, 4)).len(),
        3,
        "the fragments must cover the successor's upload cushion"
    );
    flush_n(&mut merge, &mut merged, &live, RETIRE_FRAMES, &mut next);
    let after = tile_merged(&merged, (3, 4));
    assert_eq!(after.len(), 1);
    assert!(!fragments.contains(&after[0]));
    let cell = &merge.settled[0];
    assert_eq!(cell.blobs.len(), 1);
    assert_eq!(cell.blobs[0].parts, vec![1, 2]);
    assert_eq!(cell.blobs[0].verts, 6);
}

#[test]
fn reconsolidation_declines_when_the_cap_leaves_no_win() {
    let mut merge: StaticMerge<usize, u32> = StaticMerge::new();
    let mut merged = Vec::new();
    let mut next = 0;
    let live = [(0, 0)];
    for _ in 0..2 {
        merge.divert_doodad(key_at((0, 0), 0.0, 0.0), 1, MERGE_MAX_VERTS);
        flush_n(&mut merge, &mut merged, &live, 1, &mut next);
    }
    let fragments = tile_merged(&merged, (0, 0));
    assert_eq!(fragments.len(), 2);
    flush_n(
        &mut merge,
        &mut merged,
        &live,
        RECONSOLIDATE_IDLE_FRAMES + RETIRE_FRAMES,
        &mut next,
    );
    assert_eq!(
        tile_merged(&merged, (0, 0)),
        fragments,
        "capped fragments must stay exactly as they were"
    );
}

#[test]
fn a_dead_owner_drops_the_settled_ledger() {
    let mut merge: StaticMerge<usize, u32> = StaticMerge::new();
    let mut merged = Vec::new();
    let mut next = 0;
    merge.divert_doodad(key_at((5, 5), 0.0, 0.0), 1, 3);
    flush_n(&mut merge, &mut merged, &[(5, 5)], MERGE_IDLE_FRAMES, &mut next);
    assert_eq!(merge.settled.len(), 1);
    flush_n(&mut merge, &mut merged, &[], 1, &mut next);
    assert!(merge.settled.is_empty());
}

#[test]
fn vert_cap_closes_immediately() {
    let mut merge: StaticMerge<usize, u32> = StaticMerge::new();
    let mut merged = Vec::new();
    let mut next = 0;
    merge.divert_doodad(key_at((0, 0), 0.0, 0.0), 1, MERGE_MAX_VERTS);
    flush(&mut merge, &mut merged, &[(0, 0)], true, &mut next);
    assert_eq!(tile_merged(&merged, (0, 0)).len(), 1);
}

/// A placement registry entry with nothing spawned under it.
fn blank_placement() -> Placement<(), u32> {
    Placement {
        payload: (),
        is_m2: false,
        entities: Vec::new(),
        spawned: true,
        props_spawned: Vec::new(),
        refs: 1,
        owner: (0, 0),
    }
}

/// The unflushed count covers both lanes, and clearing drops everything.
#[test]
fn unflushed_counts_both_lanes_and_clear_empties() {
    let mut merge: StaticMerge<usize, u32> = StaticMerge::new();
    merge.divert_doodad(key_at((0, 0), 0.0, 0.0), 1, 3);
    merge.divert_prop(7, vec![1], 0, 2, 3, None);
    merge.divert_prop(7, vec![2], 0, 2, 3, None);
    assert_eq!(merge.unflushed(), 3);
    merge.clear();
    assert_eq!(merge.unflushed(), 0);
    assert!(merge.settled.is_empty() && merge.retiring.is_empty());
}

use benilla_world::merge::MergeSite;

#[test]
fn wmo_site_refuses_the_divert() {
    let mut merge: StaticMerge<usize, u32> = StaticMerge::new();
    assert!(!merge.divert(MergeSite::Wmo { uid: 7 }, (0, 0), 0, 1, 3));
    assert!(merge.doodads.is_empty() && merge.props.is_empty());
}

/// The dispatcher files a doodad under its owner and cell and a prop under its placement and
/// rooms.
#[test]
fn the_divert_files_each_site_under_its_key() {
    let mut merge: StaticMerge<usize, u32> = StaticMerge::new();
    assert!(merge.divert(MergeSite::Doodad { owner: (2, 3) }, (5, 6), 9, 1, 3));
    assert!(merge.divert(
        MergeSite::Prop {
            uid: 7,
            rooms: vec![1, 2],
            slot: Some(4)
        },
        (0, 0),
        9,
        2,
        3
    ));
    assert_eq!(merge.doodads.len(), 1);
    assert_eq!(merge.doodads[0].key.cell, (5, 6));
    assert_eq!(merge.doodads[0].key.material, 9);
    assert_eq!(merge.props.len(), 1);
    assert_eq!(merge.props[0].key.rooms, vec![1, 2]);
    assert_eq!(merge.props[0].acc.slots, vec![4]);
}

use benilla_world::merge::shared_geometry;

#[test]
fn both_batches_of_a_shared_section_are_flagged() {
    let flags = shared_geometry(&[Some(4), Some(10), Some(10), Some(7)]);
    assert_eq!(flags, vec![false, true, true, false]);
}

#[test]
fn section_less_batches_never_share() {
    assert_eq!(shared_geometry(&[None, None, None]), vec![false; 3]);
    assert_eq!(
        shared_geometry(&[None, Some(0), Some(0), None]),
        vec![false, true, true, false]
    );
}
