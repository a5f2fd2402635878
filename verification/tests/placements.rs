use benilla_world::placements::{Placement, Placements, TileListing};

fn tile_listing(tile: (i32, i32), uids: &[u32]) -> TileListing {
    TileListing {
        tile,
        placements: uids.to_vec(),
    }
}

fn straddler(owner: (i32, i32), entities: Vec<u32>) -> Placement<(), u32> {
    Placement {
        payload: (),
        is_m2: true,
        entities,
        spawned: true,
        props_spawned: Vec::new(),
        refs: 1,
        owner,
    }
}

#[test]
fn a_dead_owner_hands_its_straddler_to_a_loaded_referrer() {
    let doodad_ent = 100u32;
    let tiles = vec![tile_listing((3, 5), &[7])];
    let mut placements: Placements<(), u32> = Placements::new();
    placements
        .by_id
        .insert(7, straddler((3, 4), vec![doodad_ent]));
    let (despawn, respawns) = placements.handoff_straddlers(&tiles, (3, 4), &vec![7], true);
    let p = placements.by_id.get(&7).unwrap();
    assert_eq!(p.owner, (3, 5), "ownership must move to the loaded referrer");
    assert!(!p.spawned, "the placement must queue for respawn");
    assert!(p.entities.is_empty());
    assert_eq!(
        despawn,
        vec![doodad_ent],
        "the stale entities must despawn ahead of the respawn"
    );
    assert_eq!(respawns, 1);
    assert_eq!(placements.pending_spawns, 1);
}

#[test]
fn non_owned_and_merge_off_placements_stay_untouched() {
    let (e1, e2) = (1u32, 2u32);
    let tiles = vec![tile_listing((3, 5), &[7, 8])];
    let mut placements: Placements<(), u32> = Placements::new();
    placements.by_id.insert(7, straddler((3, 5), vec![e1]));
    placements.by_id.insert(8, straddler((3, 4), vec![e2]));
    let (despawn, _) = placements.handoff_straddlers(&tiles, (3, 4), &vec![7, 8], false);
    assert!(despawn.is_empty());
    assert_eq!(placements.by_id.get(&8).unwrap().owner, (3, 4));
    assert!(placements.by_id.get(&8).unwrap().spawned);
    let (despawn, _) = placements.handoff_straddlers(&tiles, (3, 4), &vec![7, 8], true);
    let p7 = placements.by_id.get(&7).unwrap();
    assert_eq!(p7.owner, (3, 5));
    assert!(
        p7.spawned,
        "a placement the dead tile did not own keeps its entities"
    );
    let p8 = placements.by_id.get(&8).unwrap();
    assert_eq!(p8.owner, (3, 5));
    assert!(!p8.spawned);
    assert!(!despawn.contains(&e1));
    assert!(despawn.contains(&e2));
}

/// A neighbour of the dead tile is preferred over a farther referrer listed first.
#[test]
fn a_neighbour_of_the_dead_tile_wins_the_handoff() {
    let tiles = vec![
        tile_listing((10, 10), &[7]),
        tile_listing((3, 5), &[7]),
    ];
    let mut placements: Placements<(), u32> = Placements::new();
    placements.by_id.insert(7, straddler((3, 4), vec![]));
    placements.handoff_straddlers(&tiles, (3, 4), &vec![7], true);
    assert_eq!(placements.by_id.get(&7).unwrap().owner, (3, 5));
}

/// With no neighbour referencing it, any other loaded referrer takes it.
#[test]
fn a_far_referrer_takes_it_when_no_neighbour_does() {
    let tiles = vec![tile_listing((10, 10), &[7]), tile_listing((3, 5), &[9])];
    let mut placements: Placements<(), u32> = Placements::new();
    placements.by_id.insert(7, straddler((3, 4), vec![5]));
    let (despawn, respawns) = placements.handoff_straddlers(&tiles, (3, 4), &vec![7], true);
    assert_eq!(placements.by_id.get(&7).unwrap().owner, (10, 10));
    assert_eq!(despawn, vec![5]);
    assert_eq!(respawns, 1);
}

/// A straddler nobody else references keeps its owner, and a WMO is never handed over.
#[test]
fn an_unreferenced_straddler_and_a_wmo_stay_put() {
    let tiles = vec![tile_listing((3, 5), &[8])];
    let mut placements: Placements<(), u32> = Placements::new();
    placements.by_id.insert(7, straddler((3, 4), vec![1]));
    let mut wmo = straddler((3, 4), vec![2]);
    wmo.is_m2 = false;
    placements.by_id.insert(8, wmo);
    let (despawn, respawns) = placements.handoff_straddlers(&tiles, (3, 4), &vec![7, 8], true);
    assert!(despawn.is_empty());
    assert_eq!(respawns, 0);
    assert_eq!(placements.by_id.get(&7).unwrap().owner, (3, 4));
    assert_eq!(placements.by_id.get(&8).unwrap().owner, (3, 4));
}

/// Registering, bumping and releasing keep the refcount and the pending count.
#[test]
fn refcounts_release_at_zero() {
    let mut placements: Placements<(), u32> = Placements::new();
    assert!(!placements.bump(7));
    placements.register(7, (), true, (1, 1));
    assert!(placements.contains(7));
    assert_eq!(placements.pending_spawns, 1);
    assert!(placements.bump(7));
    assert_eq!(placements.by_id.get(&7).unwrap().refs, 2);
    assert!(placements.release(7).is_none());
    assert!(placements.contains(7));
    let dropped = placements.release(7).expect("the last reference drops it");
    assert_eq!(dropped.owner, (1, 1));
    assert!(!placements.contains(7));
    assert_eq!(placements.pending_spawns, 0);
    assert!(placements.release(7).is_none());
}

use benilla_world::placements::{spawn_count_cap, SPAWN_COUNT_CAP};

/// A WMO lands with its props pending, and each prop's landing takes one off the count.
#[test]
fn landings_keep_the_pending_count() {
    let mut placements: Placements<(), u32> = Placements::new();
    placements.register(7, (), false, (0, 0));
    placements.register(8, (), true, (0, 0));
    assert_eq!(placements.pending_spawns, 2);
    placements.landed(7, vec![1, 2], 3);
    assert_eq!(placements.pending_spawns, 1 + 3);
    let p = placements.by_id.get(&7).unwrap();
    assert!(p.spawned);
    assert_eq!(p.entities, vec![1, 2]);
    assert_eq!(p.props_spawned, vec![false; 3]);
    placements.prop_landed(7, 1, vec![9]);
    assert_eq!(placements.pending_spawns, 3);
    let p = placements.by_id.get(&7).unwrap();
    assert_eq!(p.entities, vec![1, 2, 9]);
    assert_eq!(p.props_spawned, vec![false, true, false]);
    placements.landed(8, vec![5], 0);
    assert_eq!(placements.pending_spawns, 2);
    let dropped = placements.release(7).unwrap();
    assert_eq!(dropped.entities, vec![1, 2, 9]);
    assert_eq!(placements.pending_spawns, 0, "the unspawned props leave with it");
}

#[test]
fn the_spawn_cap_applies_once_settled() {
    assert_eq!(spawn_count_cap(true), SPAWN_COUNT_CAP);
    assert_eq!(spawn_count_cap(false), usize::MAX);
}

use benilla_world::placements::shown_doodads;

/// Set 0 always shows, then the placement's own set; unresolved names are skipped and a range
/// past the list stops at its end.
#[test]
fn a_wmo_shows_set_zero_and_its_own_set() {
    let named = [true, true, false, true, true, true, true];
    let sets = [(0, 2), (2, 3), (5, 9)];
    assert_eq!(shown_doodads(&sets, 0, &named), vec![0, 1]);
    assert_eq!(shown_doodads(&sets, 1, &named), vec![0, 1, 3, 4]);
    assert_eq!(shown_doodads(&sets, 2, &named), vec![0, 1, 5, 6]);
    assert_eq!(shown_doodads(&sets, 7, &named), vec![0, 1], "a missing set shows set 0 only");
    assert!(shown_doodads(&[], 1, &named).is_empty());
    assert!(shown_doodads(&[(9, 3)], 0, &named).is_empty());
}

use benilla_world::placements::SpawnHost;

/// A host whose models are all loaded: a WMO (uid 1) resolves `props` doodad props; the time
/// budget never runs out.
struct Loaded {
    props: usize,
    next: u32,
}

impl SpawnHost<(), u32> for Loaded {
    fn spawn_model(&mut self, uid: u32, _payload: &()) -> Option<(Vec<u32>, usize)> {
        self.next += 1;
        Some((vec![self.next], if uid == 1 { self.props } else { 0 }))
    }
    fn spawn_prop(&mut self, _uid: u32, _payload: &(), _i: usize) -> Option<Vec<u32>> {
        self.next += 1;
        Some(vec![self.next])
    }
    fn out_of_time(&mut self) -> bool {
        false
    }
}

/// A spawn pass lands each model, then its props, keeping the pending count; once settled it
/// stops at the count cap and resumes next frame.
#[test]
fn a_spawn_pass_lands_models_then_props_under_the_cap() {
    let mut placements: Placements<(), u32> = Placements::new();
    placements.register(1, (), false, (0, 0));
    placements.register(2, (), true, (0, 0));
    assert_eq!(placements.pending_spawns, 2);
    let mut host = Loaded { props: 3, next: 0 };
    let landed = placements.spawn_pass(&[1, 2], false, &mut host);
    assert_eq!(
        landed,
        vec![(1, None), (1, Some(0)), (1, Some(1)), (1, Some(2)), (2, None)]
    );
    assert_eq!(placements.pending_spawns, 0);
    assert_eq!(placements.by_id[&1].entities.len(), 4);

    // Settled play: the cap stops the pass and the rest waits for the next frame.
    let mut many: Placements<(), u32> = Placements::new();
    for uid in 10..10 + SPAWN_COUNT_CAP as u32 + 5 {
        many.register(uid, (), true, (0, 0));
    }
    let order: Vec<u32> = (10..10 + SPAWN_COUNT_CAP as u32 + 5).collect();
    let landed = many.spawn_pass(&order, true, &mut Loaded { props: 0, next: 0 });
    assert_eq!(landed.len(), SPAWN_COUNT_CAP);
    assert_eq!(many.pending_spawns, 5);
    let landed = many.spawn_pass(&order, true, &mut Loaded { props: 0, next: 0 });
    assert_eq!(landed.len(), 5);
    assert_eq!(many.pending_spawns, 0);
    assert!(many.spawn_pass(&order, true, &mut Loaded { props: 0, next: 0 }).is_empty());
}
