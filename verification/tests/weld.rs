use benilla_world::placements::{Placement, Placements};
use benilla_world::weld::{
    flush_props, flush_tiles, triangles, HullWelds, WeldAcc, WELD_IDLE_FRAMES, WELD_MAX_HULLS,
    WELD_MAX_TRIS,
};

type V = [f32; 3];

fn hull() -> (Vec<V>, Vec<[u32; 3]>) {
    (
        vec![[0.0, 0.0, 0.0], [1.0, 0.0, 0.0], [0.0, 1.0, 0.0]],
        vec![[0, 1, 2]],
    )
}

#[test]
fn append_rebases_indices() {
    let mut welds: HullWelds<V> = HullWelds::new();
    let (v, t) = hull();
    welds.add_tile((0, 0), v.clone(), t.clone());
    welds.add_tile((0, 0), v, t);
    let acc = &welds.tiles[0].acc;
    assert_eq!(acc.hulls, 2);
    assert_eq!(acc.verts.len(), 6);
    assert_eq!(acc.tris, vec![[0, 1, 2], [3, 4, 5]]);
    assert_eq!(welds.unflushed(), 1);
}

#[test]
fn cap_flush_ties_weld_to_tile() {
    let mut welds: HullWelds<V> = HullWelds::new();
    for _ in 0..WELD_MAX_HULLS {
        let (v, t) = hull();
        welds.add_tile((3, 4), v, t);
    }
    let closed = flush_tiles(&mut welds, &[(3, 4)], false);
    assert_eq!(welds.unflushed(), 0);
    assert_eq!(closed.len(), 1);
    assert_eq!(closed[0].tile, (3, 4));
    assert_eq!(closed[0].acc.hulls, WELD_MAX_HULLS);
}

#[test]
fn idle_tail_closes_a_quiet_batch() {
    let mut welds: HullWelds<V> = HullWelds::new();
    let (v, t) = hull();
    welds.add_tile((0, 0), v, t);
    for _ in 0..(WELD_IDLE_FRAMES - 1) {
        assert!(flush_tiles(&mut welds, &[(0, 0)], true).is_empty());
    }
    assert_eq!(welds.unflushed(), 1);
    let closed = flush_tiles(&mut welds, &[(0, 0)], true);
    assert_eq!(welds.unflushed(), 0);
    assert_eq!(closed.len(), 1);
    assert_eq!(closed[0].tile, (0, 0));
}

#[test]
fn dead_owner_discards_the_batch() {
    let mut welds: HullWelds<V> = HullWelds::new();
    for _ in 0..WELD_MAX_HULLS {
        let (v, t) = hull();
        welds.add_tile((9, 9), v, t);
    }
    let closed = flush_tiles(&mut welds, &[], false);
    assert_eq!(welds.unflushed(), 0);
    assert!(closed.is_empty());
}

#[test]
fn prop_weld_lands_in_placement_entities() {
    let mut placements: Placements<(), u32> = Placements::new();
    placements.by_id.insert(
        7,
        Placement {
            payload: (),
            is_m2: false,
            entities: Vec::new(),
            spawned: true,
            props_spawned: Vec::new(),
            refs: 1,
            owner: (0, 0),
        },
    );
    let mut welds: HullWelds<V> = HullWelds::new();
    for _ in 0..WELD_MAX_HULLS {
        let (v, t) = hull();
        welds.add_prop(7, v, t);
    }
    flush_tiles(&mut welds, &[], false);
    let closed = flush_props(&mut welds, &placements, false);
    assert_eq!(closed.len(), 1);
    assert_eq!(closed[0].uid, 7);
    assert_eq!(welds.unflushed(), 0);
}

/// Under the loading cover one quiet tick closes a batch.
#[test]
fn an_unpaced_flush_closes_after_one_quiet_tick() {
    let mut welds: HullWelds<V> = HullWelds::new();
    let (v, t) = hull();
    welds.add_tile((1, 1), v, t);
    let closed = flush_tiles(&mut welds, &[(1, 1)], false);
    assert_eq!(closed.len(), 1);
}

/// Batches for different owners never mix, and a dead placement's prop batch is dropped.
#[test]
fn batches_are_per_owner() {
    let mut welds: HullWelds<V> = HullWelds::new();
    let (v, t) = hull();
    welds.add_tile((1, 1), v.clone(), t.clone());
    welds.add_tile((2, 2), v.clone(), t.clone());
    welds.add_prop(5, v, t);
    assert_eq!(welds.unflushed(), 3);
    let placements: Placements<(), u32> = Placements::new();
    let closed = flush_tiles(&mut welds, &[(2, 2)], true);
    assert!(closed.is_empty());
    assert_eq!(welds.tiles.len(), 1);
    assert_eq!(welds.tiles[0].tile, (2, 2));
    assert!(flush_props(&mut welds, &placements, true).is_empty());
    assert!(welds.props.is_empty());
    welds.clear();
    assert_eq!(welds.unflushed(), 0);
}

/// The triangle cap alone closes a batch, and the idle clock reads across the wrap.
#[test]
fn ready_reads_both_caps_and_the_wrapping_clock() {
    let mut acc: WeldAcc<V> = WeldAcc::new(u32::MAX - 1);
    let verts: Vec<V> = vec![[0.0; 3]; 3];
    acc.append(verts, vec![[0, 1, 2]; WELD_MAX_TRIS], u32::MAX - 1);
    assert!(acc.ready(u32::MAX - 1, 15));
    let mut acc: WeldAcc<V> = WeldAcc::new(u32::MAX - 1);
    let (v, t) = hull();
    acc.append(v, t, u32::MAX - 1);
    assert!(!acc.ready(3, 15));
    assert!(acc.ready(13, 15));
}

/// A flat index list reads three at a time; a trailing partial triangle is dropped.
#[test]
fn triangles_group_indices_by_three() {
    assert_eq!(triangles(&[0, 1, 2, 2, 1, 3, 9]), vec![[0, 1, 2], [2, 1, 3]]);
    assert!(triangles(&[4, 5]).is_empty());
}

struct Colliders {
    next: u32,
}

impl benilla_world::weld::WeldHost<V, u32> for Colliders {
    fn spawn_weld(&mut self, _acc: WeldAcc<V>) -> u32 {
        self.next += 1;
        self.next
    }
}

/// The library's flush builds one collider per closed batch: a tile's comes back with its
/// tile, a prop's joins its placement's entities.
#[test]
fn a_flush_gives_each_collider_to_its_owner() {
    let mut placements: Placements<(), u32> = Placements::new();
    placements.register(7, (), false, (0, 0));
    let mut welds: HullWelds<V> = HullWelds::new();
    let (v, t) = hull();
    welds.add_tile((1, 1), v, t);
    for _ in 0..WELD_MAX_HULLS {
        let (v, t) = hull();
        welds.add_prop(7, v, t);
    }
    let mut host = Colliders { next: 0 };
    let owned = benilla_world::weld::flush_hull_welds(
        &mut welds,
        &[(1, 1)],
        &mut placements,
        false,
        &mut host,
    );
    assert_eq!(owned, vec![((1, 1), 1)]);
    assert_eq!(placements.by_id[&7].entities, vec![2]);
    assert_eq!(welds.unflushed(), 0);
}
