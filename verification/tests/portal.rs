use benilla_world::portal::{
    claims_camera, exterior_visible, fog_group, interior_chain, opens_a_window, outside_roots,
    pass2_candidates, pass3_candidates, room_admits, room_pvs_visible, room_visible,
    UnitWmoRoom, WmoGroupNav, WmoGroupVis, WmoPortalInstance, WmoPortalRef, WmoRoom,
    CALLBACK_PASS,
};

fn instance(visible: Vec<bool>, interior_fog: Vec<bool>) -> WmoPortalInstance {
    let n = visible.len();
    WmoPortalInstance {
        name_set: 0,
        visible,
        interior_fog,
        liquid_visited: vec![false; n],
    }
}

fn key(groups: &[u16]) -> WmoGroupVis {
    WmoGroupVis {
        instance: 1,
        groups: groups.to_vec(),
    }
}

fn g(flags: u32) -> WmoGroupNav {
    WmoGroupNav {
        flags,
        ref_start: 0,
        ref_count: 0,
    }
}

fn nav(ref_start: u16, ref_count: u16) -> WmoGroupNav {
    WmoGroupNav {
        flags: 0,
        ref_start,
        ref_count,
    }
}

fn pref(group: u16) -> WmoPortalRef {
    WmoPortalRef {
        portal: 0,
        group,
        side: 1,
    }
}

#[test]
fn a_prop_is_drawn_while_any_of_its_rooms_is_visible() {
    let inst = instance(vec![false, true, false], vec![false; 3]);
    assert!(key(&[1]).drawn_by(&inst), "its own room is visible");
    assert!(!key(&[0]).drawn_by(&inst), "its own room is culled");
    assert!(
        key(&[0, 2, 1]).drawn_by(&inst),
        "one visible referrer out of three draws the fall"
    );
    assert!(!key(&[0, 2]).drawn_by(&inst), "no referrer is visible");
    assert!(!key(&[]).drawn_by(&inst), "no referrers at all: nothing ORs");
    assert!(key(&[9]).drawn_by(&inst), "index past the set fails open");
}

#[test]
fn the_interior_fog_key_ors_over_rooms_and_fails_closed() {
    let inst = instance(vec![true; 3], vec![false, true, false]);
    assert!(key(&[1]).interior_fogged_by(&inst), "its own room is on it");
    assert!(!key(&[0]).interior_fogged_by(&inst), "its own room is off it");
    assert!(
        key(&[0, 2, 1]).interior_fogged_by(&inst),
        "one referrer on the lane is enough"
    );
    assert!(!key(&[0, 2]).interior_fogged_by(&inst), "no referrer is on it");
    assert!(!key(&[]).interior_fogged_by(&inst), "no referrers: nothing ORs");
    assert!(
        !key(&[9]).interior_fogged_by(&inst),
        "index past the set fails CLOSED — the opposite of drawn_by"
    );
}

#[test]
fn only_an_exterior_group_opens_a_window_onto_the_open_world() {
    let nav = [g(0x0b841), g(0x0a841), g(0x0ba41), g(0x08809), g(0x02a05)];
    for to in [0, 1, 2] {
        assert!(!opens_a_window(&nav, to));
    }
    assert!(!opens_a_window(&nav, 4), "0x02a05 carries neither bit");
    assert!(opens_a_window(&nav, 3), "0x08809 carries 0x8");
    assert!(!opens_a_window(&nav, 99), "an out-of-range group is no window");
}

#[test]
fn room_visible_covers_the_hop_guard_and_fails_open() {
    let navs = vec![nav(0, 1), nav(1, 1), nav(2, 0)];
    let refs = vec![pref(1), pref(0)];
    assert!(room_visible(&[true, false, false], &navs, &refs, 0), "direct PVS bit");
    assert!(
        room_visible(&[true, false, false], &navs, &refs, 1),
        "own bit dark but the neighbour lit"
    );
    assert!(
        !room_visible(&[false, false, true], &navs, &refs, 0),
        "own room and every hop dark"
    );
    assert!(
        !room_visible(&[true, true, false], &navs, &refs, 2),
        "a sealed room's own bit decides"
    );
    assert!(room_visible(&[false], &navs, &refs, 9), "past the PVS table");
    assert!(room_visible(&[false], &[nav(7, 2)], &refs, 0), "past the refs");
}

/// A rider with no rooms is admitted; with rooms it follows `drawn_by`, and with its building
/// gone it is refused.
#[test]
fn room_admits_fails_closed_without_the_building() {
    let inst = instance(vec![false, true], vec![false; 2]);
    assert!(room_admits(None, None));
    assert!(room_admits(None, Some(&inst)));
    assert!(room_admits(Some(&key(&[1])), Some(&inst)));
    assert!(!room_admits(Some(&key(&[0])), Some(&inst)));
    assert!(!room_admits(Some(&key(&[1])), None));
}

/// A unit's room: every missing lookup reads visible.
#[test]
fn a_units_room_fails_open_at_every_seam() {
    let navs = vec![nav(0, 1), nav(1, 1), nav(2, 0)];
    let refs = vec![pref(1), pref(0)];
    let room = UnitWmoRoom::sampled(Some(WmoRoom {
        instance: 4,
        group: 2,
    }));
    assert!(room_pvs_visible(None, None, None));
    assert!(room_pvs_visible(Some(&UnitWmoRoom::unclaimed()), Some(&[false]), None));
    assert!(room_pvs_visible(Some(&room), None, None));
    assert!(room_pvs_visible(Some(&room), Some(&[false, false, false]), None));
    assert!(!room_pvs_visible(
        Some(&room),
        Some(&[false, false, false]),
        Some((&navs, &refs))
    ));
    assert!(room_pvs_visible(
        Some(&room),
        Some(&[false, false, true]),
        Some((&navs, &refs))
    ));
    assert_eq!(room.room(), Some(WmoRoom { instance: 4, group: 2 }));
}

/// The camera's claim, the weather through a doorway, and the fog group.
#[test]
fn claim_weather_and_fog_follow_the_flags() {
    let nav = [g(0x8), g(0x40), g(0x0), g(0x100)];
    assert!(!claims_camera(&nav, Some(0)));
    assert!(claims_camera(&nav, Some(1)));
    assert!(claims_camera(&nav, Some(2)));
    assert!(!claims_camera(&nav, Some(9)));
    assert!(!claims_camera(&nav, None));
    assert!(exterior_visible(&nav, &[false, false, false, true]));
    assert!(!exterior_visible(&nav, &[false, false, true, false]));
    assert!(exterior_visible(&nav, &[true]));
    assert_eq!(fog_group(&nav, 2, None), Some(2));
    assert_eq!(fog_group(&nav, 1, Some(2)), Some(2));
    assert_eq!(fog_group(&nav, 1, Some(0)), None);
    assert_eq!(fog_group(&nav, 9, None), None);
    assert!(interior_chain(true, 0x0));
    assert!(!interior_chain(true, 0x40));
    assert!(!interior_chain(false, 0x0));
}

/// The flood's roots and its second and third pass candidates.
#[test]
fn the_pass_candidates_follow_the_flags() {
    let nav = [g(0x8), g(0x0), g(0x8 | CALLBACK_PASS), g(CALLBACK_PASS), g(0x8)];
    assert_eq!(outside_roots(&nav), vec![0, 2, 4]);
    assert_eq!(pass2_candidates(&nav), vec![0, 4]);
    assert_eq!(
        pass3_candidates(&nav, &[true, false, false, true, false]),
        vec![2]
    );
    assert_eq!(
        pass3_candidates(&nav, &[false, false, false, false, false]),
        vec![2, 3]
    );
}

/// A fresh instance is all visible and fog-free; publishing the same answer changes nothing.
#[test]
fn publishing_compares_before_it_writes() {
    let mut inst = WmoPortalInstance::new(3, 3);
    assert_eq!(inst.visible, vec![true; 3]);
    assert_eq!(inst.interior_fog, vec![false; 3]);
    assert!(!inst.hold_unculled(3));
    assert!(inst.publish(vec![true, false, true], vec![false, true, false]));
    assert!(!inst.publish(vec![true, false, true], vec![false, true, false]));
    assert!(inst.fogs_group(1) && !inst.fogs_group(0) && !inst.fogs_group(7));
    assert!(inst.hold_unculled(3));
    assert_eq!(inst.visible, vec![true; 3]);
}

/// The liquid latch keeps every group it ever saw, and clears on a resize.
#[test]
fn the_liquid_latch_only_grows() {
    let mut inst = WmoPortalInstance::new(0, 3);
    inst.publish(vec![false, true, false], vec![false; 3]);
    assert!(inst.latch_liquid_visited(3));
    assert_eq!(inst.liquid_visited, vec![false, true, false]);
    inst.publish(vec![true, false, false], vec![false; 3]);
    assert!(inst.latch_liquid_visited(3));
    assert_eq!(inst.liquid_visited, vec![true, true, false]);
    assert!(!inst.latch_liquid_visited(3));
    assert!(inst.latch_liquid_visited(2));
    assert_eq!(inst.liquid_visited, vec![true, false]);
}

use benilla_world::portal::{camera_claim, InteriorClaim};

/// The first placement whose down-ray names a non-EXTERIOR group claims the camera.
#[test]
fn the_first_interior_seed_claims_the_camera() {
    let nav = vec![
        benilla_world::portal::WmoGroupNav { flags: 0x2000, ref_start: 0, ref_count: 0 },
        benilla_world::portal::WmoGroupNav { flags: 0x8, ref_start: 0, ref_count: 0 },
    ];
    assert_eq!(camera_claim(None, 5, &nav, Some(1), &[true, true]), None, "an EXTERIOR group claims nothing");
    assert_eq!(camera_claim(None, 5, &nav, None, &[true, true]), None);
    let c = camera_claim(None, 5, &nav, Some(0), &[true, true]);
    let want = InteriorClaim { room: WmoRoom { instance: 5, group: 0 }, exterior_visible: true };
    assert_eq!(c, Some(want));
    assert_eq!(camera_claim(c, 6, &nav, Some(0), &[false, false]), Some(want), "the first claim stands");
    let dark = camera_claim(None, 6, &nav, Some(0), &[true, false]);
    assert_eq!(dark.unwrap().exterior_visible, false);
}
