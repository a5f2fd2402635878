use benilla_world::flood::{compute_pvs, flood_placement, Flood, FloodGeometry, Step};
use benilla_world::portal::WmoPortalInstance;
use benilla_world::portal::{DownRaySeeds, WmoGroupNav, WmoPortalRef, CALLBACK_PASS, EXTERIOR};

/// Scripted geometry: every crossing admitted but through `blocked` portals; deferred windows
/// show `shown`; the frustum holds `framed`.
struct Scripted {
    blocked: Vec<u16>,
    shown: Vec<usize>,
    framed: Vec<usize>,
    crossings: usize,
}

impl FloodGeometry<u8> for Scripted {
    fn full_screen(&self) -> u8 {
        0
    }
    fn cross(&mut self, rect: u8, _from: usize, r: WmoPortalRef) -> Option<u8> {
        self.crossings += 1;
        (!self.blocked.contains(&r.portal)).then_some(rect + 1)
    }
    fn in_window(&mut self, _window: u8, group: usize) -> bool {
        self.shown.contains(&group)
    }
}

impl Scripted {
    /// The frustum answers for `n` groups.
    fn frames(&self, n: usize) -> Vec<bool> {
        (0..n).map(|g| self.framed.contains(&g)).collect()
    }
}

/// Runs the flood with the scripted geometry and its frustum answers.
fn flood_with(
    nav: &[WmoGroupNav],
    refs: &[WmoPortalRef],
    portals: usize,
    seeds: DownRaySeeds,
    geo: &mut Scripted,
) -> benilla_world::flood::GroupPvs<u8> {
    let framed = geo.frames(nav.len());
    compute_pvs(nav, refs, portals, seeds, &framed, geo)
}

fn scripted(shown: &[usize], framed: &[usize]) -> Scripted {
    Scripted {
        blocked: Vec::new(),
        shown: shown.to_vec(),
        framed: framed.to_vec(),
        crossings: 0,
    }
}

fn nav(flags: u32, ref_start: u16, ref_count: u16) -> WmoGroupNav {
    WmoGroupNav {
        flags,
        ref_start,
        ref_count,
    }
}

fn pref(portal: u16, group: u16, side: i16) -> WmoPortalRef {
    WmoPortalRef {
        portal,
        group,
        side,
    }
}

/// A room g0 with a doorway (portal 0) onto the exterior g1; two portal-disconnected exterior
/// shells, g2 through the doorway and g3 off to the side; and g4, an interior behind g2's back
/// door (portal 1).
fn doorway() -> (Vec<WmoGroupNav>, Vec<WmoPortalRef>) {
    (
        vec![
            nav(0x2000, 0, 1),
            nav(EXTERIOR, 1, 1),
            nav(EXTERIOR, 2, 1),
            nav(EXTERIOR, 0, 0),
            nav(0x2000, 3, 1),
        ],
        vec![pref(0, 1, -1), pref(0, 0, 1), pref(1, 4, -1), pref(1, 2, 1)],
    )
}

fn inside(g: usize) -> DownRaySeeds {
    DownRaySeeds {
        in_group: Some(g),
        across: None,
    }
}

/// From inside, the doorway opens one window; the shell it shows is flooded from (reaching the
/// interior behind it), the one off to the side stays dark.
#[test]
fn a_window_admits_the_shell_it_shows_and_floods_on() {
    let (nav, refs) = doorway();
    let mut geo = scripted(&[1, 2], &[]);
    let pvs = flood_with(&nav, &refs, 2, inside(0), &mut geo);
    assert_eq!(pvs.windows.len(), 1);
    assert_eq!(pvs.visible, vec![true, true, true, false, true]);
    assert_eq!(pvs.interior_fog, vec![true, false, false, false, false]);
}

/// A sealed room opens no window, so no shell draws, but a callback group in the frustum does.
#[test]
fn a_sealed_room_draws_only_its_callback_groups() {
    let (mut nav, _) = doorway();
    for n in nav.iter_mut() {
        n.ref_count = 0;
    }
    nav[3].flags |= CALLBACK_PASS;
    let pvs = flood_with(&nav, &[], 2, inside(0), &mut scripted(&[1, 2, 3], &[3]));
    assert!(pvs.windows.is_empty());
    assert_eq!(pvs.visible, vec![true, false, false, true, false]);
    let pvs = flood_with(&nav, &[], 2, inside(0), &mut scripted(&[1, 2, 3], &[]));
    assert_eq!(pvs.visible, vec![true, false, false, false, false]);
}

/// Outside, every exterior group is a root and no window is recorded.
#[test]
fn the_outside_leg_roots_every_exterior_group() {
    let (nav, refs) = doorway();
    let pvs = flood_with(&nav, &refs, 2, DownRaySeeds::default(), &mut scripted(&[], &[]));
    assert!(pvs.windows.is_empty());
    assert_eq!(pvs.visible, vec![true, true, true, true, true]);
    assert_eq!(pvs.interior_fog, vec![false; 5], "no containing group, no interior fog");
}

/// A claim by an exterior group is the outside leg's walk from that group: no window.
#[test]
fn an_exterior_claim_records_no_window() {
    let (nav, refs) = doorway();
    let pvs = flood_with(&nav, &refs, 2, inside(1), &mut scripted(&[2], &[]));
    assert!(pvs.windows.is_empty());
    assert_eq!(pvs.visible, vec![true, true, false, false, false]);
}

/// A portal the geometry refuses stops the walk there.
#[test]
fn a_refused_crossing_stops_the_walk() {
    let (nav, refs) = doorway();
    let mut geo = scripted(&[1, 2], &[]);
    geo.blocked = vec![0];
    let pvs = flood_with(&nav, &refs, 2, inside(0), &mut geo);
    assert!(pvs.windows.is_empty());
    assert_eq!(pvs.visible, vec![true, false, false, false, false]);
}

/// A portal opens one window a frame, however many paths reach it, and only the recording walk
/// records.
#[test]
fn a_portal_opens_at_most_one_window() {
    let nav = vec![nav(0x2000, 0, 2), nav(0x2000, 2, 1), nav(EXTERIOR, 3, 0)];
    let refs = vec![pref(0, 1, 1), pref(1, 2, 1), pref(1, 2, 1)];
    let mut flood: Flood<u8> = Flood::new(3, 2);
    let mut stack = vec![Step {
        group: 0,
        came: usize::MAX,
        rect: 0,
        depth: 0,
        chain: true,
    }];
    flood.walk(&nav, &refs, &mut stack, true, &mut scripted(&[], &[]));
    assert!(stack.is_empty());
    assert_eq!(flood.iters, 4, "g0, then g2 and g1 from it, then g2 again through g1");
    assert_eq!(flood.crossings.len(), 3, "two doors out of g0, one out of g1");
    assert!(flood.crossings.iter().all(|c| c.admitted.is_some()));
    assert_eq!(flood.windows.len(), 1);
    assert_eq!(flood.portal_pushed, vec![false, true]);
    assert_eq!(flood.visible, vec![true, true, true]);
    assert_eq!(flood.interior_fog, vec![true, true, false]);
    let mut again = vec![Step {
        group: 0,
        came: usize::MAX,
        rect: 0,
        depth: 0,
        chain: true,
    }];
    let mut quiet: Flood<u8> = Flood::new(3, 2);
    quiet.walk(&nav, &refs, &mut again, false, &mut scripted(&[], &[]));
    assert!(quiet.windows.is_empty());
}

/// The walk never re-crosses its entry portal and stops descending at the depth cap.
#[test]
fn the_walk_is_bounded_by_depth() {
    // A chain of twelve interiors, each with a door forward and one back.
    let n = 12;
    let mut nav = Vec::new();
    let mut refs = Vec::new();
    for g in 0..n {
        let start = refs.len() as u16;
        let mut count = 0;
        if g + 1 < n {
            refs.push(pref(g as u16, (g + 1) as u16, 1));
            count += 1;
        }
        if g > 0 {
            refs.push(pref((g - 1) as u16, (g - 1) as u16, 1));
            count += 1;
        }
        nav.push(nav_of(start, count));
    }
    let mut geo = scripted(&[], &[]);
    let pvs = flood_with(&nav, &refs, n, inside(0), &mut geo);
    let drawn = pvs.visible.iter().filter(|v| **v).count();
    assert_eq!(drawn, 11, "ten hops from the root, never back through the entry");
    assert!(pvs.visible[10] && !pvs.visible[11]);
}

fn nav_of(ref_start: u16, ref_count: u16) -> WmoGroupNav {
    WmoGroupNav {
        flags: 0x2000,
        ref_start,
        ref_count,
    }
}

/// A model without a portal graph is held all-visible and fog-free; a flooded one publishes its
/// sets; either way what is drawn latches into the liquid set and stays there.
#[test]
fn a_placement_is_held_or_flooded_and_latches_what_it_drew() {
    let (nav, refs) = doorway();
    let mut inst = WmoPortalInstance::new(0, 5);
    let mut geo = scripted(&[], &[]);
    let (changed, out) = flood_placement(&mut inst, &nav, &[], 0, inside(0), &[], &mut geo);
    assert!(out.is_none());
    assert_eq!(inst.visible, vec![true; 5]);
    assert_eq!(inst.interior_fog, vec![false; 5]);
    assert_eq!(inst.liquid_visited, vec![false; 5], "a held model never latches");
    assert!(!changed, "a fresh placement is already held");

    let mut inst = WmoPortalInstance::new(0, 5);
    let mut geo = scripted(&[1, 2], &[]);
    let (changed, out) = flood_placement(&mut inst, &nav, &refs, 2, inside(0), &[false; 5], &mut geo);
    let pvs = out.unwrap();
    assert_eq!(pvs.windows.len(), 1);
    assert_eq!(pvs.roots.len(), 3, "the seed, then the two shells the window shows");
    assert_eq!(
        pvs.iters as usize,
        pvs.roots.len() + pvs.crossings.iter().filter(|c| c.admitted.is_some()).count(),
        "one step per root and per admitted crossing"
    );
    assert!(changed);
    assert_eq!(inst.visible, vec![true, true, true, false, true]);
    assert_eq!(inst.liquid_visited, vec![true, true, true, false, true]);
    // A later frame that sees less keeps the latch.
    let mut blocked = scripted(&[], &[]);
    blocked.blocked = vec![0];
    let _ = flood_placement(&mut inst, &nav, &refs, 2, inside(0), &[false; 5], &mut blocked);
    assert_eq!(inst.visible, vec![true, false, false, false, false]);
    assert_eq!(inst.liquid_visited, vec![true, true, true, false, true]);
}

/// Unless the backstop trips, the camera's own room is drawn and fogged, whatever the portals.
#[test]
fn the_seed_room_is_always_drawn() {
    let (nav, refs) = doorway();
    let mut geo = scripted(&[], &[]);
    geo.blocked = vec![0, 1];
    let pvs = flood_with(&nav, &refs, 2, inside(4), &mut geo);
    assert_eq!(pvs.visible, vec![false, false, false, false, true]);
    assert_eq!(pvs.interior_fog, vec![false, false, false, false, true]);
}

/// A refused crossing is still recorded, with no step behind it.
#[test]
fn a_refused_crossing_is_traced_and_not_walked() {
    let (nav, refs) = doorway();
    let mut geo = scripted(&[], &[]);
    geo.blocked = vec![0];
    let pvs = flood_with(&nav, &refs, 2, inside(0), &mut geo);
    assert_eq!(pvs.crossings.len(), 1);
    assert_eq!(pvs.crossings[0].from, 0);
    assert!(pvs.crossings[0].admitted.is_none());
    assert_eq!(pvs.iters, 1);
}
