use benilla_world::focus::ViewFocus;

/// Northshire Abbey, the spawn point, in WoW coordinates.
const SPAWN_XY: (f32, f32) = (-8949.95, -132.49);
/// Stratholme's map and position.
const PICK: (u32, [f32; 3]) = (329, [3398.9, -3381.8, 142.7]);

fn spawn() -> [f32; 3] {
    [SPAWN_XY.0, SPAWN_XY.1, 0.0]
}

fn cam_at_northshire() -> Option<[f32; 3]> {
    Some([SPAWN_XY.0, SPAWN_XY.1, 100.0])
}

#[test]
fn the_pick_outranks_the_camera_until_the_avatar_exists() {
    let idle = ViewFocus::entry(PICK.0, PICK.1);
    assert_eq!(
        idle.map(Some(0)),
        329,
        "the map must be the picked character's, not the boot default"
    );
    assert_eq!(idle.resolve(cam_at_northshire(), spawn()), PICK.1);
}

#[test]
fn the_avatar_outranks_the_pick_once_it_is_in_the_world() {
    let walking = ViewFocus::body([100.0, 200.0, 30.0], true);
    assert_eq!(walking.map(Some(1)), 1);
    let f = walking.resolve(cam_at_northshire(), spawn());
    assert!(
        (f[0] - 100.0).abs() < 0.01 && (f[1] - 200.0).abs() < 0.01,
        "{f:?}"
    );
}

#[test]
fn free_flight_follows_the_camera_and_a_server_less_run_still_has_one() {
    let flying = ViewFocus::detached([100.0, 200.0, 30.0], true);
    let f = flying.resolve(cam_at_northshire(), spawn());
    assert!((f[0] - SPAWN_XY.0).abs() < 0.01, "{f:?}");
    assert_eq!(flying.body_pos(), Some([100.0, 200.0, 30.0]));
    assert!(
        (ViewFocus::camera().resolve(cam_at_northshire(), spawn())[0] - SPAWN_XY.0).abs() < 0.01
    );
    assert_eq!(
        ViewFocus::<[f32; 3]>::camera().resolve(None, spawn()),
        [SPAWN_XY.0, SPAWN_XY.1, 0.0]
    );
}

/// With no map named anywhere, the boot default, map 0.
#[test]
fn no_map_anywhere_is_map_zero() {
    assert_eq!(ViewFocus::<[f32; 3]>::camera().map(None), 0);
    assert_eq!(ViewFocus::<[f32; 3]>::camera().map(Some(530)), 530);
    let idle = ViewFocus::entry(PICK.0, PICK.1);
    assert_eq!(idle.map(None), 329);
}

/// The settled bit travels apart from where the focus points.
#[test]
fn pacing_is_separate_from_the_point() {
    let mut f = ViewFocus::body([1.0f32, 2.0, 3.0], false);
    assert!(!f.paced());
    assert!(f.follows_body());
    f.set_paced(true);
    assert!(f.paced());
    assert_eq!(f.resolve(None, spawn()), [1.0, 2.0, 3.0]);
    assert!(!ViewFocus::detached([1.0f32, 2.0, 3.0], true).follows_body());
    assert!(!ViewFocus::<[f32; 3]>::entry(1, [0.0; 3]).follows_body());
}

/// A body counts as settled while it exists and the focus is paced, attached or not.
#[test]
fn a_settled_body_exists_and_is_paced() {
    assert!(ViewFocus::body([0.0f32; 3], true).body_settled());
    assert!(!ViewFocus::body([0.0f32; 3], false).body_settled());
    assert!(ViewFocus::detached([0.0f32; 3], true).body_settled());
    assert!(!ViewFocus::<[f32; 3]>::camera().body_settled());
}
