use benilla_world::area::CurrentArea;
use benilla_world::focus::ViewFocus;

#[test]
fn no_avatar_means_no_area() {
    // A character session that published its zone, standing where no tile is resident.
    let mut area = CurrentArea(Some(1519));
    area.update(&ViewFocus::body([-8900.0f32, -130.0, 80.0], true), None, None);
    assert_eq!(
        area.0,
        Some(1519),
        "with a body and no resident tile the last real answer is held"
    );
    // Logged out: no body.
    area.update(&ViewFocus::<[f32; 3]>::camera(), None, None);
    assert_eq!(area.0, None);
    // The entry-window focus is the same: a picked row is not a body.
    let mut area = CurrentArea(Some(1519));
    area.update(&ViewFocus::entry(0, [-8900.0f32, -130.0, 80.0]), None, None);
    assert_eq!(area.0, None);
}

#[test]
fn a_body_that_survives_a_drop_keeps_its_area() {
    let mut area = CurrentArea(Some(12));
    area.update(&ViewFocus::body([0.0f32, 0.0, 0.0], false), None, None);
    assert_eq!(area.0, Some(12));
}

/// An interior's area wins over the terrain's; an unassigned id is a miss.
#[test]
fn the_interior_wins_and_zero_is_a_miss() {
    let settled = ViewFocus::body([0.0f32; 3], true);
    let mut area = CurrentArea(None);
    area.update(&settled, Some(1519), Some(12));
    assert_eq!(area.0, Some(1519));
    area.update(&settled, Some(0), Some(12));
    assert_eq!(area.0, Some(12));
    area.update(&settled, None, Some(0));
    assert_eq!(area.0, Some(12), "0 keeps the last real zone");
    area.update(&settled, None, Some(40));
    assert_eq!(area.0, Some(40));
}
