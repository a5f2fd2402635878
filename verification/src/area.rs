//! The area authority: the `AreaTable` id under the player's feet. A WMO interior wins over the
//! terrain chunk's id; an unassigned id (0) is a miss that keeps the last real zone; and the area
//! lives with the character, so with no avatar there is none.
use crate::focus::ViewFocus;
use vstd::prelude::*;

verus! {

/// The `AreaTable` id under the player's feet; `None` until the ground tile is resident, and
/// again whenever there is no avatar.
#[derive(Clone, Copy, Debug, PartialEq, Eq, Structural, Default)]
pub struct CurrentArea(pub Option<u32>);

/// An id that names an area: 0 is unassigned in the data.
pub open spec fn assigned(id: Option<u32>) -> Option<u32> {
    match id {
        Some(v) => if v != 0 {
            Some(v)
        } else {
            None
        },
        None => None,
    }
}

/// The area a frame settles on: none without an avatar; the last answer while the body's world
/// is still arriving; else the interior's area when it names one, then the terrain's, and the
/// last answer when neither does.
pub open spec fn next_area_spec(
    current: Option<u32>,
    body: bool,
    settled: bool,
    interior: Option<u32>,
    terrain: Option<u32>,
) -> Option<u32> {
    if !body {
        None
    } else if !settled {
        current
    } else {
        let found = if assigned(interior) is Some {
            assigned(interior)
        } else {
            assigned(terrain)
        };
        if found is Some {
            found
        } else {
            current
        }
    }
}

fn assigned_exec(id: Option<u32>) -> (r: Option<u32>)
    ensures
        r == assigned(id),
{
    match id {
        Some(v) => if v != 0 {
            Some(v)
        } else {
            None
        },
        None => None,
    }
}

impl CurrentArea {
    /// Tracks the area for one frame from the focus and what the world answered under the body:
    /// `interior` is the area the player's WMO room resolves to, `terrain` the chunk's id there
    /// (`None` while its tile is not resident).
    pub fn update<P: Copy>(&mut self, focus: &ViewFocus<P>, interior: Option<u32>, terrain: Option<u32>)
        ensures
            final(self).0 == next_area_spec(
                old(self).0,
                focus.body_spec() is Some,
                focus.body_spec() is Some && focus.paced_spec(),
                interior,
                terrain,
            ),
    {
        if focus.body_pos().is_none() {
            self.0 = None;
            return;
        }
        if !focus.body_settled() {
            return;
        }
        let found = match assigned_exec(interior) {
            Some(a) => Some(a),
            None => assigned_exec(terrain),
        };
        if found.is_some() {
            self.0 = found;
        }
    }
}

/// With no avatar there is no area, whatever the world says: the next character never reads
/// this one's zone.
pub proof fn lemma_no_avatar_no_area(
    current: Option<u32>,
    settled: bool,
    interior: Option<u32>,
    terrain: Option<u32>,
)
    ensures
        next_area_spec(current, false, settled, interior, terrain) is None,
{
}

/// An unassigned id never replaces a real zone: the area changes only to an assigned id, and
/// never to 0.
pub proof fn lemma_area_never_unassigned(
    current: Option<u32>,
    body: bool,
    settled: bool,
    interior: Option<u32>,
    terrain: Option<u32>,
)
    requires
        current != Some(0u32),
    ensures
        next_area_spec(current, body, settled, interior, terrain) != Some(0u32),
{
}

} // verus!
