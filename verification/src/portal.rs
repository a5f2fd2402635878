//! The discrete half of WMO portal culling: the per-group bit sets a frame's portal flood
//! publishes, the predicates every renderer, light and body asks of them, and the group-flag rules
//! that pick the flood's roots, its windows and its interior-fog chain.
//!
//! Index misses are deliberate and asymmetric: a group index past the visible set reads visible
//! (a lookup miss never blanks a building), one past the interior-fog set reads false (a missing
//! bit never paints a room's fog onto the open world).
use vstd::prelude::*;

verus! {

/// MOGP EXTERIOR: an outdoor group. It seeds the outside leg, and a portal onto one opens a
/// window onto the open world.
pub const EXTERIOR: u32 = 0x8;

/// MOGP EXTERIOR_LIT: an interior-graph group lit as outdoors.
pub const EXTERIOR_LIT: u32 = 0x40;

/// The callback-pass group: drawn in a third pass against the full camera frustum.
pub const CALLBACK_PASS: u32 = 0x10000;

/// A visible group with any of these shows the weather through a doorway the camera can see.
pub const WEATHER_FLAGS: u32 = 0x148;

/// What the portal rules read of one WMO group: its MOGP flags and its slice of the portal-ref
/// table.
#[derive(Clone, Copy, Debug, PartialEq, Eq, Structural)]
pub struct WmoGroupNav {
    pub flags: u32,
    pub ref_start: u16,
    pub ref_count: u16,
}

/// One portal reference: the portal, the group on its other side, and the side the owning group
/// sits on.
#[derive(Clone, Copy, Debug, PartialEq, Eq, Structural)]
pub struct WmoPortalRef {
    pub portal: u16,
    pub group: u16,
    pub side: i16,
}

/// One placed WMO's per-group sets for this frame, by absolute group index.
#[derive(Clone, Debug)]
pub struct WmoPortalInstance {
    /// The placement's name set, the `WMOAreaTable.NameSetID` variant.
    pub name_set: u16,
    /// Per-group PVS bit this frame; seeded all-true, which a portal-less prop keeps.
    pub visible: Vec<bool>,
    /// Per-group interior-fog gate this frame; seeded all-false, which a portal-less prop keeps.
    pub interior_fog: Vec<bool>,
    /// Per-group ever-visited latch: once the flood visits a group, its liquid surface draws for
    /// the rest of the placement's residency.
    pub liquid_visited: Vec<bool>,
}

/// Tag on every portal-culled WMO piece: its placement instance (an entity id) and the absolute
/// groups that can draw it.
#[derive(Clone, Debug)]
pub struct WmoGroupVis {
    pub instance: u64,
    pub groups: Vec<u16>,
}

/// One WMO room: a placement's instance entity id and an absolute group index in it.
#[derive(Clone, Copy, Debug, PartialEq, Eq, Structural)]
pub struct WmoRoom {
    pub instance: u64,
    pub group: u16,
}

/// The WMO room a remote unit stands in, its own liquid claim.
#[derive(Clone, Copy, Debug, PartialEq, Eq, Structural)]
pub struct UnitWmoRoom {
    room: Option<WmoRoom>,
}

/// Where the downward ray lands: the camera's group, plus the group on the far side when the
/// closest hit is a portal. Outdoors, both are `None`.
#[derive(Clone, Copy, Debug, PartialEq, Eq, Structural, Default)]
pub struct DownRaySeeds {
    pub in_group: Option<usize>,
    pub across: Option<usize>,
}

/// The visible bit of group `g`; an index past the set reads visible.
pub open spec fn vis_at(visible: Seq<bool>, g: int) -> bool {
    if 0 <= g < visible.len() {
        visible[g]
    } else {
        true
    }
}

/// The interior-fog bit of group `g`; an index past the set reads false.
pub open spec fn fog_at(fog: Seq<bool>, g: int) -> bool {
    if 0 <= g < fog.len() {
        fog[g]
    } else {
        false
    }
}

/// Group `g` exists and carries EXTERIOR.
pub open spec fn is_exterior_group(nav: Seq<WmoGroupNav>, g: int) -> bool {
    0 <= g < nav.len() && nav[g].flags & EXTERIOR != 0
}

/// Group `g` exists and is a true interior: neither EXTERIOR nor EXTERIOR_LIT.
pub open spec fn is_true_interior(nav: Seq<WmoGroupNav>, g: int) -> bool {
    0 <= g < nav.len() && nav[g].flags & (EXTERIOR | EXTERIOR_LIT) == 0
}

/// A piece tagged with `groups` is drawn iff one of them is visible.
pub open spec fn drawn_by_spec(groups: Seq<u16>, visible: Seq<bool>) -> bool {
    exists|i: int| 0 <= i < groups.len() && vis_at(visible, groups[i] as int)
}

/// A piece tagged with `groups` takes the interior fog iff one of them does.
pub open spec fn fogged_by_spec(groups: Seq<u16>, fog: Seq<bool>) -> bool {
    exists|i: int| 0 <= i < groups.len() && fog_at(fog, groups[i] as int)
}

/// A claimed group is visible when its own bit is, when it is outside the model or its ref slice
/// is, or when any group one portal hop from it is visible.
pub open spec fn room_visible_spec(
    visible: Seq<bool>,
    nav: Seq<WmoGroupNav>,
    refs: Seq<WmoPortalRef>,
    group: u16,
) -> bool {
    ||| vis_at(visible, group as int)
    ||| group as int >= nav.len()
    ||| nav[group as int].ref_start + nav[group as int].ref_count > refs.len()
    ||| exists|i: int|
        nav[group as int].ref_start <= i < nav[group as int].ref_start
            + nav[group as int].ref_count && vis_at(visible, refs[i].group as int)
}

impl WmoGroupVis {
    /// Drawn iff any referencing group is in this frame's PVS; an index past the visible set
    /// reads visible, so a lookup miss never blanks a building.
    pub fn drawn_by(&self, inst: &WmoPortalInstance) -> (r: bool)
        ensures
            r == drawn_by_spec(self.groups@, inst.visible@),
    {
        let mut i: usize = 0;
        while i < self.groups.len()
            invariant
                0 <= i <= self.groups@.len(),
                forall|j: int| 0 <= j < i ==> !vis_at(inst.visible@, self.groups@[j] as int),
            decreases self.groups@.len() - i,
        {
            let g = self.groups[i] as usize;
            if g >= inst.visible.len() || inst.visible[g] {
                return true;
            }
            i = i + 1;
        }
        false
    }

    /// Takes the building's fog triple iff any naming group does. A miss reads false, unlike
    /// `drawn_by`: a missing bit must not paint a room's fog onto the open world.
    pub fn interior_fogged_by(&self, inst: &WmoPortalInstance) -> (r: bool)
        ensures
            r == fogged_by_spec(self.groups@, inst.interior_fog@),
    {
        let mut i: usize = 0;
        while i < self.groups.len()
            invariant
                0 <= i <= self.groups@.len(),
                forall|j: int| 0 <= j < i ==> !fog_at(inst.interior_fog@, self.groups@[j] as int),
            decreases self.groups@.len() - i,
        {
            if inst.fogs_group(self.groups[i]) {
                return true;
            }
            i = i + 1;
        }
        false
    }
}

impl WmoPortalInstance {
    /// A fresh placement's sets for a model of `groups` groups: all visible, no interior fog,
    /// nothing visited.
    pub fn new(name_set: u16, groups: usize) -> (inst: WmoPortalInstance)
        ensures
            inst.name_set == name_set,
            inst.visible@ == Seq::new(groups as nat, |i: int| true),
            inst.interior_fog@ == Seq::new(groups as nat, |i: int| false),
            inst.liquid_visited@ == Seq::new(groups as nat, |i: int| false),
    {
        WmoPortalInstance {
            name_set,
            visible: filled(groups, true),
            interior_fog: filled(groups, false),
            liquid_visited: filled(groups, false),
        }
    }

    /// The interior-fog bit for one group; a group past the set reads false.
    pub fn fogs_group(&self, group: u16) -> (r: bool)
        ensures
            r == fog_at(self.interior_fog@, group as int),
    {
        let g = group as usize;
        if g < self.interior_fog.len() {
            self.interior_fog[g]
        } else {
            false
        }
    }

    /// A model with no portal graph is never culled and never on the interior-fog lane: its sets
    /// become all-visible and fog-free. Returns whether either set changed, so an unchanged
    /// placement is not marked changed.
    pub fn hold_unculled(&mut self, groups: usize) -> (changed: bool)
        ensures
            final(self).visible@ == Seq::new(groups as nat, |i: int| true),
            final(self).interior_fog@ == Seq::new(groups as nat, |i: int| false),
            final(self).liquid_visited@ == old(self).liquid_visited@,
            final(self).name_set == old(self).name_set,
            changed == (old(self).visible@ != Seq::new(groups as nat, |i: int| true)
                || old(self).interior_fog@ != Seq::new(groups as nat, |i: int| false)),
    {
        let vis_held = all_equal(&self.visible, groups, true);
        let fog_held = all_equal(&self.interior_fog, groups, false);
        if !vis_held {
            self.visible = filled(groups, true);
        }
        if !fog_held {
            self.interior_fog = filled(groups, false);
        }
        !vis_held || !fog_held
    }

    /// Writes this frame's flood result, compare-then-write: returns whether either set changed,
    /// so a parked camera's repeated answer marks nothing.
    pub fn publish(&mut self, visible: Vec<bool>, interior_fog: Vec<bool>) -> (changed: bool)
        ensures
            final(self).visible@ == visible@,
            final(self).interior_fog@ == interior_fog@,
            final(self).liquid_visited@ == old(self).liquid_visited@,
            final(self).name_set == old(self).name_set,
            changed == (old(self).visible@ != visible@ || old(self).interior_fog@
                != interior_fog@),
    {
        let same_vis = bool_vecs_eq(&self.visible, &visible);
        let same_fog = bool_vecs_eq(&self.interior_fog, &interior_fog);
        if !same_vis {
            self.visible = visible;
        }
        if !same_fog {
            self.interior_fog = interior_fog;
        }
        !same_vis || !same_fog
    }

    /// The liquid latch over a model of `groups` groups: resized (cleared) when the group count
    /// changed, then every group visible this frame is latched on for good. Returns whether any
    /// slot changed.
    pub fn latch_liquid_visited(&mut self, groups: usize) -> (changed: bool)
        ensures
            final(self).liquid_visited@.len() == groups,
            forall|g: int|
                0 <= g < groups ==> #[trigger] final(self).liquid_visited@[g] == ((
                old(self).liquid_visited@.len() == groups && old(self).liquid_visited@[g]) || (g
                < old(self).visible@.len() && old(self).visible@[g])),
            final(self).visible@ == old(self).visible@,
            final(self).interior_fog@ == old(self).interior_fog@,
            final(self).name_set == old(self).name_set,
            changed == (old(self).liquid_visited@ != final(self).liquid_visited@),
    {
        let resized = self.liquid_visited.len() != groups;
        if resized {
            self.liquid_visited = filled(groups, false);
        }
        let ghost start = self.liquid_visited@;
        let mut changed = resized;
        let mut g: usize = 0;
        while g < groups
            invariant
                0 <= g <= groups,
                self.liquid_visited@.len() == groups,
                start.len() == groups,
                self.visible@ == old(self).visible@,
                self.interior_fog@ == old(self).interior_fog@,
                self.name_set == old(self).name_set,
                resized == (old(self).liquid_visited@.len() != groups),
                resized ==> start == Seq::new(groups as nat, |i: int| false),
                !resized ==> start == old(self).liquid_visited@,
                forall|i: int|
                    0 <= i < g ==> #[trigger] self.liquid_visited@[i] == (start[i] || (i
                        < self.visible@.len() && self.visible@[i])),
                forall|i: int| g <= i < groups ==> #[trigger] self.liquid_visited@[i] == start[i],
                changed == (resized || exists|i: int| 0 <= i < g && self.liquid_visited@[i] != start[i]),
            decreases groups - g,
        {
            let seen = g < self.visible.len() && self.visible[g];
            if seen && !self.liquid_visited[g] {
                self.liquid_visited.set(g, true);
                changed = true;
            }
            g = g + 1;
        }
        proof {
            if !resized {
                if changed {
                    let i = choose|i: int| 0 <= i < g && self.liquid_visited@[i] != start[i];
                    assert(self.liquid_visited@[i] != old(self).liquid_visited@[i]);
                } else {
                    assert(self.liquid_visited@ =~= old(self).liquid_visited@);
                }
            }
        }
        changed
    }
}

/// A vector of `n` copies of `b`.
fn filled(n: usize, b: bool) -> (v: Vec<bool>)
    ensures
        v@ == Seq::new(n as nat, |i: int| b),
{
    let mut v: Vec<bool> = Vec::new();
    let mut i: usize = 0;
    while i < n
        invariant
            0 <= i <= n,
            v@ =~= Seq::new(i as nat, |j: int| b),
        decreases n - i,
    {
        v.push(b);
        i = i + 1;
    }
    v
}

/// Whether `v` is exactly `n` copies of `b`.
fn all_equal(v: &Vec<bool>, n: usize, b: bool) -> (r: bool)
    ensures
        r == (v@ == Seq::new(n as nat, |i: int| b)),
{
    if v.len() != n {
        return false;
    }
    let mut i: usize = 0;
    while i < v.len()
        invariant
            v@.len() == n,
            0 <= i <= n,
            forall|j: int| 0 <= j < i ==> v@[j] == b,
        decreases n - i,
    {
        if v[i] != b {
            assert(v@[i as int] != Seq::new(n as nat, |k: int| b)[i as int]);
            return false;
        }
        i = i + 1;
    }
    assert(v@ =~= Seq::new(n as nat, |j: int| b));
    true
}

/// Element-wise equality of two bit sets.
fn bool_vecs_eq(a: &Vec<bool>, b: &Vec<bool>) -> (r: bool)
    ensures
        r == (a@ == b@),
{
    if a.len() != b.len() {
        return false;
    }
    let mut i: usize = 0;
    while i < a.len()
        invariant
            a@.len() == b@.len(),
            0 <= i <= a@.len(),
            forall|j: int| 0 <= j < i ==> a@[j] == b@[j],
        decreases a@.len() - i,
    {
        if a[i] != b[i] {
            return false;
        }
        i = i + 1;
    }
    assert(a@ =~= b@);
    true
}

/// Is a room-bound rider drawn this frame? No rooms: admitted (an ADT doodad, a creature, a held
/// item). Rooms with the placement resident: [`WmoGroupVis::drawn_by`]. Rooms with the placement
/// gone: refused, where `drawn_by` fails open, since a rider outlives its building by a frame.
pub fn room_admits(room: Option<&WmoGroupVis>, instance: Option<&WmoPortalInstance>) -> (r: bool)
    ensures
        r == match (room, instance) {
            (None, _) => true,
            (Some(rm), Some(inst)) => drawn_by_spec(rm.groups@, inst.visible@),
            (Some(_), None) => false,
        },
{
    match (room, instance) {
        (None, _) => true,
        (Some(r), Some(inst)) => r.drawn_by(inst),
        (Some(_), None) => false,
    }
}

/// The deferred-window push test: a flood step opens a window onto the open world exactly when its
/// destination group carries EXTERIOR. A destination past the model fails closed.
pub fn opens_a_window(nav: &[WmoGroupNav], to: usize) -> (r: bool)
    ensures
        r == is_exterior_group(nav@, to as int),
{
    to < nav.len() && nav[to].flags & EXTERIOR != 0
}

/// Is the claimed group, or any group one portal hop from it, in the PVS? The hop is the
/// doorway-straddle guard: a body extends past its room only through a portal opening. Every
/// lookup miss reads visible.
pub fn room_visible(
    visible: &[bool],
    nav: &[WmoGroupNav],
    refs: &[WmoPortalRef],
    group: u16,
) -> (r: bool)
    ensures
        r == room_visible_spec(visible@, nav@, refs@, group),
{
    let g = group as usize;
    if g >= visible.len() || visible[g] {
        return true;
    }
    if g >= nav.len() {
        return true;
    }
    let start = nav[g].ref_start as usize;
    let end = start + nav[g].ref_count as usize;
    if end > refs.len() {
        return true;
    }
    let mut i = start;
    while i < end
        invariant
            start <= i <= end <= refs@.len(),
            g == group as usize,
            g < nav@.len(),
            start == nav@[g as int].ref_start,
            end == nav@[g as int].ref_start + nav@[g as int].ref_count,
            forall|j: int| start <= j < i ==> !vis_at(visible@, refs@[j].group as int),
        decreases end - i,
    {
        let h = refs[i].group as usize;
        if h >= visible.len() || visible[h] {
            assert(vis_at(visible@, refs@[i as int].group as int));
            return true;
        }
        i = i + 1;
    }
    false
}

impl UnitWmoRoom {
    /// No claim: the unit stands in no WMO room.
    pub fn unclaimed() -> (u: UnitWmoRoom)
        ensures
            u.room_spec() == None::<WmoRoom>,
    {
        UnitWmoRoom { room: None }
    }

    /// The claim as sampled by the faces-only ray.
    pub fn sampled(room: Option<WmoRoom>) -> (u: UnitWmoRoom)
        ensures
            u.room_spec() == room,
    {
        UnitWmoRoom { room }
    }

    pub closed spec fn room_spec(&self) -> Option<WmoRoom> {
        self.room
    }

    /// The room, for the liquid query's scope key.
    pub fn room(&self) -> (r: Option<WmoRoom>)
        ensures
            r == self.room_spec(),
    {
        self.room
    }

    /// A synthetic claim for tests of a room consumer.
    pub fn claimed(room: WmoRoom) -> (u: UnitWmoRoom)
        ensures
            u.room_spec() == Some(room),
    {
        UnitWmoRoom { room: Some(room) }
    }
}

/// Whether a body's claimed room is visible this frame, given what the caller found for it: the
/// claimed placement's visible set (`None` when the placement is gone) and its model's groups and
/// portal refs (`None` while the model loads). Every seam fails open: a lookup miss must never
/// hide or park a body.
pub fn room_pvs_visible(
    room: Option<&UnitWmoRoom>,
    visible: Option<&[bool]>,
    model: Option<(&[WmoGroupNav], &[WmoPortalRef])>,
) -> (r: bool)
    ensures
        r == match room {
            None => true,
            Some(u) => match u.room_spec() {
                None => true,
                Some(rm) => match visible {
                    None => true,
                    Some(v) => match model {
                        None => true,
                        Some(m) => room_visible_spec(v@, m.0@, m.1@, rm.group),
                    },
                },
            },
        },
{
    let claimed = match room {
        None => return true,
        Some(u) => u.room(),
    };
    let rm = match claimed {
        None => return true,
        Some(rm) => rm,
    };
    let v = match visible {
        None => return true,
        Some(v) => v,
    };
    match model {
        None => true,
        Some((nav, refs)) => room_visible(v, nav, refs, rm.group),
    }
}

/// The camera is inside a building: the down-ray named a group, and that group is not EXTERIOR.
/// This is both the claim gate and the inside-leg flag, which alone records deferred windows.
pub open spec fn claims_spec(nav: Seq<WmoGroupNav>, in_group: Option<usize>) -> bool {
    match in_group {
        Some(g) => g < nav.len() && nav[g as int].flags & EXTERIOR == 0,
        None => false,
    }
}

/// Whether the down-ray's group claims the camera for this building.
pub fn claims_camera(nav: &[WmoGroupNav], in_group: Option<usize>) -> (r: bool)
    ensures
        r == claims_spec(nav@, in_group),
{
    match in_group {
        Some(g) => g < nav.len() && nav[g].flags & EXTERIOR == 0,
        None => false,
    }
}

/// The camera's claim by one placement: the room it stands in, and whether any weather-flagged
/// group of the placement is drawn.
#[derive(Clone, Copy, Debug, PartialEq, Eq, Structural)]
pub struct InteriorClaim {
    pub room: WmoRoom,
    pub exterior_visible: bool,
}

/// Any visible group carries a weather flag.
pub open spec fn weather_visible(nav: Seq<WmoGroupNav>, visible: Seq<bool>) -> bool {
    exists|i: int| 0 <= i < nav.len() && i < visible.len() && visible[i] && nav[i].flags & WEATHER_FLAGS != 0
}

/// The frame's camera claim after one more placement: a claim already held stands (the first
/// placement whose seed claims the camera wins); otherwise this placement claims it when its
/// down-ray names a non-EXTERIOR group, with the room it names and its weather visibility.
pub fn camera_claim(
    held: Option<InteriorClaim>,
    instance: u64,
    nav: &[WmoGroupNav],
    in_group: Option<usize>,
    visible: &[bool],
) -> (c: Option<InteriorClaim>)
    ensures
        held is Some ==> c == held,
        held is None && !claims_spec(nav@, in_group) ==> c is None,
        held is None && claims_spec(nav@, in_group) ==> c == Some(
            InteriorClaim {
                room: WmoRoom { instance, group: in_group->0 as u16 },
                exterior_visible: weather_visible(nav@, visible@),
            },
        ),
{
    if held.is_some() {
        return held;
    }
    match in_group {
        Some(g) => {
            if claims_camera(nav, in_group) {
                Some(
                    InteriorClaim {
                        room: WmoRoom { instance, group: g as u16 },
                        exterior_visible: exterior_visible(nav, visible),
                    },
                )
            } else {
                None
            }
        },
        None => None,
    }
}

/// Whether any visible group carries a weather flag, so rain shows through a doorway the camera
/// can see. Groups and bits pair up to the shorter of the two lists.
pub fn exterior_visible(nav: &[WmoGroupNav], visible: &[bool]) -> (r: bool)
    ensures
        r == exists|i: int|
            0 <= i < nav@.len() && i < visible@.len() && visible@[i] && nav@[i].flags
                & WEATHER_FLAGS != 0,
{
    let mut i: usize = 0;
    while i < nav.len() && i < visible.len()
        invariant
            0 <= i <= nav@.len(),
            i <= visible@.len(),
            forall|j: int|
                0 <= j < i ==> !(visible@[j] && nav@[j].flags & WEATHER_FLAGS != 0),
        decreases nav@.len() - i,
    {
        if visible[i] && nav[i].flags & WEATHER_FLAGS != 0 {
            return true;
        }
        i = i + 1;
    }
    false
}

/// The group whose fog records the camera's fog target comes from: the first of the camera's
/// containing groups (the down-ray's group, then the one across its portal) that is a true
/// interior, or `None` when neither is.
pub fn fog_group(nav: &[WmoGroupNav], in_group: usize, across: Option<usize>) -> (r: Option<usize>)
    ensures
        r == if is_true_interior(nav@, in_group as int) {
            Some(in_group)
        } else {
            match across {
                Some(a) => if is_true_interior(nav@, a as int) {
                    Some(a)
                } else {
                    None
                },
                None => None,
            }
        },
{
    if in_group < nav.len() && nav[in_group].flags & (EXTERIOR | EXTERIOR_LIT) == 0 {
        return Some(in_group);
    }
    match across {
        Some(a) => if a < nav.len() && nav[a].flags & (EXTERIOR | EXTERIOR_LIT) == 0 {
            Some(a)
        } else {
            None
        },
        None => None,
    }
}

/// The interior chain past a group: it stays unbroken only through true interiors (neither
/// EXTERIOR nor EXTERIOR_LIT), where the fog anchor clears.
pub fn interior_chain(chain: bool, flags: u32) -> (r: bool)
    ensures
        r == (chain && flags & (EXTERIOR | EXTERIOR_LIT) == 0),
{
    chain && flags & (EXTERIOR | EXTERIOR_LIT) == 0
}

/// The indices of the groups satisfying a flag test, in order.
pub open spec fn groups_where(nav: Seq<WmoGroupNav>, pred: spec_fn(u32) -> bool) -> Seq<usize>
    decreases nav.len(),
{
    if nav.len() == 0 {
        Seq::empty()
    } else {
        let rest = groups_where(nav.drop_last(), pred);
        if pred(nav.last().flags) {
            rest.push((nav.len() - 1) as usize)
        } else {
            rest
        }
    }
}

/// The outside leg's flood roots: with no containing group, every EXTERIOR group is a root.
pub open spec fn outside_root_flags() -> spec_fn(u32) -> bool {
    |f: u32| f & EXTERIOR != 0
}

/// Pass 2's candidates against each deferred window: EXTERIOR groups without the callback flag.
pub open spec fn pass2_flags() -> spec_fn(u32) -> bool {
    |f: u32| f & (EXTERIOR | CALLBACK_PASS) == EXTERIOR
}

/// The groups whose flags pass `keep`, in index order.
fn select_groups(nav: &[WmoGroupNav], outside: bool) -> (out: Vec<usize>)
    ensures
        out@ == groups_where(
            nav@,
            if outside {
                outside_root_flags()
            } else {
                pass2_flags()
            },
        ),
{
    let ghost pred = if outside {
        outside_root_flags()
    } else {
        pass2_flags()
    };
    let mut out: Vec<usize> = Vec::new();
    let mut i: usize = 0;
    while i < nav.len()
        invariant
            0 <= i <= nav@.len(),
            pred == (if outside {
                outside_root_flags()
            } else {
                pass2_flags()
            }),
            out@ == groups_where(nav@.take(i as int), pred),
        decreases nav@.len() - i,
    {
        let f = nav[i].flags;
        let keep = if outside {
            f & EXTERIOR != 0
        } else {
            f & (EXTERIOR | CALLBACK_PASS) == EXTERIOR
        };
        proof {
            assert(nav@.take(i + 1).drop_last() =~= nav@.take(i as int));
            assert(nav@.take(i + 1).last() == nav@[i as int]);
        }
        if keep {
            out.push(i);
        }
        i = i + 1;
    }
    proof {
        assert(nav@.take(i as int) =~= nav@);
    }
    out
}

/// The outside leg's roots: every EXTERIOR group, each flooded full-screen.
pub fn outside_roots(nav: &[WmoGroupNav]) -> (out: Vec<usize>)
    ensures
        out@ == groups_where(nav@, outside_root_flags()),
{
    select_groups(nav, true)
}

/// The candidates every deferred window tests: EXTERIOR groups that are not callback-pass.
pub fn pass2_candidates(nav: &[WmoGroupNav]) -> (out: Vec<usize>)
    ensures
        out@ == groups_where(nav@, pass2_flags()),
{
    select_groups(nav, false)
}

/// The callback-pass candidates: callback-flagged groups the flood left unvisited.
pub fn pass3_candidates(nav: &[WmoGroupNav], visible: &[bool]) -> (out: Vec<usize>)
    requires
        visible@.len() == nav@.len(),
    ensures
        forall|i: int|
            0 <= i < out@.len() ==> #[trigger] out@[i] < nav@.len() && !visible@[out@[i] as int]
                && nav@[out@[i] as int].flags & CALLBACK_PASS != 0,
        forall|g: int|
            0 <= g < nav@.len() && !visible@[g] && nav@[g].flags & CALLBACK_PASS != 0
                ==> out@.contains(g as usize),
        forall|i: int, j: int| 0 <= i < j < out@.len() ==> out@[i] < out@[j],
{
    let mut out: Vec<usize> = Vec::new();
    let mut i: usize = 0;
    while i < nav.len()
        invariant
            0 <= i <= nav@.len(),
            visible@.len() == nav@.len(),
            forall|k: int|
                0 <= k < out@.len() ==> #[trigger] out@[k] < i && !visible@[out@[k] as int]
                    && nav@[out@[k] as int].flags & CALLBACK_PASS != 0,
            forall|g: int|
                0 <= g < i && !visible@[g] && nav@[g].flags & CALLBACK_PASS != 0
                    ==> out@.contains(g as usize),
            forall|a: int, b: int| 0 <= a < b < out@.len() ==> out@[a] < out@[b],
        decreases nav@.len() - i,
    {
        if !visible[i] && nav[i].flags & CALLBACK_PASS != 0 {
            let ghost before = out@;
            out.push(i);
            proof {
                assert forall|g: int|
                    0 <= g < i + 1 && !visible@[g] && nav@[g].flags & CALLBACK_PASS != 0
                        implies out@.contains(g as usize) by {
                    if g < i {
                        let k = choose|k: int| 0 <= k < before.len() && before[k] == g as usize;
                        assert(out@[k] == g as usize);
                    } else {
                        assert(out@[before.len() as int] == g as usize);
                    }
                }
            }
        }
        i = i + 1;
    }
    out
}

/// The interior fog only ever rides a visible group, and only a true interior: a flood result
/// whose fog bit is set on a group must have drawn it. A piece that takes the fog is drawn.
pub proof fn lemma_fogged_piece_is_drawn(groups: Seq<u16>, visible: Seq<bool>, fog: Seq<bool>)
    requires
        fog.len() <= visible.len(),
        forall|g: int| 0 <= g < fog.len() && fog[g] ==> visible[g],
        fogged_by_spec(groups, fog),
    ensures
        drawn_by_spec(groups, visible),
{
    let i = choose|i: int| 0 <= i < groups.len() && fog_at(fog, groups[i] as int);
    assert(vis_at(visible, groups[i] as int));
}

} // verus!
