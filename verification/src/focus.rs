//! Where the world streams from: the ladder of a live attached avatar, else the picked
//! character's entry row, else the camera, else the spawn point. A detached eye streams from the
//! camera but keeps the body, which the zone authority follows.
//!
//! `P` is the caller's position type (WoW coordinates).
use vstd::prelude::*;

verus! {

/// The stream focus, written by whatever owns a viewer and read by every streaming lane.
#[derive(Clone, Copy, Debug, Default)]
pub struct ViewFocus<P> {
    /// The avatar's position when one is live, even while detached.
    body: Option<P>,
    /// The eye follows the body; false in free-fly.
    attached: bool,
    /// The picked character's map and position, before an avatar exists.
    entry: Option<(u32, P)>,
    /// The focus is settled, so spawning is paced; false through entry, a teleport and a world
    /// swap, while the loading cover absorbs the burst.
    paced: bool,
}

impl<P: Copy> ViewFocus<P> {
    pub closed spec fn body_spec(&self) -> Option<P> {
        self.body
    }

    pub closed spec fn attached_spec(&self) -> bool {
        self.attached
    }

    pub closed spec fn entry_spec(&self) -> Option<(u32, P)> {
        self.entry
    }

    pub closed spec fn paced_spec(&self) -> bool {
        self.paced
    }

    /// The focus is settled, so spawning is paced.
    pub fn paced(&self) -> (r: bool)
        ensures
            r == self.paced_spec(),
    {
        self.paced
    }

    /// Marks the focus settled (or not), leaving where it points unchanged.
    pub fn set_paced(&mut self, paced: bool)
        ensures
            final(self).paced_spec() == paced,
            final(self).body_spec() == old(self).body_spec(),
            final(self).attached_spec() == old(self).attached_spec(),
            final(self).entry_spec() == old(self).entry_spec(),
    {
        self.paced = paced;
    }

    /// The point to stream around: the attached body, else (with no body) the entry row, else
    /// the camera, else the spawn point.
    pub open spec fn resolve_spec(&self, camera: Option<P>, spawn: P) -> P {
        if self.attached_spec() && self.body_spec() is Some {
            self.body_spec()->0
        } else if self.body_spec() is None && self.entry_spec() is Some {
            (self.entry_spec()->0).1
        } else {
            match camera {
                Some(c) => c,
                None => spawn,
            }
        }
    }

    /// No viewer: follow the camera, or the spawn point without one.
    pub fn camera() -> (f: ViewFocus<P>)
        ensures
            f.body_spec() is None,
            !f.attached_spec(),
            f.entry_spec() is None,
            !f.paced_spec(),
    {
        ViewFocus { body: None, attached: false, entry: None, paced: false }
    }

    /// A live avatar at `wow` with the eye on it; `paced` is the settled bit.
    pub fn body(wow: P, paced: bool) -> (f: ViewFocus<P>)
        ensures
            f.body_spec() == Some(wow),
            f.attached_spec(),
            f.entry_spec() is None,
            f.paced_spec() == paced,
    {
        ViewFocus { body: Some(wow), attached: true, entry: None, paced }
    }

    /// A live avatar with the eye detached: the stream follows the camera, the zone the body.
    pub fn detached(wow: P, paced: bool) -> (f: ViewFocus<P>)
        ensures
            f.body_spec() == Some(wow),
            !f.attached_spec(),
            f.entry_spec() is None,
            f.paced_spec() == paced,
    {
        ViewFocus { body: Some(wow), attached: false, entry: None, paced }
    }

    /// No avatar yet: stream the picked character's map and position, not the parked camera's.
    pub fn entry(map: u32, wow: P) -> (f: ViewFocus<P>)
        ensures
            f.body_spec() is None,
            !f.attached_spec(),
            f.entry_spec() == Some((map, wow)),
            !f.paced_spec(),
    {
        ViewFocus { body: None, attached: false, entry: Some((map, wow)), paced: false }
    }

    /// The stream follows the body's own ground, so residency is a fact about the player; a
    /// detached eye streams wherever the camera went.
    pub fn follows_body(&self) -> (r: bool)
        ensures
            r == (self.attached_spec() && self.body_spec() is Some),
    {
        self.attached && self.body.is_some()
    }

    /// The point to stream around, given the camera's position (if there is a camera) and the
    /// spawn point.
    pub fn resolve(&self, camera: Option<P>, spawn: P) -> (p: P)
        ensures
            p == self.resolve_spec(camera, spawn),
    {
        if self.attached {
            if let Some(pos) = self.body {
                return pos;
            }
        }
        if self.body.is_none() {
            if let Some((_, pos)) = self.entry {
                return pos;
            }
        }
        match camera {
            Some(c) => c,
            None => spawn,
        }
    }

    /// The map to stream: the picked character's before an avatar exists, else `current`, else
    /// map 0. It agrees with [`Self::resolve`], so a position never names tiles on another
    /// map's grid.
    pub fn map(&self, current: Option<u32>) -> (m: u32)
        ensures
            m == if self.body_spec() is None && self.entry_spec() is Some {
                (self.entry_spec()->0).0
            } else {
                match current {
                    Some(c) => c,
                    None => 0,
                }
            },
    {
        if self.body.is_none() {
            if let Some((map, _)) = self.entry {
                return map;
            }
        }
        match current {
            Some(c) => c,
            None => 0,
        }
    }

    /// The body's position, which the area authority measures from, never the camera's.
    pub fn body_pos(&self) -> (b: Option<P>)
        ensures
            b == self.body_spec(),
    {
        self.body
    }

    /// A body stands in a settled world: the area authority's gate.
    pub fn body_settled(&self) -> (r: bool)
        ensures
            r == (self.body_spec() is Some && self.paced_spec()),
    {
        self.body.is_some() && self.paced
    }
}

/// The entry row never pulls the focus off a live avatar: once a body exists, the map and the
/// position come from the world, never from the pick.
pub proof fn lemma_avatar_outranks_the_pick<P: Copy>(f: ViewFocus<P>, camera: Option<P>, spawn: P)
    requires
        f.body_spec() is Some,
        f.attached_spec(),
    ensures
        f.resolve_spec(camera, spawn) == f.body_spec()->0,
{
}

/// Before an avatar exists, the pick outranks the camera: the stream centres on the picked
/// character's row whatever the camera.
pub proof fn lemma_pick_outranks_the_camera<P: Copy>(
    f: ViewFocus<P>,
    camera: Option<P>,
    spawn: P,
)
    requires
        f.body_spec() is None,
        f.entry_spec() is Some,
    ensures
        f.resolve_spec(camera, spawn) == (f.entry_spec()->0).1,
{
}

/// Free flight follows the camera even with a body in the world, and a run with no viewer at
/// all still streams around the spawn point.
pub proof fn lemma_free_flight_follows_the_camera<P: Copy>(
    f: ViewFocus<P>,
    camera: Option<P>,
    spawn: P,
)
    requires
        f.body_spec() is Some,
        !f.attached_spec(),
    ensures
        f.resolve_spec(camera, spawn) == match camera {
            Some(c) => c,
            None => spawn,
        },
{
}

} // verus!
