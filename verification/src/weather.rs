//! Weather's discrete state, driven by `SMSG_WEATHER`: the wire type, the type whose effect
//! spawns, and the cut sequence a type change bumps. The two ramped channels are floating point
//! and are the caller's.
use vstd::prelude::*;

verus! {

/// Wire weather types (`SMSG_WEATHER`).
#[derive(Clone, Copy, PartialEq, Eq, Structural, Debug, Default)]
pub enum WeatherKind {
    #[default]
    Fine,
    Rain,
    Snow,
    Sand,
}

/// The kind a wire value names; anything unknown is fine weather.
pub open spec fn kind_of_wire(v: u32) -> WeatherKind {
    if v == 1 {
        WeatherKind::Rain
    } else if v == 2 {
        WeatherKind::Snow
    } else if v == 3 {
        WeatherKind::Sand
    } else {
        WeatherKind::Fine
    }
}

impl WeatherKind {
    /// The kind a wire value names; anything unknown is fine weather.
    pub fn from_wire(v: u32) -> (k: WeatherKind)
        ensures
            k == kind_of_wire(v),
    {
        if v == 1 {
            WeatherKind::Rain
        } else if v == 2 {
            WeatherKind::Snow
        } else if v == 3 {
            WeatherKind::Sand
        } else {
            WeatherKind::Fine
        }
    }
}

/// The number of entries in the `weatherDensity` quality table.
pub const DENSITY_LEVELS: u8 = 4;

/// The `weatherDensity` table row a setting reads: the setting itself, clamped to the top row.
pub fn density_gain_index(weather_density: u8) -> (i: usize)
    ensures
        i == if weather_density < 3 {
            weather_density as usize
        } else {
            3
        },
        i < DENSITY_LEVELS,
{
    if weather_density < 3 {
        weather_density as usize
    } else {
        3
    }
}

/// The zone weather's discrete state: the latest wire type, the type whose effect spawns, and the
/// cut sequence.
#[derive(Clone, Copy, PartialEq, Eq, Structural, Debug)]
pub struct WeatherType {
    /// The latest wire type (`Fine` included).
    pub kind: WeatherKind,
    /// The type whose effect spawns; it follows every type change at once.
    pub effect_kind: WeatherKind,
    /// Bumped (wrapping) on every wire type change: emission stops at once and every unreplayed
    /// packet is discarded. A same-type grade change does not cut.
    pub cut_seq: u32,
}

impl WeatherType {
    /// The effect kind is the wire kind: a type change flips the effect at once.
    pub open spec fn wf(&self) -> bool {
        self.effect_kind == self.kind
    }

    /// Fine weather, nothing cut yet.
    pub fn new() -> (w: WeatherType)
        ensures
            w.kind == WeatherKind::Fine,
            w.effect_kind == WeatherKind::Fine,
            w.cut_seq == 0,
            w.wf(),
    {
        WeatherType { kind: WeatherKind::Fine, effect_kind: WeatherKind::Fine, cut_seq: 0 }
    }

    /// Applies one wire update's type. A type change cuts: the sequence bumps and the effect kind
    /// flips to the new type at once, so a rain-to-snow swap starts snow while the old drops fall
    /// out. Returns whether it cut.
    pub fn apply_kind(&mut self, kind: WeatherKind) -> (cut: bool)
        ensures
            cut == (kind != old(self).kind),
            final(self).kind == kind,
            final(self).effect_kind == if cut {
                kind
            } else {
                old(self).effect_kind
            },
            final(self).cut_seq == if cut {
                (old(self).cut_seq + 1) % 0x1_0000_0000
            } else {
                old(self).cut_seq as int
            },
            old(self).wf() ==> final(self).wf(),
    {
        let cut = kind != self.kind;
        if cut {
            self.cut_seq = self.cut_seq.wrapping_add(1);
            self.effect_kind = kind;
        }
        self.kind = kind;
        cut
    }

    /// Whether a kind's pool is the one spawning: the active type's spawns at the effect density,
    /// every other one drains by lifetime.
    pub fn spawns(&self, kind: WeatherKind) -> (r: bool)
        ensures
            r == (self.effect_kind == kind),
    {
        self.effect_kind == kind
    }
}

/// Records a drop packet holds before it seals.
pub const PACKET_CAP: usize = 0x1800;

/// The spawn ceiling on a kind's live plus pending drops: each flake costs a quad, so the field
/// is bounded above its worst measured demand. Snow falls slowest and lives longest.
pub fn pool_bound(kind: WeatherKind) -> (n: usize)
    ensures
        n == match kind {
            WeatherKind::Snow => 0x20000usize,
            _ => 0xC000usize,
        },
{
    match kind {
        WeatherKind::Snow => 0x20000,
        _ => 0xC000,
    }
}

/// How many more drops a kind's pool may take this frame: its ceiling less what is live and
/// pending, never below zero.
pub fn spawn_room(kind: WeatherKind, live: usize, pending: usize) -> (n: usize)
    requires
        live + pending <= usize::MAX,
    ensures
        n == if live + pending >= pool_bound_spec(kind) {
            0
        } else {
            pool_bound_spec(kind) - (live + pending)
        },
{
    pool_bound(kind).saturating_sub(live + pending)
}

/// The ceiling [`pool_bound`] gives.
pub open spec fn pool_bound_spec(kind: WeatherKind) -> int {
    match kind {
        WeatherKind::Snow => 0x20000,
        _ => 0xC000,
    }
}

} // verus!
