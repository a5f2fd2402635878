//! The world camera's multisampling, the `gxMultisample` setting: a sample count in
//! `MSAA_MIN..=MSAA_MAX`, 1 meaning none, stepped down to what the device offers and rounded down
//! to a level the renderer can express.
use vstd::prelude::*;
use vstd::string::StringSliceAdditionalSpecFns;

use crate::text::{bytes_eq, parse_u32, parse_u32_spec};

verus! {

/// The lowest settable sample count: one sample, no multisampling.
pub const MSAA_MIN: u32 = 1;

/// The highest settable sample count, the retail client's clamp.
pub const MSAA_MAX: u32 = 16;

/// The multisample levels the renderer expresses: 1, 2, 4 and 8 samples.
#[derive(Clone, Copy, Debug, PartialEq, Eq, Structural)]
pub enum MsaaLevel {
    Off,
    Sample2,
    Sample4,
    Sample8,
}

/// The requested sample count, latched for the session; 1 is none.
#[derive(Clone, Copy, Debug, PartialEq, Eq, Structural)]
pub struct MsaaSetting {
    /// The requested sample count; 1 is none.
    pub samples: u32,
}

/// A sample count rounded down to an expressible level.
pub open spec fn level_of(samples: u32) -> MsaaLevel {
    if samples <= 1 {
        MsaaLevel::Off
    } else if samples <= 3 {
        MsaaLevel::Sample2
    } else if samples <= 7 {
        MsaaLevel::Sample4
    } else {
        MsaaLevel::Sample8
    }
}

/// `v` clamped to `MSAA_MIN..=MSAA_MAX`.
pub open spec fn clamp_samples(v: u32) -> u32 {
    if v < MSAA_MIN {
        MSAA_MIN
    } else if v > MSAA_MAX {
        MSAA_MAX
    } else {
        v
    }
}

/// The bytes of `off`.
pub open spec fn off_bytes() -> Seq<u8> {
    seq![111u8, 102u8, 102u8]
}

/// The setting a `$WOW_MSAA` value gives: `off` is 1, a number is clamped into range, anything
/// else (or no value) is the default, 1.
pub open spec fn setting_from_env_spec(v: Option<Seq<u8>>) -> u32 {
    match v {
        None => 1,
        Some(b) => if b == off_bytes() {
            1
        } else {
            match parse_u32_spec(b) {
                Some(n) => clamp_samples(n),
                None => 1,
            }
        },
    }
}

/// Whether a count in `supported` lies at or below `requested`.
pub open spec fn has_count_at_or_below(requested: u32, supported: Seq<u32>) -> bool {
    exists|i: int| 0 <= i < supported.len() && supported[i] <= requested
}

/// `r` is what [`clamp_to_supported`] must give: the largest count in `supported` at or below
/// `requested`, or 1 when there is none.
pub open spec fn is_clamp_to_supported(requested: u32, supported: Seq<u32>, r: u32) -> bool {
    if has_count_at_or_below(requested, supported) {
        &&& r <= requested
        &&& supported.contains(r)
        &&& forall|i: int| 0 <= i < supported.len() && supported[i] <= requested ==> supported[i] <= r
    } else {
        r == 1
    }
}

impl MsaaSetting {
    /// The sample count as a renderer level: a request rounds down, the direction the client's
    /// device-init retry steps.
    pub fn level(self) -> (l: MsaaLevel)
        ensures
            l == level_of(self.samples),
    {
        if self.samples <= 1 {
            MsaaLevel::Off
        } else if self.samples <= 3 {
            MsaaLevel::Sample2
        } else if self.samples <= 7 {
            MsaaLevel::Sample4
        } else {
            MsaaLevel::Sample8
        }
    }

    /// The session's setting from a `$WOW_MSAA` value: `off` means 1, a number is clamped to
    /// `MSAA_MIN..=MSAA_MAX`, and an absent or unreadable value gives the default, 1.
    pub fn from_env_value(v: Option<&str>) -> (s: MsaaSetting)
        ensures
            s.samples == setting_from_env_spec(
                match v {
                    Some(t) => Some(t.spec_bytes()),
                    None => None,
                },
            ),
            MSAA_MIN <= s.samples <= MSAA_MAX,
    {
        let samples = match v {
            None => 1,
            Some(t) => {
                let off: [u8; 3] = [111u8, 102u8, 102u8];
                proof {
                    assert(off@ =~= off_bytes());
                }
                if bytes_eq(t.as_bytes(), off.as_slice()) {
                    1
                } else {
                    match parse_u32(t) {
                        Some(n) => if n < MSAA_MIN {
                            MSAA_MIN
                        } else if n > MSAA_MAX {
                            MSAA_MAX
                        } else {
                            n
                        },
                        None => 1,
                    }
                }
            },
        };
        MsaaSetting { samples }
    }
}

/// The largest count in `supported` at or below `requested`, floored at 1, which no device
/// refuses.
pub fn clamp_to_supported(requested: u32, supported: &[u32]) -> (r: u32)
    ensures
        is_clamp_to_supported(requested, supported@, r),
{
    let mut best: Option<u32> = None;
    let mut i: usize = 0;
    while i < supported.len()
        invariant
            0 <= i <= supported@.len(),
            match best {
                None => forall|j: int| 0 <= j < i ==> supported@[j] > requested,
                Some(b) => {
                    &&& b <= requested
                    &&& exists|j: int| 0 <= j < i && supported@[j] == b
                    &&& forall|j: int|
                        0 <= j < i && supported@[j] <= requested ==> supported@[j] <= b
                },
            },
        decreases supported@.len() - i,
    {
        let n = supported[i];
        if n <= requested {
            match best {
                None => {
                    best = Some(n);
                },
                Some(b) => {
                    if n > b {
                        best = Some(n);
                    }
                },
            }
        }
        i = i + 1;
    }
    match best {
        None => 1,
        Some(b) => b,
    }
}

/// The multisample formats this device accepts, `(color_bits, depth_bits, samples)` ascending,
/// for the options dropdown; empty with no adapter.
#[derive(Clone, Debug, Default)]
pub struct MsaaFormats {
    pub formats: Vec<(u32, u32, u32)>,
}

/// The sample counts of a format list, in order.
pub open spec fn counts_of(formats: Seq<(u32, u32, u32)>) -> Seq<u32> {
    formats.map_values(|f: (u32, u32, u32)| f.2)
}

impl MsaaFormats {
    /// `requested`, stepped down to the nearest count this device offers; an empty list (no
    /// adapter) passes it through.
    pub fn clamp(&self, requested: u32) -> (r: u32)
        ensures
            self.formats@.len() == 0 ==> r == requested,
            self.formats@.len() > 0 ==> is_clamp_to_supported(
                requested,
                counts_of(self.formats@),
                r,
            ),
    {
        if self.formats.len() == 0 {
            return requested;
        }
        let mut counts: Vec<u32> = Vec::new();
        let mut i: usize = 0;
        while i < self.formats.len()
            invariant
                0 <= i <= self.formats@.len(),
                counts@ =~= counts_of(self.formats@.take(i as int)),
            decreases self.formats@.len() - i,
        {
            counts.push(self.formats[i].2);
            proof {
                assert(counts_of(self.formats@.take(i + 1)) =~= counts_of(
                    self.formats@.take(i as int),
                ).push(self.formats@[i as int].2));
            }
            i = i + 1;
        }
        proof {
            assert(self.formats@.take(i as int) =~= self.formats@);
        }
        clamp_to_supported(requested, counts.as_slice())
    }
}

/// The bytes of a one-byte string.
pub open spec fn one_byte(b: u8) -> Seq<u8> {
    seq![b]
}

/// The level a `$WOW_MSAA` value asks the camera for directly: `off`, `0` and `1` are none, `2`
/// is 2x, and anything else, `8` included, is 4x, the count every format is guaranteed.
pub open spec fn level_from_env_spec(v: Option<Seq<u8>>) -> MsaaLevel {
    match v {
        Some(b) => if b == off_bytes() || b == one_byte(48) || b == one_byte(49) {
            MsaaLevel::Off
        } else if b == one_byte(50) {
            MsaaLevel::Sample2
        } else {
            MsaaLevel::Sample4
        },
        None => MsaaLevel::Sample4,
    }
}

/// The `$WOW_MSAA` knob as a camera level, 4x when unset. `8` falls back to 4x, since the HDR
/// target is only guaranteed up to four samples and there is no adapter to ask at that point.
pub fn msaa_level_from_env(v: Option<&str>) -> (l: MsaaLevel)
    ensures
        l == level_from_env_spec(
            match v {
                Some(t) => Some(t.spec_bytes()),
                None => None,
            },
        ),
{
    match v {
        None => MsaaLevel::Sample4,
        Some(t) => {
            let b = t.as_bytes();
            let off: [u8; 3] = [111u8, 102u8, 102u8];
            let zero: [u8; 1] = [48u8];
            let one: [u8; 1] = [49u8];
            let two: [u8; 1] = [50u8];
            proof {
                assert(off@ =~= off_bytes());
                assert(zero@ =~= one_byte(48));
                assert(one@ =~= one_byte(49));
                assert(two@ =~= one_byte(50));
            }
            if bytes_eq(b, off.as_slice()) || bytes_eq(b, zero.as_slice()) || bytes_eq(
                b,
                one.as_slice(),
            ) {
                MsaaLevel::Off
            } else if bytes_eq(b, two.as_slice()) {
                MsaaLevel::Sample2
            } else {
                MsaaLevel::Sample4
            }
        },
    }
}

/// The counts in `1..=k` whose flag is set (`offered[n - 1]` for count `n`), ascending.
pub open spec fn offered_counts(offered: Seq<bool>, k: int) -> Seq<u32>
    decreases k,
{
    if k <= 0 {
        Seq::empty()
    } else if offered[k - 1] {
        offered_counts(offered, k - 1).push(k as u32)
    } else {
        offered_counts(offered, k - 1)
    }
}

/// The sample counts in `MSAA_MIN..=MSAA_MAX` this device supports on every target format, in
/// ascending order: `offered[n - 1]` says whether count `n` is supported by all of them.
pub fn supported_counts(offered: &[bool]) -> (out: Vec<u32>)
    requires
        offered@.len() == MSAA_MAX,
    ensures
        out@ == offered_counts(offered@, MSAA_MAX as int),
{
    let mut out: Vec<u32> = Vec::new();
    let mut n: u32 = 1;
    while n <= MSAA_MAX
        invariant
            1 <= n <= MSAA_MAX + 1,
            offered@.len() == MSAA_MAX,
            out@ == offered_counts(offered@, n - 1),
        decreases MSAA_MAX + 1 - n,
    {
        if offered[(n - 1) as usize] {
            out.push(n);
        }
        n = n + 1;
    }
    out
}

impl MsaaFormats {
    /// The dropdown's menu: one entry per supported count, with the colour and depth bit depths.
    pub fn from_counts(color_bits: u32, depth_bits: u32, counts: &[u32]) -> (f: MsaaFormats)
        ensures
            f.formats@ == counts@.map_values(|n: u32| (color_bits, depth_bits, n)),
    {
        let mut formats: Vec<(u32, u32, u32)> = Vec::new();
        let mut i: usize = 0;
        while i < counts.len()
            invariant
                0 <= i <= counts@.len(),
                formats@ == counts@.take(i as int).map_values(|n: u32| (color_bits, depth_bits, n)),
            decreases counts@.len() - i,
        {
            formats.push((color_bits, depth_bits, counts[i]));
            proof {
                assert(counts@.take(i + 1).map_values(|n: u32| (color_bits, depth_bits, n))
                    =~= counts@.take(i as int).map_values(|n: u32| (color_bits, depth_bits, n)).push(
                    (color_bits, depth_bits, counts@[i as int]),
                ));
            }
            i = i + 1;
        }
        proof {
            assert(counts@.take(i as int) =~= counts@);
        }
        MsaaFormats { formats }
    }
}

/// The samples a level draws with.
pub open spec fn level_samples(l: MsaaLevel) -> u32 {
    match l {
        MsaaLevel::Off => 1,
        MsaaLevel::Sample2 => 2,
        MsaaLevel::Sample4 => 4,
        MsaaLevel::Sample8 => 8,
    }
}

/// A sample count rounds down, never up: the level never draws more samples than were asked
/// for, and an expressible count (1, 2, 4 or 8) is kept exactly.
pub proof fn lemma_levels_round_down(samples: u32)
    requires
        samples >= 1,
    ensures
        level_samples(level_of(samples)) <= samples,
        samples == 1 || samples == 2 || samples == 4 || samples == 8 ==> level_samples(
            level_of(samples),
        ) == samples,
{
}

/// A count the device offers passes through untouched, and no request is ever stepped up past
/// what was asked, unless the device offers nothing at or below it (then 1).
pub proof fn lemma_offered_counts_pass_through(requested: u32, supported: Seq<u32>, r: u32)
    requires
        is_clamp_to_supported(requested, supported, r),
    ensures
        supported.contains(requested) ==> r == requested,
        has_count_at_or_below(requested, supported) ==> r <= requested,
        !has_count_at_or_below(requested, supported) ==> r == 1,
{
    if supported.contains(requested) {
        let i = choose|i: int| 0 <= i < supported.len() && supported[i] == requested;
        assert(has_count_at_or_below(requested, supported));
        assert(supported[i] <= r);
    }
}

} // verus!
