//! Small per-frame decisions of the world's session plumbing: the map-change announcement, the
//! viewer's movement bits, the render thread's QoS class and the `$WOW_MAP` start map.
use vstd::prelude::*;
use vstd::string::StringSliceAdditionalSpecFns;

use crate::text::{parse_u32, parse_u32_spec};

verus! {

/// The map before the server names one: Eastern Kingdoms (`Map.dbc` id 0).
pub const DEFAULT_MAP_ID: u32 = 0;

/// Whether a `CurrentMap` reading announces a map change: only a flip from a previously seen map.
/// The startup seed and a same-map worldport announce nothing.
pub fn announces_map_change(last: Option<u32>, current: u32) -> (r: bool)
    ensures
        r == match last {
            Some(prev) => prev != current,
            None => false,
        },
{
    match last {
        Some(prev) => prev != current,
        None => false,
    }
}

/// The map a server-less run starts on, from a trimmed `$WOW_MAP` value: unset gives the default
/// map; a value that is not a `Map.dbc` id number is an error (the caller refuses to start).
pub fn map_id_from_env_value(v: Option<&str>) -> (r: Result<u32, ()>)
    ensures
        r == match v {
            None => Ok(DEFAULT_MAP_ID),
            Some(t) => match parse_u32_spec(t.spec_bytes()) {
                Some(n) => Ok(n),
                None => Err(()),
            },
        },
{
    match v {
        None => Ok(DEFAULT_MAP_ID),
        Some(t) => match parse_u32(t) {
            Some(n) => Ok(n),
            None => Err(()),
        },
    }
}

/// The body is translating: the four direction bits of `MOVEMENTFLAGS` (`& 0xf`).
pub fn translating(move_flags: u32) -> (r: bool)
    ensures
        r == (move_flags & 0xf != 0),
{
    move_flags & 0xf != 0
}

/// The body is turning in place: the two keyboard turn bits (`& 0x30`). A strafe is translating;
/// a mouse-look body step sets no flag.
pub fn turning(move_flags: u32) -> (r: bool)
    ensures
        r == (move_flags & 0x30 != 0),
{
    move_flags & 0x30 != 0
}

/// The QoS classes used for frame-critical threads, as Darwin's `qos_class_t`.
#[derive(Clone, Copy, Debug, PartialEq, Eq, Structural)]
pub enum QosClass {
    /// Work on the critical path of the current frame.
    UserInteractive,
    /// Work the frame is waiting on soon but not this frame.
    UserInitiated,
    /// Darwin's default class, for a thread that blocks for seconds.
    Default,
}

impl QosClass {
    /// The raw `qos_class_t` value.
    pub fn raw(self) -> (r: u32)
        ensures
            r == match self {
                QosClass::UserInteractive => 0x21u32,
                QosClass::UserInitiated => 0x19u32,
                QosClass::Default => 0x15u32,
            },
    {
        match self {
            QosClass::UserInteractive => 0x21,
            QosClass::UserInitiated => 0x19,
            QosClass::Default => 0x15,
        }
    }
}

/// The render-schedule thread's class this frame, and whether it must be re-applied: frame
/// critical, or default while it is the shader compiler's caller during a compile burst; applied
/// only when it differs from the class the thread last took.
pub fn render_thread_qos(compile_burst: bool, applied: Option<QosClass>) -> (r: Option<QosClass>)
    ensures
        ({
            let want = if compile_burst {
                QosClass::Default
            } else {
                QosClass::UserInteractive
            };
            r == if applied == Some(want) {
                None
            } else {
                Some(want)
            }
        }),
{
    let want = if compile_burst {
        QosClass::Default
    } else {
        QosClass::UserInteractive
    };
    match applied {
        Some(a) => if a == want {
            None
        } else {
            Some(want)
        },
        None => Some(want),
    }
}

} // verus!
