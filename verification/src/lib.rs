//! The verified core of the world crate: the discrete rules the streamer, the portal cull, the
//! weather machine and the view settings decide by.

pub mod window;
pub mod text;
pub mod msaa;
pub mod rng;
pub mod portal;
pub mod flood;
pub mod weather;
pub mod residency;
pub mod placements;
pub mod weld;
pub mod merge;
pub mod census;
pub mod wdl;
pub mod furnish;
pub mod focus;
pub mod area;
pub mod session;
pub mod foam;
pub mod tallies;
