//! Verified core of a live-visuals engine: the compositing mixer's stack,
//! groups and frame plan, recorded DMX lighting, and the plain-value side of
//! the video inputs.

pub mod dmx;
pub mod look;
pub mod merge;
pub mod mixer;
pub mod order;
pub mod play;
pub mod play_laws;
pub mod punch;
pub mod punch_laws;
pub mod rec;
pub mod rx;
pub mod spout;
pub mod tools;
pub mod video;
