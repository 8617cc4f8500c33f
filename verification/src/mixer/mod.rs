//! Multi-channel compositing mixer: a stack of channels, bus groups over it, and the
//! plan of passes that draws one frame.
//!
//! Effects, textures and levels belong to the host: a channel and a group carry them
//! as payload, and what the mixer decides is handed out as plain values.

pub mod blocks;
pub mod draw;
pub mod draw_laws;
pub mod frame;
pub mod frame_laws;
pub mod grouping;
pub mod grouping_laws;
pub mod groups;
pub mod layers;
pub mod nesting;
pub mod nesting_laws;
pub mod param_laws;
pub mod params;
pub mod program_laws;
pub mod resources;
pub mod scene;
pub mod stack;
pub mod text;
pub mod transition;
pub mod types;
