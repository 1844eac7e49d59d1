//! Chaikin corner cutting on a pixel surface: exact subdivision of a control
//! polygon, a small rasterizer for discs, lines and circles, the animation
//! sequencer that steps through the subdivision levels, and the editing rules
//! for the control polygon.

pub mod chaikin_algo;
pub mod display;
pub mod editing;
pub mod geometrical_shapes;
pub mod rasterizer;
pub mod sequencer;
pub mod session;
