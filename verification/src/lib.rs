//! Gravity-driven discs that bounce, collide and come to rest inside a
//! rectangular arena, computed in whole-number fixed point so that every
//! step is stated and proved.

pub mod arena;
pub mod chance;
pub mod collision;
pub mod direction;
pub mod events;
pub mod fixed;
pub mod laws;
pub mod model;
pub mod penetration;
pub mod point;
pub mod resting;
pub mod step;
pub mod walls;
