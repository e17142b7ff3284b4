//! Motion compensation.

pub mod exact;
pub mod law;
pub mod warp;
pub mod wasm;
