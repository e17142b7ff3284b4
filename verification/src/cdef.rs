//! The constrained directional enhancement filter.

pub mod effect;
pub mod law;
pub mod scalar;
pub mod wasm;
