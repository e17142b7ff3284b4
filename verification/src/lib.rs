//! In-loop filters and motion compensation for AV1, with their dispatch.
#![allow(unused_imports)]

pub mod arith;
pub mod bitdepth;
pub mod c_types;
pub mod cdef;
pub mod loopfilter;
pub mod mc;
pub mod picture;
pub mod simd;
pub mod wasm_thread;
