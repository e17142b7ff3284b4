//! Scalar C types and the `errno` values of the platform, as its C library has them.
//!
//! `wasm32-unknown-unknown` has no C library; what stands for them there is in [`wasm32_unknown`].
pub use libc::{
    c_int, intptr_t, off_t, ptrdiff_t, uintptr_t, EAGAIN, EINVAL, ENOENT, ENOMEM, ENOPROTOOPT, ERANGE,
};

pub mod wasm32_unknown;
