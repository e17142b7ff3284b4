//! Scalar C types and `errno` values for `wasm32-unknown-unknown`, which has no C library.
//!
//! The integers of the size of a pointer are what they are on every platform. The `errno` values follow Linux,
//! which is what callers of the decoder expect.
#![allow(non_camel_case_types)]
use vstd::prelude::*;

verus! {

pub type ptrdiff_t = isize;

pub type intptr_t = isize;

pub type uintptr_t = usize;

pub type off_t = i64;

pub const ENOENT: i32 = 2;

pub const EAGAIN: i32 = 11;

pub const ENOMEM: i32 = 12;

pub const EINVAL: i32 = 22;

pub const ERANGE: i32 = 34;

pub const ENOPROTOOPT: i32 = 92;

} // verus!
