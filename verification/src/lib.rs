//! Tag-driven RPC value codec.
//!
//! A remote procedure call carries a compact *tag string* describing the
//! argument and return types.  This crate parses tag strings, computes the
//! in-memory layout (size, alignment, composite packing) that each tag
//! implies, and translates values between a framed wire byte stream and a
//! flat byte-addressed memory image, allocating backing storage for
//! indirect values (strings, lists, arrays) from a caller-provided arena.

pub mod arena;
pub mod codec;
pub mod tag;

use vstd::prelude::*;

verus! {

} // verus!
