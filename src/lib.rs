//! Conway's surreal numbers built from finite left and right option sets.
//!
//! Every number lives in a [`SurrealContext`], an append-only arena of interned
//! structures with memo tables for the order relation and for arithmetic.
//! A [`SurrealFinite`] is a handle into that arena.
use vstd::prelude::*;

pub mod arithmetic;
pub mod construction;
pub mod dyadic;
pub mod finite;
pub mod handle;
pub mod infinite;
pub mod ops;
pub mod theorems;

pub use arithmetic::{add, mul, neg};
pub use construction::{cache_insert, cache_left, cache_right, leq, SurrealContext, SurrealStructure};
pub use dyadic::to_dyadic;
pub use finite::WellFormingError;
pub use handle::SurrealFinite;
pub use infinite::{Production, SurrealElement, SurrealInfinite};

verus! {

} // verus!
