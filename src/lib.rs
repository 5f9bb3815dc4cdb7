//! A lazy enumerator of all orderings of a finite sequence.
//!
//! [`Permutator`] is built from a slice and hands out, one call of
//! [`Permutator::next`] at a time, every reordering of the slice's positions
//! in the order described by [`order::order`], then reports exhaustion forever.
use vstd::prelude::*;

pub mod enumerator;
pub mod order;

pub use enumerator::Permutator;

verus! {

} // verus!
