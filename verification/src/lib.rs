//! A key-value store: an in-memory table store, and the length-prefixed
//! frame format in which requests and replies travel.

pub mod error;
pub mod network;
pub mod pb;
pub mod storage;

use vstd::prelude::*;

verus! {

/// Adds two numbers.
pub fn add(left: usize, right: usize) -> (sum: usize)
    requires
        left + right <= usize::MAX,
    ensures
        sum == left + right,
{
    left + right
}

} // verus!
