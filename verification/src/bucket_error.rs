//! Why a bucket could not take a value.
use vstd::prelude::*;

verus! {

#[derive(Clone, Copy, Debug, PartialEq, Eq)]
pub enum BucketMapError {
    /// data bucket and its capacity, as a power of two
    DataNoSpace((u64, u8)),
    /// capacity of the index, as a power of two
    IndexNoSpace(u8),
}

} // verus!
