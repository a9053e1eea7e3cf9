//! Counters of what a bucket has done.
use vstd::prelude::*;

verus! {

/// Counters of one kind of storage.
#[derive(Clone, Copy, Debug, PartialEq, Eq, Structural)]
pub struct BucketStats {
    /// how often a storage was resized
    pub resizes: u64,
    /// the most cells that a storage has had after it was resized
    pub max_size: u64,
    /// the time that resizing has taken, in microseconds
    pub resize_us: u64,
}

/// The larger of two numbers.
pub open spec fn larger(a: u64, b: u64) -> u64 {
    if a < b {
        b
    } else {
        a
    }
}

impl BucketStats {
    /// The counters after a storage was given `size` cells.
    pub open spec fn with_size(self, size: u64) -> Self {
        BucketStats { max_size: larger(self.max_size, size), ..self }
    }

    /// The counters after a resize that took `us` microseconds. They start over at zero when they
    /// are full.
    pub open spec fn with_resize(self, us: u64) -> Self {
        BucketStats {
            resizes: self.resizes.wrapping_add(1),
            resize_us: self.resize_us.wrapping_add(us),
            ..self
        }
    }

    /// The counters with what `other` has counted added to them.
    pub open spec fn merged(self, other: Self) -> Self {
        BucketStats {
            resizes: self.resizes.wrapping_add(other.resizes),
            max_size: larger(self.max_size, other.max_size),
            resize_us: self.resize_us.wrapping_add(other.resize_us),
        }
    }

    /// Adds what `other` has counted.
    pub fn merge(&mut self, other: &BucketStats)
        ensures
            *final(self) == old(self).merged(*other),
    {
        self.resizes = self.resizes.wrapping_add(other.resizes);
        self.resize_us = self.resize_us.wrapping_add(other.resize_us);
        self.record_size(other.max_size);
    }

    /// Takes note that a storage was given `size` cells.
    pub fn record_size(&mut self, size: u64)
        ensures
            *final(self) == old(self).with_size(size),
    {
        if self.max_size < size {
            self.max_size = size;
        }
    }

    /// Takes note of a resize that took `us` microseconds.
    pub fn record_resize(&mut self, us: u64)
        ensures
            *final(self) == old(self).with_resize(us),
    {
        self.resizes = self.resizes.wrapping_add(1);
        self.resize_us = self.resize_us.wrapping_add(us);
    }
}

impl Default for BucketStats {
    fn default() -> (stats: Self)
        ensures
            stats == (BucketStats { resizes: 0, max_size: 0, resize_us: 0 }),
    {
        BucketStats { resizes: 0, max_size: 0, resize_us: 0 }
    }
}

/// Counters of the storages of a bucket. A bucket counts the resizes of its index; the counters of
/// data buckets it only carries along.
#[derive(Clone, Copy, Debug, PartialEq, Eq, Structural)]
pub struct BucketMapStats {
    pub index: BucketStats,
    pub data: BucketStats,
}

impl BucketMapStats {
    /// The counters with what `other` has counted added to them.
    pub open spec fn merged(self, other: Self) -> Self {
        BucketMapStats {
            index: self.index.merged(other.index),
            data: self.data.merged(other.data),
        }
    }

    /// Counters that have counted nothing.
    pub open spec fn zero() -> Self {
        let none = BucketStats { resizes: 0, max_size: 0, resize_us: 0 };
        BucketMapStats { index: none, data: none }
    }

    /// Adds what `other` has counted.
    pub fn merge(&mut self, other: &BucketMapStats)
        ensures
            *final(self) == old(self).merged(*other),
    {
        self.index.merge(&other.index);
        self.data.merge(&other.data);
    }
}

impl Default for BucketMapStats {
    fn default() -> (stats: Self)
        ensures
            stats == BucketMapStats::zero(),
    {
        BucketMapStats { index: BucketStats::default(), data: BucketStats::default() }
    }
}

} // verus!
