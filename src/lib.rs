//! Size classes for machine words: a per-width partition of small
//! magnitudes into buckets, fine near zero and coarse further out, and the
//! quantization function that maps a value to its bucket.

pub mod partition;
pub mod range_iter;

pub use partition::{
    build_partition, quantize, usize_match, Partition, PartitionError, WIDE_CAP,
};
pub use range_iter::RangeIter;
