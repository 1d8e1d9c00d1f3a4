//! Which way a regular file is written: stored as it is, or deflated.

use vstd::prelude::*;

verus! {

/// How the content of a regular file is written.
#[derive(Copy, Clone, Debug, PartialEq, Eq, Structural)]
pub enum Method {
    /// Byte for byte.
    Store,
    /// Deflated, at [`COMPRESSION_LEVEL`].
    Compress,
}

/// The level at which every deflated file is written. It is the highest the
/// container library takes and is not for the caller to choose.
pub const COMPRESSION_LEVEL: i64 = 264;

/// The method for a file of `size` bytes: a size that reaches the threshold
/// is deflated, a smaller one is stored.
pub open spec fn chosen_method(size: u64, threshold: u64) -> Method {
    if size >= threshold {
        Method::Compress
    } else {
        Method::Store
    }
}

/// Chooses the method for a file of `size` bytes.
pub fn decide(size: u64, threshold: u64) -> (method: Method)
    ensures
        method == chosen_method(size, threshold),
{
    if size >= threshold {
        Method::Compress
    } else {
        Method::Store
    }
}

/// A file exactly as large as the threshold is deflated; one byte smaller and
/// it is stored.
pub proof fn threshold_boundary(threshold: u64)
    ensures
        chosen_method(threshold, threshold) == Method::Compress,
        threshold > 0 ==> chosen_method((threshold - 1) as u64, threshold) == Method::Store,
{
}

} // verus!
