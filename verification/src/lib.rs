use vstd::prelude::*;

pub mod api;
pub mod bytes;
pub mod fd_passing;
pub mod http;
pub mod index;
pub mod json;
pub mod lb;
pub mod reading;
pub mod runtime;
pub mod settings;
pub mod text;
pub mod tools;
pub mod vector;

verus! {

/// Number of meaningful dimensions of a query vector.
pub const DIMS: usize = 14;

/// Number of stored dimensions: the meaningful ones, padded to a full register.
pub const PACKED_DIMS: usize = 16;

/// Number of neighbours that decide a query.
pub const K: usize = 5;

/// Fixed-point scale of every dimension.
pub const SCALE: i16 = 10000;

/// A quantized transaction.
pub type QueryVector = [i16; PACKED_DIMS];

} // verus!

