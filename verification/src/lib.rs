//! An embedded multi-dimensional spatial database for points and
//! axis-aligned intervals.
//!
//! Batches of inserted rows are folded into immutable two-dimensional
//! search trees, merged in a log-structured cascade, and answered by
//! bounding-box range queries.  Coordinates are `i64` scalars; payloads
//! are `u32` values.

use vstd::prelude::*;

pub mod codec;
pub mod coord;
pub mod db;
pub mod perm;
pub mod query;
pub mod tree;

pub use coord::Coord;
pub use db::{DB, Row, SetupFields};
pub use query::{QueryPoll, QueryStream};
pub use tree::{Tree, TreeRef, merge};

verus! {

/// Physical identifier of a stored row: the batch sequence number and the
/// row's index within that batch.
pub type Location = (u64, u32);

/// The axis scalar concept: a totally ordered value with addition and
/// halving, for pivot bisection.  This library is instantiated at
/// `i64`; midpoints round toward negative infinity.
pub trait Scalar {

}

impl Scalar for i64 {

}

/// The payload concept: an opaque value stored with each point and
/// returned by queries.  This library is instantiated at `u32`.
pub trait Value {

}

impl Value for u32 {

}

/// Failures the library reports.  All of them come from decoding a
/// tree blob or from sizing one for encoding; batches on an in-memory
/// forest do not fail.
#[derive(Clone, Copy, Debug, PartialEq, Eq)]
pub enum Error {
    /// The blob ended before the expected field.
    Truncated,
    /// A variable-length integer ran past its largest width.
    VarintOverflow,
    /// A child descriptor pointed at or before its own branch body.
    BadOffset,
    /// A length or offset did not fit the encoding's 32-bit payload.
    TooLarge,
    /// A decoded structure broke the tree shape invariants.
    Malformed,
}

} // verus!
