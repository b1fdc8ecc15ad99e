//! On-disk storage layer and read-path iterator engine of a log-structured
//! merge key-value store: the binary block format, the sorted-string-table
//! built from blocks, and the iterator composition machinery (single-block,
//! whole-table, and k-way/two-way merge iterators).
use vstd::prelude::*;

pub mod block;
pub mod encoding;
pub mod iterators;
pub mod order;
pub mod table;

verus! {

/// Error surface of the storage layer: every fallible operation bubbles the
/// first encountered failure to its immediate caller with no internal retry.
#[derive(Clone, Copy, Debug, PartialEq, Eq, Structural)]
pub enum Error {
    /// A positioned read touched bytes outside the backing store.
    Io,
}

} // verus!
