//! The library's error type.
use vstd::prelude::*;

verus! {

/// Errors that the library's own logic reports; the storage layer around it
/// adds its I/O and engine errors.
#[derive(Debug, PartialEq, Eq, Structural)]
pub enum Error {
    /// A metric name holds a character outside `a-z`, `0-9`, `_` and `.`.
    InvalidMetricName,
    /// A filter expression could not be parsed.
    InvalidQuery,
}

} // verus!
