//! One-line reports of an error and the chain of errors that caused it.
//!
//! A [`ChainError`] holds an error's text and, where it has one, its cause.
//! [`Sources`] walks such a chain one error at a time, and a [`Report`] writes
//! the root's text and then each cause's text behind the delimiter `": "`,
//! as in `outer: middle: inner`.

use vstd::prelude::*;

pub mod error;
pub mod report;
pub mod sink;

pub use crate::error::ChainError;
pub use crate::report::Report;
pub use crate::report::Sources;
pub use crate::sink::LimitedSink;
pub use crate::sink::Sink;
pub use crate::sink::SinkError;
pub use crate::sink::StringSink;

verus! {

/// The sum of two sizes. The sum must fit in a `usize`.
pub fn add(left: usize, right: usize) -> (sum: usize)
    requires
        left + right <= usize::MAX,
    ensures
        sum == left + right,
{
    left + right
}

} // verus!
