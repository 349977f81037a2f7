//! Splits a stream of bytes at a delimiter and hands each segment, in order,
//! to a process of its own, with a bound on how many processes run at once.
//!
//! [`Splitter`] turns chunks of input into [`Step`]s: take the next process,
//! write these bytes to it. [`Limiting`] and [`Rotating`] keep track of the
//! processes under the two pooling strategies, and [`exit_result`] judges how
//! a reaped process ended.
use vstd::prelude::*;

pub mod escape;
pub mod outcome;
pub mod pool;
pub mod split;

pub use escape::unescape_delimiter;
pub use outcome::{exit_result, Error};
pub use pool::{Limiting, Rotating};
pub use split::{Splitter, Step};

verus! {

} // verus!
