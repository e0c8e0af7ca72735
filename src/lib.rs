//! Parallel brute-force search for integers whose SHA-256 digest ends in a
//! run of zero hexadecimal digits.
//!
//! - `chunks`: the sequence of input ranges handed out to workers.
//! - `digest`: digests of inputs, the trailing-zero predicate, and the
//!   evaluation of one chunk.
//! - `scheduler`: the decisions of a search (what to dispatch, when to stop)
//!   and the final ordering of its matches.
//! - `laws`: what the output of a finished search is.
//! - `args`: the configuration and its validation.

pub mod args;
pub mod chunks;
pub mod digest;
pub mod laws;
pub mod scheduler;
