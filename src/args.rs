//! The search's configuration and its validation.
use vstd::prelude::*;

verus! {

/// Fewest trailing zeros that a search may ask for.
pub const MIN_TRAILING_ZEROS: u8 = 1;

/// Most trailing zeros that a search may ask for: a digest has 64 digits,
/// and more than this many is out of brute force's reach anyway.
pub const MAX_TRAILING_ZEROS: u8 = 32;

/// The configuration of one search, fixed for its lifetime.
pub struct Args {
    pub trailing_zeros: u8,
    pub hashes_needed: usize,
    pub threads: usize,
    pub chunk_size: usize,
}

/// A configuration that no search may start with.
#[derive(Debug, PartialEq, Eq, Structural)]
pub enum ConfigError {
    TrailingZerosOutOfRange,
    NoThreads,
    EmptyChunks,
}

/// The value of a string of ASCII decimal digits.
pub open spec fn digits_value(d: Seq<char>) -> nat
    decreases d.len(),
{
    if d.len() == 0 {
        0
    } else {
        digits_value(d.drop_last()) * 10 + ((d.last() as u32) - 48) as nat
    }
}

/// Every character is an ASCII digit.
pub open spec fn is_ascii_digits(d: Seq<char>) -> bool {
    forall|k: int| 0 <= k < d.len() ==> #[trigger] is_ascii_digit(d[k])
}

pub open spec fn is_ascii_digit(c: char) -> bool {
    '0' <= c && c <= '9'
}

/// What `str::parse::<u8>` gives for a text: an optional `+`, then one or
/// more ASCII digits whose value is at most 255.
pub open spec fn parsed_u8(s: Seq<char>) -> Option<u8> {
    let d = if s.len() > 0 && s[0] == '+' { s.drop_first() } else { s };
    if d.len() > 0 && is_ascii_digits(d)
        && digits_value(d) <= 255 {
        Some(digits_value(d) as u8)
    } else {
        None
    }
}

/// Relies on clap_num::number_range, which parses `s` with `str::parse::<u8>`
/// and returns the value only where it lies in `[min, max]`, else a message.
#[verifier::external_body]
fn number_range_u8(s: &str, min: u8, max: u8) -> (r: Result<u8, String>)
    requires
        min <= max,
    ensures
        r is Ok <==> (parsed_u8(s@) matches Some(v) && min <= v <= max),
        r matches Ok(v) ==> parsed_u8(s@) == Some(v),
{
    clap_num::number_range(s, min, max)
}

/// Relies on num_cpus::get: the number of logical CPUs available, which it
/// documents to be at least 1.
#[verifier::external_body]
fn logical_cpus() -> (r: usize)
    ensures
        r >= 1,
{
    num_cpus::get()
}

/// Parses a trailing-zero count, accepted only within `1..=32`.
pub fn from_1_to_32(s: &str) -> (r: Result<u8, String>)
    ensures
        r is Ok <==> (parsed_u8(s@) matches Some(v) && MIN_TRAILING_ZEROS <= v <= MAX_TRAILING_ZEROS),
        r matches Ok(v) ==> parsed_u8(s@) == Some(v),
{
    number_range_u8(s, MIN_TRAILING_ZEROS, MAX_TRAILING_ZEROS)
}

/// The outcome of validating a configuration: the first rule it breaks, in
/// the order trailing zeros, threads, chunk size, or the configuration.
pub open spec fn validated(trailing_zeros: u8, hashes_needed: usize, threads: usize, chunk_size: usize) -> Result<Args, ConfigError> {
    if !(MIN_TRAILING_ZEROS <= trailing_zeros <= MAX_TRAILING_ZEROS) {
        Err(ConfigError::TrailingZerosOutOfRange)
    } else if threads == 0 {
        Err(ConfigError::NoThreads)
    } else if chunk_size == 0 {
        Err(ConfigError::EmptyChunks)
    } else {
        Ok(Args { trailing_zeros, hashes_needed, threads, chunk_size })
    }
}

impl Args {
    /// Validates a configuration: the trailing-zero count must lie in
    /// `1..=32`, and there must be at least one thread and one input per
    /// chunk.
    pub fn new(trailing_zeros: u8, hashes_needed: usize, threads: usize, chunk_size: usize) -> (r:
        Result<Args, ConfigError>)
        ensures
            r == validated(trailing_zeros, hashes_needed, threads, chunk_size),
    {
        if trailing_zeros < MIN_TRAILING_ZEROS || trailing_zeros > MAX_TRAILING_ZEROS {
            Err(ConfigError::TrailingZerosOutOfRange)
        } else if threads == 0 {
            Err(ConfigError::NoThreads)
        } else if chunk_size == 0 {
            Err(ConfigError::EmptyChunks)
        } else {
            Ok(Args { trailing_zeros, hashes_needed, threads, chunk_size })
        }
    }

    /// As `new`, with the number of logical CPUs for a thread count that is
    /// not given.
    pub fn with_default_threads(
        trailing_zeros: u8,
        hashes_needed: usize,
        threads: Option<usize>,
        chunk_size: usize,
    ) -> (r: Result<Args, ConfigError>)
        ensures
            threads matches Some(t) ==> r == validated(trailing_zeros, hashes_needed, t, chunk_size),
            threads is None ==> {
                &&& r is Ok <==> MIN_TRAILING_ZEROS <= trailing_zeros <= MAX_TRAILING_ZEROS
                    && chunk_size > 0
                &&& !(MIN_TRAILING_ZEROS <= trailing_zeros <= MAX_TRAILING_ZEROS) ==> r == Err::<
                    Args,
                    ConfigError,
                >(ConfigError::TrailingZerosOutOfRange)
                &&& r matches Ok(a) ==> a.trailing_zeros == trailing_zeros && a.hashes_needed
                    == hashes_needed && a.chunk_size == chunk_size && a.threads >= 1
            },
    {
        let t = match threads {
            Some(t) => t,
            None => logical_cpus(),
        };
        Args::new(trailing_zeros, hashes_needed, t, chunk_size)
    }
}

} // verus!
