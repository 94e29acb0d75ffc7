//! Parse options: timeout, size and chunk-count limits, and cooperative
//! cancellation.

use std::sync::atomic::AtomicUsize;

use vstd::prelude::*;
use vstd::string::*;

use crate::error::ParserError;
use crate::text::{decimal, decimal_string};

verus! {

/// Default parse timeout, in seconds.
pub const DEFAULT_PARSE_TIMEOUT_SECS: u64 = 5;
/// Default cap on source size, in bytes.
pub const DEFAULT_MAX_SOURCE_BYTES: usize = 4194304;
/// Default cap on the number of chunks.
pub const DEFAULT_MAX_CHUNKS: usize = 100000;
/// Largest accepted `max_source_bytes`.
pub const MAX_SOURCE_BYTES_LIMIT: usize = 16777216;
/// Largest accepted `max_chunks`.
pub const MAX_CHUNKS_LIMIT: usize = 1000000;
/// Largest accepted timeout, in seconds.
pub const MAX_PARSE_TIMEOUT_SECS: u64 = 300;

pub const NANOS_PER_SEC: u128 = 1000000000;
pub const NANOS_PER_MILLI: u128 = 1000000;
pub const NANOS_PER_MICRO: u128 = 1000;

/// A span of time with nanosecond resolution, as used for parse timeouts.
#[derive(Clone, Copy, Debug, PartialEq, Eq, Structural)]
pub struct Timeout {
    nanos: u128,
}

impl View for Timeout {
    type V = nat;

    /// The length of the span in nanoseconds.
    closed spec fn view(&self) -> nat {
        self.nanos as nat
    }
}

impl Timeout {
    pub fn from_secs(secs: u64) -> (t: Timeout)
        ensures
            t@ == secs * NANOS_PER_SEC,
    {
        Timeout { nanos: secs as u128 * NANOS_PER_SEC }
    }

    /// `secs` seconds and `nanos` nanoseconds.
    pub fn new(secs: u64, nanos: u32) -> (t: Timeout)
        ensures
            t@ == secs * NANOS_PER_SEC + nanos,
    {
        Timeout { nanos: secs as u128 * NANOS_PER_SEC + nanos as u128 }
    }

    pub fn from_millis(millis: u64) -> (t: Timeout)
        ensures
            t@ == millis * NANOS_PER_MILLI,
    {
        Timeout { nanos: millis as u128 * NANOS_PER_MILLI }
    }

    pub fn from_micros(micros: u64) -> (t: Timeout)
        ensures
            t@ == micros * NANOS_PER_MICRO,
    {
        Timeout { nanos: micros as u128 * NANOS_PER_MICRO }
    }

    pub fn from_nanos(nanos: u64) -> (t: Timeout)
        ensures
            t@ == nanos,
    {
        Timeout { nanos: nanos as u128 }
    }

    /// The span in whole microseconds.
    pub fn as_micros(&self) -> (m: u128)
        ensures
            m == self@ / (NANOS_PER_MICRO as nat),
    {
        self.nanos / NANOS_PER_MICRO
    }

    pub fn as_nanos(&self) -> (n: u128)
        ensures
            n == self@,
    {
        self.nanos
    }

    pub fn is_zero(&self) -> (z: bool)
        ensures
            z == (self@ == 0),
    {
        self.nanos == 0
    }
}

/// How a parse is bounded: a timeout, caps on input size and on the number
/// of chunks, and an optional flag that cancels the parse once it is
/// non-zero.
#[derive(Clone, Copy)]
pub struct ParseOptions<'a> {
    pub timeout: Timeout,
    pub max_source_bytes: usize,
    pub max_chunks: usize,
    pub cancellation: Option<&'a AtomicUsize>,
}

impl<'a> Default for ParseOptions<'a> {
    fn default() -> (o: Self)
        ensures
            o.timeout@ == DEFAULT_PARSE_TIMEOUT_SECS * NANOS_PER_SEC,
            o.max_source_bytes == DEFAULT_MAX_SOURCE_BYTES,
            o.max_chunks == DEFAULT_MAX_CHUNKS,
            o.cancellation is None,
    {
        ParseOptions {
            timeout: Timeout::from_secs(DEFAULT_PARSE_TIMEOUT_SECS),
            max_source_bytes: DEFAULT_MAX_SOURCE_BYTES,
            max_chunks: DEFAULT_MAX_CHUNKS,
            cancellation: None,
        }
    }
}

/// The first complaint about the options, in the order they are checked,
/// or `None` when they are all in range.
pub open spec fn options_problem(o: ParseOptions) -> Option<Seq<char>> {
    if o.max_source_bytes == 0 {
        Some("max_source_bytes must be at least 1"@)
    } else if o.max_source_bytes > MAX_SOURCE_BYTES_LIMIT {
        Some("max_source_bytes "@ + decimal(o.max_source_bytes as nat) + " exceeds limit of "@
            + decimal(MAX_SOURCE_BYTES_LIMIT as nat))
    } else if o.max_chunks == 0 {
        Some("max_chunks must be at least 1"@)
    } else if o.max_chunks > MAX_CHUNKS_LIMIT {
        Some("max_chunks "@ + decimal(o.max_chunks as nat) + " exceeds limit of "@ + decimal(
            MAX_CHUNKS_LIMIT as nat,
        ))
    } else if o.timeout@ == 0 {
        Some("parse timeout must be non-zero"@)
    } else if o.timeout@ > MAX_PARSE_TIMEOUT_SECS * NANOS_PER_SEC {
        Some("parse timeout exceeds 300s limit"@)
    } else {
        None
    }
}

/// Options pass validation exactly when both caps are between 1 and their
/// limits and the timeout is positive and at most 300 seconds.
pub proof fn lemma_valid_options_in_range(o: ParseOptions)
    ensures
        options_problem(o) is None <==> (1 <= o.max_source_bytes <= MAX_SOURCE_BYTES_LIMIT && 1
            <= o.max_chunks <= MAX_CHUNKS_LIMIT && 0 < o.timeout@ <= MAX_PARSE_TIMEOUT_SECS
            * NANOS_PER_SEC),
{
}

/// The default options pass validation.
pub proof fn lemma_default_options_valid(o: ParseOptions)
    requires
        o.timeout@ == DEFAULT_PARSE_TIMEOUT_SECS * NANOS_PER_SEC,
        o.max_source_bytes == DEFAULT_MAX_SOURCE_BYTES,
        o.max_chunks == DEFAULT_MAX_CHUNKS,
    ensures
        options_problem(o) is None,
{
}

/// `e` is the `InvalidOptions` error carrying `message`.
pub open spec fn is_invalid_options(e: ParserError, message: Seq<char>) -> bool {
    e matches ParserError::InvalidOptions(m) && m@ == message
}

fn exceeds_message(field: &str, value: usize, limit: usize) -> (s: String)
    ensures
        s@ == field@ + decimal(value as nat) + " exceeds limit of "@ + decimal(
            limit as nat,
        ),
{
    let mut s = field.to_owned();
    s.append(decimal_string(value).as_str());
    s.append(" exceeds limit of ");
    s.append(decimal_string(limit).as_str());
    s
}

impl<'a> ParseOptions<'a> {
    /// Checks every limit; the first one out of range is reported.
    pub fn validate(&self) -> (r: Result<(), ParserError>)
        ensures
            r is Ok <==> options_problem(*self) is None,
            r matches Err(e) ==> is_invalid_options(e, options_problem(*self)->0),
    {
        if self.max_source_bytes == 0 {
            return Err(ParserError::InvalidOptions("max_source_bytes must be at least 1".to_owned()));
        }
        if self.max_source_bytes > MAX_SOURCE_BYTES_LIMIT {
            return Err(
                ParserError::InvalidOptions(
                    exceeds_message("max_source_bytes ", self.max_source_bytes, MAX_SOURCE_BYTES_LIMIT),
                ),
            );
        }
        if self.max_chunks == 0 {
            return Err(ParserError::InvalidOptions("max_chunks must be at least 1".to_owned()));
        }
        if self.max_chunks > MAX_CHUNKS_LIMIT {
            return Err(
                ParserError::InvalidOptions(
                    exceeds_message("max_chunks ", self.max_chunks, MAX_CHUNKS_LIMIT),
                ),
            );
        }
        if self.timeout.is_zero() {
            return Err(ParserError::InvalidOptions("parse timeout must be non-zero".to_owned()));
        }
        if self.timeout.as_nanos() > MAX_PARSE_TIMEOUT_SECS as u128 * NANOS_PER_SEC {
            return Err(ParserError::InvalidOptions("parse timeout exceeds 300s limit".to_owned()));
        }
        Ok(())
    }
}

} // verus!
