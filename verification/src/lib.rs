//! A small text format for describing retry policies, a validating parser
//! and a canonical printer.
//!
//! A policy is one line such as
//! `max_attempts=5, backoff=exponential(base=200ms, factor=2.0, max=30s), jitter=full`.
//! Reading it is pure: the same text always gives the same policy or the
//! same error. The growth factor of an exponential backoff is a
//! floating-point number; this crate does not read numbers of that kind
//! itself: [`factor_text`] finds the factor's text, the caller reads it into
//! a [`Factor`], and [`parse`] takes that reading.
pub mod laws;
pub mod parser;
pub mod policy;
pub mod printer;
pub mod text;

pub use parser::{
    ensure_no_extra_fields, factor_text, parse, parse_duration, parse_jitter, parse_u32,
    split_kv, split_top_level, take_field, ParseError,
};
pub use policy::{validate, Backoff, Duration, Factor, Jitter, RetryPolicy};
pub use printer::{format_duration, format_jitter, pretty_print};
