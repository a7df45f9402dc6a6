//! Rendering a retry policy back to its canonical text form.
use vstd::prelude::*;

use crate::policy::{Backoff, BackoffView, Duration, Jitter, PolicyView, RetryPolicy};
use crate::text::{decimal_text, push_decimal};

verus! {

/// The name a jitter mode is written with.
pub open spec fn jitter_name(j: Jitter) -> Seq<char> {
    match j {
        Jitter::Off => "none"@,
        Jitter::Full => "full"@,
        Jitter::Equal => "equal"@,
    }
}

/// A duration in the largest unit (`h`, `m`, `s`, `ms`) that divides it
/// evenly; every unit divides zero, so zero is `0h`.
pub open spec fn duration_text(ms: nat) -> Seq<char> {
    if ms % 3_600_000 == 0 {
        decimal_text(ms / 3_600_000) + "h"@
    } else if ms % 60_000 == 0 {
        decimal_text(ms / 60_000) + "m"@
    } else if ms % 1_000 == 0 {
        decimal_text(ms / 1_000) + "s"@
    } else {
        decimal_text(ms) + "ms"@
    }
}

pub open spec fn backoff_text(b: BackoffView) -> Seq<char> {
    match b {
        BackoffView::Fixed { delay } => "fixed(delay="@ + duration_text(delay) + ")"@,
        BackoffView::Linear { base, increment, max } => "linear(base="@ + duration_text(base)
            + ", increment="@ + duration_text(increment) + ", max="@ + duration_text(max) + ")"@,
        BackoffView::Exponential { base, factor, max } => "exponential(base="@ + duration_text(
            base,
        ) + ", factor="@ + factor.shown + ", max="@ + duration_text(max) + ")"@,
    }
}

/// The canonical text of a policy: always `max_attempts`, `backoff` and
/// `jitter`, in that order.
pub open spec fn policy_text(p: PolicyView) -> Seq<char> {
    "max_attempts="@ + decimal_text(p.max_attempts as nat) + ", backoff="@ + backoff_text(p.backoff)
        + ", jitter="@ + jitter_name(p.jitter)
}

/// Renders a policy back to its canonical text form.
pub fn pretty_print(policy: &RetryPolicy) -> (s: String)
    ensures
        s@ == policy_text(policy@),
{
    let mut s = "max_attempts=".to_string();
    push_decimal(&mut s, policy.max_attempts as u128);
    s.append(", backoff=");
    let b = format_backoff(&policy.backoff);
    s.append(b.as_str());
    s.append(", jitter=");
    s.append(format_jitter(policy.jitter));
    s
}

pub fn format_backoff(backoff: &Backoff) -> (s: String)
    ensures
        s@ == backoff_text(backoff@),
{
    match backoff {
        Backoff::Fixed { delay } => {
            let mut s = "fixed(delay=".to_string();
            s.append(format_duration(*delay).as_str());
            s.append(")");
            s
        },
        Backoff::Linear { base, increment, max } => {
            let mut s = "linear(base=".to_string();
            s.append(format_duration(*base).as_str());
            s.append(", increment=");
            s.append(format_duration(*increment).as_str());
            s.append(", max=");
            s.append(format_duration(*max).as_str());
            s.append(")");
            s
        },
        Backoff::Exponential { base, factor, max } => {
            let mut s = "exponential(base=".to_string();
            s.append(format_duration(*base).as_str());
            s.append(", factor=");
            s.append(factor.shown.as_str());
            s.append(", max=");
            s.append(format_duration(*max).as_str());
            s.append(")");
            s
        },
    }
}

pub fn format_jitter(jitter: Jitter) -> (s: &'static str)
    ensures
        s@ == jitter_name(jitter),
{
    match jitter {
        Jitter::Off => "none",
        Jitter::Full => "full",
        Jitter::Equal => "equal",
    }
}

/// Picks the largest unit (`h`, `m`, `s`, `ms`) that divides the duration
/// evenly, so no precision is lost.
pub fn format_duration(d: Duration) -> (s: String)
    ensures
        s@ == duration_text(d@),
{
    let total_ms = d.as_millis();
    let mut s = String::new();
    if total_ms % 3_600_000 == 0 {
        push_decimal(&mut s, total_ms / 3_600_000);
        s.append("h");
    } else if total_ms % 60_000 == 0 {
        push_decimal(&mut s, total_ms / 60_000);
        s.append("m");
    } else if total_ms % 1_000 == 0 {
        push_decimal(&mut s, total_ms / 1_000);
        s.append("s");
    } else {
        push_decimal(&mut s, total_ms);
        s.append("ms");
    }
    s
}

} // verus!
