//! The retry policy a text describes, and the rules that make it sensible.
use vstd::prelude::*;

use crate::parser::{ParseError, ParseErrorView};

verus! {

/// A span of time, kept to the millisecond, as the policy format writes it.
#[derive(Clone, Copy, Debug, PartialEq, Eq)]
pub struct Duration {
    millis: u128,
}

impl View for Duration {
    type V = nat;

    closed spec fn view(&self) -> nat {
        self.millis as nat
    }
}

/// A number of milliseconds that the duration syntax can write: whole
/// seconds that fit a `u64`, or milliseconds that fit one.
pub open spec fn duration_representable(ms: nat) -> bool {
    ms / 1000 <= u64::MAX && (ms % 1000 != 0 ==> ms <= u64::MAX)
}

impl Duration {
    /// Every duration can be written in the policy syntax.
    #[verifier::type_invariant]
    closed spec fn representable(self) -> bool {
        duration_representable(self.millis as nat)
    }

    /// Durations with the same number of milliseconds are the same
    /// duration.
    pub proof fn lemma_view_injective(a: Duration, b: Duration)
        ensures
            a@ == b@ ==> a == b,
    {
    }

    pub fn from_millis(millis: u64) -> (d: Duration)
        ensures
            d@ == millis as nat,
    {
        Duration { millis: millis as u128 }
    }

    pub fn from_secs(secs: u64) -> (d: Duration)
        ensures
            d@ == secs as nat * 1000,
    {
        Duration { millis: secs as u128 * 1000 }
    }

    /// The whole number of milliseconds.
    pub fn as_millis(&self) -> (m: u128)
        ensures
            m as nat == self@,
            duration_representable(self@),
    {
        proof {
            use_type_invariant(self);
        }
        self.millis
    }

    pub fn is_zero(&self) -> (z: bool)
        ensures
            z == (self@ == 0),
    {
        self.millis == 0
    }
}

/// The growth factor of an exponential backoff, as the number reader made
/// it out of the text: `bits` is the IEEE 754 binary64 pattern of the
/// number and `shown` its shortest decimal form.
#[derive(Clone, Debug)]
pub struct Factor {
    pub bits: u64,
    pub shown: String,
}

/// The pattern is a NaN.
pub open spec fn is_nan_bits(bits: u64) -> bool {
    bits % 0x8000_0000_0000_0000 > infinity_bits()
}

/// The pattern is +0.0 or -0.0.
pub open spec fn is_zero_bits(bits: u64) -> bool {
    bits % 0x8000_0000_0000_0000 == 0
}

/// IEEE 754 equality of two binary64 numbers, given by their patterns: a
/// NaN equals nothing, the two zeros are equal, and otherwise equal numbers
/// have equal patterns.
pub open spec fn same_number(a: u64, b: u64) -> bool {
    !is_nan_bits(a) && !is_nan_bits(b) && (a == b || (is_zero_bits(a) && is_zero_bits(b)))
}

/// Factors compare as the numbers they are, whatever their text.
impl PartialEq for Factor {
    fn eq(&self, other: &Self) -> (r: bool) {
        let a = self.bits % 0x8000_0000_0000_0000u64;
        let b = other.bits % 0x8000_0000_0000_0000u64;
        a <= 0x7ff0_0000_0000_0000u64 && b <= 0x7ff0_0000_0000_0000u64 && (self.bits
            == other.bits || (a == 0 && b == 0))
    }
}

impl vstd::std_specs::cmp::PartialEqSpecImpl for Factor {
    open spec fn obeys_eq_spec() -> bool {
        true
    }

    open spec fn eq_spec(&self, other: &Factor) -> bool {
        same_number(self.bits, other.bits)
    }
}

pub struct FactorView {
    pub bits: u64,
    pub shown: Seq<char>,
}

impl View for Factor {
    type V = FactorView;

    open spec fn view(&self) -> FactorView {
        FactorView { bits: self.bits, shown: self.shown@ }
    }
}

/// Bit patterns below this one (once the sign is set aside) are finite
/// numbers; the rest are the infinities and NaNs.
pub open spec fn infinity_bits() -> int {
    0x7ff0_0000_0000_0000
}

/// The bit pattern of 1.0.
pub open spec fn one_bits() -> int {
    0x3ff0_0000_0000_0000
}

/// The number is neither infinite nor NaN.
pub open spec fn factor_is_finite(bits: u64) -> bool {
    bits % 0x8000_0000_0000_0000 < infinity_bits()
}

/// The number is finite and greater than 1: a positive finite binary64
/// number is greater than 1.0 exactly when its pattern is.
pub open spec fn factor_grows(bits: u64) -> bool {
    one_bits() < bits < infinity_bits()
}

/// How much randomness to add on top of the computed backoff delay.
#[derive(Clone, Copy, Debug, PartialEq, Eq, Structural)]
pub enum Jitter {
    /// No randomness: the text form is `none`.
    Off,
    Full,
    Equal,
}

impl View for Jitter {
    type V = Jitter;

    open spec fn view(&self) -> Jitter {
        *self
    }
}

/// The shape of the delay between attempts.
#[derive(Clone, Debug, PartialEq)]
pub enum Backoff {
    /// The same delay every time.
    Fixed { delay: Duration },
    /// Delay grows by a constant amount each attempt, capped at `max`.
    Linear { base: Duration, increment: Duration, max: Duration },
    /// Delay is multiplied by `factor` each attempt, capped at `max`.
    Exponential { base: Duration, factor: Factor, max: Duration },
}

pub enum BackoffView {
    Fixed { delay: nat },
    Linear { base: nat, increment: nat, max: nat },
    Exponential { base: nat, factor: FactorView, max: nat },
}

impl View for Backoff {
    type V = BackoffView;

    open spec fn view(&self) -> BackoffView {
        match self {
            Backoff::Fixed { delay } => BackoffView::Fixed { delay: delay@ },
            Backoff::Linear { base, increment, max } => BackoffView::Linear {
                base: base@,
                increment: increment@,
                max: max@,
            },
            Backoff::Exponential { base, factor, max } => BackoffView::Exponential {
                base: base@,
                factor: factor@,
                max: max@,
            },
        }
    }
}

/// A fully specified retry policy: how many attempts to make, how long to
/// wait between them, and whether to randomize those waits.
#[derive(Clone, Debug, PartialEq)]
pub struct RetryPolicy {
    pub max_attempts: u32,
    pub backoff: Backoff,
    pub jitter: Jitter,
}

pub struct PolicyView {
    pub max_attempts: u32,
    pub backoff: BackoffView,
    pub jitter: Jitter,
}

impl View for RetryPolicy {
    type V = PolicyView;

    open spec fn view(&self) -> PolicyView {
        PolicyView { max_attempts: self.max_attempts, backoff: self.backoff@, jitter: self.jitter }
    }
}

/// The first rule a policy breaks, in the order the rules are checked.
pub open spec fn spec_validate(p: PolicyView) -> Result<(), ParseErrorView> {
    if p.max_attempts == 0 {
        Err(ParseErrorView::OutOfRange("max_attempts must be at least 1"@))
    } else if p.max_attempts > 1000 {
        Err(ParseErrorView::OutOfRange("max_attempts must be at most 1000"@))
    } else {
        match p.backoff {
            BackoffView::Fixed { .. } => Ok(()),
            BackoffView::Linear { base, increment, max } => {
                if increment == 0 {
                    Err(
                        ParseErrorView::OutOfRange(
                            "linear backoff increment must be greater than zero"@,
                        ),
                    )
                } else if max < base {
                    Err(
                        ParseErrorView::OutOfRange(
                            "linear backoff max must be greater than or equal to base"@,
                        ),
                    )
                } else {
                    Ok(())
                }
            },
            BackoffView::Exponential { base, factor, max } => {
                if !factor_grows(factor.bits) {
                    Err(
                        ParseErrorView::OutOfRange(
                            "exponential backoff factor must be greater than 1"@,
                        ),
                    )
                } else if max < base {
                    Err(
                        ParseErrorView::OutOfRange(
                            "exponential backoff max must be greater than or equal to base"@,
                        ),
                    )
                } else {
                    Ok(())
                }
            },
        }
    }
}

fn out_of_range(msg: &str) -> (e: ParseError)
    ensures
        e@ == ParseErrorView::OutOfRange(msg@),
{
    ParseError::OutOfRange(msg.to_string())
}

/// Checks that a policy's fields are internally consistent.
pub fn validate(policy: &RetryPolicy) -> (r: Result<(), ParseError>)
    ensures
        match r {
            Ok(()) => spec_validate(policy@) is Ok,
            Err(e) => spec_validate(policy@) == Err::<(), ParseErrorView>(e@),
        },
{
    if policy.max_attempts == 0 {
        return Err(out_of_range("max_attempts must be at least 1"));
    }
    if policy.max_attempts > 1000 {
        return Err(out_of_range("max_attempts must be at most 1000"));
    }
    match &policy.backoff {
        Backoff::Fixed { .. } => {},
        Backoff::Linear { base, increment, max } => {
            if increment.is_zero() {
                return Err(out_of_range("linear backoff increment must be greater than zero"));
            }
            if max.as_millis() < base.as_millis() {
                return Err(
                    out_of_range("linear backoff max must be greater than or equal to base"),
                );
            }
        },
        Backoff::Exponential { base, factor, max } => {
            if !(0x3ff0_0000_0000_0000u64 < factor.bits && factor.bits < 0x7ff0_0000_0000_0000u64) {
                return Err(out_of_range("exponential backoff factor must be greater than 1"));
            }
            if max.as_millis() < base.as_millis() {
                return Err(
                    out_of_range("exponential backoff max must be greater than or equal to base"),
                );
            }
        },
    }
    Ok(())
}

} // verus!
