use retryspec::{validate, Backoff, Duration, Factor, Jitter, ParseError, RetryPolicy};

fn base_policy(backoff: Backoff) -> RetryPolicy {
    RetryPolicy { max_attempts: 3, backoff, jitter: Jitter::Off }
}

fn factor(x: f64) -> Factor {
    Factor { bits: x.to_bits(), shown: x.to_string() }
}

#[test]
fn accepts_a_reasonable_fixed_policy() {
    let policy = base_policy(Backoff::Fixed { delay: Duration::from_secs(1) });
    assert!(validate(&policy).is_ok());
}

#[test]
fn policy_rejects_zero_attempts() {
    let mut policy = base_policy(Backoff::Fixed { delay: Duration::from_secs(1) });
    policy.max_attempts = 0;
    assert!(validate(&policy).is_err());
}

#[test]
fn rejects_linear_backoff_with_zero_increment() {
    let policy = base_policy(Backoff::Linear {
        base: Duration::from_secs(1),
        increment: Duration::from_secs(0),
        max: Duration::from_secs(5),
    });
    assert!(validate(&policy).is_err());
}

#[test]
fn rejects_max_below_base() {
    let policy = base_policy(Backoff::Linear {
        base: Duration::from_secs(10),
        increment: Duration::from_secs(1),
        max: Duration::from_secs(5),
    });
    assert!(validate(&policy).is_err());
}

#[test]
fn rejects_exponential_factor_that_does_not_grow() {
    let policy = base_policy(Backoff::Exponential {
        base: Duration::from_secs(1),
        factor: factor(1.0),
        max: Duration::from_secs(10),
    });
    assert!(validate(&policy).is_err());
}

#[test]
fn factor_rule_matches_float_comparison() {
    let samples = [
        1.0,
        1.0000000000000002,
        0.5,
        -2.0,
        2.0,
        1e300,
        f64::MAX,
        f64::INFINITY,
        f64::NEG_INFINITY,
        f64::NAN,
        -0.0,
        0.0,
        f64::MIN_POSITIVE,
    ];
    for x in samples {
        let policy = base_policy(Backoff::Exponential {
            base: Duration::from_secs(1),
            factor: factor(x),
            max: Duration::from_secs(10),
        });
        let grows = x.is_finite() && x > 1.0;
        assert_eq!(validate(&policy).is_ok(), grows, "factor {x}");
    }
}

#[test]
fn validation_reports_the_first_broken_rule() {
    let mut policy = base_policy(Backoff::Exponential {
        base: Duration::from_secs(10),
        factor: factor(0.5),
        max: Duration::from_secs(1),
    });
    assert_eq!(
        validate(&policy),
        Err(ParseError::OutOfRange("exponential backoff factor must be greater than 1".to_string()))
    );
    policy.max_attempts = 1001;
    assert_eq!(
        validate(&policy),
        Err(ParseError::OutOfRange("max_attempts must be at most 1000".to_string()))
    );
    policy.max_attempts = 1000;
    policy.backoff = Backoff::Fixed { delay: Duration::from_millis(0) };
    assert_eq!(validate(&policy), Ok(()));
}

#[test]
fn durations_keep_whole_milliseconds() {
    assert_eq!(Duration::from_secs(2).as_millis(), 2_000);
    assert_eq!(Duration::from_millis(1500).as_millis(), 1_500);
    assert!(Duration::from_millis(0).is_zero());
    assert!(!Duration::from_millis(1).is_zero());
    assert_eq!(Duration::from_secs(u64::MAX).as_millis(), u64::MAX as u128 * 1000);
}

#[test]
fn factors_compare_as_numbers() {
    let samples = [
        0.0,
        -0.0,
        1.0,
        1.5,
        -1.5,
        f64::INFINITY,
        f64::NEG_INFINITY,
        f64::NAN,
        -f64::NAN,
        f64::MIN_POSITIVE,
        f64::MAX,
    ];
    for x in samples {
        for y in samples {
            assert_eq!(factor(x) == factor(y), x == y, "{x} {y}");
        }
    }
    let a = Factor { bits: 2.0f64.to_bits(), shown: "2".to_string() };
    let b = Factor { bits: 2.0f64.to_bits(), shown: "2.0".to_string() };
    assert_eq!(a, b);
}
