use retryspec::{factor_text, parse, Backoff, Duration, Factor, Jitter, ParseError, RetryPolicy};

/// Reads the factor text as a floating-point number, the way the policy
/// format defines it.
fn read_factor(text: &str) -> Option<Factor> {
    text.parse::<f64>().ok().map(|x| Factor { bits: x.to_bits(), shown: x.to_string() })
}

fn parse_text(input: &str) -> Result<RetryPolicy, ParseError> {
    let reading = factor_text(input).and_then(|t| read_factor(&t));
    parse(input, reading)
}

#[test]
fn parses_a_full_policy() {
    let policy = parse_text(
        "max_attempts=5, backoff=exponential(base=200ms, factor=2.0, max=30s), jitter=full",
    )
    .unwrap();
    assert_eq!(policy.max_attempts, 5);
    assert_eq!(policy.jitter, Jitter::Full);
    match policy.backoff {
        Backoff::Exponential { base, factor, max } => {
            assert_eq!(base, Duration::from_millis(200));
            assert_eq!(f64::from_bits(factor.bits), 2.0);
            assert_eq!(max, Duration::from_secs(30));
        }
        other => panic!("unexpected backoff: {other:?}"),
    }
}

#[test]
fn defaults_jitter_to_none() {
    let policy = parse_text("max_attempts=3, backoff=fixed(delay=1s)").unwrap();
    assert_eq!(policy.jitter, Jitter::Off);
}

#[test]
fn parser_rejects_zero_attempts() {
    let err = parse_text("max_attempts=0, backoff=fixed(delay=1s)").unwrap_err();
    assert!(matches!(err, ParseError::OutOfRange(_)));
}

#[test]
fn rejects_unknown_top_level_field() {
    let err = parse_text("max_attempts=1, backoff=fixed(delay=1s), retries=1").unwrap_err();
    assert!(matches!(err, ParseError::UnknownField(_)));
}

#[test]
fn rejects_unknown_backoff_field() {
    let err = parse_text("max_attempts=1, backoff=fixed(delay=1s, wat=2s)").unwrap_err();
    assert!(matches!(err, ParseError::UnknownField(_)));
}

#[test]
fn rejects_missing_backoff() {
    let err = parse_text("max_attempts=1").unwrap_err();
    assert_eq!(err, ParseError::MissingField("backoff"));
}

#[test]
fn rejects_duplicate_field() {
    let err = parse_text("max_attempts=1, max_attempts=2, backoff=fixed(delay=1s)").unwrap_err();
    assert!(matches!(err, ParseError::DuplicateField(_)));
}

#[test]
fn rejects_shrinking_exponential_factor() {
    let err = parse_text("max_attempts=1, backoff=exponential(base=1s, factor=1.0, max=10s)")
        .unwrap_err();
    assert!(matches!(err, ParseError::OutOfRange(_)));
}

#[test]
fn rejects_bad_jitter() {
    let err = parse_text("max_attempts=1, backoff=fixed(delay=1s), jitter=lots").unwrap_err();
    assert!(matches!(err, ParseError::InvalidJitter(_)));
}

#[test]
fn empty_and_blank_texts_are_empty() {
    assert_eq!(parse_text(""), Err(ParseError::Empty));
    assert_eq!(parse_text(" \t\n\u{3000}"), Err(ParseError::Empty));
}

#[test]
fn reports_malformed_pairs() {
    assert_eq!(
        parse_text("max_attempts"),
        Err(ParseError::MalformedPair("max_attempts".to_string()))
    );
    assert_eq!(parse_text("  =5 , x"), Err(ParseError::MalformedPair("=5".to_string())));
}

#[test]
fn reports_malformed_backoffs() {
    assert_eq!(
        parse_text("max_attempts=1, backoff=fixed"),
        Err(ParseError::MalformedBackoff("fixed".to_string()))
    );
    assert_eq!(
        parse_text("max_attempts=1, backoff=fixed(delay=1s"),
        Err(ParseError::MalformedBackoff("fixed(delay=1s".to_string()))
    );
    assert_eq!(
        parse_text("max_attempts=1, backoff=linear(base=1s, oops)"),
        Err(ParseError::MalformedPair("oops".to_string()))
    );
}

#[test]
fn reports_unknown_backoff_kind() {
    assert_eq!(
        parse_text("max_attempts=1, backoff=random(delay=1s)"),
        Err(ParseError::UnknownBackoffKind("random".to_string()))
    );
}

#[test]
fn reports_missing_fields() {
    assert_eq!(
        parse_text("backoff=fixed(delay=1s)"),
        Err(ParseError::MissingField("max_attempts"))
    );
    assert_eq!(
        parse_text("max_attempts=1, backoff=fixed()"),
        Err(ParseError::MissingField("delay"))
    );
    assert_eq!(
        parse_text("max_attempts=1, backoff=exponential(base=1s, max=2s)"),
        Err(ParseError::MissingField("factor"))
    );
}

#[test]
fn reports_invalid_numbers() {
    assert_eq!(
        parse_text("max_attempts=abc, backoff=fixed(delay=1s)"),
        Err(ParseError::InvalidNumber {
            field: "max_attempts".to_string(),
            value: "abc".to_string()
        })
    );
    assert_eq!(
        parse_text("max_attempts=4294967296, backoff=fixed(delay=1s)"),
        Err(ParseError::InvalidNumber {
            field: "max_attempts".to_string(),
            value: "4294967296".to_string()
        })
    );
    assert_eq!(
        parse_text("max_attempts=1, backoff=exponential(base=1s, factor=fast, max=2s)"),
        Err(ParseError::InvalidNumber { field: "factor".to_string(), value: "fast".to_string() })
    );
    assert_eq!(
        parse_text("max_attempts=1, backoff=exponential(base=1s, factor=inf, max=2s)"),
        Err(ParseError::InvalidNumber { field: "factor".to_string(), value: "inf".to_string() })
    );
}

#[test]
fn accepts_a_plus_sign_on_attempts() {
    assert_eq!(parse_text("max_attempts=+7, backoff=fixed(delay=1s)").unwrap().max_attempts, 7);
    assert!(parse_text("max_attempts=-7, backoff=fixed(delay=1s)").is_err());
}

#[test]
fn reports_invalid_durations() {
    for bad in ["1x", "ms", "10", "1.5s", "-1s"] {
        let text = format!("max_attempts=1, backoff=fixed(delay={bad})");
        assert_eq!(
            parse_text(&text),
            Err(ParseError::InvalidDuration { field: "delay".to_string(), value: bad.to_string() })
        );
    }
}

#[test]
fn reports_each_out_of_range_rule() {
    let cases = [
        ("max_attempts=1001, backoff=fixed(delay=1s)", "max_attempts must be at most 1000"),
        (
            "max_attempts=1, backoff=linear(base=1s, increment=0ms, max=2s)",
            "linear backoff increment must be greater than zero",
        ),
        (
            "max_attempts=1, backoff=linear(base=3s, increment=1s, max=2s)",
            "linear backoff max must be greater than or equal to base",
        ),
        (
            "max_attempts=5, backoff=exponential(base=30s, factor=2.0, max=1s)",
            "exponential backoff max must be greater than or equal to base",
        ),
        (
            "max_attempts=5, backoff=exponential(base=1s, factor=-3, max=2s)",
            "exponential backoff factor must be greater than 1",
        ),
    ];
    for (text, msg) in cases {
        assert_eq!(parse_text(text), Err(ParseError::OutOfRange(msg.to_string())));
    }
}

#[test]
fn reads_every_unit() {
    let delay = |text: &str| match parse_text(&format!("max_attempts=1, backoff=fixed(delay={text})"))
        .unwrap()
        .backoff
    {
        Backoff::Fixed { delay } => delay.as_millis(),
        other => panic!("unexpected backoff: {other:?}"),
    };
    assert_eq!(delay("250ms"), 250);
    assert_eq!(delay("3s"), 3_000);
    assert_eq!(delay("2m"), 120_000);
    assert_eq!(delay("1h"), 3_600_000);
    assert_eq!(delay(" 7s "), 7_000);
}

#[test]
fn saturates_large_minutes_and_hours() {
    let text = "max_attempts=1, backoff=fixed(delay=9999999999999999999h)";
    match parse_text(text).unwrap().backoff {
        Backoff::Fixed { delay } => assert_eq!(delay, Duration::from_secs(u64::MAX)),
        other => panic!("unexpected backoff: {other:?}"),
    }
}

#[test]
fn fields_in_any_order_and_blank_pieces() {
    let a = parse_text("jitter=equal, backoff=fixed(delay=1s), max_attempts=2").unwrap();
    let b = parse_text(" , max_attempts=2,, backoff = fixed( delay = 1s ) ,jitter=equal, ").unwrap();
    assert_eq!(a, b);
    assert_eq!(a.jitter, Jitter::Equal);
}

#[test]
fn duplicate_backoff_arguments_leave_one_over() {
    assert_eq!(
        parse_text("max_attempts=1, backoff=fixed(delay=1s, delay=2s)"),
        Err(ParseError::UnknownField("delay".to_string()))
    );
}

#[test]
fn factor_text_finds_the_factor() {
    assert_eq!(
        factor_text("max_attempts=1, backoff=exponential(base=1s, factor= 2.5 , max=2s)"),
        Some("2.5".to_string())
    );
    assert_eq!(factor_text("max_attempts=1, backoff=fixed(delay=1s)"), None);
    assert_eq!(factor_text("max_attempts=x, backoff=exponential(base=1s, factor=2, max=2s)"), None);
}

#[test]
fn messages_match_the_error() {
    let cases = [
        (ParseError::Empty, "policy text is empty"),
        (ParseError::MalformedPair("a".to_string()), "expected `key=value`, got `a`"),
        (
            ParseError::MalformedBackoff("b".to_string()),
            "expected `kind(field=value, ...)`, got `b`",
        ),
        (ParseError::DuplicateField("k".to_string()), "field `k` was set more than once"),
        (ParseError::UnknownField("k".to_string()), "unknown field `k`"),
        (ParseError::UnknownBackoffKind("k".to_string()), "unknown backoff kind `k`"),
        (ParseError::MissingField("backoff"), "missing required field `backoff`"),
        (
            ParseError::InvalidNumber { field: "f".to_string(), value: "v".to_string() },
            "field `f` expected a number, got `v`",
        ),
        (
            ParseError::InvalidDuration { field: "f".to_string(), value: "v".to_string() },
            "field `f` expected a duration like `200ms` or `30s`, got `v`",
        ),
        (
            ParseError::InvalidJitter("lots".to_string()),
            "jitter must be `none`, `full`, or `equal`, got `lots`",
        ),
        (ParseError::OutOfRange("too big".to_string()), "too big"),
    ];
    for (err, msg) in cases {
        assert_eq!(err.message(), msg);
    }
}
