use retryspec::{
    factor_text, format_duration, parse, parse_duration, parse_u32, pretty_print, split_top_level,
    Backoff, Duration, Factor, Jitter, ParseError, RetryPolicy,
};

fn read_factor(text: &str) -> Option<Factor> {
    text.parse::<f64>().ok().map(|x| Factor { bits: x.to_bits(), shown: x.to_string() })
}

fn parse_text(input: &str) -> Result<RetryPolicy, ParseError> {
    let reading = factor_text(input).and_then(|t| read_factor(&t));
    parse(input, reading)
}

#[test]
fn printed_policies_parse_back() {
    let policies = [
        RetryPolicy {
            max_attempts: 1000,
            backoff: Backoff::Exponential {
                base: Duration::from_millis(1),
                factor: read_factor("1.25").unwrap(),
                max: Duration::from_secs(86_400),
            },
            jitter: Jitter::Full,
        },
        RetryPolicy {
            max_attempts: 1,
            backoff: Backoff::Fixed { delay: Duration::from_secs(u64::MAX) },
            jitter: Jitter::Off,
        },
        RetryPolicy {
            max_attempts: 17,
            backoff: Backoff::Linear {
                base: Duration::from_millis(0),
                increment: Duration::from_millis(u64::MAX),
                max: Duration::from_secs(u64::MAX),
            },
            jitter: Jitter::Equal,
        },
    ];
    for policy in policies {
        let printed = pretty_print(&policy);
        assert_eq!(parse_text(&printed), Ok(policy.clone()), "{printed}");
    }
}

#[test]
fn factor_text_is_the_printed_factor() {
    let policy = RetryPolicy {
        max_attempts: 3,
        backoff: Backoff::Exponential {
            base: Duration::from_secs(1),
            factor: read_factor("3").unwrap(),
            max: Duration::from_secs(9),
        },
        jitter: Jitter::Off,
    };
    assert_eq!(factor_text(&pretty_print(&policy)), Some("3".to_string()));
}

#[test]
fn reading_unused_without_factor() {
    let text = "max_attempts=2, backoff=linear(base=1s, increment=1s, max=5s)";
    assert_eq!(factor_text(text), None);
    let bogus = Factor { bits: 0x7ff8_0000_0000_0000, shown: "NaN".to_string() };
    assert_eq!(parse(text, Some(bogus)), parse(text, None));
}

#[test]
fn parsed_policies_are_valid() {
    for text in [
        "max_attempts=1, backoff=fixed(delay=0ms)",
        "max_attempts=1000, backoff=linear(base=5s, increment=1ms, max=5s)",
    ] {
        let policy = parse_text(text).unwrap();
        assert!(retryspec::validate(&policy).is_ok());
    }
}

#[test]
fn field_order_does_not_matter() {
    let a = "max_attempts=4";
    let b = "backoff=exponential(base=1s, factor=1.5, max=1m)";
    let c = "jitter=full";
    let expected = parse_text(&format!("{a},{b},{c}")).unwrap();
    for text in [
        format!("{b},{a},{c}"),
        format!("{a},{c},{b}"),
        format!("{c},{b},{a}"),
        format!("{b},{c},{a}"),
        format!("{c},{a},{b}"),
        format!("{c}, {b}, {a}"),
        format!("{b}, {a}, {c}"),
        format!("  {c} ,\t{a} , {b}  "),
    ] {
        assert_eq!(parse_text(&text), Ok(expected.clone()));
    }
}

#[test]
fn zero_durations_print_in_hours_and_read_back() {
    let policy = parse_text("max_attempts=1, backoff=fixed(delay=0s)").unwrap();
    let printed = pretty_print(&policy);
    assert_eq!(printed, "max_attempts=1, backoff=fixed(delay=0h), jitter=none");
    assert_eq!(parse_text(&printed), Ok(policy));
}

#[test]
fn split_pieces_rejoin_to_the_text() {
    for text in ["a=1, b=f(x=1, y=(2,3)), c", "", ",,", "(,)),(,", "x)"] {
        let pieces = split_top_level(text);
        assert_eq!(pieces.join(","), text);
    }
    assert_eq!(split_top_level("a=1, b=f(x=1, y=2), c"), vec!["a=1", " b=f(x=1, y=2)", " c"]);
    assert_eq!(split_top_level("a)b,c"), vec!["a)b", "c"]);
}

#[test]
fn durations_round_trip() {
    for ms in [0u64, 1, 999, 1000, 59_999, 60_000, 3_600_000, 7_200_001, u64::MAX] {
        let d = Duration::from_millis(ms);
        assert_eq!(parse_duration("d", &format_duration(d)), Ok(d));
    }
    for secs in [1u64, 60, 3600, 86_400, u64::MAX] {
        let d = Duration::from_secs(secs);
        assert_eq!(parse_duration("d", &format_duration(d)), Ok(d));
    }
}

#[test]
fn attempt_counts_round_trip() {
    for n in [0u32, 1, 9, 10, 1000, u32::MAX] {
        assert_eq!(parse_u32("max_attempts", &n.to_string()), Ok(n));
    }
}
