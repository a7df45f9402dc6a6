use retryspec::{
    factor_text, format_duration, format_jitter, parse, pretty_print, Backoff, Duration, Factor,
    Jitter, ParseError, RetryPolicy,
};

fn read_factor(text: &str) -> Option<Factor> {
    text.parse::<f64>().ok().map(|x| Factor { bits: x.to_bits(), shown: x.to_string() })
}

fn parse_text(input: &str) -> Result<RetryPolicy, ParseError> {
    let reading = factor_text(input).and_then(|t| read_factor(&t));
    parse(input, reading)
}

#[test]
fn prints_canonical_form() {
    let policy = parse_text(
        "max_attempts=5, backoff=exponential(base=200ms, factor=2.0, max=30s), jitter=full",
    )
    .unwrap();
    assert_eq!(
        pretty_print(&policy),
        "max_attempts=5, backoff=exponential(base=200ms, factor=2, max=30s), jitter=full"
    );
}

#[test]
fn round_trip_is_stable() {
    let policy = parse_text(
        "max_attempts=3, backoff=linear(base=100ms, increment=50ms, max=2s), jitter=equal",
    )
    .unwrap();
    let printed = pretty_print(&policy);
    let reparsed = parse_text(&printed).unwrap();
    assert_eq!(policy, reparsed);
    assert_eq!(printed, pretty_print(&reparsed));
}

#[test]
fn formats_hours_when_exact() {
    let policy = parse_text("max_attempts=1, backoff=fixed(delay=3600s)").unwrap();
    assert_eq!(pretty_print(&policy), "max_attempts=1, backoff=fixed(delay=1h), jitter=none");
}

#[test]
fn falls_back_to_milliseconds_when_not_evenly_divisible() {
    let policy = parse_text("max_attempts=1, backoff=fixed(delay=1500ms)").unwrap();
    assert_eq!(
        pretty_print(&policy),
        "max_attempts=1, backoff=fixed(delay=1500ms), jitter=none"
    );
}

#[test]
fn formats_each_unit() {
    assert_eq!(format_duration(Duration::from_millis(0)), "0h");
    assert_eq!(format_duration(Duration::from_secs(0)), "0h");
    assert_eq!(format_duration(Duration::from_millis(7_200_000)), "2h");
    assert_eq!(format_duration(Duration::from_secs(90)), "90s");
    assert_eq!(format_duration(Duration::from_secs(120)), "2m");
    assert_eq!(format_duration(Duration::from_millis(60_001)), "60001ms");
    assert_eq!(format_duration(Duration::from_secs(u64::MAX)), "18446744073709551615s");
}

#[test]
fn names_each_jitter() {
    assert_eq!(format_jitter(Jitter::Off), "none");
    assert_eq!(format_jitter(Jitter::Full), "full");
    assert_eq!(format_jitter(Jitter::Equal), "equal");
}

#[test]
fn prints_fields_in_fixed_order() {
    let policy = parse_text("jitter=full, backoff=linear(max=1m, increment=1s, base=0ms), max_attempts=1000")
        .unwrap();
    assert_eq!(
        pretty_print(&policy),
        "max_attempts=1000, backoff=linear(base=0h, increment=1s, max=1m), jitter=full"
    );
}

#[test]
fn prints_the_factor_as_read() {
    let policy = RetryPolicy {
        max_attempts: 2,
        backoff: Backoff::Exponential {
            base: Duration::from_millis(10),
            factor: read_factor("1.50").unwrap(),
            max: Duration::from_secs(60),
        },
        jitter: Jitter::Equal,
    };
    assert_eq!(
        pretty_print(&policy),
        "max_attempts=2, backoff=exponential(base=10ms, factor=1.5, max=1m), jitter=equal"
    );
}
