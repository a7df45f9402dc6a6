use retryspec::text::{same_text, trim, white_space};
use retryspec::{ensure_no_extra_fields, parse_jitter, split_kv, take_field, Jitter, ParseError};

#[test]
fn white_space_is_unicode_white_space() {
    for c in (0u32..=0x10ffff).filter_map(char::from_u32) {
        assert_eq!(white_space(c), c.is_whitespace(), "{:x}", c as u32);
    }
}

#[test]
fn trim_matches_str_trim() {
    for s in ["", "  ", " a ", "\u{2003}x y\u{85}", "abc", "\ta=1\n"] {
        assert_eq!(trim(s), s.trim());
    }
}

#[test]
fn compares_texts() {
    assert!(same_text("abc", "abc"));
    assert!(!same_text("abc", "abd"));
    assert!(!same_text("ab", "abc"));
}

#[test]
fn splits_key_value_pairs() {
    assert_eq!(split_kv(" a = b=c "), Ok(("a", "b=c")));
    assert_eq!(split_kv("k="), Ok(("k", "")));
    assert_eq!(split_kv("k"), Err(ParseError::MalformedPair("k".to_string())));
    assert_eq!(split_kv(" =v"), Err(ParseError::MalformedPair(" =v".to_string())));
}

#[test]
fn takes_the_first_matching_field() {
    let mut args = vec![
        ("a".to_string(), "1".to_string()),
        ("b".to_string(), "2".to_string()),
        ("a".to_string(), "3".to_string()),
    ];
    assert_eq!(take_field(&mut args, "a"), Ok("1".to_string()));
    assert_eq!(args.len(), 2);
    assert_eq!(take_field(&mut args, "c"), Err(ParseError::MissingField("c")));
    assert_eq!(args.len(), 2);
    assert_eq!(
        ensure_no_extra_fields(&args),
        Err(ParseError::UnknownField("b".to_string()))
    );
    assert_eq!(ensure_no_extra_fields(&[]), Ok(()));
}

#[test]
fn reads_jitter_names() {
    assert_eq!(parse_jitter(" none "), Ok(Jitter::Off));
    assert_eq!(parse_jitter("full"), Ok(Jitter::Full));
    assert_eq!(parse_jitter("equal"), Ok(Jitter::Equal));
    assert_eq!(parse_jitter("None"), Err(ParseError::InvalidJitter("None".to_string())));
}
