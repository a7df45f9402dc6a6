//! Reading a retry policy from its one-line text form.
use vstd::prelude::*;

use crate::policy::{
    factor_is_finite, spec_validate, validate, Backoff, BackoffView, Duration, Factor, FactorView, Jitter, PolicyView,
    RetryPolicy,
};
use crate::text::{
    all_digits, ascii_digit, decimal_value, digit_run, find_char, index_of, lemma_digit_run,
    lemma_digit_run_digits, lemma_index_of_bounds, read_decimal, same_text, trim, trimmed,
};

verus! {

/// Why a piece of retry-policy text failed to parse or validate.
#[derive(Debug, Clone, PartialEq, Eq)]
pub enum ParseError {
    Empty,
    MalformedPair(String),
    MalformedBackoff(String),
    DuplicateField(String),
    UnknownField(String),
    UnknownBackoffKind(String),
    MissingField(&'static str),
    InvalidNumber { field: String, value: String },
    InvalidDuration { field: String, value: String },
    InvalidJitter(String),
    OutOfRange(String),
}

pub enum ParseErrorView {
    Empty,
    MalformedPair(Seq<char>),
    MalformedBackoff(Seq<char>),
    DuplicateField(Seq<char>),
    UnknownField(Seq<char>),
    UnknownBackoffKind(Seq<char>),
    MissingField(Seq<char>),
    InvalidNumber { field: Seq<char>, value: Seq<char> },
    InvalidDuration { field: Seq<char>, value: Seq<char> },
    InvalidJitter(Seq<char>),
    OutOfRange(Seq<char>),
}

impl View for ParseError {
    type V = ParseErrorView;

    open spec fn view(&self) -> ParseErrorView {
        match self {
            ParseError::Empty => ParseErrorView::Empty,
            ParseError::MalformedPair(s) => ParseErrorView::MalformedPair(s@),
            ParseError::MalformedBackoff(s) => ParseErrorView::MalformedBackoff(s@),
            ParseError::DuplicateField(s) => ParseErrorView::DuplicateField(s@),
            ParseError::UnknownField(s) => ParseErrorView::UnknownField(s@),
            ParseError::UnknownBackoffKind(s) => ParseErrorView::UnknownBackoffKind(s@),
            ParseError::MissingField(s) => ParseErrorView::MissingField(s@),
            ParseError::InvalidNumber { field, value } => ParseErrorView::InvalidNumber {
                field: field@,
                value: value@,
            },
            ParseError::InvalidDuration { field, value } => ParseErrorView::InvalidDuration {
                field: field@,
                value: value@,
            },
            ParseError::InvalidJitter(s) => ParseErrorView::InvalidJitter(s@),
            ParseError::OutOfRange(s) => ParseErrorView::OutOfRange(s@),
        }
    }
}

/// `open` + `inner` + `close`.
pub open spec fn quoted(open: Seq<char>, inner: Seq<char>, close: Seq<char>) -> Seq<char> {
    open + inner + close
}

/// The human-readable description of an error.
pub open spec fn error_message(e: ParseErrorView) -> Seq<char> {
    match e {
        ParseErrorView::Empty => "policy text is empty"@,
        ParseErrorView::MalformedPair(s) => quoted("expected `key=value`, got `"@, s, "`"@),
        ParseErrorView::MalformedBackoff(s) => quoted(
            "expected `kind(field=value, ...)`, got `"@,
            s,
            "`"@,
        ),
        ParseErrorView::DuplicateField(k) => quoted("field `"@, k, "` was set more than once"@),
        ParseErrorView::UnknownField(k) => quoted("unknown field `"@, k, "`"@),
        ParseErrorView::UnknownBackoffKind(k) => quoted("unknown backoff kind `"@, k, "`"@),
        ParseErrorView::MissingField(k) => quoted("missing required field `"@, k, "`"@),
        ParseErrorView::InvalidNumber { field, value } => quoted(
            "field `"@,
            field,
            "` expected a number, got `"@,
        ) + value + "`"@,
        ParseErrorView::InvalidDuration { field, value } => quoted(
            "field `"@,
            field,
            "` expected a duration like `200ms` or `30s`, got `"@,
        ) + value + "`"@,
        ParseErrorView::InvalidJitter(v) => quoted(
            "jitter must be `none`, `full`, or `equal`, got `"@,
            v,
            "`"@,
        ),
        ParseErrorView::OutOfRange(msg) => msg,
    }
}

fn framed(open: &str, inner: &str, close: &str) -> (r: String)
    ensures
        r@ == quoted(open@, inner@, close@),
{
    let mut r = open.to_string();
    r.append(inner);
    r.append(close);
    r
}

impl ParseError {
    /// The message the error is displayed with.
    pub fn message(&self) -> (m: String)
        ensures
            m@ == error_message(self@),
    {
        match self {
            ParseError::Empty => "policy text is empty".to_string(),
            ParseError::MalformedPair(s) => framed("expected `key=value`, got `", s.as_str(), "`"),
            ParseError::MalformedBackoff(s) => framed(
                "expected `kind(field=value, ...)`, got `",
                s.as_str(),
                "`",
            ),
            ParseError::DuplicateField(k) => framed(
                "field `",
                k.as_str(),
                "` was set more than once",
            ),
            ParseError::UnknownField(k) => framed("unknown field `", k.as_str(), "`"),
            ParseError::UnknownBackoffKind(k) => framed(
                "unknown backoff kind `",
                k.as_str(),
                "`",
            ),
            ParseError::MissingField(k) => framed("missing required field `", k, "`"),
            ParseError::InvalidNumber { field, value } => {
                let mut m = framed("field `", field.as_str(), "` expected a number, got `");
                m.append(value.as_str());
                m.append("`");
                m
            },
            ParseError::InvalidDuration { field, value } => {
                let mut m = framed(
                    "field `",
                    field.as_str(),
                    "` expected a duration like `200ms` or `30s`, got `",
                );
                m.append(value.as_str());
                m.append("`");
                m
            },
            ParseError::InvalidJitter(v) => framed(
                "jitter must be `none`, `full`, or `equal`, got `",
                v.as_str(),
                "`",
            ),
            ParseError::OutOfRange(msg) => msg.as_str().to_string(),
        }
    }
}


/// What an operation gives back, seen through the views of its values.
pub open spec fn outcome<T: View>(r: Result<T, ParseError>) -> Result<T::V, ParseErrorView> {
    match r {
        Ok(v) => Ok(v@),
        Err(e) => Err(e@),
    }
}

/// Nesting depth after one more character: `(` opens, `)` closes (never
/// below zero).
pub open spec fn depth_step(d: nat, c: char) -> nat {
    if c == '(' {
        d + 1
    } else if c == ')' {
        if d == 0 {
            0
        } else {
            (d - 1) as nat
        }
    } else {
        d
    }
}

/// Nesting depth after reading `s`, starting at depth `d`.
pub open spec fn depth_after(d: nat, s: Seq<char>) -> nat
    decreases s.len(),
{
    if s.len() == 0 {
        d
    } else {
        depth_after(depth_step(d, s[0]), s.drop_first())
    }
}

/// The pieces of `s`, read from depth `d`: a comma at depth zero ends the
/// current piece and starts a new one; every other character belongs to
/// the current piece.
pub open spec fn pieces(s: Seq<char>, d: nat) -> Seq<Seq<char>>
    decreases s.len(),
{
    if s.len() == 0 {
        seq![Seq::<char>::empty()]
    } else {
        let rest = pieces(s.drop_first(), depth_step(d, s[0]));
        if s[0] == ',' && d == 0 {
            seq![Seq::<char>::empty()] + rest
        } else {
            rest.update(0, seq![s[0]] + rest[0])
        }
    }
}

/// The top-level pieces of a text: it is cut at the commas that are not
/// inside parentheses.
pub open spec fn spec_split_top_level(s: Seq<char>) -> Seq<Seq<char>> {
    pieces(s, 0)
}

pub proof fn lemma_pieces_nonempty(s: Seq<char>, d: nat)
    ensures
        pieces(s, d).len() >= 1,
    decreases s.len(),
{
    if s.len() > 0 {
        lemma_pieces_nonempty(s.drop_first(), depth_step(d, s[0]));
    }
}

pub proof fn lemma_depth_append(d: nat, a: Seq<char>, b: Seq<char>)
    ensures
        depth_after(d, a + b) == depth_after(depth_after(d, a), b),
    decreases a.len(),
{
    if a.len() == 0 {
        assert(a + b =~= b);
    } else {
        assert((a + b).drop_first() =~= a.drop_first() + b);
        lemma_depth_append(depth_step(d, a[0]), a.drop_first(), b);
    }
}

/// Splitting a concatenation: the last piece of `a` runs on into the first
/// piece of `b`.
pub proof fn lemma_pieces_append(a: Seq<char>, b: Seq<char>, d: nat)
    ensures
        pieces(a + b, d) =~= pieces(a, d).drop_last() + seq![
            pieces(a, d).last() + pieces(b, depth_after(d, a))[0],
        ] + pieces(b, depth_after(d, a)).drop_first(),
    decreases a.len(),
{
    let db = depth_after(d, a);
    lemma_pieces_nonempty(b, db);
    lemma_pieces_nonempty(a, d);
    if a.len() == 0 {
        assert(a + b =~= b);
        assert(pieces(a, d) =~= seq![Seq::<char>::empty()]);
        assert(pieces(a, d).last() + pieces(b, db)[0] =~= pieces(b, db)[0]);
        assert(pieces(b, db) =~= seq![pieces(b, db)[0]] + pieces(b, db).drop_first());
    } else {
        let c = a[0];
        let a2 = a.drop_first();
        let d2 = depth_step(d, c);
        assert((a + b).drop_first() =~= a2 + b);
        assert((a + b)[0] == c);
        lemma_pieces_append(a2, b, d2);
        lemma_pieces_nonempty(a2, d2);
        let pa2 = pieces(a2, d2);
        let pb = pieces(b, db);
        let joined = pieces(a2 + b, d2);
        assert(db == depth_after(d2, a2));
        assert(joined =~= pa2.drop_last() + seq![pa2.last() + pb[0]] + pb.drop_first());
        if c == ',' && d == 0 {
            let pa = seq![Seq::<char>::empty()] + pa2;
            assert(pieces(a, d) == pa);
            assert(pieces(a + b, d) == seq![Seq::<char>::empty()] + joined);
            assert(pa.drop_last() =~= seq![Seq::<char>::empty()] + pa2.drop_last());
            assert(pa.last() == pa2.last());
        } else {
            let pa = pa2.update(0, seq![c] + pa2[0]);
            assert(pieces(a, d) == pa);
            assert(pieces(a + b, d) == joined.update(0, seq![c] + joined[0]));
            if pa2.len() == 1 {
                assert(joined[0] =~= pa2[0] + pb[0]);
                assert(pa.drop_last() =~= Seq::<Seq<char>>::empty());
                assert(pa.last() == seq![c] + pa2[0]);
                assert(seq![c] + joined[0] =~= pa.last() + pb[0]);
            } else {
                assert(joined[0] =~= pa2[0]);
                assert(pa.drop_last() =~= pa2.drop_last().update(0, seq![c] + pa2[0]));
                assert(pa.last() == pa2.last());
            }
        }
    }
}

pub proof fn lemma_depth_single(d: nat, c: char)
    ensures
        depth_after(d, seq![c]) == depth_step(d, c),
{
    reveal_with_fuel(depth_after, 2);
    assert(seq![c].drop_first() =~= Seq::<char>::empty());
}

pub proof fn lemma_pieces_single(c: char, d: nat)
    ensures
        pieces(seq![c], d) == (if c == ',' && d == 0 {
            seq![Seq::<char>::empty(), Seq::<char>::empty()]
        } else {
            seq![seq![c]]
        }),
{
    reveal_with_fuel(pieces, 2);
    assert(seq![c].drop_first() =~= Seq::<char>::empty());
    let rest = pieces(seq![c].drop_first(), depth_step(d, c));
    assert(rest =~= seq![Seq::<char>::empty()]);
    if c == ',' && d == 0 {
        assert(seq![Seq::<char>::empty()] + rest =~= seq![
            Seq::<char>::empty(),
            Seq::<char>::empty(),
        ]);
    } else {
        assert(seq![c] + rest[0] =~= seq![c]);
        assert(rest.update(0, seq![c] + rest[0]) =~= seq![seq![c]]);
    }
}

/// The texts of a list of slices.
pub open spec fn text_views(parts: Seq<&str>) -> Seq<Seq<char>> {
    parts.map_values(|p: &str| p@)
}

/// Splits `key=value` pairs on top-level commas, i.e. commas that are not
/// nested inside a `backoff(...)` argument list.
pub fn split_top_level(input: &str) -> (parts: Vec<&str>)
    ensures
        text_views(parts@) == spec_split_top_level(input@),
{
    let n = input.unicode_len();
    let mut parts: Vec<&str> = Vec::new();
    let mut depth: usize = 0;
    let mut start: usize = 0;
    let mut i: usize = 0;
    assert(input@.take(0) =~= Seq::<char>::empty());
    assert(text_views(parts@).push(input@.subrange(0, 0)) =~= pieces(
        input@.take(0),
        0,
    ));
    while i < n
        invariant
            n == input@.len(),
            start <= i <= n,
            depth <= i,
            depth == depth_after(0, input@.take(i as int)),
            text_views(parts@).push(input@.subrange(start as int, i as int))
                =~= pieces(input@.take(i as int), 0),
        decreases n - i,
    {
        let c = input.get_char(i);
        let ghost pre = input@.take(i as int);
        let ghost old_parts = text_views(parts@);
        let ghost old_start = start;
        proof {
            assert(pre + seq![c] =~= input@.take(i + 1));
            lemma_pieces_append(pre, seq![c], 0);
            lemma_depth_append(0, pre, seq![c]);
            lemma_depth_single(depth as nat, c);
            lemma_pieces_single(c, depth as nat);
            lemma_pieces_nonempty(pre, 0);
        }
        if c == '(' {
            depth = depth + 1;
        } else if c == ')' {
            if depth > 0 {
                depth = depth - 1;
            }
        } else if c == ',' && depth == 0 {
            let piece = input.substring_char(start, i);
            parts.push(piece);
            start = i + 1;
        }
        proof {
            let cur = input@.subrange(old_start as int, i as int);
            let pp = pieces(pre, 0);
            assert(pp.drop_last() =~= old_parts);
            assert(pp.last() == cur);
            if c == ',' && depth == 0 {
                assert(text_views(parts@) =~= old_parts.push(
                    input@.subrange(old_start as int, i as int),
                ));
                assert(pieces(input@.take(i + 1), 0) =~= old_parts.push(cur).push(
                    Seq::<char>::empty(),
                ));
                assert(input@.subrange(start as int, i + 1) =~= Seq::<char>::empty());
            } else {
                assert(input@.subrange(start as int, i + 1) =~= input@.subrange(
                    start as int,
                    i as int,
                ) + seq![c]);
                assert(pieces(input@.take(i + 1), 0) =~= old_parts.push(cur + seq![c]));
            }
        }
        i = i + 1;
    }
    let last = input.substring_char(start, n);
    parts.push(last);
    assert(input@.take(n as int) =~= input@);
    parts
}


/// `key=value`: the text before the first `=` and the text after it, both
/// trimmed; the key may not be empty.
pub open spec fn spec_split_kv(pair: Seq<char>) -> Result<(Seq<char>, Seq<char>), ParseErrorView> {
    match index_of(pair, '=') {
        None => Err(ParseErrorView::MalformedPair(pair)),
        Some(i) => {
            let key = trimmed(pair.take(i));
            let value = trimmed(pair.skip(i + 1));
            if key.len() == 0 {
                Err(ParseErrorView::MalformedPair(pair))
            } else {
                Ok((key, value))
            }
        },
    }
}

pub fn split_kv(pair: &str) -> (r: Result<(&str, &str), ParseError>)
    ensures
        outcome(r) == spec_split_kv(pair@),
{
    let idx = match find_char(pair, '=') {
        Some(i) => i,
        None => return Err(ParseError::MalformedPair(pair.to_string())),
    };
    proof {
        lemma_index_of_bounds(pair@, '=');
    }
    let n = pair.unicode_len();
    let before = pair.substring_char(0, idx);
    let after = pair.substring_char(idx + 1, n);
    assert(before@ =~= pair@.take(idx as int));
    assert(after@ =~= pair@.skip(idx + 1));
    let key = trim(before);
    let value = trim(after);
    if key.unicode_len() == 0 {
        return Err(ParseError::MalformedPair(pair.to_string()));
    }
    Ok((key, value))
}

/// The digits of an unsigned integer as `str::parse` reads them: an
/// optional `+`, then at least one ASCII digit.
pub open spec fn unsigned_digits(t: Seq<char>) -> Seq<char> {
    if t.len() > 0 && t[0] == '+' {
        t.drop_first()
    } else {
        t
    }
}

pub open spec fn is_unsigned_text(t: Seq<char>) -> bool {
    unsigned_digits(t).len() > 0 && all_digits(unsigned_digits(t))
}

pub open spec fn spec_parse_u32(field: Seq<char>, value: Seq<char>) -> Result<u32, ParseErrorView> {
    let t = trimmed(value);
    if is_unsigned_text(t) && decimal_value(unsigned_digits(t)) <= u32::MAX {
        Ok(decimal_value(unsigned_digits(t)) as u32)
    } else {
        Err(ParseErrorView::InvalidNumber { field, value })
    }
}

fn invalid_number(field: &str, value: &str) -> (e: ParseError)
    ensures
        e@ == (ParseErrorView::InvalidNumber { field: field@, value: value@ }),
{
    ParseError::InvalidNumber { field: field.to_string(), value: value.to_string() }
}

/// Checks that every character of `s[from..to]` is an ASCII digit.
fn digits_only(s: &str, from: usize, to: usize) -> (r: bool)
    requires
        from <= to <= s@.len(),
    ensures
        r == all_digits(s@.subrange(from as int, to as int)),
{
    let mut i = from;
    while i < to
        invariant
            from <= i <= to <= s@.len(),
            forall|k: int| from <= k < i ==> crate::text::is_digit(#[trigger] s@[k]),
        decreases to - i,
    {
        if !ascii_digit(s.get_char(i)) {
            assert(!crate::text::is_digit(s@.subrange(from as int, to as int)[i - from]));
            return false;
        }
        i = i + 1;
    }
    assert forall|k: int| 0 <= k < to - from implies crate::text::is_digit(
        #[trigger] s@.subrange(from as int, to as int)[k],
    ) by {
        assert(s@.subrange(from as int, to as int)[k] == s@[from + k]);
    }
    true
}

/// Reads a `u32` the way `str::parse::<u32>` does, after trimming.
pub fn parse_u32(field: &str, value: &str) -> (r: Result<u32, ParseError>)
    ensures
        outcome(r) == spec_parse_u32(field@, value@),
{
    let t = trim(value);
    let n = t.unicode_len();
    let from: usize = if n > 0 && t.get_char(0) == '+' {
        1
    } else {
        0
    };
    assert(t@.subrange(from as int, n as int) =~= unsigned_digits(t@));
    if from == n || !digits_only(t, from, n) {
        return Err(invalid_number(field, value));
    }
    match read_decimal(t, from, n, 0xffff_ffff) {
        Some(v) => Ok(v as u32),
        None => Err(invalid_number(field, value)),
    }
}

pub open spec fn capped(n: nat) -> nat {
    if n > u64::MAX {
        u64::MAX as nat
    } else {
        n
    }
}

/// A whole-number duration like `200ms`, `30s`, `2m`, or `1h`, in
/// milliseconds; minutes and hours are counted in seconds that stop at
/// the largest `u64`.
pub open spec fn spec_parse_duration(field: Seq<char>, value: Seq<char>) -> Result<
    nat,
    ParseErrorView,
> {
    let v = trimmed(value);
    let k = digit_run(v);
    let err = Err(ParseErrorView::InvalidDuration { field, value: v });
    if k == 0 || k == v.len() {
        err
    } else {
        let amount = decimal_value(v.take(k as int));
        let unit = v.skip(k as int);
        if amount > u64::MAX {
            err
        } else if unit == "ms"@ {
            Ok(amount)
        } else if unit == "s"@ {
            Ok(amount * 1000)
        } else if unit == "m"@ {
            Ok(capped(amount * 60) * 1000)
        } else if unit == "h"@ {
            Ok(capped(amount * 3600) * 1000)
        } else {
            err
        }
    }
}

fn saturating_times(a: u64, b: u64) -> (r: u64)
    ensures
        r == capped(a as nat * b as nat),
{
    match a.checked_mul(b) {
        Some(x) => x,
        None => u64::MAX,
    }
}

/// Parses a whole-number duration like `200ms`, `30s`, `2m`, or `1h`.
pub fn parse_duration(field: &str, value: &str) -> (r: Result<Duration, ParseError>)
    ensures
        outcome(r) == spec_parse_duration(field@, value@),
{
    let value = trim(value);
    let n = value.unicode_len();
    let mut k: usize = 0;
    while k < n && ascii_digit(value.get_char(k))
        invariant
            k <= n == value@.len(),
            forall|j: int| 0 <= j < k ==> crate::text::is_digit(#[trigger] value@[j]),
        decreases n - k,
    {
        k = k + 1;
    }
    proof {
        lemma_digit_run(value@, k as int);
        lemma_digit_run_digits(value@);
    }
    let bad = ParseError::InvalidDuration { field: field.to_string(), value: value.to_string() };
    if k == 0 || k == n {
        return Err(bad);
    }
    assert(value@.subrange(0, k as int) =~= value@.take(k as int));
    let amount = match read_decimal(value, 0, k, 0xffff_ffff_ffff_ffff) {
        Some(a) => a,
        None => return Err(bad),
    };
    let unit = value.substring_char(k, n);
    assert(unit@ =~= value@.skip(k as int));
    proof {
        reveal_strlit("ms");
        reveal_strlit("s");
        reveal_strlit("m");
        reveal_strlit("h");
    }
    if same_text(unit, "ms") {
        Ok(Duration::from_millis(amount))
    } else if same_text(unit, "s") {
        Ok(Duration::from_secs(amount))
    } else if same_text(unit, "m") {
        Ok(Duration::from_secs(saturating_times(amount, 60)))
    } else if same_text(unit, "h") {
        Ok(Duration::from_secs(saturating_times(amount, 3600)))
    } else {
        Err(bad)
    }
}

pub open spec fn spec_parse_jitter(value: Seq<char>) -> Result<Jitter, ParseErrorView> {
    let t = trimmed(value);
    if t == "none"@ {
        Ok(Jitter::Off)
    } else if t == "full"@ {
        Ok(Jitter::Full)
    } else if t == "equal"@ {
        Ok(Jitter::Equal)
    } else {
        Err(ParseErrorView::InvalidJitter(t))
    }
}

pub fn parse_jitter(value: &str) -> (r: Result<Jitter, ParseError>)
    ensures
        outcome(r) == spec_parse_jitter(value@),
{
    let t = trim(value);
    if same_text(t, "none") {
        Ok(Jitter::Off)
    } else if same_text(t, "full") {
        Ok(Jitter::Full)
    } else if same_text(t, "equal") {
        Ok(Jitter::Equal)
    } else {
        Err(ParseError::InvalidJitter(t.to_string()))
    }
}


/// The `(key, value)` texts of a list of argument pairs.
pub open spec fn pair_views(args: Seq<(String, String)>) -> Seq<(Seq<char>, Seq<char>)> {
    args.map_values(|p: (String, String)| (p.0@, p.1@))
}

/// Position of the first argument named `name`.
pub open spec fn field_position(args: Seq<(Seq<char>, Seq<char>)>, name: Seq<char>) -> Option<int>
    decreases args.len(),
{
    if args.len() == 0 {
        None
    } else if args[0].0 == name {
        Some(0)
    } else {
        match field_position(args.drop_first(), name) {
            Some(i) => Some(i + 1),
            None => None,
        }
    }
}

pub proof fn lemma_field_position(args: Seq<(Seq<char>, Seq<char>)>, name: Seq<char>, i: int)
    requires
        0 <= i <= args.len(),
        forall|k: int| 0 <= k < i ==> args[k].0 != name,
    ensures
        i < args.len() && args[i].0 == name ==> field_position(args, name) == Some(i),
        i == args.len() ==> field_position(args, name) is None,
    decreases i,
{
    if i > 0 {
        lemma_field_position(args.drop_first(), name, i - 1);
    }
}

/// The value of the first argument named `name`, and the arguments
/// without it.
pub open spec fn spec_take_field(args: Seq<(Seq<char>, Seq<char>)>, name: Seq<char>) -> Result<
    (Seq<char>, Seq<(Seq<char>, Seq<char>)>),
    ParseErrorView,
> {
    match field_position(args, name) {
        Some(i) => Ok((args[i].1, args.remove(i))),
        None => Err(ParseErrorView::MissingField(name)),
    }
}

/// Removes the first argument named `name` and hands back its value.
pub fn take_field(args: &mut Vec<(String, String)>, name: &'static str) -> (r: Result<
    String,
    ParseError,
>)
    ensures
        match spec_take_field(pair_views(old(args)@), name@) {
            Ok((value, rest)) => r matches Ok(v) && v@ == value && pair_views(final(args)@)
                == rest,
            Err(e) => r matches Err(x) && x@ == e && final(args)@ == old(args)@,
        },
{
    let ghost before = pair_views(args@);
    let n = args.len();
    let mut i: usize = 0;
    while i < n
        invariant
            n == args@.len(),
            args@ == old(args)@,
            before == pair_views(args@),
            i <= n,
            forall|k: int| 0 <= k < i ==> before[k].0 != name@,
        decreases n - i,
    {
        if same_text(args[i].0.as_str(), name) {
            proof {
                lemma_field_position(before, name@, i as int);
            }
            let ghost pair = args@[i as int];
            let (_, value) = args.remove(i);
            assert(before[i as int].1 == pair.1@);
            assert(pair_views(args@) =~= before.remove(i as int));
            return Ok(value);
        }
        i = i + 1;
    }
    proof {
        lemma_field_position(before, name@, i as int);
    }
    Err(ParseError::MissingField(name))
}

pub open spec fn spec_ensure_no_extra_fields(args: Seq<(Seq<char>, Seq<char>)>) -> Result<
    (),
    ParseErrorView,
> {
    if args.len() > 0 {
        Err(ParseErrorView::UnknownField(args[0].0))
    } else {
        Ok(())
    }
}

/// Fails on the first argument that is left over.
pub fn ensure_no_extra_fields(args: &[(String, String)]) -> (r: Result<(), ParseError>)
    ensures
        outcome(r) == spec_ensure_no_extra_fields(pair_views(args@)),
{
    if args.len() > 0 {
        return Err(ParseError::UnknownField(args[0].0.as_str().to_string()));
    }
    Ok(())
}

/// What the number reader made of a factor's text, seen through views.
pub open spec fn reading_view(reading: Option<Factor>) -> Option<FactorView> {
    match reading {
        Some(f) => Some(f@),
        None => None,
    }
}

/// The factor's text is a number exactly when the reader made one of it,
/// and then it must be finite.
pub open spec fn spec_check_factor(
    field: Seq<char>,
    value: Seq<char>,
    reading: Option<FactorView>,
) -> Result<FactorView, ParseErrorView> {
    match reading {
        Some(f) => if factor_is_finite(f.bits) {
            Ok(f)
        } else {
            Err(ParseErrorView::InvalidNumber { field, value })
        },
        None => Err(ParseErrorView::InvalidNumber { field, value }),
    }
}

/// Accepts the number read from `value` (`None`: the text is not a number)
/// if it is finite.
pub fn check_factor(field: &str, value: &str, reading: &Option<Factor>) -> (r: Result<
    Factor,
    ParseError,
>)
    ensures
        outcome(r) == spec_check_factor(field@, value@, reading_view(*reading)),
{
    match reading {
        Some(f) => {
            if f.bits % 0x8000_0000_0000_0000u64 < 0x7ff0_0000_0000_0000u64 {
                Ok(Factor { bits: f.bits, shown: f.shown.as_str().to_string() })
            } else {
                Err(invalid_number(field, value))
            }
        },
        None => Err(invalid_number(field, value)),
    }
}


/// The `key=value` arguments of a backoff, one per non-blank piece, in
/// order; the first malformed piece is the error.
pub open spec fn collect_args(segs: Seq<Seq<char>>) -> Result<
    Seq<(Seq<char>, Seq<char>)>,
    ParseErrorView,
>
    decreases segs.len(),
{
    if segs.len() == 0 {
        Ok(Seq::empty())
    } else {
        match collect_args(segs.drop_last()) {
            Err(e) => Err(e),
            Ok(args) => {
                let t = trimmed(segs.last());
                if t.len() == 0 {
                    Ok(args)
                } else {
                    match spec_split_kv(t) {
                        Err(e) => Err(e),
                        Ok(kv) => Ok(args.push(kv)),
                    }
                }
            },
        }
    }
}

/// Once a prefix of the pieces fails, the whole list fails the same way.
pub proof fn lemma_collect_args_error(segs: Seq<Seq<char>>, k: int)
    requires
        0 <= k <= segs.len(),
        collect_args(segs.take(k)) is Err,
    ensures
        collect_args(segs) == collect_args(segs.take(k)),
    decreases segs.len() - k,
{
    if k == segs.len() {
        assert(segs.take(k) =~= segs);
    } else {
        assert(segs.take(k + 1).drop_last() =~= segs.take(k));
        lemma_collect_args_error(segs, k + 1);
    }
}

pub open spec fn args_outcome(r: Result<Vec<(String, String)>, ParseError>) -> Result<
    Seq<(Seq<char>, Seq<char>)>,
    ParseErrorView,
> {
    match r {
        Ok(v) => Ok(pair_views(v@)),
        Err(e) => Err(e@),
    }
}

fn read_args(args_str: &str) -> (r: Result<Vec<(String, String)>, ParseError>)
    ensures
        args_outcome(r) == collect_args(spec_split_top_level(args_str@)),
{
    let segs = split_top_level(args_str);
    let ghost segv = text_views(segs@);
    let mut args: Vec<(String, String)> = Vec::new();
    let n = segs.len();
    let mut j: usize = 0;
    assert(segv.take(0) =~= Seq::<Seq<char>>::empty());
    assert(pair_views(args@) =~= Seq::<(Seq<char>, Seq<char>)>::empty());
    while j < n
        invariant
            n == segs@.len() == segv.len(),
            segv == text_views(segs@),
            segv == spec_split_top_level(args_str@),
            j <= n,
            collect_args(segv.take(j as int)) == Ok::<_, ParseErrorView>(pair_views(args@)),
        decreases n - j,
    {
        assert(segv.take(j + 1).drop_last() =~= segv.take(j as int));
        assert(segv.take(j + 1).last() == segs@[j as int]@);
        let seg = trim(segs[j]);
        if seg.unicode_len() > 0 {
            match split_kv(seg) {
                Err(e) => {
                    proof {
                        assert(trimmed(segv.take(j + 1).last()) == seg@);
                        assert(collect_args(segv.take(j + 1)) == Err::<
                            Seq<(Seq<char>, Seq<char>)>,
                            ParseErrorView,
                        >(e@));
                        lemma_collect_args_error(segv, j + 1);
                        assert(segv == spec_split_top_level(args_str@));
                        assert(collect_args(segv) == Err::<
                            Seq<(Seq<char>, Seq<char>)>,
                            ParseErrorView,
                        >(e@));
                    }
                    return Err(e);
                },
                Ok((k, v)) => {
                    let ghost before = args@;
                    args.push((k.to_string(), v.to_string()));
                    assert(pair_views(args@) =~= pair_views(before).push((k@, v@)));
                },
            }
        }
        j = j + 1;
    }
    assert(segv.take(n as int) =~= segv);
    Ok(args)
}

/// A duration argument: taken out of the arguments, then read.
pub open spec fn spec_take_duration(args: Seq<(Seq<char>, Seq<char>)>, name: Seq<char>) -> Result<
    (nat, Seq<(Seq<char>, Seq<char>)>),
    ParseErrorView,
> {
    match spec_take_field(args, name) {
        Err(e) => Err(e),
        Ok((text, rest)) => match spec_parse_duration(name, text) {
            Err(e) => Err(e),
            Ok(d) => Ok((d, rest)),
        },
    }
}

fn take_duration(args: &mut Vec<(String, String)>, name: &'static str) -> (r: Result<
    Duration,
    ParseError,
>)
    ensures
        match spec_take_duration(pair_views(old(args)@), name@) {
            Ok((d, rest)) => r matches Ok(x) && x@ == d && pair_views(final(args)@) == rest,
            Err(e) => r matches Err(x) && x@ == e,
        },
{
    match take_field(args, name) {
        Err(e) => Err(e),
        Ok(text) => parse_duration(name, text.as_str()),
    }
}

pub open spec fn spec_fixed(args: Seq<(Seq<char>, Seq<char>)>) -> Result<
    BackoffView,
    ParseErrorView,
> {
    match spec_take_duration(args, "delay"@) {
        Err(e) => Err(e),
        Ok((delay, rest)) => match spec_ensure_no_extra_fields(rest) {
            Err(e) => Err(e),
            Ok(_) => Ok(BackoffView::Fixed { delay }),
        },
    }
}

pub open spec fn spec_linear(args: Seq<(Seq<char>, Seq<char>)>) -> Result<
    BackoffView,
    ParseErrorView,
> {
    match spec_take_duration(args, "base"@) {
        Err(e) => Err(e),
        Ok((base, args)) => match spec_take_duration(args, "increment"@) {
            Err(e) => Err(e),
            Ok((increment, args)) => match spec_take_duration(args, "max"@) {
                Err(e) => Err(e),
                Ok((max, rest)) => match spec_ensure_no_extra_fields(rest) {
                    Err(e) => Err(e),
                    Ok(_) => Ok(BackoffView::Linear { base, increment, max }),
                },
            },
        },
    }
}

pub open spec fn spec_exponential(
    args: Seq<(Seq<char>, Seq<char>)>,
    reading: Option<FactorView>,
) -> Result<BackoffView, ParseErrorView> {
    match spec_take_duration(args, "base"@) {
        Err(e) => Err(e),
        Ok((base, args)) => match spec_take_field(args, "factor"@) {
            Err(e) => Err(e),
            Ok((text, args)) => match spec_check_factor("factor"@, text, reading) {
                Err(e) => Err(e),
                Ok(factor) => match spec_take_duration(args, "max"@) {
                    Err(e) => Err(e),
                    Ok((max, rest)) => match spec_ensure_no_extra_fields(rest) {
                        Err(e) => Err(e),
                        Ok(_) => Ok(BackoffView::Exponential { base, factor, max }),
                    },
                },
            },
        },
    }
}

/// `kind(field=value, ...)`: the kind before the first `(`, the arguments
/// between it and the closing `)` that ends the text.
pub open spec fn spec_parse_backoff(value: Seq<char>, reading: Option<FactorView>) -> Result<
    BackoffView,
    ParseErrorView,
> {
    let v = trimmed(value);
    match index_of(v, '(') {
        None => Err(ParseErrorView::MalformedBackoff(v)),
        Some(open) => if !(v.len() > 0 && v.last() == ')') {
            Err(ParseErrorView::MalformedBackoff(v))
        } else {
            let kind = trimmed(v.take(open));
            let inner = v.subrange(open + 1, v.len() - 1);
            match collect_args(spec_split_top_level(inner)) {
                Err(e) => Err(e),
                Ok(args) => if kind == "fixed"@ {
                    spec_fixed(args)
                } else if kind == "linear"@ {
                    spec_linear(args)
                } else if kind == "exponential"@ {
                    spec_exponential(args, reading)
                } else {
                    Err(ParseErrorView::UnknownBackoffKind(kind))
                },
            }
        },
    }
}

/// Reads a backoff such as `exponential(base=200ms, factor=2.0, max=30s)`;
/// `reading` is what the number reader made of the factor's text.
pub fn parse_backoff(value: &str, reading: &Option<Factor>) -> (r: Result<Backoff, ParseError>)
    ensures
        outcome(r) == spec_parse_backoff(value@, reading_view(*reading)),
{
    let value = trim(value);
    let open = match find_char(value, '(') {
        Some(i) => i,
        None => return Err(ParseError::MalformedBackoff(value.to_string())),
    };
    proof {
        lemma_index_of_bounds(value@, '(');
    }
    let n = value.unicode_len();
    if !(n > 0 && value.get_char(n - 1) == ')') {
        return Err(ParseError::MalformedBackoff(value.to_string()));
    }
    let kind = trim(value.substring_char(0, open));
    assert(value@.subrange(0, open as int) =~= value@.take(open as int));
    let args_str = value.substring_char(open + 1, n - 1);
    let mut args = match read_args(args_str) {
        Ok(a) => a,
        Err(e) => return Err(e),
    };
    proof {
        reveal_strlit("fixed");
        reveal_strlit("linear");
        reveal_strlit("exponential");
    }
    if same_text(kind, "fixed") {
        let delay = match take_duration(&mut args, "delay") {
            Ok(d) => d,
            Err(e) => return Err(e),
        };
        match ensure_no_extra_fields(args.as_slice()) {
            Err(e) => return Err(e),
            Ok(()) => {},
        }
        Ok(Backoff::Fixed { delay })
    } else if same_text(kind, "linear") {
        let base = match take_duration(&mut args, "base") {
            Ok(d) => d,
            Err(e) => return Err(e),
        };
        let increment = match take_duration(&mut args, "increment") {
            Ok(d) => d,
            Err(e) => return Err(e),
        };
        let max = match take_duration(&mut args, "max") {
            Ok(d) => d,
            Err(e) => return Err(e),
        };
        match ensure_no_extra_fields(args.as_slice()) {
            Err(e) => return Err(e),
            Ok(()) => {},
        }
        Ok(Backoff::Linear { base, increment, max })
    } else if same_text(kind, "exponential") {
        let base = match take_duration(&mut args, "base") {
            Ok(d) => d,
            Err(e) => return Err(e),
        };
        let text = match take_field(&mut args, "factor") {
            Ok(t) => t,
            Err(e) => return Err(e),
        };
        let factor = match check_factor("factor", text.as_str(), reading) {
            Ok(f) => f,
            Err(e) => return Err(e),
        };
        let max = match take_duration(&mut args, "max") {
            Ok(d) => d,
            Err(e) => return Err(e),
        };
        match ensure_no_extra_fields(args.as_slice()) {
            Err(e) => return Err(e),
            Ok(()) => {},
        }
        Ok(Backoff::Exponential { base, factor, max })
    } else {
        Err(ParseError::UnknownBackoffKind(kind.to_string()))
    }
}


/// The fields read so far.
pub struct FieldsView {
    pub max_attempts: Option<u32>,
    pub backoff: Option<BackoffView>,
    pub jitter: Option<Jitter>,
}

pub open spec fn no_fields() -> FieldsView {
    FieldsView { max_attempts: None, backoff: None, jitter: None }
}

/// One top-level piece: blank pieces are skipped; otherwise it is a
/// `key=value` pair naming a field that has not been set yet.
pub open spec fn scan_segment(f: FieldsView, seg: Seq<char>, reading: Option<FactorView>) -> Result<
    FieldsView,
    ParseErrorView,
> {
    let t = trimmed(seg);
    if t.len() == 0 {
        Ok(f)
    } else {
        match spec_split_kv(t) {
            Err(e) => Err(e),
            Ok((key, value)) => if key == "max_attempts"@ {
                if f.max_attempts is Some {
                    Err(ParseErrorView::DuplicateField(key))
                } else {
                    match spec_parse_u32("max_attempts"@, value) {
                        Err(e) => Err(e),
                        Ok(n) => Ok(
                            FieldsView { max_attempts: Some(n), backoff: f.backoff, jitter: f.jitter },
                        ),
                    }
                }
            } else if key == "backoff"@ {
                if f.backoff is Some {
                    Err(ParseErrorView::DuplicateField(key))
                } else {
                    match spec_parse_backoff(value, reading) {
                        Err(e) => Err(e),
                        Ok(b) => Ok(
                            FieldsView {
                                max_attempts: f.max_attempts,
                                backoff: Some(b),
                                jitter: f.jitter,
                            },
                        ),
                    }
                }
            } else if key == "jitter"@ {
                if f.jitter is Some {
                    Err(ParseErrorView::DuplicateField(key))
                } else {
                    match spec_parse_jitter(value) {
                        Err(e) => Err(e),
                        Ok(j) => Ok(
                            FieldsView {
                                max_attempts: f.max_attempts,
                                backoff: f.backoff,
                                jitter: Some(j),
                            },
                        ),
                    }
                }
            } else {
                Err(ParseErrorView::UnknownField(key))
            },
        }
    }
}

/// The pieces read in order; the first failing piece is the error.
pub open spec fn scan_segments(segs: Seq<Seq<char>>, reading: Option<FactorView>) -> Result<
    FieldsView,
    ParseErrorView,
>
    decreases segs.len(),
{
    if segs.len() == 0 {
        Ok(no_fields())
    } else {
        match scan_segments(segs.drop_last(), reading) {
            Err(e) => Err(e),
            Ok(f) => scan_segment(f, segs.last(), reading),
        }
    }
}

pub proof fn lemma_scan_segments_error(segs: Seq<Seq<char>>, k: int, reading: Option<FactorView>)
    requires
        0 <= k <= segs.len(),
        scan_segments(segs.take(k), reading) is Err,
    ensures
        scan_segments(segs, reading) == scan_segments(segs.take(k), reading),
    decreases segs.len() - k,
{
    if k == segs.len() {
        assert(segs.take(k) =~= segs);
    } else {
        assert(segs.take(k + 1).drop_last() =~= segs.take(k));
        lemma_scan_segments_error(segs, k + 1, reading);
    }
}

/// The policy the fields make up: `max_attempts` and `backoff` are
/// required, `jitter` defaults to none, and the policy must validate.
pub open spec fn spec_assemble(f: FieldsView) -> Result<PolicyView, ParseErrorView> {
    match f.max_attempts {
        None => Err(ParseErrorView::MissingField("max_attempts"@)),
        Some(n) => match f.backoff {
            None => Err(ParseErrorView::MissingField("backoff"@)),
            Some(b) => {
                let p = PolicyView {
                    max_attempts: n,
                    backoff: b,
                    jitter: match f.jitter {
                        Some(j) => j,
                        None => Jitter::Off,
                    },
                };
                match spec_validate(p) {
                    Err(e) => Err(e),
                    Ok(_) => Ok(p),
                }
            },
        },
    }
}

/// The policy a text describes, given what the number reader makes of the
/// factor's text (`None`: not a number).
pub open spec fn spec_parse(input: Seq<char>, reading: Option<FactorView>) -> Result<
    PolicyView,
    ParseErrorView,
> {
    let t = trimmed(input);
    if t.len() == 0 {
        Err(ParseErrorView::Empty)
    } else {
        match scan_segments(spec_split_top_level(t), reading) {
            Err(e) => Err(e),
            Ok(f) => spec_assemble(f),
        }
    }
}

pub open spec fn backoff_slot(b: Option<Backoff>) -> Option<BackoffView> {
    match b {
        Some(b) => Some(b@),
        None => None,
    }
}

/// Parses and validates a retry policy from its text form.
///
/// `factor` is what the number reader made of the text that
/// [`factor_text`] finds for `input` (`None` when it is not a number); it
/// is consulted only if the text has such a factor.
pub fn parse(input: &str, factor: Option<Factor>) -> (r: Result<RetryPolicy, ParseError>)
    ensures
        outcome(r) == spec_parse(input@, reading_view(factor)),
{
    let ghost rv = reading_view(factor);
    let text = trim(input);
    if text.unicode_len() == 0 {
        return Err(ParseError::Empty);
    }
    let segs = split_top_level(text);
    let ghost segv = text_views(segs@);
    let mut max_attempts: Option<u32> = None;
    let mut backoff: Option<Backoff> = None;
    let mut jitter: Option<Jitter> = None;
    let n = segs.len();
    let mut j: usize = 0;
    assert(segv.take(0) =~= Seq::<Seq<char>>::empty());
    proof {
        reveal_strlit("max_attempts");
        reveal_strlit("backoff");
        reveal_strlit("jitter");
    }
    while j < n
        invariant
            n == segs@.len() == segv.len(),
            segv == text_views(segs@),
            segv == spec_split_top_level(text@),
            text@ == trimmed(input@),
            text@.len() > 0,
            rv == reading_view(factor),
            j <= n,
            scan_segments(segv.take(j as int), rv) == Ok::<_, ParseErrorView>(
                FieldsView { max_attempts, backoff: backoff_slot(backoff), jitter },
            ),
        decreases n - j,
    {
        let ghost f = FieldsView { max_attempts, backoff: backoff_slot(backoff), jitter };
        assert(segv.take(j + 1).drop_last() =~= segv.take(j as int));
        assert(segv.take(j + 1).last() == segs@[j as int]@);
        let seg = trim(segs[j]);
        if seg.unicode_len() > 0 {
            let step: Result<(), ParseError> = match split_kv(seg) {
                Err(e) => Err(e),
                Ok((key, value)) => {
                    if same_text(key, "max_attempts") {
                        if max_attempts.is_some() {
                            Err(ParseError::DuplicateField(key.to_string()))
                        } else {
                            match parse_u32("max_attempts", value) {
                                Err(e) => Err(e),
                                Ok(v) => {
                                    max_attempts = Some(v);
                                    Ok(())
                                },
                            }
                        }
                    } else if same_text(key, "backoff") {
                        if backoff.is_some() {
                            Err(ParseError::DuplicateField(key.to_string()))
                        } else {
                            match parse_backoff(value, &factor) {
                                Err(e) => Err(e),
                                Ok(b) => {
                                    backoff = Some(b);
                                    Ok(())
                                },
                            }
                        }
                    } else if same_text(key, "jitter") {
                        if jitter.is_some() {
                            Err(ParseError::DuplicateField(key.to_string()))
                        } else {
                            match parse_jitter(value) {
                                Err(e) => Err(e),
                                Ok(v) => {
                                    jitter = Some(v);
                                    Ok(())
                                },
                            }
                        }
                    } else {
                        Err(ParseError::UnknownField(key.to_string()))
                    }
                },
            };
            match step {
                Err(e) => {
                    proof {
                        assert(scan_segments(segv.take(j + 1), rv) == Err::<
                            FieldsView,
                            ParseErrorView,
                        >(e@));
                        lemma_scan_segments_error(segv, j + 1, rv);
                        assert(scan_segments(segv, rv) == Err::<FieldsView, ParseErrorView>(e@));
                    }
                    return Err(e);
                },
                Ok(()) => {},
            }
        }
        j = j + 1;
    }
    assert(segv.take(n as int) =~= segv);
    let attempts = match max_attempts {
        Some(v) => v,
        None => return Err(ParseError::MissingField("max_attempts")),
    };
    let chosen = match backoff {
        Some(b) => b,
        None => return Err(ParseError::MissingField("backoff")),
    };
    let policy = RetryPolicy {
        max_attempts: attempts,
        backoff: chosen,
        jitter: match jitter {
            Some(v) => v,
            None => Jitter::Off,
        },
    };
    match validate(&policy) {
        Err(e) => Err(e),
        Ok(()) => Ok(policy),
    }
}

/// The text that `parse` hands to the number reader for `input`, if it
/// gets that far: parse reports it as not a number when the reading is
/// `None`.
pub open spec fn spec_factor_text(input: Seq<char>) -> Option<Seq<char>> {
    match spec_parse(input, None) {
        Err(ParseErrorView::InvalidNumber { field, value }) => if field == "factor"@ {
            Some(value)
        } else {
            None
        },
        _ => None,
    }
}

/// Finds the factor text of an exponential backoff that `parse` will
/// consult, so that the caller can read the number before parsing.
pub fn factor_text(input: &str) -> (r: Option<String>)
    ensures
        match r {
            Some(t) => spec_factor_text(input@) == Some(t@),
            None => spec_factor_text(input@) is None,
        },
{
    match parse(input, None) {
        Err(ParseError::InvalidNumber { field, value }) => {
            if same_text(field.as_str(), "factor") {
                Some(value)
            } else {
                None
            }
        },
        _ => None,
    }
}

} // verus!
