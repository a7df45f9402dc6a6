//! What holds of the parser and the printer together.
use vstd::prelude::*;

use crate::parser::{
    spec_fixed, spec_linear, spec_take_duration, spec_take_field, spec_exponential, no_fields, scan_segment, scan_segments, spec_assemble, spec_factor_text, spec_parse,
    spec_parse_jitter, FieldsView, collect_args, depth_after, depth_step, field_position, lemma_pieces_append, pieces,
    spec_check_factor, spec_parse_backoff, spec_parse_duration, spec_parse_u32, spec_split_kv,
    spec_split_top_level, unsigned_digits, ParseErrorView,
};
use crate::policy::{duration_representable, spec_validate, BackoffView, FactorView, Jitter, PolicyView};
use crate::printer::{backoff_text, duration_text, jitter_name, policy_text};
use crate::text::{
    all_digits, decimal_text, decimal_value, digit_run, index_of, is_digit, is_white_space,
    lemma_decimal_text, lemma_digit_run, lemma_index_of, lemma_trimmed_plain, trim_start,
    trimmed, all_white, lemma_trim_start_split, lemma_trim_end_split, lemma_trimmed_white_around,
    lemma_trimmed_nonempty, trim_end,
};

verus! {

/// A number followed by a unit: trimming leaves it alone, the leading digit
/// run is the number, and the rest is the unit.
proof fn lemma_number_then_unit(k: nat, unit: Seq<char>)
    requires
        unit.len() > 0,
        !is_digit(unit[0]),
        !is_white_space(unit.last()),
    ensures
        ({
            let v = decimal_text(k) + unit;
            let n = decimal_text(k).len();
            &&& trimmed(v) == v
            &&& digit_run(v) == n
            &&& 0 < n < v.len()
            &&& v.take(n as int) == decimal_text(k)
            &&& v.skip(n as int) == unit
            &&& decimal_value(decimal_text(k)) == k
        }),
{
    let d = decimal_text(k);
    let v = d + unit;
    lemma_decimal_text(k);
    assert(is_digit(d[0]));
    assert(v[0] == d[0]);
    assert(v.last() == unit.last());
    lemma_trimmed_plain(v);
    assert forall|j: int| 0 <= j < d.len() implies is_digit(v[j]) by {
        assert(v[j] == d[j]);
    }
    assert(v[d.len() as int] == unit[0]);
    lemma_digit_run(v, d.len() as int);
    assert(v.take(d.len() as int) =~= d);
    assert(v.skip(d.len() as int) =~= unit);
}

/// Printing a duration and reading it back gives the same duration.
pub proof fn law_duration_round_trip(field: Seq<char>, ms: nat)
    requires
        duration_representable(ms),
    ensures
        spec_parse_duration(field, duration_text(ms)) == Ok::<nat, ParseErrorView>(ms),
{
    reveal_strlit("ms");
    reveal_strlit("s");
    reveal_strlit("m");
    reveal_strlit("h");
    if ms % 3_600_000 == 0 {
        let k = ms / 3_600_000;
        lemma_number_then_unit(k, "h"@);
        assert(k * 3600 == ms / 1000);
        assert(k * 3600 * 1000 == ms);
    } else if ms % 60_000 == 0 {
        let k = ms / 60_000;
        lemma_number_then_unit(k, "m"@);
        assert(k * 60 == ms / 1000);
        assert(k * 60 * 1000 == ms);
    } else if ms % 1_000 == 0 {
        let k = ms / 1_000;
        lemma_number_then_unit(k, "s"@);
        assert(k * 1000 == ms);
    } else {
        lemma_number_then_unit(ms, "ms"@);
    }
}

/// Printing a count of attempts and reading it back gives the same count.
pub proof fn law_u32_round_trip(field: Seq<char>, n: u32)
    ensures
        spec_parse_u32(field, decimal_text(n as nat)) == Ok::<u32, ParseErrorView>(n),
{
    let d = decimal_text(n as nat);
    lemma_decimal_text(n as nat);
    assert(is_digit(d[0]));
    lemma_trimmed_plain(d);
    assert(unsigned_digits(d) == d);
}


/// A text with no parentheses (and, at depth zero, no commas) is a single
/// piece and leaves the depth as it was.
proof fn lemma_flat(s: Seq<char>, d: nat)
    requires
        forall|i: int| 0 <= i < s.len() ==> #[trigger] s[i] != '(' && s[i] != ')' && (d > 0 || s[i] != ','),
    ensures
        pieces(s, d) == seq![s],
        depth_after(d, s) == d,
    decreases s.len(),
{
    if s.len() > 0 {
        assert forall|i: int| 0 <= i < s.drop_first().len() implies #[trigger] s.drop_first()[i]
            != '(' && s.drop_first()[i] != ')' && (d > 0 || s.drop_first()[i] != ',') by {
            assert(s.drop_first()[i] == s[i + 1]);
        }
        assert(s[0] != '(' && s[0] != ')');
        lemma_flat(s.drop_first(), d);
        assert(depth_step(d, s[0]) == d);
        let rest = pieces(s.drop_first(), d);
        assert(rest == seq![s.drop_first()]);
        assert(seq![s[0]] + s.drop_first() =~= s);
        assert(pieces(s, d) == rest.update(0, seq![s[0]] + rest[0]));
        assert(pieces(s, d) =~= seq![s]);
    } else {
        assert(s =~= Seq::<char>::empty());
    }
}

/// The text is one top-level piece and its parentheses balance.
pub open spec fn single_piece(s: Seq<char>) -> bool {
    pieces(s, 0) == seq![s] && depth_after(0, s) == 0
}

/// A character that may appear in a key or a bare value of the format.
pub open spec fn token_char(c: char) -> bool {
    c != ',' && c != '(' && c != ')' && c != '=' && !is_white_space(c)
}

/// A non-empty run of token characters, such as a number with its unit.
pub open spec fn plain_token(s: Seq<char>) -> bool {
    s.len() > 0 && forall|i: int| 0 <= i < s.len() ==> #[trigger] token_char(s[i])
}

/// A non-empty text with no white space at its ends that is one top-level
/// piece: what a value must be for `key=value` to read back as written.
pub open spec fn bare_piece(v: Seq<char>) -> bool {
    v.len() > 0 && !is_white_space(v[0]) && !is_white_space(v.last()) && single_piece(v)
}

proof fn lemma_token_value(v: Seq<char>)
    requires
        plain_token(v),
    ensures
        bare_piece(v),
{
    assert(token_char(v[0]));
    assert(token_char(v[v.len() - 1]));
    assert forall|i: int| 0 <= i < v.len() implies #[trigger] v[i] != '(' && v[i] != ')' && v[i]
        != ',' by {
        assert(token_char(v[i]));
    }
    lemma_flat(v, 0);
}

pub open spec fn pair_text(p: (Seq<char>, Seq<char>)) -> Seq<char> {
    p.0 + seq!['='] + p.1
}

/// `key=value` pairs joined by `, `, as the printer writes them.
pub open spec fn args_text(args: Seq<(Seq<char>, Seq<char>)>) -> Seq<char>
    decreases args.len(),
{
    if args.len() == 0 {
        Seq::empty()
    } else if args.len() == 1 {
        pair_text(args[0])
    } else {
        args_text(args.drop_last()) + seq![',', ' '] + pair_text(args.last())
    }
}

pub open spec fn args_ok(args: Seq<(Seq<char>, Seq<char>)>) -> bool {
    forall|i: int| #![trigger args[i]] 0 <= i < args.len() ==> plain_token(args[i].0) && bare_piece(args[i].1)
}

/// The pieces `args_text` is cut into: the first pair, then each later pair
/// behind the space that follows its comma.
pub open spec fn args_pieces(args: Seq<(Seq<char>, Seq<char>)>) -> Seq<Seq<char>> {
    Seq::new(
        args.len(),
        |i: int|
            if i == 0 {
                pair_text(args[0])
            } else {
                seq![' '] + pair_text(args[i])
            },
    )
}

proof fn lemma_append_single(a: Seq<char>, b: Seq<char>)
    requires
        single_piece(a),
        single_piece(b),
    ensures
        single_piece(a + b),
{
    lemma_pieces_append(a, b, 0);
    crate::parser::lemma_depth_append(0, a, b);
    assert(pieces(a + b, 0) =~= seq![a + b]);
}

proof fn lemma_pair_single(p: (Seq<char>, Seq<char>))
    requires
        plain_token(p.0),
        bare_piece(p.1),
    ensures
        single_piece(pair_text(p)),
        single_piece(seq![' '] + pair_text(p)),
{
    let k = p.0;
    let v = p.1;
    let kq = k + seq!['='];
    assert forall|i: int| 0 <= i < kq.len() implies #[trigger] kq[i] != '(' && kq[i] != ')' && kq[i]
        != ',' by {
        if i < k.len() {
            assert(kq[i] == k[i]);
            assert(token_char(k[i]));
        }
    }
    lemma_flat(kq, 0);
    lemma_append_single(kq, v);
    lemma_flat(seq![' '], 0);
    assert(pair_text(p) == kq + v);
    lemma_append_single(seq![' '], pair_text(p));
}

/// Cutting off the last piece: `a,b` with `b` a single piece.
proof fn lemma_split_last(a: Seq<char>, b: Seq<char>)
    requires
        depth_after(0, a) == 0,
        single_piece(b),
    ensures
        pieces(a + seq![','] + b, 0) == pieces(a, 0).push(b),
        depth_after(0, a + seq![','] + b) == 0,
{
    let cb = seq![','] + b;
    assert(a + seq![','] + b =~= a + cb);
    lemma_pieces_append(a, cb, 0);
    crate::parser::lemma_depth_append(0, a, cb);
    assert(cb.drop_first() =~= b);
    assert(cb[0] == ',');
    assert(pieces(cb, 0) == seq![Seq::<char>::empty()] + pieces(b, 0));
    assert(depth_after(0, cb) == depth_after(depth_step(0, ','), b));
    crate::parser::lemma_pieces_nonempty(a, 0);
    assert(pieces(a, 0).last() + Seq::<char>::empty() =~= pieces(a, 0).last());
    assert(pieces(a + cb, 0) =~= pieces(a, 0).push(b));
}

proof fn lemma_args_pieces(args: Seq<(Seq<char>, Seq<char>)>)
    requires
        args.len() >= 1,
        args_ok(args),
    ensures
        pieces(args_text(args), 0) == args_pieces(args),
        depth_after(0, args_text(args)) == 0,
    decreases args.len(),
{
    let last = args.last();
    assert(plain_token(args[args.len() - 1].0) && bare_piece(args[args.len() - 1].1));
    lemma_pair_single(last);
    if args.len() == 1 {
        assert(args_pieces(args) =~= seq![pair_text(args[0])]);
    } else {
        let front = args.drop_last();
        assert forall|i: int| 0 <= i < front.len() implies plain_token(front[i].0)
            && bare_piece(front[i].1) by {
            assert(front[i] == args[i]);
        }
        lemma_args_pieces(front);
        let b = seq![' '] + pair_text(last);
        assert(args_text(args) =~= args_text(front) + seq![','] + b);
        lemma_split_last(args_text(front), b);
        assert(args_pieces(front).push(b) =~= args_pieces(args));
    }
}

/// Trimming a single leading space off a text with no white space at its
/// ends.
proof fn lemma_trim_space(s: Seq<char>)
    requires
        s.len() > 0,
        !is_white_space(s[0]),
        !is_white_space(s.last()),
    ensures
        trimmed(seq![' '] + s) == s,
        trimmed(s) == s,
{
    let t = seq![' '] + s;
    assert(t.drop_first() =~= s);
    assert(trim_start(t) == trim_start(s));
    lemma_trimmed_plain(s);
}

proof fn lemma_split_pair(p: (Seq<char>, Seq<char>))
    requires
        plain_token(p.0),
        bare_piece(p.1),
    ensures
        spec_split_kv(pair_text(p)) == Ok::<_, ParseErrorView>(p),
        trimmed(pair_text(p)) == pair_text(p),
        trimmed(seq![' '] + pair_text(p)) == pair_text(p),
{
    let k = p.0;
    let v = p.1;
    let s = pair_text(p);
    assert forall|i: int| 0 <= i < k.len() implies s[i] != '=' by {
        assert(s[i] == k[i]);
        assert(token_char(k[i]));
    }
    lemma_index_of(s, '=', k.len() as int);
    assert(s.take(k.len() as int) =~= k);
    assert(s.skip(k.len() + 1int) =~= v);
    assert(token_char(k[0]));
    assert(token_char(k[k.len() - 1]));
    lemma_trimmed_plain(k);
    lemma_trimmed_plain(v);
    assert(s[0] == k[0]);
    assert(s.last() == v.last());
    lemma_trim_space(s);
}

/// Pairs written by `args_text` are read back by `collect_args`.
proof fn lemma_collect_args_text(args: Seq<(Seq<char>, Seq<char>)>)
    requires
        args.len() >= 1,
        args_ok(args),
    ensures
        collect_args(args_pieces(args)) == Ok::<_, ParseErrorView>(args),
    decreases args.len(),
{
    let n = args.len();
    let last = args.last();
    assert(plain_token(args[n - 1].0) && bare_piece(args[n - 1].1));
    lemma_split_pair(last);
    let ps = args_pieces(args);
    assert(pair_text(last).len() > 0);
    if n == 1 {
        assert(ps.drop_last() =~= Seq::<Seq<char>>::empty());
        assert(ps.last() == pair_text(last));
        assert(collect_args(ps.drop_last()) == Ok::<_, ParseErrorView>(
            Seq::<(Seq<char>, Seq<char>)>::empty(),
        ));
        assert(trimmed(ps.last()) == pair_text(last));
        assert(Seq::<(Seq<char>, Seq<char>)>::empty().push(last) =~= args);
    } else {
        let front = args.drop_last();
        assert forall|i: int| 0 <= i < front.len() implies plain_token(front[i].0)
            && bare_piece(front[i].1) by {
            assert(front[i] == args[i]);
        }
        lemma_collect_args_text(front);
        assert(ps.drop_last() =~= args_pieces(front));
        assert(ps.last() == seq![' '] + pair_text(last));
        assert(trimmed(ps.last()) == pair_text(last));
        assert(front.push(last) =~= args);
    }
}


pub open spec fn args_plain(args: Seq<(Seq<char>, Seq<char>)>) -> bool {
    forall|i: int| #![trigger args[i]] 0 <= i < args.len() ==> plain_token(args[i].0) && plain_token(args[i].1)
}

proof fn lemma_args_plain(args: Seq<(Seq<char>, Seq<char>)>)
    requires
        args_plain(args),
    ensures
        args_ok(args),
        forall|i: int| 0 <= i < args_text(args).len() ==> #[trigger] args_text(args)[i] != '('
            && args_text(args)[i] != ')',
    decreases args.len(),
{
    assert forall|i: int| 0 <= i < args.len() implies plain_token(args[i].0)
        && bare_piece(args[i].1) by {
        assert(plain_token(args[i].1));
        lemma_token_value(args[i].1);
    }
    if args.len() > 0 {
        let last = args.last();
        assert(plain_token(args[args.len() - 1].0) && plain_token(args[args.len() - 1].1));
        let pt = pair_text(last);
        assert forall|i: int| 0 <= i < pt.len() implies pt[i] != '(' && pt[i] != ')' by {
            if i < last.0.len() {
                assert(pt[i] == last.0[i]);
                assert(token_char(last.0[i]));
            } else if i > last.0.len() {
                assert(pt[i] == last.1[i - last.0.len() - 1]);
                assert(token_char(last.1[i - last.0.len() - 1]));
            }
        }
        if args.len() > 1 {
            let front = args.drop_last();
            assert forall|i: int| 0 <= i < front.len() implies plain_token(front[i].0)
                && plain_token(front[i].1) by {
                assert(front[i] == args[i]);
            }
            lemma_args_plain(front);
            let t = args_text(args);
            let ft = args_text(front);
            assert(t == ft + seq![',', ' '] + pt);
            assert forall|i: int| 0 <= i < t.len() implies #[trigger] t[i] != '(' && t[i] != ')' by {
                if i < ft.len() {
                    assert(t[i] == ft[i]);
                } else if i >= ft.len() + 2 {
                    assert(t[i] == pt[i - ft.len() - 2]);
                }
            }
        }
    }
}

/// `kind(args)`, as the printer writes a backoff.
pub open spec fn call_text(kind: Seq<char>, args: Seq<(Seq<char>, Seq<char>)>) -> Seq<char> {
    kind + seq!['('] + args_text(args) + seq![')']
}

/// A call reads back as its kind and its arguments.
proof fn lemma_call_text(kind: Seq<char>, args: Seq<(Seq<char>, Seq<char>)>)
    requires
        plain_token(kind),
        args.len() >= 1,
        args_plain(args),
    ensures
        bare_piece(call_text(kind, args)),
        ({
            let v = call_text(kind, args);
            &&& trimmed(v) == v
            &&& index_of(v, '(') == Some(kind.len() as int)
            &&& v.len() > 0 && v.last() == ')'
            &&& trimmed(v.take(kind.len() as int)) == kind
            &&& collect_args(spec_split_top_level(v.subrange(kind.len() + 1int, v.len() - 1)))
                == Ok::<_, ParseErrorView>(args)
        }),
{
    let inner = args_text(args);
    let v = call_text(kind, args);
    lemma_args_plain(args);
    lemma_args_pieces(args);
    lemma_collect_args_text(args);
    // the parentheses
    assert forall|i: int| 0 <= i < kind.len() implies #[trigger] kind[i] != '(' && kind[i] != ')'
        && kind[i] != ',' by {
        assert(token_char(kind[i]));
    }
    lemma_flat(kind, 0);
    lemma_flat(inner, 1);
    let close = inner + seq![')'];
    lemma_pieces_append(inner, seq![')'], 1);
    crate::parser::lemma_depth_append(1, inner, seq![')']);
    crate::parser::lemma_pieces_single(')', 1);
    crate::parser::lemma_depth_single(1, ')');
    assert(pieces(close, 1) =~= seq![close]);
    let wrapped = seq!['('] + close;
    assert(wrapped.drop_first() =~= close);
    assert(wrapped[0] == '(');
    assert(pieces(wrapped, 0) =~= seq![wrapped]);
    assert(depth_after(0, wrapped) == depth_after(1, close));
    assert(v =~= kind + wrapped);
    lemma_append_single(kind, wrapped);
    // reading it back
    assert(token_char(kind[0]));
    assert(v[0] == kind[0]);
    lemma_trimmed_plain(v);
    assert forall|k: int| 0 <= k < kind.len() implies v[k] != '(' by {
        assert(v[k] == kind[k]);
    }
    lemma_index_of(v, '(', kind.len() as int);
    assert(v.take(kind.len() as int) =~= kind);
    assert(token_char(kind[kind.len() - 1]));
    lemma_trimmed_plain(kind);
    assert(v.subrange(kind.len() + 1int, v.len() - 1) =~= inner);
}

/// The durations and the factor of a backoff can be written and read back.
pub open spec fn backoff_printable(b: BackoffView) -> bool {
    match b {
        BackoffView::Fixed { delay } => duration_representable(delay),
        BackoffView::Linear { base, increment, max } => duration_representable(base)
            && duration_representable(increment) && duration_representable(max),
        BackoffView::Exponential { base, factor, max } => duration_representable(base)
            && plain_token(factor.shown) && duration_representable(max),
    }
}

/// What reading back a printed backoff gives: the backoff itself, except
/// that the factor is whatever the number reader makes of its text.
pub open spec fn backoff_read_back(b: BackoffView, reading: Option<FactorView>) -> Result<
    BackoffView,
    ParseErrorView,
> {
    match b {
        BackoffView::Exponential { base, factor, max } => match spec_check_factor(
            "factor"@,
            factor.shown,
            reading,
        ) {
            Ok(f) => Ok(BackoffView::Exponential { base, factor: f, max }),
            Err(e) => Err(e),
        },
        _ => Ok(b),
    }
}

proof fn lemma_duration_token(ms: nat)
    requires
        duration_representable(ms),
    ensures
        plain_token(duration_text(ms)),
{
    reveal_strlit("ms");
    reveal_strlit("s");
    reveal_strlit("m");
    reveal_strlit("h");
    let t = duration_text(ms);
    let k = if ms % 3_600_000 == 0 {
        ms / 3_600_000
    } else if ms % 60_000 == 0 {
        ms / 60_000
    } else if ms % 1_000 == 0 {
        ms / 1_000
    } else {
        ms
    };
    let d = decimal_text(k);
    lemma_decimal_text(k);
    assert forall|i: int| 0 <= i < t.len() implies #[trigger] token_char(t[i]) by {
        if i < d.len() {
            assert(t[i] == d[i]);
            assert(is_digit(d[i]));
        }
    }
}

/// The words the printer writes for backoffs, and how its fixed texts are
/// made of them.
proof fn lemma_backoff_words()
    ensures
        "fixed(delay="@ == "fixed"@ + seq!['('] + "delay"@ + seq!['='],
        "linear(base="@ == "linear"@ + seq!['('] + "base"@ + seq!['='],
        "exponential(base="@ == "exponential"@ + seq!['('] + "base"@ + seq!['='],
        ", increment="@ == seq![',', ' '] + "increment"@ + seq!['='],
        ", factor="@ == seq![',', ' '] + "factor"@ + seq!['='],
        ", max="@ == seq![',', ' '] + "max"@ + seq!['='],
        ")"@ == seq![')'],
        plain_token("fixed"@),
        plain_token("linear"@),
        plain_token("exponential"@),
        plain_token("delay"@),
        plain_token("base"@),
        plain_token("increment"@),
        plain_token("factor"@),
        plain_token("max"@),
        "linear"@ != "fixed"@,
        "exponential"@ != "fixed"@,
        "exponential"@ != "linear"@,
{
    reveal_strlit("fixed(delay=");
    reveal_strlit("linear(base=");
    reveal_strlit("exponential(base=");
    reveal_strlit(", increment=");
    reveal_strlit(", factor=");
    reveal_strlit(", max=");
    reveal_strlit(")");
    reveal_strlit("fixed");
    reveal_strlit("linear");
    reveal_strlit("exponential");
    reveal_strlit("delay");
    reveal_strlit("base");
    reveal_strlit("increment");
    reveal_strlit("factor");
    reveal_strlit("max");
    assert("fixed(delay="@ =~= "fixed"@ + seq!['('] + "delay"@ + seq!['=']);
    assert("linear(base="@ =~= "linear"@ + seq!['('] + "base"@ + seq!['=']);
    assert("exponential(base="@ =~= "exponential"@ + seq!['('] + "base"@ + seq!['=']);
    assert(", increment="@ =~= seq![',', ' '] + "increment"@ + seq!['=']);
    assert(", factor="@ =~= seq![',', ' '] + "factor"@ + seq!['=']);
    assert(", max="@ =~= seq![',', ' '] + "max"@ + seq!['=']);
    assert(")"@ =~= seq![')']);
    assert("linear"@.len() != "fixed"@.len());
    assert("exponential"@.len() != "fixed"@.len());
    assert("exponential"@.len() != "linear"@.len());
}

#[verifier::spinoff_prover]
#[verifier::rlimit(40)]
proof fn lemma_fixed_round_trip(delay: nat, reading: Option<FactorView>)
    requires
        duration_representable(delay),
    ensures
        bare_piece(backoff_text(BackoffView::Fixed { delay })),
        spec_parse_backoff(backoff_text(BackoffView::Fixed { delay }), reading)
            == backoff_read_back(BackoffView::Fixed { delay }, reading),
{
    lemma_backoff_words();
    let b = BackoffView::Fixed { delay };
    let dt = duration_text(delay);
    lemma_duration_token(delay);
    law_duration_round_trip("delay"@, delay);
    let args = seq![("delay"@, dt)];
    assert(args_plain(args));
    assert(backoff_text(b) =~= call_text("fixed"@, args));
    lemma_call_text("fixed"@, args);
    assert(field_position(args, "delay"@) == Some(0int));
    assert(args.remove(0) =~= Seq::<(Seq<char>, Seq<char>)>::empty());
}

#[verifier::spinoff_prover]
#[verifier::rlimit(40)]
proof fn lemma_linear_round_trip(base: nat, increment: nat, max: nat, reading: Option<FactorView>)
    requires
        duration_representable(base),
        duration_representable(increment),
        duration_representable(max),
    ensures
        bare_piece(backoff_text(BackoffView::Linear { base, increment, max })),
        spec_parse_backoff(backoff_text(BackoffView::Linear { base, increment, max }), reading)
            == backoff_read_back(BackoffView::Linear { base, increment, max }, reading),
{
    lemma_backoff_words();
    let b = BackoffView::Linear { base, increment, max };
    let d1 = duration_text(base);
    let d2 = duration_text(increment);
    let d3 = duration_text(max);
    lemma_duration_token(base);
    lemma_duration_token(increment);
    lemma_duration_token(max);
    law_duration_round_trip("base"@, base);
    law_duration_round_trip("increment"@, increment);
    law_duration_round_trip("max"@, max);
    let args = seq![("base"@, d1), ("increment"@, d2), ("max"@, d3)];
    assert(args_plain(args));
    assert(args.drop_last() =~= seq![("base"@, d1), ("increment"@, d2)]);
    assert(args.drop_last().drop_last() =~= seq![("base"@, d1)]);
    let front2 = seq![("base"@, d1), ("increment"@, d2)];
    assert(args_text(front2.drop_last()) == pair_text(("base"@, d1)));
    assert(args_text(front2) == pair_text(("base"@, d1)) + seq![',', ' '] + pair_text(
        ("increment"@, d2),
    ));
    assert(args_text(args) == args_text(front2) + seq![',', ' '] + pair_text(
        ("max"@, d3),
    ));
    assert(backoff_text(b) =~= call_text("linear"@, args));
    lemma_call_text("linear"@, args);
    let r1 = args.remove(0);
    assert(r1 =~= seq![("increment"@, d2), ("max"@, d3)]);
    let r2 = r1.remove(0);
    assert(r2 =~= seq![("max"@, d3)]);
    assert(field_position(args, "base"@) == Some(0int));
    assert(field_position(r1, "increment"@) == Some(0int));
    assert(field_position(r2, "max"@) == Some(0int));
    assert(r2.remove(0) =~= Seq::<(Seq<char>, Seq<char>)>::empty());
}

#[verifier::spinoff_prover]
#[verifier::rlimit(40)]
proof fn lemma_exponential_round_trip(base: nat, factor: FactorView, max: nat, reading: Option<FactorView>)
    requires
        duration_representable(base),
        plain_token(factor.shown),
        duration_representable(max),
    ensures
        bare_piece(backoff_text(BackoffView::Exponential { base, factor, max })),
        spec_parse_backoff(backoff_text(BackoffView::Exponential { base, factor, max }), reading)
            == backoff_read_back(BackoffView::Exponential { base, factor, max }, reading),
{
    lemma_backoff_words();
    let b = BackoffView::Exponential { base, factor, max };
    let d1 = duration_text(base);
    let f = factor.shown;
    let d3 = duration_text(max);
    lemma_duration_token(base);
    lemma_duration_token(max);
    law_duration_round_trip("base"@, base);
    law_duration_round_trip("max"@, max);
    let args = seq![("base"@, d1), ("factor"@, f), ("max"@, d3)];
    assert(args_plain(args));
    assert(args.drop_last() =~= seq![("base"@, d1), ("factor"@, f)]);
    assert(args.drop_last().drop_last() =~= seq![("base"@, d1)]);
    let front2 = seq![("base"@, d1), ("factor"@, f)];
    assert(args_text(front2.drop_last()) == pair_text(("base"@, d1)));
    assert(args_text(front2) == pair_text(("base"@, d1)) + seq![',', ' '] + pair_text(
        ("factor"@, f),
    ));
    assert(args_text(args) == args_text(front2) + seq![',', ' '] + pair_text(
        ("max"@, d3),
    ));
    assert(backoff_text(b) =~= call_text("exponential"@, args));
    lemma_call_text("exponential"@, args);
    let r1 = args.remove(0);
    assert(r1 =~= seq![("factor"@, f), ("max"@, d3)]);
    let r2 = r1.remove(0);
    assert(r2 =~= seq![("max"@, d3)]);
    assert(field_position(args, "base"@) == Some(0int));
    assert(field_position(r1, "factor"@) == Some(0int));
    assert(field_position(r2, "max"@) == Some(0int));
    assert(r2.remove(0) =~= Seq::<(Seq<char>, Seq<char>)>::empty());
}

/// A printed backoff reads back as the same backoff.
pub proof fn law_backoff_round_trip(b: BackoffView, reading: Option<FactorView>)
    requires
        backoff_printable(b),
    ensures
        bare_piece(backoff_text(b)),
        spec_parse_backoff(backoff_text(b), reading) == backoff_read_back(b, reading),
{
    match b {
        BackoffView::Fixed { delay } => lemma_fixed_round_trip(delay, reading),
        BackoffView::Linear { base, increment, max } => lemma_linear_round_trip(
            base,
            increment,
            max,
            reading,
        ),
        BackoffView::Exponential { base, factor, max } => lemma_exponential_round_trip(
            base,
            factor,
            max,
            reading,
        ),
    }
}

/// What reading the printed text of `p` gives, for a given reading of its
/// factor.
pub open spec fn policy_read_back(p: PolicyView, reading: Option<FactorView>) -> Result<
    PolicyView,
    ParseErrorView,
> {
    match backoff_read_back(p.backoff, reading) {
        Err(e) => Err(e),
        Ok(b) => spec_assemble(
            FieldsView {
                max_attempts: Some(p.max_attempts),
                backoff: Some(b),
                jitter: Some(p.jitter),
            },
        ),
    }
}

proof fn lemma_jitter_round_trip(j: Jitter)
    ensures
        plain_token(jitter_name(j)),
        spec_parse_jitter(jitter_name(j)) == Ok::<Jitter, ParseErrorView>(j),
{
    reveal_strlit("none");
    reveal_strlit("full");
    reveal_strlit("equal");
    let t = jitter_name(j);
    assert forall|i: int| 0 <= i < t.len() implies #[trigger] token_char(t[i]) by {}
    lemma_trimmed_plain(t);
}

/// The three `key=value` pairs the printer writes for a policy.
pub open spec fn policy_pairs(p: PolicyView) -> Seq<(Seq<char>, Seq<char>)> {
    seq![
        ("max_attempts"@, decimal_text(p.max_attempts as nat)),
        ("backoff"@, backoff_text(p.backoff)),
        ("jitter"@, jitter_name(p.jitter)),
    ]
}

#[verifier::spinoff_prover]
#[verifier::rlimit(40)]
proof fn lemma_policy_pieces(p: PolicyView)
    requires
        backoff_printable(p.backoff),
    ensures
        args_ok(policy_pairs(p)),
        trimmed(policy_text(p)) == policy_text(p),
        spec_split_top_level(policy_text(p)) == args_pieces(policy_pairs(p)),
{
    reveal_strlit("max_attempts=");
    reveal_strlit(", backoff=");
    reveal_strlit(", jitter=");
    reveal_strlit("max_attempts");
    reveal_strlit("backoff");
    reveal_strlit("jitter");
    let d = decimal_text(p.max_attempts as nat);
    let bt = backoff_text(p.backoff);
    let jt = jitter_name(p.jitter);
    lemma_decimal_text(p.max_attempts as nat);
    assert forall|i: int| 0 <= i < d.len() implies #[trigger] token_char(d[i]) by {
        assert(is_digit(d[i]));
    }
    lemma_token_value(d);
    law_backoff_round_trip(p.backoff, None);
    lemma_jitter_round_trip(p.jitter);
    lemma_token_value(jt);
    let p1 = ("max_attempts"@, d);
    let p2 = ("backoff"@, bt);
    let p3 = ("jitter"@, jt);
    let top = policy_pairs(p);
    assert(top == seq![p1, p2, p3]);
    assert(plain_token("max_attempts"@));
    assert(plain_token("backoff"@));
    assert(plain_token("jitter"@));
    assert(args_ok(top));
    let front = seq![p1, p2];
    assert(top.drop_last() =~= front);
    assert(front.drop_last() =~= seq![p1]);
    assert(args_text(front.drop_last()) == pair_text(p1));
    assert(args_text(front) == pair_text(p1) + seq![',', ' '] + pair_text(p2));
    assert(args_text(top) == args_text(front) + seq![',', ' '] + pair_text(p3));
    let t = policy_text(p);
    assert(t =~= args_text(top));
    assert(t[0] == 'm');
    assert(t.last() == jt.last());
    assert(!is_white_space(jt[jt.len() - 1]));
    lemma_trimmed_plain(t);
    lemma_args_pieces(top);
}

#[verifier::spinoff_prover]
#[verifier::rlimit(40)]
proof fn lemma_policy_read_back(p: PolicyView, reading: Option<FactorView>)
    requires
        backoff_printable(p.backoff),
    ensures
        spec_parse(policy_text(p), reading) == policy_read_back(p, reading),
{
    reveal_strlit("max_attempts");
    reveal_strlit("backoff");
    reveal_strlit("jitter");
    lemma_policy_pieces(p);
    law_backoff_round_trip(p.backoff, reading);
    lemma_jitter_round_trip(p.jitter);
    law_u32_round_trip("max_attempts"@, p.max_attempts);
    let top = policy_pairs(p);
    let ps = args_pieces(top);
    assert(top[0] == ("max_attempts"@, decimal_text(p.max_attempts as nat)));
    assert(top[1] == ("backoff"@, backoff_text(p.backoff)));
    assert(top[2] == ("jitter"@, jitter_name(p.jitter)));
    lemma_split_pair(top[0]);
    lemma_split_pair(top[1]);
    lemma_split_pair(top[2]);
    assert(ps.drop_last() =~= seq![ps[0], ps[1]]);
    assert(seq![ps[0], ps[1]].drop_last() =~= seq![ps[0]]);
    assert(seq![ps[0]].drop_last() =~= Seq::<Seq<char>>::empty());
    assert(trimmed(ps[0]) == pair_text(top[0]));
    assert(trimmed(ps[1]) == pair_text(top[1]));
    assert(trimmed(ps[2]) == pair_text(top[2]));
    let f1 = FieldsView { max_attempts: Some(p.max_attempts), backoff: None, jitter: None };
    assert(scan_segments(Seq::<Seq<char>>::empty(), reading) == Ok::<_, ParseErrorView>(
        no_fields(),
    ));
    assert(spec_split_kv(trimmed(ps[0])) == Ok::<_, ParseErrorView>(
        ("max_attempts"@, decimal_text(p.max_attempts as nat)),
    ));
    assert(scan_segment(no_fields(), ps[0], reading) == Ok::<_, ParseErrorView>(f1));
    assert(seq![ps[0]].last() == ps[0]);
    assert(scan_segments(seq![ps[0]], reading) == Ok::<_, ParseErrorView>(f1));
    match backoff_read_back(p.backoff, reading) {
        Err(e) => {
            assert(scan_segment(f1, ps[1], reading) == Err::<FieldsView, ParseErrorView>(e));
            assert(scan_segments(seq![ps[0], ps[1]], reading) == Err::<FieldsView, ParseErrorView>(
                e,
            ));
            assert(scan_segments(ps, reading) == Err::<FieldsView, ParseErrorView>(e));
        },
        Ok(b) => {
            let f2 = FieldsView { max_attempts: Some(p.max_attempts), backoff: Some(b), jitter: None };
            assert(scan_segments(seq![ps[0], ps[1]], reading) == Ok::<_, ParseErrorView>(f2));
            let f3 = FieldsView {
                max_attempts: Some(p.max_attempts),
                backoff: Some(b),
                jitter: Some(p.jitter),
            };
            assert(scan_segments(ps, reading) == Ok::<_, ParseErrorView>(f3));
        },
    }
}

/// The factor reading that gives back the factor a policy was printed
/// with.
pub open spec fn reading_fits(p: PolicyView, reading: Option<FactorView>) -> bool {
    p.backoff is Exponential ==> reading == Some(p.backoff->factor)
}

/// Printing a valid policy and parsing the text gives the policy back,
/// once the number reader gives back the factor from its printed text;
/// that text is the one `factor_text` reports.
pub proof fn law_print_then_parse(p: PolicyView, reading: Option<FactorView>)
    requires
        spec_validate(p) is Ok,
        backoff_printable(p.backoff),
        reading_fits(p, reading),
    ensures
        spec_parse(policy_text(p), reading) == Ok::<PolicyView, ParseErrorView>(p),
        spec_factor_text(policy_text(p)) == (match p.backoff {
            BackoffView::Exponential { factor, .. } => Some(factor.shown),
            _ => None,
        }),
{
    lemma_policy_read_back(p, reading);
    lemma_policy_read_back(p, None);
    reveal_strlit("factor");
    reveal_strlit("max_attempts");
    match p.backoff {
        BackoffView::Exponential { base, factor, max } => {
            assert(crate::policy::factor_grows(factor.bits));
            assert(backoff_read_back(p.backoff, reading) == Ok::<_, ParseErrorView>(p.backoff));
            assert(policy_read_back(p, reading) == spec_assemble(
                FieldsView {
                    max_attempts: Some(p.max_attempts),
                    backoff: Some(p.backoff),
                    jitter: Some(p.jitter),
                },
            ));
        },
        _ => {},
    }
}


/// The error `parse` gives when the number reader made nothing of the
/// factor's text.
pub open spec fn is_factor_miss<T>(r: Result<T, ParseErrorView>) -> bool {
    r matches Err(ParseErrorView::InvalidNumber { field, .. }) && field == "factor"@
}

proof fn lemma_backoff_reading(v: Seq<char>, reading: Option<FactorView>)
    ensures
        spec_parse_backoff(v, reading) == spec_parse_backoff(v, None) || is_factor_miss(
            spec_parse_backoff(v, None),
        ),
{
    reveal_strlit("factor");
    let t = trimmed(v);
    if let Some(open) = index_of(t, '(') {
        if t.len() > 0 && t.last() == ')' {
            let inner = t.subrange(open + 1, t.len() - 1);
            if let Ok(args) = collect_args(spec_split_top_level(inner)) {
                let a = spec_exponential(args, reading);
                let b = spec_exponential(args, None);
                assert(a == b || is_factor_miss(b));
            }
        }
    }
}

proof fn lemma_scan_reading(segs: Seq<Seq<char>>, reading: Option<FactorView>)
    ensures
        scan_segments(segs, reading) == scan_segments(segs, None) || is_factor_miss(
            scan_segments(segs, None),
        ),
    decreases segs.len(),
{
    if segs.len() > 0 {
        lemma_scan_reading(segs.drop_last(), reading);
        let t = trimmed(segs.last());
        if t.len() > 0 {
            if let Ok((key, value)) = spec_split_kv(t) {
                lemma_backoff_reading(value, reading);
            }
        }
    }
}

/// `parse` consults the factor reading only when the text has a factor
/// for it: when `factor_text` finds none, every reading gives the same
/// result.
pub proof fn law_reading_unused_without_factor(input: Seq<char>, reading: Option<FactorView>)
    requires
        spec_factor_text(input) is None,
    ensures
        spec_parse(input, reading) == spec_parse(input, None),
{
    reveal_strlit("factor");
    let t = trimmed(input);
    if t.len() > 0 {
        lemma_scan_reading(spec_split_top_level(t), reading);
    }
}

/// Every policy `parse` accepts obeys the validation rules.
pub proof fn law_parsed_policy_is_valid(input: Seq<char>, reading: Option<FactorView>)
    ensures
        spec_parse(input, reading) matches Ok(p) ==> spec_validate(p) is Ok && 1 <= p.max_attempts
            <= 1000,
{
}


/// Two pieces that both read successfully can be read in either order.
proof fn lemma_step_commute(
    f: FieldsView,
    x: Seq<char>,
    y: Seq<char>,
    reading: Option<FactorView>,
)
    requires
        scan_segment(f, x, reading) is Ok,
        scan_segment(scan_segment(f, x, reading)->Ok_0, y, reading) is Ok,
    ensures
        scan_segment(f, y, reading) is Ok,
        scan_segment(scan_segment(f, y, reading)->Ok_0, x, reading) == scan_segment(
            scan_segment(f, x, reading)->Ok_0,
            y,
            reading,
        ),
{
    reveal_strlit("max_attempts");
    reveal_strlit("backoff");
    reveal_strlit("jitter");
}

/// What follows a prefix depends only on what the prefix read.
proof fn lemma_scan_extend(
    a: Seq<Seq<char>>,
    a2: Seq<Seq<char>>,
    b: Seq<Seq<char>>,
    reading: Option<FactorView>,
)
    requires
        scan_segments(a, reading) == scan_segments(a2, reading),
    ensures
        scan_segments(a + b, reading) == scan_segments(a2 + b, reading),
    decreases b.len(),
{
    if b.len() == 0 {
        assert(a + b =~= a);
        assert(a2 + b =~= a2);
    } else {
        lemma_scan_extend(a, a2, b.drop_last(), reading);
        assert((a + b).drop_last() =~= a + b.drop_last());
        assert((a2 + b).drop_last() =~= a2 + b.drop_last());
        assert((a + b).last() == b.last());
        assert((a2 + b).last() == b.last());
    }
}

/// The order of the fields does not matter: swapping two neighbouring
/// pieces of a text that reads successfully reads the same.
pub proof fn law_fields_commute(
    front: Seq<Seq<char>>,
    x: Seq<char>,
    y: Seq<char>,
    back: Seq<Seq<char>>,
    reading: Option<FactorView>,
)
    requires
        scan_segments(front + seq![x, y] + back, reading) is Ok,
    ensures
        scan_segments(front + seq![y, x] + back, reading) == scan_segments(
            front + seq![x, y] + back,
            reading,
        ),
{
    let xy = front + seq![x, y];
    let yx = front + seq![y, x];
    if scan_segments(xy, reading) is Err {
        assert((xy + back).take(xy.len() as int) =~= xy);
        crate::parser::lemma_scan_segments_error(xy + back, xy.len() as int, reading);
    }
    assert(xy.last() == y);
    assert(yx.last() == x);
    assert(front.push(x).last() == x);
    assert(front.push(y).last() == y);
    assert(xy.drop_last() =~= front.push(x));
    assert(front.push(x).drop_last() =~= front);
    assert(yx.drop_last() =~= front.push(y));
    assert(front.push(y).drop_last() =~= front);
    if scan_segments(front, reading) is Err {
        assert(scan_segments(front.push(x), reading) is Err);
    }
    if scan_segments(front.push(x), reading) is Err {
        assert(scan_segments(xy, reading) is Err);
    }
    let f = scan_segments(front, reading)->Ok_0;
    lemma_step_commute(f, x, y, reading);
    assert(scan_segments(front.push(x), reading) == scan_segment(f, x, reading));
    assert(scan_segments(front.push(y), reading) == scan_segment(f, y, reading));
    let g = scan_segment(f, x, reading)->Ok_0;
    let h = scan_segment(f, y, reading)->Ok_0;
    assert(scan_segments(xy, reading) == scan_segment(g, y, reading));
    assert(scan_segments(yx, reading) == scan_segment(h, x, reading));
    assert(scan_segments(xy, reading) == scan_segments(yx, reading));
    lemma_scan_extend(xy, yx, back, reading);
    assert(xy + back =~= front + seq![x, y] + back);
    assert(yx + back =~= front + seq![y, x] + back);
}


/// Fields written one after the other, separated by `, `.
pub open spec fn joined_fields(ps: Seq<Seq<char>>) -> Seq<char>
    decreases ps.len(),
{
    if ps.len() == 0 {
        Seq::empty()
    } else if ps.len() == 1 {
        ps[0]
    } else {
        joined_fields(ps.drop_last()) + seq![',', ' '] + ps.last()
    }
}

/// The top-level pieces of `joined_fields(ps)`: the first field, then each
/// later field behind the space that follows its comma.
pub open spec fn joined_pieces(ps: Seq<Seq<char>>) -> Seq<Seq<char>> {
    Seq::new(ps.len(), |i: int| if i == 0 { ps[0] } else { seq![' '] + ps[i] })
}

proof fn lemma_joined_pieces(ps: Seq<Seq<char>>)
    requires
        ps.len() >= 1,
        forall|k: int| 0 <= k < ps.len() ==> single_piece(#[trigger] ps[k]),
    ensures
        spec_split_top_level(joined_fields(ps)) == joined_pieces(ps),
        depth_after(0, joined_fields(ps)) == 0,
        ps.len() >= 2 ==> joined_fields(ps.drop_last()).len() < joined_fields(ps).len()
            && joined_fields(ps)[joined_fields(ps.drop_last()).len() as int] == ',',
    decreases ps.len(),
{
    let last = ps.last();
    assert(single_piece(ps[ps.len() - 1]));
    if ps.len() == 1 {
        assert(joined_pieces(ps) =~= seq![ps[0]]);
    } else {
        let front = ps.drop_last();
        assert forall|k: int| 0 <= k < front.len() implies single_piece(#[trigger] front[k]) by {
            assert(front[k] == ps[k]);
        }
        lemma_joined_pieces(front);
        lemma_flat(seq![' '], 0);
        lemma_append_single(seq![' '], last);
        let b = seq![' '] + last;
        let jf = joined_fields(front);
        assert(joined_fields(ps) =~= jf + seq![','] + b);
        lemma_split_last(jf, b);
        assert(joined_pieces(front).push(b) =~= joined_pieces(ps));
    }
}

/// A piece is read through its trimmed text only.
proof fn lemma_scan_trimmed(s1: Seq<Seq<char>>, s2: Seq<Seq<char>>, reading: Option<FactorView>)
    requires
        s1.len() == s2.len(),
        forall|k: int| 0 <= k < s1.len() ==> trimmed(#[trigger] s1[k]) == trimmed(s2[k]),
    ensures
        scan_segments(s1, reading) == scan_segments(s2, reading),
    decreases s1.len(),
{
    if s1.len() > 0 {
        let n = s1.len() - 1;
        assert forall|k: int| 0 <= k < n implies trimmed(#[trigger] s1.drop_last()[k]) == trimmed(
            s2.drop_last()[k],
        ) by {
            assert(s1.drop_last()[k] == s1[k]);
            assert(s2.drop_last()[k] == s2[k]);
        }
        lemma_scan_trimmed(s1.drop_last(), s2.drop_last(), reading);
        assert(trimmed(s1[n]) == trimmed(s2[n]));
    }
}

/// Trimming the whole text only trims its first and last pieces.
#[verifier::spinoff_prover]
#[verifier::rlimit(40)]
proof fn lemma_pieces_of_trimmed(s: Seq<char>)
    ensures
        pieces(s, 0).len() == pieces(trimmed(s), 0).len(),
        forall|k: int|
            0 <= k < pieces(s, 0).len() ==> trimmed(#[trigger] pieces(s, 0)[k]) == trimmed(
                pieces(trimmed(s), 0)[k],
            ),
{
    lemma_trim_start_split(s);
    let u = trim_start(s);
    let k = s.len() - u.len();
    let p = s.take(k);
    lemma_trim_end_split(u);
    let t = trim_end(u);
    let q = u.skip(t.len() as int);
    assert(trimmed(s) == t);
    assert(s =~= p + (t + q));
    assert(u =~= t + q);
    let e = Seq::<char>::empty();
    assert(all_white(e));
    // the white prefix and suffix are single pieces at any depth
    assert forall|i: int| 0 <= i < p.len() implies #[trigger] p[i] != '(' && p[i] != ')' && p[i]
        != ',' by {
        assert(is_white_space(p[i]));
    }
    assert forall|i: int| 0 <= i < q.len() implies #[trigger] q[i] != '(' && q[i] != ')' && q[i]
        != ',' by {
        assert(is_white_space(q[i]));
    }
    lemma_flat(p, 0);
    let dt = depth_after(0, t);
    lemma_flat(q, dt);
    lemma_pieces_append(t, q, 0);
    let pt = pieces(t, 0);
    crate::parser::lemma_pieces_nonempty(t, 0);
    let x = pieces(t + q, 0);
    assert(x =~= pt.drop_last().push(pt.last() + q));
    lemma_pieces_append(p, t + q, 0);
    let ps = pieces(s, 0);
    assert(ps =~= seq![p + x[0]] + x.drop_first());
    assert forall|j: int| 0 <= j < ps.len() implies trimmed(#[trigger] ps[j]) == trimmed(pt[j]) by {
        let n = pt.len() - 1;
        if j == 0 && n == 0 {
            assert(ps[j] == p + pt[0] + q);
            lemma_trimmed_white_around(p, pt[0], q);
        } else if j == 0 {
            assert(ps[j] =~= p + pt[0] + e);
            lemma_trimmed_white_around(p, pt[0], e);
        } else if j == n {
            assert(ps[j] =~= e + pt[j] + q);
            lemma_trimmed_white_around(e, pt[j], q);
        } else {
            assert(ps[j] == pt[j]);
        }
    }
}

/// Reading a text that is not blank is reading its top-level pieces, each
/// through its trimmed form.
proof fn lemma_parse_pieces(s: Seq<char>, reading: Option<FactorView>)
    requires
        trimmed(s).len() > 0,
    ensures
        spec_parse(s, reading) == (match scan_segments(pieces(s, 0), reading) {
            Err(e) => Err(e),
            Ok(f) => spec_assemble(f),
        }),
{
    lemma_pieces_of_trimmed(s);
    lemma_scan_trimmed(pieces(s, 0), pieces(trimmed(s), 0), reading);
}

/// A text written as fields separated by `, ` reads as the list of fields,
/// each through its trimmed form.
proof fn lemma_parse_joined(ps: Seq<Seq<char>>, reading: Option<FactorView>)
    requires
        ps.len() >= 2,
        forall|k: int| 0 <= k < ps.len() ==> single_piece(#[trigger] ps[k]),
    ensures
        spec_parse(joined_fields(ps), reading) == (match scan_segments(ps, reading) {
            Err(e) => Err(e),
            Ok(f) => spec_assemble(f),
        }),
{
    lemma_joined_pieces(ps);
    let t = joined_fields(ps);
    lemma_trimmed_nonempty(t, joined_fields(ps.drop_last()).len() as int);
    lemma_parse_pieces(t, reading);
    let jp = joined_pieces(ps);
    assert forall|k: int| 0 <= k < jp.len() implies trimmed(#[trigger] jp[k]) == trimmed(ps[k]) by {
        if k > 0 {
            let sp = seq![' '];
            let e = Seq::<char>::empty();
            assert(all_white(sp));
            assert(all_white(e));
            assert(jp[k] =~= sp + ps[k] + e);
            lemma_trimmed_white_around(sp, ps[k], e);
            assert(ps[k] + e =~= ps[k]);
            lemma_trimmed_white_around(e, ps[k], e);
            assert(e + ps[k] + e =~= ps[k]);
        }
    }
    lemma_scan_trimmed(jp, ps, reading);
}

/// `ps` with the fields at `i` and `i + 1` swapped.
pub open spec fn swap_neighbours(ps: Seq<Seq<char>>, i: int) -> Seq<Seq<char>> {
    ps.update(i, ps[i + 1]).update(i + 1, ps[i])
}

/// The fields may be written in any order: in a text of fields separated by
/// `, ` that reads successfully, swapping two neighbouring fields reads the
/// same policy (and every order is reached by such swaps). A field is any
/// text without a comma outside parentheses and with balanced parentheses,
/// white space around it included.
pub proof fn law_field_order(ps: Seq<Seq<char>>, i: int, reading: Option<FactorView>)
    requires
        0 <= i < ps.len() - 1,
        forall|k: int| 0 <= k < ps.len() ==> single_piece(#[trigger] ps[k]),
        spec_parse(joined_fields(ps), reading) is Ok,
    ensures
        spec_parse(joined_fields(swap_neighbours(ps, i)), reading) == spec_parse(
            joined_fields(ps),
            reading,
        ),
{
    let qs = swap_neighbours(ps, i);
    assert forall|k: int| 0 <= k < qs.len() implies single_piece(#[trigger] qs[k]) by {
        if k == i {
            assert(qs[k] == ps[i + 1]);
        } else if k == i + 1 {
            assert(qs[k] == ps[i]);
        } else {
            assert(qs[k] == ps[k]);
        }
    }
    lemma_parse_joined(ps, reading);
    lemma_parse_joined(qs, reading);
    let front = ps.take(i);
    let back = ps.skip(i + 2);
    assert(ps =~= front + seq![ps[i], ps[i + 1]] + back);
    assert(qs =~= front + seq![ps[i + 1], ps[i]] + back);
    if scan_segments(ps, reading) is Ok {
        law_fields_commute(front, ps[i], ps[i + 1], back, reading);
    }
}

/// Pieces put back together with commas between them.
pub open spec fn join_with_commas(ps: Seq<Seq<char>>) -> Seq<char>
    decreases ps.len(),
{
    if ps.len() <= 1 {
        if ps.len() == 0 {
            Seq::empty()
        } else {
            ps[0]
        }
    } else {
        ps[0] + seq![','] + join_with_commas(ps.drop_first())
    }
}

proof fn lemma_pieces_join(s: Seq<char>, d: nat)
    ensures
        join_with_commas(pieces(s, d)) == s,
    decreases s.len(),
{
    if s.len() == 0 {
        assert(s =~= Seq::<char>::empty());
    } else {
        let c = s[0];
        let rest = pieces(s.drop_first(), depth_step(d, c));
        lemma_pieces_join(s.drop_first(), depth_step(d, c));
        crate::parser::lemma_pieces_nonempty(s.drop_first(), depth_step(d, c));
        if c == ',' && d == 0 {
            let ps = seq![Seq::<char>::empty()] + rest;
            assert(ps.drop_first() =~= rest);
            assert(join_with_commas(ps) == Seq::<char>::empty() + seq![','] + join_with_commas(
                rest,
            ));
            assert(s =~= Seq::<char>::empty() + seq![','] + s.drop_first());
        } else {
            let ps = rest.update(0, seq![c] + rest[0]);
            if rest.len() == 1 {
                assert(join_with_commas(ps) == seq![c] + rest[0]);
            } else {
                assert(ps.drop_first() =~= rest.drop_first());
                assert(join_with_commas(ps) =~= seq![c] + join_with_commas(rest));
            }
            assert(s =~= seq![c] + s.drop_first());
        }
    }
}

/// Splitting at top-level commas loses nothing: the pieces joined with
/// commas give back the text.
pub proof fn law_split_rejoin(s: Seq<char>)
    ensures
        join_with_commas(spec_split_top_level(s)) == s,
{
    lemma_pieces_join(s, 0);
}


proof fn lemma_parsed_duration_representable(field: Seq<char>, value: Seq<char>)
    ensures
        spec_parse_duration(field, value) matches Ok(ms) ==> duration_representable(ms),
{
}

proof fn lemma_taken_duration_representable(
    args: Seq<(Seq<char>, Seq<char>)>,
    name: Seq<char>,
)
    ensures
        spec_take_duration(args, name) matches Ok((ms, _)) ==> duration_representable(ms),
{
    if let Ok((text, _)) = spec_take_field(args, name) {
        lemma_parsed_duration_representable(name, text);
    }
}

/// The durations of a backoff are ones the syntax can write.
pub open spec fn backoff_durations_representable(b: BackoffView) -> bool {
    match b {
        BackoffView::Fixed { delay } => duration_representable(delay),
        BackoffView::Linear { base, increment, max } => duration_representable(base)
            && duration_representable(increment) && duration_representable(max),
        BackoffView::Exponential { base, max, .. } => duration_representable(base)
            && duration_representable(max),
    }
}

proof fn lemma_parsed_backoff_representable(v: Seq<char>, reading: Option<FactorView>)
    ensures
        spec_parse_backoff(v, reading) matches Ok(b) ==> backoff_durations_representable(b),
{
    let t = trimmed(v);
    if let Some(open) = index_of(t, '(') {
        if t.len() > 0 && t.last() == ')' {
            let inner = t.subrange(open + 1, t.len() - 1);
            if let Ok(args) = collect_args(spec_split_top_level(inner)) {
                lemma_taken_duration_representable(args, "delay"@);
                lemma_taken_duration_representable(args, "base"@);
                if let Ok((_, a1)) = spec_take_duration(args, "base"@) {
                    lemma_taken_duration_representable(a1, "increment"@);
                    if let Ok((_, a2)) = spec_take_duration(a1, "increment"@) {
                        lemma_taken_duration_representable(a2, "max"@);
                    }
                    if let Ok((_, a2)) = spec_take_field(a1, "factor"@) {
                        lemma_taken_duration_representable(a2, "max"@);
                    }
                }
            }
        }
    }
}

proof fn lemma_scanned_backoff_representable(segs: Seq<Seq<char>>, reading: Option<FactorView>)
    ensures
        scan_segments(segs, reading) matches Ok(f) ==> (f.backoff matches Some(b)
            ==> backoff_durations_representable(b)),
    decreases segs.len(),
{
    if segs.len() > 0 {
        lemma_scanned_backoff_representable(segs.drop_last(), reading);
        let t = trimmed(segs.last());
        if t.len() > 0 {
            if let Ok((key, value)) = spec_split_kv(t) {
                lemma_parsed_backoff_representable(value, reading);
            }
        }
    }
}

/// Printing what was parsed and parsing it again gives the same policy:
/// the canonical form is stable, whatever text the policy came from, once
/// the factor (if any) prints as a bare number. Printing the policy read
/// back therefore gives the same text again.
pub proof fn law_reparse_is_stable(input: Seq<char>, reading: Option<FactorView>)
    requires
        spec_parse(input, reading) is Ok,
        spec_parse(input, reading)->Ok_0.backoff is Exponential ==> plain_token(
            spec_parse(input, reading)->Ok_0.backoff->factor.shown,
        ),
    ensures
        ({
            let p = spec_parse(input, reading)->Ok_0;
            let again = match p.backoff {
                BackoffView::Exponential { factor, .. } => Some(factor),
                _ => None,
            };
            spec_parse(policy_text(p), again) == Ok::<PolicyView, ParseErrorView>(p)
        }),
{
    let t = trimmed(input);
    lemma_scanned_backoff_representable(spec_split_top_level(t), reading);
    let p = spec_parse(input, reading)->Ok_0;
    let again = match p.backoff {
        BackoffView::Exponential { factor, .. } => Some(factor),
        _ => None,
    };
    law_print_then_parse(p, again);
}


/// The key of a top-level piece, if the piece is a `key=value` pair.
pub open spec fn piece_key(seg: Seq<char>) -> Option<Seq<char>> {
    let t = trimmed(seg);
    if t.len() > 0 {
        match spec_split_kv(t) {
            Ok((k, _)) => Some(k),
            Err(_) => None,
        }
    } else {
        None
    }
}

/// Some top-level piece of the text is a pair with this key.
pub open spec fn has_field(input: Seq<char>, key: Seq<char>) -> bool {
    let ps = spec_split_top_level(trimmed(input));
    exists|k: int| 0 <= k < ps.len() && piece_key(#[trigger] ps[k]) == Some(key)
}

proof fn lemma_scan_without_jitter(segs: Seq<Seq<char>>, reading: Option<FactorView>)
    requires
        forall|k: int| 0 <= k < segs.len() ==> piece_key(#[trigger] segs[k]) != Some("jitter"@),
    ensures
        scan_segments(segs, reading) matches Ok(f) ==> f.jitter is None,
    decreases segs.len(),
{
    if segs.len() > 0 {
        assert forall|k: int| 0 <= k < segs.drop_last().len() implies piece_key(
            #[trigger] segs.drop_last()[k],
        ) != Some("jitter"@) by {
            assert(segs.drop_last()[k] == segs[k]);
        }
        lemma_scan_without_jitter(segs.drop_last(), reading);
        assert(piece_key(segs[segs.len() - 1]) != Some("jitter"@));
    }
}

/// A text that reads successfully and names no `jitter` field has jitter
/// none, whatever its backoff.
pub proof fn law_jitter_defaults_to_none(input: Seq<char>, reading: Option<FactorView>)
    requires
        spec_parse(input, reading) is Ok,
        !has_field(input, "jitter"@),
    ensures
        spec_parse(input, reading)->Ok_0.jitter == Jitter::Off,
{
    let ps = spec_split_top_level(trimmed(input));
    assert forall|k: int| 0 <= k < ps.len() implies piece_key(#[trigger] ps[k]) != Some(
        "jitter"@,
    ) by {}
    lemma_scan_without_jitter(ps, reading);
}

proof fn lemma_scan_with_jitter(
    segs: Seq<Seq<char>>,
    reading: Option<FactorView>,
    k: int,
    value: Seq<char>,
)
    requires
        0 <= k < segs.len(),
        spec_split_kv(trimmed(segs[k])) == Ok::<_, ParseErrorView>(("jitter"@, value)),
    ensures
        scan_segments(segs, reading) matches Ok(f) ==> (f.jitter matches Some(j)
            && spec_parse_jitter(value) == Ok::<_, ParseErrorView>(j)),
    decreases segs.len(),
{
    reveal_strlit("jitter");
    reveal_strlit("max_attempts");
    reveal_strlit("backoff");
    let n = segs.len() - 1;
    if k < n {
        assert(segs.drop_last()[k] == segs[k]);
        lemma_scan_with_jitter(segs.drop_last(), reading, k, value);
    } else {
        assert(segs.last() == segs[k]);
        assert(trimmed(segs[k]).len() > 0);
    }
}

/// The jitter of a text that reads successfully is the one its `jitter`
/// field names.
pub proof fn law_jitter_as_written(
    input: Seq<char>,
    reading: Option<FactorView>,
    k: int,
    value: Seq<char>,
)
    requires
        spec_parse(input, reading) is Ok,
        0 <= k < spec_split_top_level(trimmed(input)).len(),
        spec_split_kv(trimmed(spec_split_top_level(trimmed(input))[k])) == Ok::<_, ParseErrorView>(
            ("jitter"@, value),
        ),
    ensures
        spec_parse_jitter(value) == Ok::<_, ParseErrorView>(spec_parse(input, reading)->Ok_0.jitter),
{
    lemma_scan_with_jitter(spec_split_top_level(trimmed(input)), reading, k, value);
}


/// The `key=value` arguments written between the parentheses of a backoff
/// text, if they are well formed.
pub open spec fn backoff_args(value: Seq<char>) -> Option<Seq<(Seq<char>, Seq<char>)>> {
    let t = trimmed(value);
    match index_of(t, '(') {
        Some(open) => if t.len() > 0 && t.last() == ')' {
            match collect_args(spec_split_top_level(t.subrange(open + 1, t.len() - 1))) {
                Ok(args) => Some(args),
                Err(_) => None,
            }
        } else {
            None
        },
        None => None,
    }
}

/// Some argument has this name.
pub open spec fn has_arg(args: Seq<(Seq<char>, Seq<char>)>, name: Seq<char>) -> bool {
    exists|k: int| 0 <= k < args.len() && #[trigger] args[k].0 == name
}

/// The argument names a backoff of this kind takes.
pub open spec fn is_arg_of(b: BackoffView, name: Seq<char>) -> bool {
    match b {
        BackoffView::Fixed { .. } => name == "delay"@,
        BackoffView::Linear { .. } => name == "base"@ || name == "increment"@ || name == "max"@,
        BackoffView::Exponential { .. } => name == "base"@ || name == "factor"@ || name == "max"@,
    }
}

/// How many arguments a backoff of this kind takes.
pub open spec fn arg_count(b: BackoffView) -> nat {
    match b {
        BackoffView::Fixed { .. } => 1,
        _ => 3,
    }
}

/// Taking an argument out: it was there, one argument fewer is left, and
/// every other argument is still there.
proof fn lemma_take_field(args: Seq<(Seq<char>, Seq<char>)>, name: Seq<char>)
    ensures
        spec_take_field(args, name) matches Ok((_, rest)) ==> {
            &&& has_arg(args, name)
            &&& rest.len() + 1 == args.len()
            &&& forall|n: Seq<char>| has_arg(rest, n) ==> has_arg(args, n)
            &&& forall|k: int| 0 <= k < args.len() ==> args[k].0 == name || has_arg(rest, args[k].0)
        },
    decreases args.len(),
{
    if let Some(i) = field_position(args, name) {
        lemma_field_position_bounds(args, name);
        let rest = args.remove(i);
        assert(args[i].0 == name);
        assert forall|n: Seq<char>| has_arg(rest, n) implies has_arg(args, n) by {
            let m = choose|m: int| 0 <= m < rest.len() && #[trigger] rest[m].0 == n;
            if m < i {
                assert(rest[m] == args[m]);
            } else {
                assert(rest[m] == args[m + 1]);
            }
        }
        assert forall|k: int| 0 <= k < args.len() implies args[k].0 == name || has_arg(
            rest,
            args[k].0,
        ) by {
            if k < i {
                assert(rest[k] == args[k]);
            } else if k > i {
                assert(rest[k - 1] == args[k]);
            }
        }
    }
}

proof fn lemma_field_position_bounds(args: Seq<(Seq<char>, Seq<char>)>, name: Seq<char>)
    ensures
        field_position(args, name) matches Some(i) ==> 0 <= i < args.len() && args[i].0 == name,
    decreases args.len(),
{
    if args.len() > 0 && args[0].0 != name {
        lemma_field_position_bounds(args.drop_first(), name);
    }
}

proof fn lemma_take_duration(args: Seq<(Seq<char>, Seq<char>)>, name: Seq<char>)
    ensures
        spec_take_duration(args, name) matches Ok((_, rest)) ==> {
            &&& has_arg(args, name)
            &&& rest.len() + 1 == args.len()
            &&& forall|n: Seq<char>| has_arg(rest, n) ==> has_arg(args, n)
            &&& forall|k: int| 0 <= k < args.len() ==> args[k].0 == name || has_arg(rest, args[k].0)
        },
{
    lemma_take_field(args, name);
}

/// A backoff reads successfully only if its arguments are exactly the ones
/// its kind takes, each written once; anything left over is an error.
pub proof fn law_backoff_arguments(value: Seq<char>, reading: Option<FactorView>)
    requires
        spec_parse_backoff(value, reading) is Ok,
    ensures
        ({
            let b = spec_parse_backoff(value, reading)->Ok_0;
            &&& backoff_args(value) is Some
            &&& backoff_args(value)->Some_0.len() == arg_count(b)
            &&& forall|k: int|
                0 <= k < backoff_args(value)->Some_0.len() ==> is_arg_of(
                    b,
                    #[trigger] backoff_args(value)->Some_0[k].0,
                )
            &&& forall|n: Seq<char>| is_arg_of(b, n) ==> has_arg(backoff_args(value)->Some_0, n)
        }),
{
    let b = spec_parse_backoff(value, reading)->Ok_0;
    let a0 = backoff_args(value)->Some_0;
    lemma_backoff_words();
    match b {
        BackoffView::Fixed { .. } => {
            lemma_take_duration(a0, "delay"@);
            let a1 = spec_take_duration(a0, "delay"@)->Ok_0.1;
            assert(a1.len() == 0);
        },
        BackoffView::Linear { .. } => {
            lemma_take_duration(a0, "base"@);
            let a1 = spec_take_duration(a0, "base"@)->Ok_0.1;
            lemma_take_duration(a1, "increment"@);
            let a2 = spec_take_duration(a1, "increment"@)->Ok_0.1;
            lemma_take_duration(a2, "max"@);
            let a3 = spec_take_duration(a2, "max"@)->Ok_0.1;
            assert(a3.len() == 0);
            assert forall|k: int| 0 <= k < a0.len() implies is_arg_of(b, #[trigger] a0[k].0) by {
                if a0[k].0 != "base"@ {
                    let m = choose|m: int| 0 <= m < a1.len() && #[trigger] a1[m].0 == a0[k].0;
                    if a1[m].0 != "increment"@ {
                        let j = choose|j: int| 0 <= j < a2.len() && #[trigger] a2[j].0 == a1[m].0;
                        if a2[j].0 != "max"@ {
                            assert(has_arg(a3, a2[j].0));
                        }
                    }
                }
            }
        },
        BackoffView::Exponential { .. } => {
            lemma_take_duration(a0, "base"@);
            let a1 = spec_take_duration(a0, "base"@)->Ok_0.1;
            lemma_take_field(a1, "factor"@);
            let a2 = spec_take_field(a1, "factor"@)->Ok_0.1;
            lemma_take_duration(a2, "max"@);
            let a3 = spec_take_duration(a2, "max"@)->Ok_0.1;
            assert(a3.len() == 0);
            assert forall|k: int| 0 <= k < a0.len() implies is_arg_of(b, #[trigger] a0[k].0) by {
                if a0[k].0 != "base"@ {
                    let m = choose|m: int| 0 <= m < a1.len() && #[trigger] a1[m].0 == a0[k].0;
                    if a1[m].0 != "factor"@ {
                        let j = choose|j: int| 0 <= j < a2.len() && #[trigger] a2[j].0 == a1[m].0;
                        if a2[j].0 != "max"@ {
                            assert(has_arg(a3, a2[j].0));
                        }
                    }
                }
            }
        },
    }
}


/// The units of the duration syntax, largest first: `h`, `m`, `s`, `ms`.
pub open spec fn unit_millis(i: int) -> nat {
    if i == 0 {
        3_600_000
    } else if i == 1 {
        60_000
    } else if i == 2 {
        1_000
    } else {
        1
    }
}

pub open spec fn unit_name(i: int) -> Seq<char> {
    if i == 0 {
        "h"@
    } else if i == 1 {
        "m"@
    } else if i == 2 {
        "s"@
    } else {
        "ms"@
    }
}

/// A duration is written as a whole number of the largest unit that
/// divides it evenly: that unit divides it, no larger unit does, and the
/// number is the count of that unit.
pub proof fn law_duration_largest_unit(ms: nat)
    ensures
        exists|i: int|
            0 <= i < 4 && ms % unit_millis(i) == 0 && (forall|j: int|
                0 <= j < i ==> ms % #[trigger] unit_millis(j) != 0) && duration_text(ms)
                == decimal_text(ms / unit_millis(i)) + unit_name(i),
{
    let i: int = if ms % 3_600_000 == 0 {
        0
    } else if ms % 60_000 == 0 {
        1
    } else if ms % 1_000 == 0 {
        2
    } else {
        3
    };
    assert(unit_millis(0) == 3_600_000);
    assert(unit_millis(1) == 60_000);
    assert(unit_millis(2) == 1_000);
    assert(forall|j: int| 0 <= j < i ==> ms % #[trigger] unit_millis(j) != 0);
    assert(ms % unit_millis(i) == 0 && duration_text(ms) == decimal_text(ms / unit_millis(i))
        + unit_name(i));
}


/// What validation accepts: between 1 and 1000 attempts; a linear backoff
/// with a non-zero increment; an exponential backoff whose factor is a
/// finite number greater than 1 (its pattern lies strictly between those of
/// 1.0 and +infinity); and for both, `max` at least `base`. Every rule
/// broken is a rejection.
pub proof fn law_validate_rules(p: PolicyView)
    ensures
        p.max_attempts == 0 ==> spec_validate(p) is Err,
        p.max_attempts > 1000 ==> spec_validate(p) is Err,
        p.backoff matches BackoffView::Linear { increment, .. } && increment == 0
            ==> spec_validate(p) is Err,
        p.backoff matches BackoffView::Linear { base, max, .. } && max < base
            ==> spec_validate(p) is Err,
        p.backoff matches BackoffView::Exponential { base, max, .. } && max < base
            ==> spec_validate(p) is Err,
        p.backoff matches BackoffView::Exponential { factor, .. } && !(0x3ff0_0000_0000_0000
            < factor.bits < 0x7ff0_0000_0000_0000) ==> spec_validate(p) is Err,
        spec_validate(p) is Err ==> {
            ||| p.max_attempts == 0
            ||| p.max_attempts > 1000
            ||| p.backoff matches BackoffView::Linear { base, increment, max } && (increment == 0
                || max < base)
            ||| p.backoff matches BackoffView::Exponential { base, factor, max } && (max < base
                || !(0x3ff0_0000_0000_0000 < factor.bits < 0x7ff0_0000_0000_0000))
        },
{
}


/// Digits followed by a unit: trimming leaves the text alone, and the
/// leading digit run is exactly the digits.
proof fn lemma_digits_then_unit(d: Seq<char>, unit: Seq<char>)
    requires
        d.len() > 0,
        all_digits(d),
        unit.len() > 0,
        !is_digit(unit[0]),
        !is_white_space(unit.last()),
    ensures
        ({
            let v = d + unit;
            &&& trimmed(v) == v
            &&& digit_run(v) == d.len()
            &&& d.len() < v.len()
            &&& v.take(d.len() as int) == d
            &&& v.skip(d.len() as int) == unit
        }),
{
    let v = d + unit;
    assert(is_digit(d[0]));
    assert(v[0] == d[0]);
    assert(v.last() == unit.last());
    lemma_trimmed_plain(v);
    assert forall|j: int| 0 <= j < d.len() implies is_digit(v[j]) by {
        assert(v[j] == d[j]);
    }
    assert(v[d.len() as int] == unit[0]);
    lemma_digit_run(v, d.len() as int);
    assert(v.take(d.len() as int) =~= d);
    assert(v.skip(d.len() as int) =~= unit);
}

/// Any whole number written in digits and followed by a unit reads as that
/// many units: `N ms` is N milliseconds, `N s` is N seconds, and `N m` and
/// `N h` are N minutes and N hours counted in seconds that stop at the
/// largest `u64`; a number beyond the largest `u64` is refused.
pub proof fn law_duration_units(field: Seq<char>, d: Seq<char>)
    requires
        d.len() > 0,
        all_digits(d),
    ensures
        decimal_value(d) <= u64::MAX ==> {
            let n = decimal_value(d);
            &&& spec_parse_duration(field, d + "ms"@) == Ok::<nat, ParseErrorView>(n)
            &&& spec_parse_duration(field, d + "s"@) == Ok::<nat, ParseErrorView>(n * 1000)
            &&& spec_parse_duration(field, d + "m"@) == Ok::<nat, ParseErrorView>(
                (if n * 60 > u64::MAX {
                    u64::MAX as nat
                } else {
                    n * 60
                }) * 1000,
            )
            &&& spec_parse_duration(field, d + "h"@) == Ok::<nat, ParseErrorView>(
                (if n * 3600 > u64::MAX {
                    u64::MAX as nat
                } else {
                    n * 3600
                }) * 1000,
            )
        },
        decimal_value(d) > u64::MAX ==> {
            &&& spec_parse_duration(field, d + "ms"@) is Err
            &&& spec_parse_duration(field, d + "s"@) is Err
            &&& spec_parse_duration(field, d + "m"@) is Err
            &&& spec_parse_duration(field, d + "h"@) is Err
        },
{
    reveal_strlit("ms");
    reveal_strlit("s");
    reveal_strlit("m");
    reveal_strlit("h");
    lemma_digits_then_unit(d, "ms"@);
    lemma_digits_then_unit(d, "s"@);
    lemma_digits_then_unit(d, "m"@);
    lemma_digits_then_unit(d, "h"@);
}


proof fn lemma_scan_field(
    segs: Seq<Seq<char>>,
    reading: Option<FactorView>,
    k: int,
    key: Seq<char>,
    value: Seq<char>,
)
    requires
        0 <= k < segs.len(),
        spec_split_kv(trimmed(segs[k])) == Ok::<_, ParseErrorView>((key, value)),
    ensures
        scan_segments(segs, reading) matches Ok(f) ==> {
            &&& key == "max_attempts"@ ==> (f.max_attempts matches Some(n) && spec_parse_u32(
                "max_attempts"@,
                value,
            ) == Ok::<_, ParseErrorView>(n))
            &&& key == "backoff"@ ==> (f.backoff matches Some(b) && spec_parse_backoff(
                value,
                reading,
            ) == Ok::<_, ParseErrorView>(b))
        },
    decreases segs.len(),
{
    reveal_strlit("jitter");
    reveal_strlit("max_attempts");
    reveal_strlit("backoff");
    let n = segs.len() - 1;
    if k < n {
        assert(segs.drop_last()[k] == segs[k]);
        lemma_scan_field(segs.drop_last(), reading, k, key, value);
    } else {
        assert(segs.last() == segs[k]);
        assert(trimmed(segs[k]).len() > 0);
    }
}

proof fn lemma_scan_required(segs: Seq<Seq<char>>, reading: Option<FactorView>)
    ensures
        scan_segments(segs, reading) matches Ok(f) ==> {
            &&& f.max_attempts is Some ==> exists|k: int|
                0 <= k < segs.len() && piece_key(#[trigger] segs[k]) == Some("max_attempts"@)
            &&& f.backoff is Some ==> exists|k: int|
                0 <= k < segs.len() && piece_key(#[trigger] segs[k]) == Some("backoff"@)
        },
    decreases segs.len(),
{
    reveal_strlit("jitter");
    reveal_strlit("max_attempts");
    reveal_strlit("backoff");
    if segs.len() > 0 {
        let n = segs.len() - 1;
        lemma_scan_required(segs.drop_last(), reading);
        if let Ok(f) = scan_segments(segs.drop_last(), reading) {
            if f.max_attempts is Some {
                let k = choose|k: int|
                    0 <= k < segs.drop_last().len() && piece_key(#[trigger] segs.drop_last()[k])
                        == Some("max_attempts"@);
                assert(segs.drop_last()[k] == segs[k]);
            }
            if f.backoff is Some {
                let k = choose|k: int|
                    0 <= k < segs.drop_last().len() && piece_key(#[trigger] segs.drop_last()[k])
                        == Some("backoff"@);
                assert(segs.drop_last()[k] == segs[k]);
            }
        }
        assert(segs.last() == segs[n]);
    }
}

/// The value of a top-level piece that is a `key=value` pair.
pub open spec fn piece_value(seg: Seq<char>) -> Seq<char> {
    spec_split_kv(trimmed(seg))->Ok_0.1
}

/// A text that reads successfully names both required fields, and its
/// attempt count and backoff are the ones those fields write.
pub proof fn law_fields_as_written(input: Seq<char>, reading: Option<FactorView>)
    requires
        spec_parse(input, reading) is Ok,
    ensures
        has_field(input, "max_attempts"@),
        has_field(input, "backoff"@),
        ({
            let ps = spec_split_top_level(trimmed(input));
            let p = spec_parse(input, reading)->Ok_0;
            forall|k: int|
                0 <= k < ps.len() && #[trigger] piece_key(ps[k]) == Some("max_attempts"@)
                    ==> spec_parse_u32("max_attempts"@, piece_value(ps[k])) == Ok::<
                    _,
                    ParseErrorView,
                >(p.max_attempts)
        }),
        ({
            let ps = spec_split_top_level(trimmed(input));
            let p = spec_parse(input, reading)->Ok_0;
            forall|k: int|
                0 <= k < ps.len() && #[trigger] piece_key(ps[k]) == Some("backoff"@)
                    ==> spec_parse_backoff(piece_value(ps[k]), reading) == Ok::<
                    _,
                    ParseErrorView,
                >(p.backoff)
        }),
{
    let ps = spec_split_top_level(trimmed(input));
    lemma_scan_required(ps, reading);
    assert forall|k: int|
        0 <= k < ps.len() && #[trigger] piece_key(ps[k]) == Some(
            "max_attempts"@,
        ) implies spec_parse_u32("max_attempts"@, piece_value(ps[k])) == Ok::<_, ParseErrorView>(
        spec_parse(input, reading)->Ok_0.max_attempts,
    ) by {
        lemma_scan_field(ps, reading, k, "max_attempts"@, piece_value(ps[k]));
    }
    assert forall|k: int|
        0 <= k < ps.len() && #[trigger] piece_key(ps[k]) == Some("backoff"@) implies spec_parse_backoff(
        piece_value(ps[k]),
        reading,
    ) == Ok::<_, ParseErrorView>(spec_parse(input, reading)->Ok_0.backoff) by {
        lemma_scan_field(ps, reading, k, "backoff"@, piece_value(ps[k]));
    }
}

/// A `u32` is read from digits, optionally after a `+`: exactly when the
/// number fits, and then it is that number.
pub proof fn law_u32_digits(field: Seq<char>, d: Seq<char>)
    requires
        d.len() > 0,
        all_digits(d),
    ensures
        spec_parse_u32(field, d) == (if decimal_value(d) <= u32::MAX {
            Ok::<u32, ParseErrorView>(decimal_value(d) as u32)
        } else {
            Err(ParseErrorView::InvalidNumber { field, value: d })
        }),
        spec_parse_u32(field, seq!['+'] + d) == (if decimal_value(d) <= u32::MAX {
            Ok::<u32, ParseErrorView>(decimal_value(d) as u32)
        } else {
            Err(ParseErrorView::InvalidNumber { field, value: seq!['+'] + d })
        }),
{
    assert(is_digit(d[0]));
    assert(is_digit(d[d.len() - 1]));
    lemma_trimmed_plain(d);
    let pd = seq!['+'] + d;
    assert(pd[0] == '+');
    assert(pd.last() == d.last());
    lemma_trimmed_plain(pd);
    assert(pd.drop_first() =~= d);
}

/// A jitter value reads exactly when, trimmed, it is one of the three
/// names, and then it is the mode of that name.
pub proof fn law_jitter_names(value: Seq<char>, j: Jitter)
    ensures
        spec_parse_jitter(value) == Ok::<Jitter, ParseErrorView>(j) <==> trimmed(value)
            == jitter_name(j),
{
    reveal_strlit("none");
    reveal_strlit("full");
    reveal_strlit("equal");
    assert("none"@[0] != "full"@[0]);
    assert("none"@.len() != "equal"@.len());
    assert("full"@.len() != "equal"@.len());
}

} // verus!
