# retryspec

A one-line text format for retry policies, with a validating parser and a
canonical printer, verified with Verus.

```
max_attempts=5, backoff=exponential(base=200ms, factor=2.0, max=30s), jitter=full
```

## Layout

- `src/text.rs` — white space, trimming, searching, decimal numbers.
- `src/parser.rs` — `ParseError`, splitting, `key=value` pairs, numbers,
  durations, jitter, backoffs and `parse`, each against a spec function.
- `src/policy.rs` — `RetryPolicy`, `Backoff`, `Jitter`, `Duration`,
  `Factor` and the validation rules.
- `src/printer.rs` — `pretty_print` and the canonical duration units.
- `src/laws.rs` — properties of parser and printer together: printing then
  parsing gives the policy back, the fields may come in any order, the
  factor reading is consulted only when there is a factor, and more.
- `app/main.rs` — the command-line checker.

## The growth factor

An exponential backoff's factor is a floating-point number. The library
does not read or print floating-point numbers itself: `factor_text` finds
the text of the factor, the caller turns it into a `Factor` (its binary64
bit pattern and its shortest decimal form), and `parse` takes that reading.
The rules on the factor (finite, greater than 1) are checked on the bit
pattern.
