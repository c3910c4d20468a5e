//! The mathematical model of the parser: what the tokenizer yields on a given
//! character sequence, and what value or error the grammar assigns to it.
//!
//! Everything here is specification-level. The executable code in
//! [`crate::tokenizer`] and [`crate::parser`] is proved to return exactly what
//! these functions say.

use vstd::prelude::*;

use crate::duration::ParseError;
use crate::duration::SECS_PER_DAY;
use crate::duration::SECS_PER_HOUR;
use crate::duration::SECS_PER_MINUTE;
use crate::duration::SECS_PER_WEEK;

verus! {

/// A token: the numeric body gathered since the previous designator, and the
/// designator letter that ended it.
pub type Token = (Seq<char>, char);

/// An ASCII letter; any such character ends a token.
pub open spec fn is_ascii_letter(c: char) -> bool {
    ('a' <= c && c <= 'z') || ('A' <= c && c <= 'Z')
}

/// A decimal digit.
pub open spec fn is_digit(c: char) -> bool {
    '0' <= c && c <= '9'
}

/// The numeric value of a decimal digit.
pub open spec fn digit_val(c: char) -> nat {
    (c as nat - '0' as nat) as nat
}

/// Every character of `s` is a decimal digit.
pub open spec fn all_digits(s: Seq<char>) -> bool {
    forall|i: int| 0 <= i < s.len() ==> is_digit(#[trigger] s[i])
}

/// The value of `s` read as a decimal numeral, most significant digit first.
pub open spec fn digits_val(s: Seq<char>) -> nat
    decreases s.len(),
{
    if s.len() == 0 {
        0
    } else {
        digits_val(s.drop_last()) * 10 + digit_val(s.last())
    }
}

/// Ten to the `n`.
pub open spec fn pow10(n: nat) -> nat
    decreases n,
{
    if n == 0 {
        1
    } else {
        10 * pow10((n - 1) as nat)
    }
}

/// The nanoseconds denoted by the fractional-seconds digits `s`: the numeral
/// right-padded with zeros to nine digits.
pub open spec fn frac_nanos(s: Seq<char>) -> nat {
    digits_val(s) * pow10((9 - s.len()) as nat)
}

/// What a fractional-seconds body yields: more than nine digits overflow; an
/// empty or non-numeric body is a numeric error; otherwise the padded value.
pub open spec fn spec_to_nanos(s: Seq<char>) -> Result<u32, ParseError> {
    if s.len() > 9 {
        Err(ParseError::FractionalSecondsOverflow)
    } else if s.len() == 0 || !all_digits(s) {
        Err(ParseError::NumericParseError)
    } else {
        Ok(frac_nanos(s) as u32)
    }
}

/// The index of the first ASCII letter of `s`, or a negative value when `s`
/// holds none.
pub open spec fn first_letter(s: Seq<char>) -> int
    decreases s.len(),
{
    if s.len() == 0 {
        -1
    } else if is_ascii_letter(s[0]) {
        0
    } else {
        let r = first_letter(s.drop_first());
        if r < 0 {
            -1
        } else {
            r + 1
        }
    }
}

/// The index of the first `.` of `s`, or a negative value when `s` holds none.
pub open spec fn first_dot(s: Seq<char>) -> int
    decreases s.len(),
{
    if s.len() == 0 {
        -1
    } else if s[0] == '.' {
        0
    } else {
        let r = first_dot(s.drop_first());
        if r < 0 {
            -1
        } else {
            r + 1
        }
    }
}

/// The token sequence of `s`: at each ASCII letter a token ends, whose body is
/// everything since the previous letter.
pub open spec fn tokens_of(s: Seq<char>) -> Seq<Token>
    decreases s.len(),
{
    let i = first_letter(s);
    if 0 <= i < s.len() {
        seq![(s.subrange(0, i), s[i])] + tokens_of(s.subrange(i + 1, s.len() as int))
    } else {
        Seq::empty()
    }
}

/// What is left of `s` after its last ASCII letter: characters no token
/// accounts for.
pub open spec fn trailing_of(s: Seq<char>) -> Seq<char>
    decreases s.len(),
{
    let i = first_letter(s);
    if 0 <= i < s.len() {
        trailing_of(s.subrange(i + 1, s.len() as int))
    } else {
        s
    }
}

/// One of the designator letters the grammar knows.
pub open spec fn is_designator(c: char) -> bool {
    c == 'P' || c == 'W' || c == 'D' || c == 'T' || c == 'H' || c == 'M' || c == 'S'
}

/// One optional integer field: when the head token carries `des`, its body is
/// read as a numeral, weighted by `mul` and added to `acc`; otherwise nothing
/// is consumed. An empty, non-numeric or over-wide body is a numeric error; a
/// sum beyond the 64-bit range is an overflow error.
pub open spec fn take_field(toks: Seq<Token>, des: char, mul: u64, acc: u64) -> Result<
    (Seq<Token>, u64),
    ParseError,
> {
    if toks.len() > 0 && toks[0].1 == des {
        let body = toks[0].0;
        if body.len() == 0 || !all_digits(body) || digits_val(body) > u64::MAX {
            Err(ParseError::NumericParseError)
        } else if acc + digits_val(body) * mul > u64::MAX {
            Err(ParseError::DurationOverflow)
        } else {
            Ok((toks.drop_first(), (acc + digits_val(body) * mul) as u64))
        }
    } else {
        Ok((toks, acc))
    }
}

/// The seconds field: like [`take_field`] with weight one, except that the
/// body may hold one `.` followed by one to nine fractional digits, which
/// become the nanosecond component.
pub open spec fn take_seconds(toks: Seq<Token>, acc: u64) -> Result<
    (Seq<Token>, u64, u32),
    ParseError,
> {
    if toks.len() > 0 && toks[0].1 == 'S' {
        let body = toks[0].0;
        let d = first_dot(body);
        let whole = if 0 <= d < body.len() {
            body.subrange(0, d)
        } else {
            body
        };
        let nanos_r = if 0 <= d < body.len() {
            spec_to_nanos(body.subrange(d + 1, body.len() as int))
        } else {
            Ok(0u32)
        };
        match nanos_r {
            Err(e) => Err(e),
            Ok(ns) => {
                if whole.len() == 0 || !all_digits(whole) || digits_val(whole) > u64::MAX {
                    Err(ParseError::NumericParseError)
                } else if acc + digits_val(whole) > u64::MAX {
                    Err(ParseError::DurationOverflow)
                } else {
                    Ok((toks.drop_first(), (acc + digits_val(whole)) as u64, ns))
                }
            },
        }
    } else {
        Ok((toks, acc, 0))
    }
}

/// The end of the walk: a leftover token with a known designator is a field
/// out of order or a repeat; any other leftover token, or trailing text after
/// the last designator, is trailing data.
pub open spec fn finish(toks: Seq<Token>, trailing: Seq<char>, secs: u64, nanos: u32) -> Result<
    (u64, u32),
    ParseError,
> {
    if toks.len() > 0 {
        if is_designator(toks[0].1) {
            Err(ParseError::FieldOutOfOrder)
        } else {
            Err(ParseError::TrailingData)
        }
    } else if trailing.len() > 0 {
        Err(ParseError::TrailingData)
    } else {
        Ok((secs, nanos))
    }
}

/// The grammar, over a token sequence and the trailing text: a `P` prefix with
/// empty body, then optional `W` and `D` fields, then optionally an empty-body
/// `T` separator followed by optional `H`, `M` and `S` fields, then nothing.
pub open spec fn spec_parse_tokens(toks: Seq<Token>, trailing: Seq<char>) -> Result<
    (u64, u32),
    ParseError,
> {
    if !(toks.len() > 0 && toks[0].1 == 'P' && toks[0].0.len() == 0) {
        Err(ParseError::MalformedPrefix)
    } else {
        match take_field(toks.drop_first(), 'W', SECS_PER_WEEK, 0) {
            Err(e) => Err(e),
            Ok((t1, acc1)) => match take_field(t1, 'D', SECS_PER_DAY, acc1) {
                Err(e) => Err(e),
                Ok((t2, acc2)) => {
                    if t2.len() > 0 && t2[0].1 == 'T' {
                        if t2[0].0.len() > 0 {
                            Err(ParseError::UnexpectedDataBeforeTimeSeparator)
                        } else {
                            match take_field(t2.drop_first(), 'H', SECS_PER_HOUR, acc2) {
                                Err(e) => Err(e),
                                Ok((t3, acc3)) => match take_field(t3, 'M', SECS_PER_MINUTE, acc3) {
                                    Err(e) => Err(e),
                                    Ok((t4, acc4)) => match take_seconds(t4, acc4) {
                                        Err(e) => Err(e),
                                        Ok((t5, acc5, ns)) => finish(t5, trailing, acc5, ns),
                                    },
                                },
                            }
                        }
                    } else {
                        finish(t2, trailing, acc2, 0)
                    }
                },
            },
        }
    }
}

/// The value or error that a duration expression denotes.
pub open spec fn spec_parse(s: Seq<char>) -> Result<(u64, u32), ParseError> {
    spec_parse_tokens(tokens_of(s), trailing_of(s))
}

/// `first_letter` finds exactly the least index holding an ASCII letter.
pub proof fn lemma_first_letter_at(s: Seq<char>, i: int)
    requires
        0 <= i < s.len(),
        is_ascii_letter(s[i]),
        forall|j: int| 0 <= j < i ==> !is_ascii_letter(#[trigger] s[j]),
    ensures
        first_letter(s) == i,
    decreases i,
{
    if i > 0 {
        lemma_first_letter_at(s.drop_first(), i - 1);
    }
}

/// A sequence without an ASCII letter has no first letter.
pub proof fn lemma_first_letter_none(s: Seq<char>)
    requires
        forall|j: int| 0 <= j < s.len() ==> !is_ascii_letter(#[trigger] s[j]),
    ensures
        first_letter(s) < 0,
    decreases s.len(),
{
    if s.len() > 0 {
        lemma_first_letter_none(s.drop_first());
    }
}

/// `first_letter` stays within the sequence and, when found, points at a
/// letter.
pub proof fn lemma_first_letter_bounds(s: Seq<char>)
    ensures
        first_letter(s) < s.len(),
        first_letter(s) >= 0 ==> is_ascii_letter(s[first_letter(s)]),
    decreases s.len(),
{
    if s.len() > 0 && !is_ascii_letter(s[0]) {
        lemma_first_letter_bounds(s.drop_first());
    }
}

/// `first_dot` finds exactly the least index holding a `.`.
pub proof fn lemma_first_dot_at(s: Seq<char>, i: int)
    requires
        0 <= i < s.len(),
        s[i] == '.',
        forall|j: int| 0 <= j < i ==> #[trigger] s[j] != '.',
    ensures
        first_dot(s) == i,
    decreases i,
{
    if i > 0 {
        lemma_first_dot_at(s.drop_first(), i - 1);
    }
}

/// A sequence without a `.` has no first dot.
pub proof fn lemma_first_dot_none(s: Seq<char>)
    requires
        forall|j: int| 0 <= j < s.len() ==> #[trigger] s[j] != '.',
    ensures
        first_dot(s) < 0,
    decreases s.len(),
{
    if s.len() > 0 {
        lemma_first_dot_none(s.drop_first());
    }
}

/// `first_dot` stays within the sequence and, when found, points at a `.`.
pub proof fn lemma_first_dot_found(s: Seq<char>)
    ensures
        first_dot(s) < s.len(),
        first_dot(s) >= 0 ==> s[first_dot(s)] == '.',
    decreases s.len(),
{
    if s.len() > 0 && s[0] != '.' {
        lemma_first_dot_found(s.drop_first());
    }
}

/// A numeral is bounded by ten to the number of its digits.
pub proof fn lemma_digits_val_bound(s: Seq<char>)
    requires
        all_digits(s),
    ensures
        digits_val(s) < pow10(s.len()),
    decreases s.len(),
{
    if s.len() > 0 {
        assert(all_digits(s.drop_last()));
        lemma_digits_val_bound(s.drop_last());
        assert(digit_val(s.last()) <= 9);
    }
}

/// A numeral grows (weakly) as digits are appended on the right.
pub proof fn lemma_digits_val_prefix_le(s: Seq<char>, i: int)
    requires
        0 <= i <= s.len(),
    ensures
        digits_val(s.subrange(0, i)) <= digits_val(s),
    decreases s.len() - i,
{
    if i < s.len() {
        lemma_digits_val_prefix_le(s, i + 1);
        assert(s.subrange(0, i + 1).drop_last() =~= s.subrange(0, i));
        assert(digits_val(s.subrange(0, i)) <= digits_val(s.subrange(0, i + 1)));
    } else {
        assert(s.subrange(0, i) =~= s);
    }
}

/// Padding fractional digits to nine places stays below one second.
pub proof fn lemma_frac_nanos_bound(s: Seq<char>)
    requires
        all_digits(s),
        1 <= s.len() <= 9,
    ensures
        frac_nanos(s) < 1_000_000_000,
{
    lemma_digits_val_bound(s);
    lemma_pow10_pos((9 - s.len()) as nat);
    lemma_pow10_adds(s.len(), (9 - s.len()) as nat);
    assert(pow10(9) == 1_000_000_000) by {
        reveal_with_fuel(pow10, 10);
    }
    assert(digits_val(s) * pow10((9 - s.len()) as nat) < pow10(s.len()) * pow10(
        (9 - s.len()) as nat,
    )) by (nonlinear_arith)
        requires
            digits_val(s) < pow10(s.len()),
            pow10((9 - s.len()) as nat) > 0,
    ;
}

/// Powers of ten are positive.
pub proof fn lemma_pow10_pos(n: nat)
    ensures
        pow10(n) > 0,
    decreases n,
{
    if n > 0 {
        lemma_pow10_pos((n - 1) as nat);
    }
}

/// Powers of ten grow with the exponent.
pub proof fn lemma_pow10_mono(a: nat, b: nat)
    requires
        a <= b,
    ensures
        pow10(a) <= pow10(b),
    decreases b - a,
{
    if a < b {
        lemma_pow10_mono(a, (b - 1) as nat);
    }
}

/// Exponent addition law for powers of ten.
pub proof fn lemma_pow10_adds(a: nat, b: nat)
    ensures
        pow10(a + b) == pow10(a) * pow10(b),
    decreases a,
{
    if a == 0 {
        assert(pow10(0 + b) == 1 * pow10(b));
    } else {
        lemma_pow10_adds((a - 1) as nat, b);
        assert(pow10(a + b) == 10 * pow10((a + b - 1) as nat));
        assert(10 * (pow10((a - 1) as nat) * pow10(b)) == (10 * pow10((a - 1) as nat)) * pow10(b))
            by (nonlinear_arith);
    }
}

} // verus!
