//! The field interpreter and accumulator: consumes the token walk, enforces
//! the grammar, and folds the validated fields into one duration.

use vstd::prelude::*;

use crate::duration::Duration;
use crate::duration::ParseError;
use crate::duration::NANOS_PER_SEC;
use crate::duration::SECS_PER_DAY;
use crate::duration::SECS_PER_HOUR;
use crate::duration::SECS_PER_MINUTE;
use crate::duration::SECS_PER_WEEK;
use crate::model::all_digits;
use crate::model::digits_val;
use crate::model::finish;
use crate::model::first_dot;
use crate::model::first_letter;
use crate::model::is_digit;
use crate::model::lemma_digits_val_bound;
use crate::model::lemma_digits_val_prefix_le;
use crate::model::lemma_first_dot_at;
use crate::model::lemma_first_dot_none;
use crate::model::lemma_frac_nanos_bound;
use crate::model::lemma_pow10_mono;
use crate::model::lemma_pow10_pos;
use crate::model::pow10;
use crate::model::spec_parse;
use crate::model::spec_parse_tokens;
use crate::model::spec_to_nanos;
use crate::model::take_field;
use crate::model::take_seconds;
use crate::model::tokens_of;
use crate::model::trailing_of;
use crate::model::Token;
use crate::tokenizer::Parts;

verus! {

/// The tokens still to be interpreted: the one held in the lookahead, then
/// whatever the tokenizer has left.
spec fn pending<'s>(look: Option<(&'s str, char)>, parts: Parts<'s>) -> Seq<Token> {
    match look {
        None => Seq::empty(),
        Some(t) => seq![(t.0@, t.1)] + tokens_of(parts@),
    }
}

/// An empty lookahead means the tokenizer is exhausted: no letter is left.
spec fn lookahead_ok<'s>(look: Option<(&'s str, char)>, parts: Parts<'s>) -> bool {
    look is None ==> first_letter(parts@) < 0
}

/// One unfolding of the token walk: consuming up to and including the first
/// letter peels off exactly one token and keeps the trailing text.
proof fn lemma_tokens_step(s: Seq<char>)
    ensures
        0 <= first_letter(s) ==> first_letter(s) < s.len() && tokens_of(s) == seq![
            (s.subrange(0, first_letter(s)), s[first_letter(s)]),
        ] + tokens_of(s.subrange(first_letter(s) + 1, s.len() as int)) && trailing_of(s)
            == trailing_of(s.subrange(first_letter(s) + 1, s.len() as int)),
        first_letter(s) < 0 ==> tokens_of(s) == Seq::<Token>::empty() && trailing_of(s) == s,
{
    crate::model::lemma_first_letter_bounds(s);
}

/// Reads `s` as a decimal numeral. Yields nothing when `s` is empty, holds a
/// non-digit, or denotes a value beyond the 64-bit range.
#[verifier::loop_isolation(false)]
fn to_u64(s: &str) -> (r: Option<u64>)
    ensures
        match r {
            Some(v) => s@.len() > 0 && all_digits(s@) && v == digits_val(s@),
            None => s@.len() == 0 || !all_digits(s@) || digits_val(s@) > u64::MAX,
        },
{
    let n = s.unicode_len();
    if n == 0 {
        return None;
    }
    let mut acc: u64 = 0;
    let mut i: usize = 0;
    while i < n
        invariant
            i <= n,
            all_digits(s@.subrange(0, i as int)),
            acc == digits_val(s@.subrange(0, i as int)),
        decreases n - i,
    {
        let c = s.get_char(i);
        if c < '0' || c > '9' {
            assert(!is_digit(s@[i as int]));
            return None;
        }
        let d = (c as u32 - 48) as u64;
        proof {
            assert(s@.subrange(0, i + 1).drop_last() =~= s@.subrange(0, i as int));
            assert(s@.subrange(0, i + 1).last() == s@[i as int]);
            lemma_digits_val_prefix_le(s@, i + 1);
        }
        let acc10 = match acc.checked_mul(10) {
            Some(v) => v,
            None => {
                return None;
            },
        };
        acc = match acc10.checked_add(d) {
            Some(v) => v,
            None => {
                return None;
            },
        };
        i += 1;
    }
    proof {
        assert(s@.subrange(0, n as int) =~= s@);
    }
    Some(acc)
}

/// Ten to the `e`, executably.
#[verifier::loop_isolation(false)]
fn pow10_u32(e: usize) -> (r: u32)
    requires
        e <= 9,
    ensures
        r == pow10(e as nat),
{
    let mut r: u32 = 1;
    let mut k: usize = 0;
    while k < e
        invariant
            k <= e,
            r == pow10(k as nat),
        decreases e - k,
    {
        proof {
            lemma_pow10_mono(k as nat, 8);
            assert(pow10(8) == 100_000_000) by {
                reveal_with_fuel(pow10, 9);
            }
        }
        r = r * 10;
        k += 1;
    }
    r
}

/// Converts a fractional-seconds body to nanoseconds: the digits are
/// right-padded with zeros to nine places. More than nine digits overflow;
/// an empty or non-numeric body is a numeric error.
pub fn to_nanos(s: &str) -> (r: Result<u32, ParseError>)
    ensures
        r == spec_to_nanos(s@),
{
    let n = s.unicode_len();
    if n > 9 {
        return Err(ParseError::FractionalSecondsOverflow);
    }
    match to_u64(s) {
        None => {
            proof {
                if s@.len() > 0 && all_digits(s@) {
                    lemma_digits_val_bound(s@);
                    lemma_pow10_mono(s@.len(), 9);
                    assert(pow10(9) == 1_000_000_000) by {
                        reveal_with_fuel(pow10, 10);
                    }
                }
            }
            Err(ParseError::NumericParseError)
        },
        Some(v) => {
            proof {
                lemma_frac_nanos_bound(s@);
                lemma_pow10_pos((9 - s@.len()) as nat);
                assert(digits_val(s@) * 1 <= digits_val(s@) * pow10((9 - s@.len()) as nat))
                    by (nonlinear_arith)
                    requires
                        pow10((9 - s@.len()) as nat) >= 1,
                ;
            }
            let mul = pow10_u32(9 - n);
            let ns = (v as u32) * mul;
            Ok(ns)
        },
    }
}

/// The index of the first `.` of `s`, if any.
#[verifier::loop_isolation(false)]
fn find_dot(s: &str) -> (r: Option<usize>)
    ensures
        match r {
            Some(i) => first_dot(s@) == i && i < s@.len(),
            None => first_dot(s@) < 0,
        },
{
    let n = s.unicode_len();
    let mut i: usize = 0;
    while i < n
        invariant
            i <= n,
            forall|j: int| 0 <= j < i ==> #[trigger] s@[j] != '.',
        decreases n - i,
    {
        let c = s.get_char(i);
        if c == '.' {
            proof {
                lemma_first_dot_at(s@, i as int);
            }
            return Some(i);
        }
        i += 1;
    }
    proof {
        lemma_first_dot_none(s@);
    }
    None
}

/// Consumes one optional integer field, exactly as [`take_field`] describes:
/// when the lookahead carries `des`, its body weighted by `mul` is added to
/// `acc` and the walk advances; otherwise nothing changes.
fn maybe_take<'s>(
    look: &mut Option<(&'s str, char)>,
    parts: &mut Parts<'s>,
    des: char,
    mul: u64,
    acc: &mut u64,
) -> (r: Result<(), ParseError>)
    requires
        lookahead_ok(*old(look), *old(parts)),
    ensures
        lookahead_ok(*final(look), *final(parts)),
        trailing_of(final(parts)@) == trailing_of(old(parts)@),
        match r {
            Ok(_) => take_field(pending(*old(look), *old(parts)), des, mul, *old(acc))
                == Ok::<_, ParseError>((pending(*final(look), *final(parts)), *final(acc))),
            Err(e) => take_field(pending(*old(look), *old(parts)), des, mul, *old(acc))
                == Err::<(Seq<Token>, u64), _>(e),
        },
{
    let ghost toks0 = pending(*old(look), *old(parts));
    if let Some((body, c)) = *look {
        if c == des {
            proof {
                assert(toks0[0] == (body@, c));
                assert(toks0.drop_first() =~= tokens_of(old(parts)@));
            }
            match to_u64(body) {
                None => Err(ParseError::NumericParseError),
                Some(v) => {
                    match v.checked_mul(mul) {
                        None => Err(ParseError::DurationOverflow),
                        Some(p) => {
                            match (*acc).checked_add(p) {
                                None => Err(ParseError::DurationOverflow),
                                Some(sum) => {
                                    *acc = sum;
                                    let ghost s2 = parts@;
                                    *look = parts.next();
                                    proof {
                                        lemma_tokens_step(s2);
                                        match *look {
                                            Some(t) => {
                                                assert(pending(*look, *parts) =~= tokens_of(s2));
                                            },
                                            None => {
                                                assert(pending(*look, *parts) =~= tokens_of(s2));
                                            },
                                        }
                                    }
                                    Ok(())
                                },
                            }
                        },
                    }
                },
            }
        } else {
            Ok(())
        }
    } else {
        Ok(())
    }
}

/// Consumes the optional seconds field, exactly as [`take_seconds`]
/// describes: its body may hold one `.` followed by the fractional digits
/// that become the nanosecond component.
fn maybe_take_seconds<'s>(
    look: &mut Option<(&'s str, char)>,
    parts: &mut Parts<'s>,
    acc: &mut u64,
    nanos: &mut u32,
) -> (r: Result<(), ParseError>)
    requires
        lookahead_ok(*old(look), *old(parts)),
        *old(nanos) == 0,
    ensures
        lookahead_ok(*final(look), *final(parts)),
        trailing_of(final(parts)@) == trailing_of(old(parts)@),
        match r {
            Ok(_) => take_seconds(pending(*old(look), *old(parts)), *old(acc))
                == Ok::<_, ParseError>(
                (pending(*final(look), *final(parts)), *final(acc), *final(nanos)),
            ) && *final(nanos) < NANOS_PER_SEC,
            Err(e) => take_seconds(pending(*old(look), *old(parts)), *old(acc))
                == Err::<(Seq<Token>, u64, u32), _>(e),
        },
{
    let ghost toks0 = pending(*old(look), *old(parts));
    if let Some((body, c)) = *look {
        if c == 'S' {
            proof {
                assert(toks0[0] == (body@, c));
                assert(toks0.drop_first() =~= tokens_of(old(parts)@));
            }
            let n = body.unicode_len();
            let (ns, whole): (u32, &str) = match find_dot(body) {
                Some(i) => {
                    let w = body.substring_char(0, i);
                    let frac = body.substring_char(i + 1, n);
                    match to_nanos(frac) {
                        Err(e) => {
                            return Err(e);
                        },
                        Ok(v) => {
                            proof {
                                if spec_to_nanos(frac@) is Ok {
                                    lemma_frac_nanos_bound(frac@);
                                }
                            }
                            (v, w)
                        },
                    }
                },
                None => (0u32, body),
            };
            match to_u64(whole) {
                None => Err(ParseError::NumericParseError),
                Some(v) => {
                    match (*acc).checked_add(v) {
                        None => Err(ParseError::DurationOverflow),
                        Some(sum) => {
                            *acc = sum;
                            *nanos = ns;
                            let ghost s2 = parts@;
                            *look = parts.next();
                            proof {
                                lemma_tokens_step(s2);
                                match *look {
                                    Some(t) => {
                                        assert(pending(*look, *parts) =~= tokens_of(s2));
                                    },
                                    None => {
                                        assert(pending(*look, *parts) =~= tokens_of(s2));
                                    },
                                }
                            }
                            Ok(())
                        },
                    }
                },
            }
        } else {
            Ok(())
        }
    } else {
        Ok(())
    }
}

/// What [`parse`] returns on the characters `s`: exactly the verdict of the
/// model, [`spec_parse`] — a function of the input alone.
pub open spec fn parse_returns(s: Seq<char>, r: Result<Duration, ParseError>) -> bool {
    match r {
        Ok(d) => spec_parse(s) == Ok::<(u64, u32), ParseError>((d.secs, d.nanos)),
        Err(e) => spec_parse(s) == Err::<(u64, u32), ParseError>(e),
    }
}

/// Parses an ISO 8601 duration expression such as `P2DT1H` into seconds and
/// nanoseconds.
///
/// The result is a pure function of the input characters, stated exactly by
/// [`spec_parse`]: the weighted sum of the fields on success, and the error
/// kind assigned to the first offending part of the input otherwise.
#[verifier::rlimit(60)]
pub fn parse(input: &str) -> (r: Result<Duration, ParseError>)
    ensures
        parse_returns(input@, r),
        r matches Ok(d) ==> d.wf(),
{
    let ghost s0 = input@;
    let mut parts = Parts::new(input);
    let mut look = parts.next();
    proof {
        lemma_tokens_step(s0);
        match look {
            Some(t) => {
                assert(pending(look, parts) =~= tokens_of(s0));
            },
            None => {
                assert(pending(look, parts) =~= tokens_of(s0));
            },
        }
    }
    let ghost toks0 = tokens_of(s0);
    let ghost trail = trailing_of(s0);

    let prefix_ok = match look {
        Some((b, c)) => c == 'P' && b.is_empty(),
        None => false,
    };
    proof {
        match look {
            Some(t) => {
                assert(toks0[0] == (t.0@, t.1));
            },
            None => {
                assert(toks0.len() == 0);
            },
        }
    }
    if !prefix_ok {
        return Err(ParseError::MalformedPrefix);
    }
    let ghost s1 = parts@;
    look = parts.next();
    proof {
        lemma_tokens_step(s1);
        match look {
            Some(t) => {
                assert(pending(look, parts) =~= tokens_of(s1));
            },
            None => {
                assert(pending(look, parts) =~= tokens_of(s1));
            },
        }
        assert(toks0.drop_first() =~= tokens_of(s1));
    }

    let mut seconds: u64 = 0;
    let mut nanos: u32 = 0;

    if let Err(e) = maybe_take(&mut look, &mut parts, 'W', SECS_PER_WEEK, &mut seconds) {
        return Err(e);
    }
    if let Err(e) = maybe_take(&mut look, &mut parts, 'D', SECS_PER_DAY, &mut seconds) {
        return Err(e);
    }

    let ghost t_t = pending(look, parts);
    proof {
        match look {
            Some(t) => {
                assert(t_t[0] == (t.0@, t.1));
            },
            None => {
                assert(t_t.len() == 0);
            },
        }
    }
    if let Some((b, c)) = look {
        if c == 'T' {
            if !b.is_empty() {
                return Err(ParseError::UnexpectedDataBeforeTimeSeparator);
            }
            let ghost s2 = parts@;
            look = parts.next();
            proof {
                lemma_tokens_step(s2);
                match look {
                    Some(t) => {
                        assert(pending(look, parts) =~= tokens_of(s2));
                    },
                    None => {
                        assert(pending(look, parts) =~= tokens_of(s2));
                    },
                }
                assert(t_t.drop_first() =~= tokens_of(s2));
            }
            if let Err(e) = maybe_take(&mut look, &mut parts, 'H', SECS_PER_HOUR, &mut seconds) {
                return Err(e);
            }
            if let Err(e) = maybe_take(&mut look, &mut parts, 'M', SECS_PER_MINUTE, &mut seconds) {
                return Err(e);
            }
            if let Err(e) = maybe_take_seconds(&mut look, &mut parts, &mut seconds, &mut nanos) {
                return Err(e);
            }
        }
    }

    let ghost t_end = pending(look, parts);
    proof {
        match look {
            Some(t) => {
                assert(t_end[0] == (t.0@, t.1));
            },
            None => {
                assert(t_end.len() == 0);
            },
        }
        assert(spec_parse_tokens(toks0, trail) == finish(t_end, trail, seconds, nanos));
    }
    match look {
        Some((_b, c)) => {
            if c == 'P' || c == 'W' || c == 'D' || c == 'T' || c == 'H' || c == 'M' || c == 'S' {
                Err(ParseError::FieldOutOfOrder)
            } else {
                Err(ParseError::TrailingData)
            }
        },
        None => {
            proof {
                lemma_tokens_step(parts@);
            }
            if !parts.remainder().is_empty() {
                Err(ParseError::TrailingData)
            } else {
                Ok(Duration::new(seconds, nanos))
            }
        },
    }
}

} // verus!
