//! The laws of the parser, proved against its model: every well-formed
//! duration expression parses to the weighted sum of its fields, and every
//! expression that parses was well-formed — nothing outside the grammar is
//! ever accepted.

use vstd::prelude::*;

use crate::duration::ParseError;
use crate::duration::SECS_PER_DAY;
use crate::duration::SECS_PER_HOUR;
use crate::duration::SECS_PER_MINUTE;
use crate::duration::SECS_PER_WEEK;
use crate::model::all_digits;
use crate::model::digits_val;
use crate::model::finish;
use crate::model::first_dot;
use crate::model::first_letter;
use crate::model::frac_nanos;
use crate::model::is_ascii_letter;
use crate::model::lemma_first_dot_at;
use crate::model::lemma_first_dot_found;
use crate::model::lemma_first_dot_none;
use crate::model::lemma_first_letter_at;
use crate::model::lemma_first_letter_bounds;
use crate::model::lemma_first_letter_none;
use crate::model::lemma_frac_nanos_bound;
use crate::model::spec_parse;
use crate::model::spec_parse_tokens;
use crate::model::spec_to_nanos;
use crate::model::take_field;
use crate::model::take_seconds;
use crate::model::tokens_of;
use crate::model::trailing_of;
use crate::model::Token;

verus! {

/// An optional integer field as text: the digits followed by the designator,
/// or nothing.
pub open spec fn opt_field(body: Option<Seq<char>>, des: char) -> Seq<char> {
    match body {
        None => Seq::empty(),
        Some(b) => b + seq![des],
    }
}

/// The body of a seconds field: the whole part, optionally followed by a dot
/// and the fractional digits.
pub open spec fn seconds_body(whole: Seq<char>, frac: Option<Seq<char>>) -> Seq<char> {
    match frac {
        None => whole,
        Some(f) => whole + seq!['.'] + f,
    }
}

/// An optional seconds field as text.
pub open spec fn opt_seconds(sec: Option<(Seq<char>, Option<Seq<char>>)>) -> Seq<char> {
    match sec {
        None => Seq::empty(),
        Some(p) => seconds_body(p.0, p.1) + seq!['S'],
    }
}

/// The duration expression with the given fields, written out: the `P`
/// marker, the date fields, and — when `t` is set — the `T` separator and the
/// time fields.
pub open spec fn render(
    w: Option<Seq<char>>,
    d: Option<Seq<char>>,
    t: bool,
    h: Option<Seq<char>>,
    m: Option<Seq<char>>,
    sec: Option<(Seq<char>, Option<Seq<char>>)>,
) -> Seq<char> {
    seq!['P'] + opt_field(w, 'W') + opt_field(d, 'D') + (if t {
        seq!['T'] + opt_field(h, 'H') + opt_field(m, 'M') + opt_seconds(sec)
    } else {
        Seq::empty()
    })
}

/// A well-formed field body: at least one character, all digits.
pub open spec fn valid_num(b: Seq<char>) -> bool {
    b.len() > 0 && all_digits(b)
}

/// An optional field body is well-formed when present.
pub open spec fn valid_opt(b: Option<Seq<char>>) -> bool {
    b matches Some(s) ==> valid_num(s)
}

/// A well-formed seconds field: digits for the whole part, and — if a
/// fraction is present — one to nine fractional digits.
pub open spec fn valid_sec(sec: Option<(Seq<char>, Option<Seq<char>>)>) -> bool {
    sec matches Some(p) ==> valid_num(p.0) && (p.1 matches Some(f) ==> valid_num(f) && f.len()
        <= 9)
}

/// A well-formed assignment of fields: each body is digits, and time fields
/// appear only under the `T` separator.
pub open spec fn grammar_ok(
    w: Option<Seq<char>>,
    d: Option<Seq<char>>,
    t: bool,
    h: Option<Seq<char>>,
    m: Option<Seq<char>>,
    sec: Option<(Seq<char>, Option<Seq<char>>)>,
) -> bool {
    valid_opt(w) && valid_opt(d) && valid_opt(h) && valid_opt(m) && valid_sec(sec) && (!t ==> h
        is None && m is None && sec is None)
}

/// The value of an optional field body, zero when absent.
pub open spec fn opt_val(b: Option<Seq<char>>) -> nat {
    match b {
        None => 0,
        Some(s) => digits_val(s),
    }
}

/// The whole-seconds part of an optional seconds field, zero when absent.
pub open spec fn sec_whole_val(sec: Option<(Seq<char>, Option<Seq<char>>)>) -> nat {
    match sec {
        None => 0,
        Some(p) => digits_val(p.0),
    }
}

/// The seconds denoted by a field assignment: the weighted sum with the fixed
/// multipliers, absent fields contributing zero.
pub open spec fn total_secs(
    w: Option<Seq<char>>,
    d: Option<Seq<char>>,
    h: Option<Seq<char>>,
    m: Option<Seq<char>>,
    sec: Option<(Seq<char>, Option<Seq<char>>)>,
) -> int {
    opt_val(w) * SECS_PER_WEEK + opt_val(d) * SECS_PER_DAY + opt_val(h) * SECS_PER_HOUR + opt_val(
        m,
    ) * SECS_PER_MINUTE + sec_whole_val(sec)
}

/// The nanoseconds denoted by a field assignment: the padded fraction of the
/// seconds field, zero when absent.
pub open spec fn total_nanos(sec: Option<(Seq<char>, Option<Seq<char>>)>) -> nat {
    match sec {
        Some(p) => match p.1 {
            Some(f) => frac_nanos(f),
            None => 0,
        },
        None => 0,
    }
}

/// `s` is a well-formed duration expression denoting `secs` seconds and `ns`
/// nanoseconds.
pub open spec fn matches_grammar(s: Seq<char>, secs: u64, ns: u32) -> bool {
    exists|
        w: Option<Seq<char>>,
        d: Option<Seq<char>>,
        t: bool,
        h: Option<Seq<char>>,
        m: Option<Seq<char>>,
        sec: Option<(Seq<char>, Option<Seq<char>>)>,
    |
        {
            &&& grammar_ok(w, d, t, h, m, sec)
            &&& s == #[trigger] render(w, d, t, h, m, sec)
            &&& secs == total_secs(w, d, h, m, sec)
            &&& ns == total_nanos(sec)
        }
}

/// Digits are not letters.
proof fn lemma_digits_not_letters(b: Seq<char>)
    requires
        all_digits(b),
    ensures
        forall|j: int| 0 <= j < b.len() ==> !is_ascii_letter(#[trigger] b[j]),
{
}

/// Prepending a letter-free body and one letter to a string prepends exactly
/// one token to its walk and leaves the trailing text alone.
proof fn lemma_tokens_prepend(body: Seq<char>, c: char, rest: Seq<char>)
    requires
        forall|j: int| 0 <= j < body.len() ==> !is_ascii_letter(#[trigger] body[j]),
        is_ascii_letter(c),
    ensures
        tokens_of(body + seq![c] + rest) == seq![(body, c)] + tokens_of(rest),
        trailing_of(body + seq![c] + rest) == trailing_of(rest),
{
    let s = body + seq![c] + rest;
    assert(s[body.len() as int] == c);
    lemma_first_letter_at(s, body.len() as int);
    assert(s.subrange(0, body.len() as int) =~= body);
    assert(s.subrange(body.len() as int + 1, s.len() as int) =~= rest);
    assert(tokens_of(s) == seq![(body, c)] + tokens_of(rest));
}

/// A letter-free string has no tokens; all of it is trailing.
proof fn lemma_tokens_none(s: Seq<char>)
    requires
        forall|j: int| 0 <= j < s.len() ==> !is_ascii_letter(#[trigger] s[j]),
    ensures
        tokens_of(s) == Seq::<Token>::empty(),
        trailing_of(s) == s,
{
    lemma_first_letter_none(s);
}

/// A field whose designator does not head the walk consumes nothing.
proof fn lemma_take_field_skip(toks: Seq<Token>, des: char, mul: u64, acc: u64)
    requires
        toks.len() > 0 ==> toks[0].1 != des,
    ensures
        take_field(toks, des, mul, acc) == Ok::<_, ParseError>((toks, acc)),
{
}

/// A well-formed field at the head of the walk is consumed and contributes
/// its weighted value.
proof fn lemma_take_field_hit(b: Seq<char>, des: char, rest: Seq<Token>, mul: u64, acc: u64)
    requires
        valid_num(b),
        mul >= 1,
        acc + digits_val(b) * mul <= u64::MAX,
    ensures
        digits_val(b) <= u64::MAX,
        take_field(seq![(b, des)] + rest, des, mul, acc) == Ok::<_, ParseError>(
            (rest, (acc + digits_val(b) * mul) as u64),
        ),
{
    assert(digits_val(b) * 1 <= digits_val(b) * mul) by (nonlinear_arith)
        requires
            mul >= 1,
    ;
    let toks = seq![(b, des)] + rest;
    assert(toks[0] == (b, des));
    assert(toks.drop_first() =~= rest);
}

/// A seconds field whose designator does not head the walk consumes nothing.
proof fn lemma_take_seconds_skip(toks: Seq<Token>, acc: u64)
    requires
        toks.len() > 0 ==> toks[0].1 != 'S',
    ensures
        take_seconds(toks, acc) == Ok::<_, ParseError>((toks, acc, 0u32)),
{
}

/// A well-formed seconds field at the head of the walk is consumed; its whole
/// part counts as seconds and its padded fraction as nanoseconds.
proof fn lemma_take_seconds_hit(
    whole: Seq<char>,
    frac: Option<Seq<char>>,
    rest: Seq<Token>,
    acc: u64,
)
    requires
        valid_num(whole),
        frac matches Some(f) ==> valid_num(f) && f.len() <= 9,
        acc + digits_val(whole) <= u64::MAX,
    ensures
        take_seconds(seq![(seconds_body(whole, frac), 'S')] + rest, acc) == Ok::<_, ParseError>(
            (
                rest,
                (acc + digits_val(whole)) as u64,
                (match frac {
                    None => 0nat,
                    Some(f) => frac_nanos(f),
                }) as u32,
            ),
        ),
{
    let body = seconds_body(whole, frac);
    let toks = seq![(body, 'S')] + rest;
    assert(toks[0] == (body, 'S'));
    assert(toks.drop_first() =~= rest);
    match frac {
        None => {
            assert(forall|j: int| 0 <= j < body.len() ==> #[trigger] body[j] != '.');
            lemma_first_dot_none(body);
        },
        Some(f) => {
            assert(body[whole.len() as int] == '.');
            assert(forall|j: int| 0 <= j < whole.len() ==> #[trigger] body[j] != '.');
            lemma_first_dot_at(body, whole.len() as int);
            assert(body.subrange(0, whole.len() as int) =~= whole);
            assert(body.subrange(whole.len() as int + 1, body.len() as int) =~= f);
            lemma_frac_nanos_bound(f);
        },
    }
}

/// Every string is its token walk written back out, followed by its trailing
/// text.
spec fn untokens(toks: Seq<Token>, trail: Seq<char>) -> Seq<char>
    decreases toks.len(),
{
    if toks.len() == 0 {
        trail
    } else {
        toks[0].0 + seq![toks[0].1] + untokens(toks.drop_first(), trail)
    }
}

/// The body of a well-formed seconds field holds no letter.
proof fn lemma_sec_body_no_letters(whole: Seq<char>, frac: Option<Seq<char>>)
    requires
        all_digits(whole),
        frac matches Some(f) ==> all_digits(f),
    ensures
        forall|j: int|
            0 <= j < seconds_body(whole, frac).len() ==> !is_ascii_letter(
                #[trigger] seconds_body(whole, frac)[j],
            ),
{
    match frac {
        None => {},
        Some(f) => {
            let body = seconds_body(whole, frac);
            assert forall|j: int| 0 <= j < body.len() implies !is_ascii_letter(body[j]) by {
                if j < whole.len() {
                    assert(body[j] == whole[j]);
                } else if j == whole.len() {
                    assert(body[j] == '.');
                } else {
                    assert(body[j] == f[j - whole.len() - 1]);
                }
            }
        },
    }
}

/// Every well-formed assignment of fields, written out, parses back to
/// exactly the weighted sum of the fields — provided that sum is
/// representable. Absent fields contribute zero; the fraction of the seconds
/// field, padded to nine digits, is the nanosecond component.
#[verifier::rlimit(100)]
pub proof fn lemma_parse_complete(
    w: Option<Seq<char>>,
    d: Option<Seq<char>>,
    t: bool,
    h: Option<Seq<char>>,
    m: Option<Seq<char>>,
    sec: Option<(Seq<char>, Option<Seq<char>>)>,
)
    requires
        grammar_ok(w, d, t, h, m, sec),
        total_secs(w, d, h, m, sec) <= u64::MAX,
    ensures
        spec_parse(render(w, d, t, h, m, sec)) == Ok::<(u64, u32), ParseError>(
            (total_secs(w, d, h, m, sec) as u64, total_nanos(sec) as u32),
        ),
{
    let e = Seq::<char>::empty();
    let s = render(w, d, t, h, m, sec);
    let r5 = opt_seconds(sec);
    let r4 = opt_field(m, 'M') + r5;
    let r3 = opt_field(h, 'H') + r4;
    let r2: Seq<char> = if t {
        seq!['T'] + r3
    } else {
        e
    };
    let r1 = opt_field(d, 'D') + r2;
    let r0 = opt_field(w, 'W') + r1;
    assert(s =~= e + seq!['P'] + r0);

    let ts5: Seq<Token> = match sec {
        None => Seq::empty(),
        Some(p) => seq![(seconds_body(p.0, p.1), 'S')],
    };
    let ts4: Seq<Token> = match m {
        None => ts5,
        Some(b) => seq![(b, 'M')] + ts5,
    };
    let ts3: Seq<Token> = match h {
        None => ts4,
        Some(b) => seq![(b, 'H')] + ts4,
    };
    let ts2: Seq<Token> = if t {
        seq![(e, 'T')] + ts3
    } else {
        ts3
    };
    let ts1: Seq<Token> = match d {
        None => ts2,
        Some(b) => seq![(b, 'D')] + ts2,
    };
    let ts0: Seq<Token> = match w {
        None => ts1,
        Some(b) => seq![(b, 'W')] + ts1,
    };
    let toks: Seq<Token> = seq![(e, 'P')] + ts0;

    // The rendered string tokenizes to exactly these tokens, with nothing
    // trailing.
    match sec {
        None => {
            lemma_tokens_none(r5);
        },
        Some(p) => {
            let body = seconds_body(p.0, p.1);
            lemma_sec_body_no_letters(p.0, p.1);
            assert(r5 =~= body + seq!['S'] + e);
            lemma_tokens_prepend(body, 'S', e);
            lemma_tokens_none(e);
        },
    }
    assert(tokens_of(r5) == ts5 && trailing_of(r5) == e);
    match m {
        None => {
            assert(r4 =~= r5);
        },
        Some(b) => {
            lemma_digits_not_letters(b);
            assert(r4 =~= b + seq!['M'] + r5);
            lemma_tokens_prepend(b, 'M', r5);
        },
    }
    assert(tokens_of(r4) == ts4 && trailing_of(r4) == e);
    match h {
        None => {
            assert(r3 =~= r4);
        },
        Some(b) => {
            lemma_digits_not_letters(b);
            assert(r3 =~= b + seq!['H'] + r4);
            lemma_tokens_prepend(b, 'H', r4);
        },
    }
    assert(tokens_of(r3) == ts3 && trailing_of(r3) == e);
    if t {
        assert(r2 =~= e + seq!['T'] + r3);
        lemma_tokens_prepend(e, 'T', r3);
    } else {
        lemma_tokens_none(r2);
    }
    assert(tokens_of(r2) == ts2 && trailing_of(r2) == e);
    match d {
        None => {
            assert(r1 =~= r2);
        },
        Some(b) => {
            lemma_digits_not_letters(b);
            assert(r1 =~= b + seq!['D'] + r2);
            lemma_tokens_prepend(b, 'D', r2);
        },
    }
    assert(tokens_of(r1) == ts1 && trailing_of(r1) == e);
    match w {
        None => {
            assert(r0 =~= r1);
        },
        Some(b) => {
            lemma_digits_not_letters(b);
            assert(r0 =~= b + seq!['W'] + r1);
            lemma_tokens_prepend(b, 'W', r1);
        },
    }
    assert(tokens_of(r0) == ts0 && trailing_of(r0) == e);
    lemma_tokens_prepend(e, 'P', r0);
    assert(tokens_of(s) == toks && trailing_of(s) == e);

    // The head of each remaining walk is a designator of a later field.
    assert(ts5.len() > 0 ==> ts5[0].1 == 'S');
    assert(ts4.len() > 0 ==> ts4[0].1 == 'M' || ts4[0].1 == 'S');
    assert(ts3.len() > 0 ==> ts3[0].1 == 'H' || ts3[0].1 == 'M' || ts3[0].1 == 'S');
    assert(ts2.len() > 0 ==> ts2[0].1 == 'T' || ts2[0].1 == 'H' || ts2[0].1 == 'M' || ts2[0].1
        == 'S');
    assert(ts1.len() > 0 ==> ts1[0].1 == 'D' || ts1[0].1 == 'T' || ts1[0].1 == 'H' || ts1[0].1
        == 'M' || ts1[0].1 == 'S');

    // The contributions, each non-negative, sum to the total.
    let c_w: nat = opt_val(w) * (SECS_PER_WEEK as nat);
    let c_d: nat = opt_val(d) * (SECS_PER_DAY as nat);
    let c_h: nat = opt_val(h) * (SECS_PER_HOUR as nat);
    let c_m: nat = opt_val(m) * (SECS_PER_MINUTE as nat);
    let c_s: nat = sec_whole_val(sec);
    assert(c_w + c_d + c_h + c_m + c_s == total_secs(w, d, h, m, sec));

    // Walk the interpreter over the token list.
    assert(toks[0] == (e, 'P'));
    assert(toks.drop_first() =~= ts0);
    let au1: u64 = (c_w) as u64;
    match w {
        Some(b) => {
            lemma_take_field_hit(b, 'W', ts1, SECS_PER_WEEK, 0);
        },
        None => {
            lemma_take_field_skip(ts1, 'W', SECS_PER_WEEK, 0);
        },
    }
    assert(take_field(ts0, 'W', SECS_PER_WEEK, 0) == Ok::<_, ParseError>((ts1, au1)));
    let au2: u64 = (au1 + c_d) as u64;
    match d {
        Some(b) => {
            lemma_take_field_hit(b, 'D', ts2, SECS_PER_DAY, au1);
        },
        None => {
            lemma_take_field_skip(ts2, 'D', SECS_PER_DAY, au1);
        },
    }
    assert(take_field(ts1, 'D', SECS_PER_DAY, au1) == Ok::<_, ParseError>((ts2, au2)));

    let au3: u64 = (au2 + c_h) as u64;
    let au4: u64 = (au3 + c_m) as u64;
    let au5: u64 = (au4 + c_s) as u64;
    if t {
        assert(ts2[0] == (e, 'T'));
        assert(ts2.drop_first() =~= ts3);
        match h {
            Some(b) => {
                lemma_take_field_hit(b, 'H', ts4, SECS_PER_HOUR, au2);
            },
            None => {
                lemma_take_field_skip(ts4, 'H', SECS_PER_HOUR, au2);
            },
        }
        assert(take_field(ts3, 'H', SECS_PER_HOUR, au2) == Ok::<_, ParseError>((ts4, au3)));
        match m {
            Some(b) => {
                lemma_take_field_hit(b, 'M', ts5, SECS_PER_MINUTE, au3);
            },
            None => {
                lemma_take_field_skip(ts5, 'M', SECS_PER_MINUTE, au3);
            },
        }
        assert(take_field(ts4, 'M', SECS_PER_MINUTE, au3) == Ok::<_, ParseError>((ts5, au4)));
        match sec {
            Some(p) => {
                assert(ts5 =~= seq![(seconds_body(p.0, p.1), 'S')] + Seq::<Token>::empty());
                lemma_take_seconds_hit(p.0, p.1, Seq::empty(), au4);
            },
            None => {
                lemma_take_seconds_skip(ts5, au4);
            },
        }
        assert(take_seconds(ts5, au4) == Ok::<_, ParseError>(
            (Seq::<Token>::empty(), au5, total_nanos(sec) as u32),
        ));
        assert(finish(Seq::<Token>::empty(), e, au5, total_nanos(sec) as u32)
            == Ok::<_, ParseError>((au5, total_nanos(sec) as u32)));
    } else {
        assert(ts2.len() == 0);
        assert(finish(ts2, e, au2, 0u32) == Ok::<_, ParseError>((au2, 0u32)));
    }
    assert(spec_parse_tokens(toks, e) == Ok::<(u64, u32), ParseError>(
        (total_secs(w, d, h, m, sec) as u64, total_nanos(sec) as u32),
    ));
}

/// Tokenizing loses nothing: the walk and the trailing text reassemble the
/// string.
proof fn lemma_untokens(s: Seq<char>)
    ensures
        s == untokens(tokens_of(s), trailing_of(s)),
    decreases s.len(),
{
    lemma_first_letter_bounds(s);
    let i = first_letter(s);
    if 0 <= i < s.len() {
        let rest = s.subrange(i + 1, s.len() as int);
        lemma_untokens(rest);
        assert(tokens_of(s).drop_first() =~= tokens_of(rest));
        assert(s =~= s.subrange(0, i) + seq![s[i]] + untokens(tokens_of(rest), trailing_of(rest)));
    }
}

/// The token walk of a duration expression with the given fields: one token
/// per present field, in canonical order.
spec fn opt_token(b: Option<Seq<char>>, des: char) -> Seq<Token> {
    match b {
        None => Seq::empty(),
        Some(x) => seq![(x, des)],
    }
}

/// The token of an optional seconds field.
spec fn sec_token(sec: Option<(Seq<char>, Option<Seq<char>>)>) -> Seq<Token> {
    match sec {
        None => Seq::empty(),
        Some(p) => seq![(seconds_body(p.0, p.1), 'S')],
    }
}

/// The token walk that a field assignment writes out to.
spec fn expected_tokens(
    w: Option<Seq<char>>,
    d: Option<Seq<char>>,
    t: bool,
    h: Option<Seq<char>>,
    m: Option<Seq<char>>,
    sec: Option<(Seq<char>, Option<Seq<char>>)>,
) -> Seq<Token> {
    seq![(Seq::<char>::empty(), 'P')] + opt_token(w, 'W') + opt_token(d, 'D') + (if t {
        seq![(Seq::<char>::empty(), 'T')] + opt_token(h, 'H') + opt_token(m, 'M') + sec_token(sec)
    } else {
        Seq::empty()
    })
}

/// A string whose walk is exactly the expected token list of a field
/// assignment, with nothing trailing, is that assignment written out.
#[verifier::rlimit(100)]
proof fn lemma_reassemble(
    s: Seq<char>,
    w: Option<Seq<char>>,
    d: Option<Seq<char>>,
    t: bool,
    h: Option<Seq<char>>,
    m: Option<Seq<char>>,
    sec: Option<(Seq<char>, Option<Seq<char>>)>,
)
    requires
        trailing_of(s).len() == 0,
        tokens_of(s) == expected_tokens(w, d, t, h, m, sec),
        !t ==> h is None && m is None && sec is None,
    ensures
        s == render(w, d, t, h, m, sec),
{
    let e = Seq::<char>::empty();
    let tr = trailing_of(s);
    lemma_untokens(s);
    assert(tr =~= e);

    let tk5 = sec_token(sec);
    let tk4 = opt_token(m, 'M') + tk5;
    let tk3 = opt_token(h, 'H') + tk4;
    let tk2: Seq<Token> = if t {
        seq![(e, 'T')] + tk3
    } else {
        Seq::empty()
    };
    let tk1 = opt_token(d, 'D') + tk2;
    let tk0 = opt_token(w, 'W') + tk1;
    let toks = seq![(e, 'P')] + tk0;
    assert(tokens_of(s) =~= toks);

    let r5 = opt_seconds(sec);
    match sec {
        None => {
            assert(untokens(tk5, tr) =~= r5);
        },
        Some(p) => {
            assert(tk5[0] == (seconds_body(p.0, p.1), 'S'));
            assert(tk5.drop_first() =~= Seq::<Token>::empty());
            assert(untokens(tk5.drop_first(), tr) =~= e);
            assert(untokens(tk5, tr) =~= r5);
        },
    }
    let r4 = opt_field(m, 'M') + r5;
    match m {
        None => {
            assert(tk4 =~= tk5);
            assert(untokens(tk4, tr) =~= r4);
        },
        Some(b) => {
            assert(tk4[0] == (b, 'M'));
            assert(tk4.drop_first() =~= tk5);
            assert(untokens(tk4, tr) =~= r4);
        },
    }
    let r3 = opt_field(h, 'H') + r4;
    match h {
        None => {
            assert(tk3 =~= tk4);
            assert(untokens(tk3, tr) =~= r3);
        },
        Some(b) => {
            assert(tk3[0] == (b, 'H'));
            assert(tk3.drop_first() =~= tk4);
            assert(untokens(tk3, tr) =~= r3);
        },
    }
    let r2: Seq<char> = if t {
        seq!['T'] + r3
    } else {
        e
    };
    if t {
        assert(tk2[0] == (e, 'T'));
        assert(tk2.drop_first() =~= tk3);
        assert(untokens(tk2, tr) =~= r2);
    } else {
        assert(untokens(tk2, tr) =~= r2);
    }
    let r1 = opt_field(d, 'D') + r2;
    match d {
        None => {
            assert(tk1 =~= tk2);
            assert(untokens(tk1, tr) =~= r1);
        },
        Some(b) => {
            assert(tk1[0] == (b, 'D'));
            assert(tk1.drop_first() =~= tk2);
            assert(untokens(tk1, tr) =~= r1);
        },
    }
    let r0 = opt_field(w, 'W') + r1;
    match w {
        None => {
            assert(tk0 =~= tk1);
            assert(untokens(tk0, tr) =~= r0);
        },
        Some(b) => {
            assert(tk0[0] == (b, 'W'));
            assert(tk0.drop_first() =~= tk1);
            assert(untokens(tk0, tr) =~= r0);
        },
    }
    assert(toks[0] == (e, 'P'));
    assert(toks.drop_first() =~= tk0);
    assert(untokens(toks, tr) =~= e + seq!['P'] + r0);
    assert(s =~= render(w, d, t, h, m, sec));
}

/// Nothing outside the grammar is accepted: whenever an expression parses,
/// there is a well-formed assignment of fields that writes out to exactly
/// that expression, and the parsed value is its weighted sum.
#[verifier::rlimit(100)]
pub proof fn lemma_parse_sound(s: Seq<char>, secs: u64, ns: u32)
    requires
        spec_parse(s) == Ok::<(u64, u32), ParseError>((secs, ns)),
    ensures
        matches_grammar(s, secs, ns),
{
    let e = Seq::<char>::empty();
    let toks = tokens_of(s);
    let trail = trailing_of(s);
    lemma_untokens(s);

    assert(toks.len() > 0 && toks[0].1 == 'P' && toks[0].0.len() == 0);
    let t0 = toks.drop_first();

    let rw = take_field(t0, 'W', SECS_PER_WEEK, 0);
    assert(rw is Ok);
    let t1 = rw->Ok_0.0;
    let a1 = rw->Ok_0.1;
    let w_hit = t0.len() > 0 && t0[0].1 == 'W';
    let w: Option<Seq<char>> = if w_hit {
        Some(t0[0].0)
    } else {
        None
    };
    assert(valid_opt(w));
    assert(a1 == opt_val(w) * SECS_PER_WEEK);

    let rd = take_field(t1, 'D', SECS_PER_DAY, a1);
    assert(rd is Ok);
    let t2 = rd->Ok_0.0;
    let a2 = rd->Ok_0.1;
    let d_hit = t1.len() > 0 && t1[0].1 == 'D';
    let d: Option<Seq<char>> = if d_hit {
        Some(t1[0].0)
    } else {
        None
    };
    assert(valid_opt(d));
    assert(a2 == a1 + opt_val(d) * SECS_PER_DAY);

    let t_hit = t2.len() > 0 && t2[0].1 == 'T';
    if t_hit {
        assert(t2[0].0.len() == 0);
        let t3 = t2.drop_first();
        let rh = take_field(t3, 'H', SECS_PER_HOUR, a2);
        assert(rh is Ok);
        let t4 = rh->Ok_0.0;
        let a3 = rh->Ok_0.1;
        let h_hit = t3.len() > 0 && t3[0].1 == 'H';
        let h: Option<Seq<char>> = if h_hit {
            Some(t3[0].0)
        } else {
            None
        };
        assert(valid_opt(h));
        assert(a3 == a2 + opt_val(h) * SECS_PER_HOUR);

        let rm = take_field(t4, 'M', SECS_PER_MINUTE, a3);
        assert(rm is Ok);
        let t5 = rm->Ok_0.0;
        let a4 = rm->Ok_0.1;
        let m_hit = t4.len() > 0 && t4[0].1 == 'M';
        let m: Option<Seq<char>> = if m_hit {
            Some(t4[0].0)
        } else {
            None
        };
        assert(valid_opt(m));
        assert(a4 == a3 + opt_val(m) * SECS_PER_MINUTE);

        let rs = take_seconds(t5, a4);
        assert(rs is Ok);
        let t6 = rs->Ok_0.0;
        let a5 = rs->Ok_0.1;
        let nss = rs->Ok_0.2;
        let s_hit = t5.len() > 0 && t5[0].1 == 'S';
        let sec: Option<(Seq<char>, Option<Seq<char>>)> = if s_hit {
            let body = t5[0].0;
            let dd = first_dot(body);
            if 0 <= dd < body.len() {
                Some((body.subrange(0, dd), Some(body.subrange(dd + 1, body.len() as int))))
            } else {
                Some((body, None))
            }
        } else {
            None
        };
        if s_hit {
            let body = t5[0].0;
            let dd = first_dot(body);
            lemma_first_dot_found(body);
            if 0 <= dd < body.len() {
                let f = body.subrange(dd + 1, body.len() as int);
                assert(spec_to_nanos(f) is Ok);
                lemma_frac_nanos_bound(f);
                assert(nss == frac_nanos(f));
                assert(body =~= seconds_body(
                    body.subrange(0, dd),
                    Some(body.subrange(dd + 1, body.len() as int)),
                ));
            } else {
                assert(nss == 0);
                assert(body == seconds_body(body, None));
            }
            assert(t6 == t5.drop_first());
        } else {
            assert(t6 == t5 && a5 == a4 && nss == 0);
        }
        assert(valid_sec(sec));
        assert(a5 == a4 + sec_whole_val(sec));
        assert(nss == total_nanos(sec));

        assert(finish(t6, trail, a5, nss) == Ok::<(u64, u32), ParseError>((secs, ns)));
        assert(t6.len() == 0 && trail.len() == 0);
        assert(secs == a5 && ns == nss);

        // The walk is exactly the expected token list of the witnesses.
        assert(t5 =~= sec_token(sec));
        assert(t4 =~= opt_token(m, 'M') + t5);
        assert(t3 =~= opt_token(h, 'H') + t4);
        assert(t2[0].0 =~= e);
        assert(t2 =~= seq![(e, 'T')] + t3);
        assert(t1 =~= opt_token(d, 'D') + t2);
        assert(t0 =~= opt_token(w, 'W') + t1);
        assert(toks[0].0 =~= e);
        assert(toks =~= seq![(e, 'P')] + t0);
        assert(toks =~= expected_tokens(w, d, true, h, m, sec));
        lemma_reassemble(s, w, d, true, h, m, sec);

        assert(grammar_ok(w, d, true, h, m, sec));
        assert(secs == total_secs(w, d, h, m, sec));
        assert(s == render(w, d, true, h, m, sec));
        assert(matches_grammar(s, secs, ns));
    } else {
        assert(finish(t2, trail, a2, 0) == Ok::<(u64, u32), ParseError>((secs, ns)));
        assert(t2.len() == 0 && trail.len() == 0);
        assert(secs == a2 && ns == 0);

        assert(t1 =~= opt_token(d, 'D') + t2);
        assert(t0 =~= opt_token(w, 'W') + t1);
        assert(toks[0].0 =~= e);
        assert(toks =~= seq![(e, 'P')] + t0);
        assert(toks =~= expected_tokens(w, d, false, None, None, None));
        lemma_reassemble(s, w, d, false, None, None, None);

        assert(grammar_ok(w, d, false, None, None, None));
        assert(secs == total_secs(w, d, None, None, None));
        assert(ns == total_nanos(None));
        assert(s == render(w, d, false, None, None, None));
        assert(matches_grammar(s, secs, ns));
    }
}

/// Re-parsing the same string yields bit-identical results: the contract of
/// [`crate::parser::parse`] admits exactly one result per input, so two calls
/// on one string cannot disagree.
pub proof fn lemma_parse_deterministic(
    s: Seq<char>,
    r1: Result<crate::duration::Duration, ParseError>,
    r2: Result<crate::duration::Duration, ParseError>,
)
    requires
        crate::parser::parse_returns(s, r1),
        crate::parser::parse_returns(s, r2),
    ensures
        r1 == r2,
{
}

} // verus!

