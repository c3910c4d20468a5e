//! The tokenizer: one pass over the input, splitting it into
//! `(numeric-body, designator-letter)` pairs.

use vstd::prelude::*;

use crate::model::first_letter;
use crate::model::is_ascii_letter;
use crate::model::lemma_first_letter_at;
use crate::model::lemma_first_letter_none;

verus! {

/// A cursor over the part of the input not yet split into tokens. Each call
/// of [`Parts::next`] finds the next ASCII letter, yields everything since
/// the previous letter as the body and the letter itself as the designator,
/// and moves past it. No validation happens here.
pub struct Parts<'s> {
    rest: &'s str,
}

impl<'s> View for Parts<'s> {
    type V = Seq<char>;

    closed spec fn view(&self) -> Seq<char> {
        self.rest@
    }
}

impl<'s> Parts<'s> {
    /// Starts a token walk over `inner`.
    pub fn new(inner: &'s str) -> (p: Parts<'s>)
        ensures
            p@ == inner@,
    {
        Parts { rest: inner }
    }

    /// The part of the input not yet consumed.
    pub fn remainder(&self) -> (r: &'s str)
        ensures
            r@ == self@,
    {
        self.rest
    }

    /// Yields the next `(body, designator)` pair, or nothing when no ASCII
    /// letter is left; in that case the cursor does not move.
    #[verifier::loop_isolation(false)]
    pub fn next(&mut self) -> (r: Option<(&'s str, char)>)
        ensures
            ({
                let s = old(self)@;
                let i = first_letter(s);
                match r {
                    Some(t) => 0 <= i < s.len() && t.0@ == s.subrange(0, i) && t.1 == s[i]
                        && final(self)@ == s.subrange(i + 1, s.len() as int),
                    None => i < 0 && final(self)@ == s,
                }
            }),
    {
        let ghost s = self.rest@;
        let n = self.rest.unicode_len();
        let mut i: usize = 0;
        while i < n
            invariant
                i <= n,
                n == s.len(),
                self.rest@ == s,
                forall|j: int| 0 <= j < i ==> !is_ascii_letter(#[trigger] s[j]),
            decreases n - i,
        {
            let c = self.rest.get_char(i);
            if ('a' <= c && c <= 'z') || ('A' <= c && c <= 'Z') {
                proof {
                    lemma_first_letter_at(s, i as int);
                }
                let body = self.rest.substring_char(0, i);
                let tail = self.rest.substring_char(i + 1, n);
                self.rest = tail;
                return Some((body, c));
            }
            i += 1;
        }
        proof {
            lemma_first_letter_none(s);
        }
        None
    }
}

} // verus!
