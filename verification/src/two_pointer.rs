//! The two-pointer matcher: one forward-only cursor over the text advances
//! unconditionally each step, one over the word advances only on a character
//! match.

use vstd::prelude::*;
use vstd::string::StrSliceExecFns;
use crate::subsequence::{is_subsequence_of, lemma_length_dominance, matches_spec};

verus! {

/// A forward-only window into a string: `left` is the first character not
/// yet consumed from the front, `right` the first position past the
/// characters not yet consumed from the back.
pub struct TwoPointerStringSlice<'a> {
    s: &'a str,
    left: usize,
    right: usize,
}

impl<'a> TwoPointerStringSlice<'a> {
    /// The cursors stay ordered and inside the string.
    pub closed spec fn wf(self) -> bool {
        self.left <= self.right <= self.s@.len()
    }

    /// The characters not yet consumed from either end.
    pub closed spec fn remaining(self) -> Seq<char> {
        self.s@.subrange(self.left as int, self.right as int)
    }

    /// A window over the whole of `s`; an empty string has no window.
    pub fn new(s: &'a str) -> (result: Result<Self, ()>)
        ensures
            (result is Ok) == (s@.len() > 0),
            result is Ok ==> result->Ok_0.wf() && result->Ok_0.remaining() == s@,
    {
        let n = s.unicode_len();
        if n == 0 {
            Err(())
        } else {
            let slice = TwoPointerStringSlice { s, left: 0, right: n };
            proof {
                assert(slice.remaining() =~= s@);
            }
            Ok(slice)
        }
    }

    /// The first remaining character, if any remains.
    pub fn left(&self) -> (c: Option<char>)
        requires
            self.wf(),
        ensures
            self.remaining().len() > 0 ==> c == Some(self.remaining()[0]),
            self.remaining().len() == 0 ==> c is None,
    {
        if self.left < self.right {
            Some(self.s.get_char(self.left))
        } else {
            None
        }
    }

    /// The last remaining character, if any remains.
    pub fn right(&self) -> (c: Option<char>)
        requires
            self.wf(),
        ensures
            self.remaining().len() > 0 ==> c == Some(self.remaining().last()),
            self.remaining().len() == 0 ==> c is None,
    {
        if self.left < self.right {
            Some(self.s.get_char(self.right - 1))
        } else {
            None
        }
    }

    /// How many characters remain.
    pub fn length(&self) -> (n: usize)
        requires
            self.wf(),
        ensures
            n == self.remaining().len(),
    {
        self.right - self.left
    }

    /// Consumes and returns the first remaining character; `None` once the
    /// window is exhausted.
    pub fn next_left(&mut self) -> (c: Option<char>)
        requires
            old(self).wf(),
        ensures
            final(self).wf(),
            old(self).remaining().len() == 0 ==> c is None && *final(self) == *old(self),
            old(self).remaining().len() > 0 ==> c == Some(old(self).remaining()[0])
                && final(self).remaining() == old(self).remaining().skip(1),
    {
        if self.left < self.right {
            let ret = self.s.get_char(self.left);
            self.left = self.left + 1;
            proof {
                assert(self.remaining() =~= old(self).remaining().skip(1));
            }
            Some(ret)
        } else {
            None
        }
    }

    /// Consumes and returns the last remaining character; `None` once the
    /// window is exhausted.
    pub fn next_right(&mut self) -> (c: Option<char>)
        requires
            old(self).wf(),
        ensures
            final(self).wf(),
            old(self).remaining().len() == 0 ==> c is None && *final(self) == *old(self),
            old(self).remaining().len() > 0 ==> c == Some(old(self).remaining().last())
                && final(self).remaining() == old(self).remaining().drop_last(),
    {
        if self.left < self.right {
            let ret = self.s.get_char(self.right - 1);
            self.right = self.right - 1;
            proof {
                assert(self.remaining() =~= old(self).remaining().drop_last());
            }
            Some(ret)
        } else {
            None
        }
    }

    /// The remaining characters as a string slice.
    pub fn substring(&self) -> (ret: &str)
        requires
            self.wf(),
        ensures
            ret@ == self.remaining(),
    {
        self.s.substring_char(self.left, self.right)
    }

    /// Whether every character has been consumed.
    pub fn is_complete(&self) -> (b: bool)
        requires
            self.wf(),
        ensures
            b == (self.remaining().len() == 0),
    {
        self.left >= self.right
    }
}

/// The two-pointer matcher: true exactly when the text is non-empty and the
/// word is a subsequence of it. The text cursor advances once per step; the
/// word cursor advances only when the two current characters agree.
#[verifier::loop_isolation(false)]
pub fn two_pointer_solver(s: &str, word: &str) -> (r: bool)
    ensures
        r == matches_spec(s@, word@),
{
    if s.unicode_len() < word.unicode_len() {
        proof {
            lemma_length_dominance(s@, word@);
        }
        return false;
    }
    let mut s_slice = match TwoPointerStringSlice::new(s) {
        Ok(sl) => sl,
        Err(_) => {
            return false;
        },
    };
    let mut word_slice = match TwoPointerStringSlice::new(word) {
        Ok(sl) => sl,
        Err(_) => {
            return true;
        },
    };
    while !s_slice.is_complete()
        invariant
            s_slice.wf(),
            word_slice.wf(),
            word_slice.remaining().len() > 0,
            is_subsequence_of(word@, s@) == is_subsequence_of(
                word_slice.remaining(),
                s_slice.remaining(),
            ),
        decreases s_slice.remaining().len(),
    {
        let ghost rem_s = s_slice.remaining();
        let ghost rem_w = word_slice.remaining();
        if let Some(s_left) = s_slice.next_left() {
            if let Some(word_left) = word_slice.left() {
                if s_left == word_left {
                    word_slice.next_left();
                    proof {
                        assert(is_subsequence_of(rem_w, rem_s) == is_subsequence_of(
                            rem_w.skip(1),
                            rem_s.skip(1),
                        ));
                    }
                } else {
                    proof {
                        assert(is_subsequence_of(rem_w, rem_s) == is_subsequence_of(
                            rem_w,
                            rem_s.skip(1),
                        ));
                    }
                }
            }
        }
        if word_slice.is_complete() {
            return true;
        }
    }
    false
}

} // verus!
