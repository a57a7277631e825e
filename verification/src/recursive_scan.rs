//! The recursive forward-scan matcher: a forward-only cursor over the text
//! is scanned past each required word character in turn, recursing with the
//! advanced cursors.

use vstd::prelude::*;
use vstd::string::StrSliceExecFns;
use crate::subsequence::{
    is_subsequence_of, lemma_greedy_step, lemma_length_dominance, lemma_no_occurrence,
    matches_spec,
};

verus! {

/// Matches the word suffix starting at `w_from` against the text suffix
/// starting at `s_from`: scans the text cursor forward to the next
/// occurrence of the current word character, then recurses past both.
#[verifier::loop_isolation(false)]
pub fn linked_list_solver(s: &str, word: &str, s_from: usize, w_from: usize) -> (r: bool)
    requires
        s_from <= s@.len(),
        w_from <= word@.len(),
    ensures
        r == is_subsequence_of(word@.skip(w_from as int), s@.skip(s_from as int)),
    decreases s@.len() - s_from,
{
    let ghost word_suffix = word@.skip(w_from as int);
    let ghost text_suffix = s@.skip(s_from as int);
    if w_from == word.unicode_len() {
        proof {
            assert(word_suffix.len() == 0);
        }
        true
    } else {
        let first_word_char = word.get_char(w_from);
        proof {
            assert(word_suffix[0] == word@[w_from as int]);
        }
        let mut i = s_from;
        let s_len = s.unicode_len();
        while i < s_len
            invariant
                s_from <= i <= s@.len(),
                s_len == s@.len(),
                w_from < word@.len(),
                first_word_char == word@[w_from as int],
                forall|k: int| s_from <= k < i ==> s@[k] != word@[w_from as int],
            decreases s@.len() - i,
        {
            if s.get_char(i) == first_word_char {
                let r = linked_list_solver(s, word, i + 1, w_from + 1);
                proof {
                    assert forall|k: int| 0 <= k < i - s_from implies text_suffix[k]
                        != word_suffix[0] by {
                        assert(text_suffix[k] == s@[s_from + k]);
                    }
                    assert(text_suffix[i - s_from] == s@[i as int]);
                    lemma_greedy_step(word_suffix, text_suffix, i - s_from);
                    assert(word_suffix.skip(1) =~= word@.skip(w_from + 1));
                    assert(text_suffix.skip(i - s_from + 1) =~= s@.skip(i + 1));
                }
                return r;
            }
            i += 1;
        }
        proof {
            assert forall|k: int| 0 <= k < text_suffix.len() implies text_suffix[k]
                != word_suffix[0] by {
                assert(text_suffix[k] == s@[s_from + k]);
            }
            lemma_no_occurrence(word_suffix, text_suffix);
        }
        false
    }
}

/// The recursive-scan matcher: true exactly when the text is non-empty and
/// the word is a subsequence of it. A word longer than the text is rejected
/// before any scanning, as is an empty text.
pub fn linked_list_solver_wrapper(s: &str, word: &str) -> (r: bool)
    ensures
        r == matches_spec(s@, word@),
{
    let s_len = s.unicode_len();
    let word_len = word.unicode_len();
    if s_len < word_len {
        proof {
            lemma_length_dominance(s@, word@);
        }
        return false;
    }
    if s_len == 0 {
        return false;
    }
    let r = linked_list_solver(s, word, 0, 0);
    proof {
        assert(word@.skip(0) =~= word@);
        assert(s@.skip(0) =~= s@);
    }
    r
}

} // verus!
