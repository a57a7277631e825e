//! The mathematical model shared by all matchers: what it means for a word
//! to be a subsequence of a text, and the laws every matcher obeys.

use vstd::prelude::*;

verus! {

/// `word` is a subsequence of `text`: the characters of `word` occur in
/// `text` in the same relative order, not necessarily contiguously.
///
/// Stated as the greedy forward scan: an empty word always embeds, a
/// non-empty word never embeds in an empty text, and otherwise the first
/// text character is consumed, matching the first word character when the
/// two are equal. `lemma_subsequence_iff_witness` shows this equals the
/// declarative characterisation by strictly increasing positions.
pub open spec fn is_subsequence_of(word: Seq<char>, text: Seq<char>) -> bool
    decreases text.len(),
{
    if word.len() == 0 {
        true
    } else if text.len() == 0 {
        false
    } else if text[0] == word[0] {
        is_subsequence_of(word.skip(1), text.skip(1))
    } else {
        is_subsequence_of(word, text.skip(1))
    }
}

/// What every matcher returns for a given text and word: an empty text
/// matches no word, not even an empty one — a deliberate policy of this
/// library — and otherwise the word must be a subsequence of the text.
pub open spec fn matches_spec(text: Seq<char>, word: Seq<char>) -> bool {
    text.len() > 0 && is_subsequence_of(word, text)
}

/// `positions` embeds `word` into `text`: one text position per word
/// character, holding that character, the positions strictly increasing.
pub open spec fn is_match_witness(word: Seq<char>, text: Seq<char>, positions: Seq<int>) -> bool {
    &&& positions.len() == word.len()
    &&& forall|i: int|
        0 <= i < positions.len() ==> 0 <= #[trigger] positions[i] < text.len()
            && text[positions[i]] == word[i]
    &&& forall|i: int| 0 < i < positions.len() ==> positions[i - 1] < #[trigger] positions[i]
}

/// The declarative reading of "subsequence": some strictly increasing choice
/// of text positions spells out the word.
pub open spec fn has_match_witness(word: Seq<char>, text: Seq<char>) -> bool {
    exists|positions: Seq<int>| is_match_witness(word, text, positions)
}

/// A word that embeds in a text is no longer than the text.
pub proof fn lemma_subsequence_length(word: Seq<char>, text: Seq<char>)
    requires
        is_subsequence_of(word, text),
    ensures
        word.len() <= text.len(),
    decreases text.len(),
{
    if word.len() == 0 {
    } else if text[0] == word[0] {
        lemma_subsequence_length(word.skip(1), text.skip(1));
    } else {
        lemma_subsequence_length(word, text.skip(1));
    }
}

/// Length dominance: a word longer than the text matches nothing.
pub proof fn lemma_length_dominance(text: Seq<char>, word: Seq<char>)
    requires
        word.len() > text.len(),
    ensures
        !matches_spec(text, word),
{
    if is_subsequence_of(word, text) {
        lemma_subsequence_length(word, text);
    }
}

/// A word whose first character never occurs in the text is no subsequence
/// of it.
pub proof fn lemma_no_occurrence(word: Seq<char>, text: Seq<char>)
    requires
        word.len() > 0,
        forall|i: int| 0 <= i < text.len() ==> text[i] != word[0],
    ensures
        !is_subsequence_of(word, text),
    decreases text.len(),
{
    if text.len() > 0 {
        assert(forall|i: int| 0 <= i < text.skip(1).len() ==> text.skip(1)[i] == text[i + 1]);
        lemma_no_occurrence(word, text.skip(1));
    }
}

/// The greedy step: when `text[j]` is the first occurrence of the word's
/// first character, the word embeds in the text exactly when the rest of the
/// word embeds in the text after position `j`. This is why consuming the
/// earliest usable position never loses a match.
pub proof fn lemma_greedy_step(word: Seq<char>, text: Seq<char>, j: int)
    requires
        word.len() > 0,
        0 <= j < text.len(),
        text[j] == word[0],
        forall|i: int| 0 <= i < j ==> text[i] != word[0],
    ensures
        is_subsequence_of(word, text) == is_subsequence_of(word.skip(1), text.skip(j + 1)),
    decreases j,
{
    if j == 0 {
    } else {
        let t1 = text.skip(1);
        assert(forall|i: int| 0 <= i < t1.len() ==> t1[i] == text[i + 1]);
        lemma_greedy_step(word, t1, j - 1);
        assert(t1.skip(j) =~= text.skip(j + 1));
    }
}

/// An empty word matches every non-empty text.
pub proof fn lemma_empty_word(text: Seq<char>)
    requires
        text.len() > 0,
    ensures
        matches_spec(text, Seq::<char>::empty()),
{
}

/// An empty text matches no word, the empty word included.
pub proof fn lemma_empty_text(word: Seq<char>)
    ensures
        !matches_spec(Seq::<char>::empty(), word),
{
}

/// A matcher's verdict is a function of the text and the word alone, so two
/// calls on identical inputs return identical results.
pub proof fn lemma_match_deterministic(
    text1: Seq<char>,
    word1: Seq<char>,
    text2: Seq<char>,
    word2: Seq<char>,
)
    requires
        text1 == text2,
        word1 == word2,
    ensures
        matches_spec(text1, word1) == matches_spec(text2, word2),
{
}

/// Dropping the first matched position of a witness embeds the rest of the
/// word into the rest of the text.
proof fn lemma_witness_drop_head(word: Seq<char>, text: Seq<char>)
    requires
        word.len() > 0,
        has_match_witness(word, text),
    ensures
        has_match_witness(word.skip(1), text.skip(1)),
{
    let p = choose|p: Seq<int>| is_match_witness(word, text, p);
    let q = p.skip(1).map(|_i: int, x: int| x - 1);
    assert forall|i: int| 0 <= i < q.len() implies 0 <= #[trigger] q[i] < text.skip(1).len()
        && text.skip(1)[q[i]] == word.skip(1)[i] by {
        assert(q[i] == p.skip(1)[i] - 1);
        assert(p.skip(1)[i] == p[i + 1]);
        assert(p[i + 1] > p[i] >= 0);
        assert(text.skip(1)[p[i + 1] - 1] == text[p[i + 1]]);
        assert(word.skip(1)[i] == word[i + 1]);
    }
    assert forall|i: int| 0 < i < q.len() implies q[i - 1] < #[trigger] q[i] by {
        assert(q[i - 1] == p[i] - 1 && q[i] == p[i + 1] - 1);
    }
    assert(is_match_witness(word.skip(1), text.skip(1), q));
}

/// When the heads agree, a witness for the tails extends to a witness that
/// matches the word's first character at text position zero.
proof fn lemma_witness_add_head(word: Seq<char>, text: Seq<char>)
    requires
        word.len() > 0,
        text.len() > 0,
        text[0] == word[0],
        has_match_witness(word.skip(1), text.skip(1)),
    ensures
        has_match_witness(word, text),
{
    let q = choose|q: Seq<int>| is_match_witness(word.skip(1), text.skip(1), q);
    let p = seq![0int].add(q.map(|_i: int, x: int| x + 1));
    assert forall|i: int| 0 <= i < p.len() implies 0 <= #[trigger] p[i] < text.len() && text[p[i]]
        == word[i] by {
        if i > 0 {
            assert(p[i] == q[i - 1] + 1);
            assert(text.skip(1)[q[i - 1]] == text[q[i - 1] + 1]);
            assert(word.skip(1)[i - 1] == word[i]);
        }
    }
    assert forall|i: int| 0 < i < p.len() implies p[i - 1] < #[trigger] p[i] by {
        if i == 1 {
            assert(p[0] == 0 && p[1] == q[0] + 1 && q[0] >= 0);
        } else {
            assert(p[i - 1] == q[i - 2] + 1 && p[i] == q[i - 1] + 1);
        }
    }
    assert(is_match_witness(word, text, p));
}

/// A witness that avoids text position zero moves, intact, one position to
/// the left in the shortened text.
proof fn lemma_witness_into_tail(word: Seq<char>, text: Seq<char>)
    requires
        word.len() > 0,
        text.len() > 0,
        text[0] != word[0],
        has_match_witness(word, text),
    ensures
        has_match_witness(word, text.skip(1)),
{
    let p = choose|p: Seq<int>| is_match_witness(word, text, p);
    let q = p.map(|_i: int, x: int| x - 1);
    assert forall|i: int| 0 <= i < q.len() implies 0 <= #[trigger] q[i] < text.skip(1).len()
        && text.skip(1)[q[i]] == word[i] by {
        assert(q[i] == p[i] - 1);
        if i == 0 {
            assert(text[p[0]] == word[0]);
            assert(p[0] != 0);
        } else {
            assert(p[i] > p[i - 1] >= 0);
        }
        assert(text.skip(1)[p[i] - 1] == text[p[i]]);
    }
    assert forall|i: int| 0 < i < q.len() implies q[i - 1] < #[trigger] q[i] by {
        assert(q[i - 1] == p[i - 1] - 1 && q[i] == p[i] - 1);
    }
    assert(is_match_witness(word, text.skip(1), q));
}

/// A witness in a suffix of the text is a witness in the text itself, moved
/// one position to the right.
proof fn lemma_witness_from_tail(word: Seq<char>, text: Seq<char>)
    requires
        text.len() > 0,
        has_match_witness(word, text.skip(1)),
    ensures
        has_match_witness(word, text),
{
    let q = choose|q: Seq<int>| is_match_witness(word, text.skip(1), q);
    let p = q.map(|_i: int, x: int| x + 1);
    assert forall|i: int| 0 <= i < p.len() implies 0 <= #[trigger] p[i] < text.len() && text[p[i]]
        == word[i] by {
        assert(p[i] == q[i] + 1);
        assert(text.skip(1)[q[i]] == text[q[i] + 1]);
    }
    assert forall|i: int| 0 < i < p.len() implies p[i - 1] < #[trigger] p[i] by {
        assert(p[i - 1] == q[i - 1] + 1 && p[i] == q[i] + 1);
    }
    assert(is_match_witness(word, text, p));
}

/// The greedy scan and the declarative position-witness reading agree on
/// every word and text.
pub proof fn lemma_subsequence_iff_witness(word: Seq<char>, text: Seq<char>)
    ensures
        is_subsequence_of(word, text) == has_match_witness(word, text),
    decreases text.len(),
{
    if word.len() == 0 {
        let empty_witness = Seq::<int>::empty();
        assert(is_match_witness(word, text, empty_witness));
    } else if text.len() == 0 {
        if has_match_witness(word, text) {
            let p = choose|p: Seq<int>| is_match_witness(word, text, p);
            assert(0 <= p[0] && p[0] < text.len());
        }
    } else if text[0] == word[0] {
        lemma_subsequence_iff_witness(word.skip(1), text.skip(1));
        if has_match_witness(word.skip(1), text.skip(1)) {
            lemma_witness_add_head(word, text);
        }
        if has_match_witness(word, text) {
            lemma_witness_drop_head(word, text);
        }
    } else {
        lemma_subsequence_iff_witness(word, text.skip(1));
        if has_match_witness(word, text.skip(1)) {
            lemma_witness_from_tail(word, text);
        }
        if has_match_witness(word, text) {
            lemma_witness_into_tail(word, text);
        }
    }
}

/// The agreement behind the three matchers: the cursor-based greedy
/// characterisation that the scanning matchers satisfy coincides with the
/// position-witness characterisation that the index-table matcher realises.
/// Together with each matcher's contract — every one returns exactly
/// `matches_spec(text, word)` — any two matchers agree on every input.
pub proof fn lemma_matchers_agree(text: Seq<char>, word: Seq<char>)
    ensures
        matches_spec(text, word) == (text.len() > 0 && has_match_witness(word, text)),
{
    lemma_subsequence_iff_witness(word, text);
}

} // verus!
