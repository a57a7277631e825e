//! The counting operation: applies one matcher across a word list and
//! counts the words it accepts.

use vstd::prelude::*;
use vstd::multiset::Multiset;
use vstd::slice::slice_index_get;
use crate::subsequence::matches_spec;

verus! {

/// How many of `words` match `text`: the number of indices whose word
/// satisfies `matches_spec`.
pub open spec fn match_count(text: Seq<char>, words: Seq<Seq<char>>) -> nat
    decreases words.len(),
{
    if words.len() == 0 {
        0
    } else {
        match_count(text, words.drop_last()) + if matches_spec(text, words.last()) {
            1nat
        } else {
            0nat
        }
    }
}

/// `match_count` counted through the bag of words: it equals the number of
/// matching words with multiplicity, whatever their order.
pub proof fn lemma_match_count_as_multiset(text: Seq<char>, words: Seq<Seq<char>>)
    ensures
        match_count(text, words) == words.to_multiset().filter(
            |w: Seq<char>| matches_spec(text, w),
        ).len(),
    decreases words.len(),
{
    broadcast use vstd::seq_lib::group_to_multiset_ensures;
    broadcast use vstd::multiset::group_multiset_axioms;
    broadcast use vstd::multiset::group_multiset_properties;

    let f = |w: Seq<char>| matches_spec(text, w);
    if words.len() == 0 {
        assert(words.to_multiset() =~= Multiset::<Seq<char>>::empty());
        assert(words.to_multiset().filter(f) =~= Multiset::<Seq<char>>::empty());
    } else {
        let prefix = words.drop_last();
        let w = words.last();
        lemma_match_count_as_multiset(text, prefix);
        assert(words =~= prefix.push(w));
        assert(prefix.push(w).to_multiset() =~= prefix.to_multiset().insert(w));
        if f(w) {
            assert(words.to_multiset().filter(f) =~= prefix.to_multiset().filter(f).insert(w));
        } else {
            assert(words.to_multiset().filter(f) =~= prefix.to_multiset().filter(f));
        }
    }
}

/// The order of the word list is irrelevant to the count: two lists holding
/// the same words, with multiplicity, have the same match count.
pub proof fn lemma_match_count_ignores_order(
    text: Seq<char>,
    words1: Seq<Seq<char>>,
    words2: Seq<Seq<char>>,
)
    requires
        words1.to_multiset() == words2.to_multiset(),
    ensures
        match_count(text, words1) == match_count(text, words2),
{
    lemma_match_count_as_multiset(text, words1);
    lemma_match_count_as_multiset(text, words2);
}

/// Applies `solver` to every word and counts how many it accepts. For any
/// solver that decides `matches_spec` — each of the three matchers does —
/// the result is exactly `match_count` of the text and the word list.
#[verifier::loop_isolation(false)]
pub fn count_substrings_impl<T>(s: &str, words: &[&str], solver: T) -> (count: usize) where
    T: Fn(&str, &str) -> bool,

    requires
        forall|i: int| 0 <= i < words@.len() ==> call_requires(solver, (s, #[trigger] words@[i])),
        forall|w: &str, b: bool| #[trigger] call_ensures(solver, (s, w), b) ==> b == matches_spec(
            s@,
            w@,
        ),
    ensures
        count == match_count(s@, words@.map_values(|w: &str| w@)),
{
    let ghost word_views = words@.map_values(|w: &str| w@);
    let mut count: usize = 0;
    let mut i: usize = 0;
    while i < words.len()
        invariant
            i <= words@.len(),
            count <= i,
            count == match_count(s@, word_views.take(i as int)),
        decreases words@.len() - i,
    {
        let w: &str = *slice_index_get(words, i);
        let matched = solver(s, w);
        proof {
            assert(matched == matches_spec(s@, w@));
            assert(word_views.take(i + 1).drop_last() =~= word_views.take(i as int));
            assert(word_views.take(i + 1).last() == w@);
        }
        if matched {
            count += 1;
        }
        i += 1;
    }
    proof {
        assert(word_views.take(words@.len() as int) =~= word_views);
    }
    count
}

} // verus!
