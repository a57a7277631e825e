//! The index-table matcher: a map from each distinct character of the text
//! to the ascending list of its positions, consumed greedily — each word
//! character takes the smallest usable position after the previous one.

use vstd::prelude::*;
use vstd::string::StrSliceExecFns;
use crate::subsequence::{
    is_subsequence_of, lemma_greedy_step, lemma_no_occurrence, matches_spec,
};

verus! {

/// One entry lists, in strictly ascending order, exactly the positions at
/// which `c` occurs in `text`.
spec fn entry_wf(c: char, ps: Seq<usize>, text: Seq<char>) -> bool {
    &&& forall|j: int|
        0 <= j < ps.len() ==> #[trigger] ps[j] < text.len() && text[ps[j] as int] == c
    &&& forall|j1: int, j2: int| 0 <= j1 < j2 < ps.len() ==> ps[j1] < ps[j2]
    &&& forall|i: int|
        0 <= i < text.len() && #[trigger] text[i] == c ==> exists|j: int|
            0 <= j < ps.len() && ps[j] == i
}

/// Some entry of `entries` holds character `c`.
spec fn has_entry_for(entries: Seq<(char, Vec<usize>)>, c: char) -> bool {
    exists|e: int| 0 <= e < entries.len() && (#[trigger] entries[e]).0 == c
}

/// A mapping from each distinct character of a text to the ascending list of
/// the positions where it occurs.
pub struct CharacterPositionIndex {
    entries: Vec<(char, Vec<usize>)>,
}

impl CharacterPositionIndex {
    /// Every entry is correct and complete for its character, no character
    /// has two entries, and every character of the text has an entry.
    pub closed spec fn wf(self, text: Seq<char>) -> bool {
        &&& forall|e: int|
            0 <= e < self.entries@.len() ==> entry_wf(
                (#[trigger] self.entries@[e]).0,
                self.entries@[e].1@,
                text,
            )
        &&& forall|e1: int, e2: int|
            0 <= e1 < e2 < self.entries@.len() ==> self.entries@[e1].0 != self.entries@[e2].0
        &&& forall|i: int| 0 <= i < text.len() ==> has_entry_for(self.entries@, #[trigger] text[i])
    }

    /// The entry holding character `c`, if one exists.
    fn find_entry(&self, c: char) -> (o: Option<usize>)
        ensures
            match o {
                Some(e) => e < self.entries@.len() && self.entries@[e as int].0 == c,
                None => forall|e: int| 0 <= e < self.entries@.len() ==> self.entries@[e].0 != c,
            },
    {
        let mut e: usize = 0;
        while e < self.entries.len()
            invariant
                e <= self.entries@.len(),
                forall|e2: int| 0 <= e2 < e ==> self.entries@[e2].0 != c,
            decreases self.entries@.len() - e,
        {
            if self.entries[e].0 == c {
                return Some(e);
            }
            e += 1;
        }
        None
    }

    /// Builds the index of `s`: one pass per distinct character collects its
    /// ascending occurrence list.
    #[verifier::loop_isolation(false)]
    pub fn build(s: &str) -> (index: CharacterPositionIndex)
        ensures
            index.wf(s@),
    {
        let mut index = CharacterPositionIndex { entries: Vec::new() };
        let n = s.unicode_len();
        let mut i: usize = 0;
        while i < n
            invariant
                i <= n,
                forall|e: int|
                    0 <= e < index.entries@.len() ==> entry_wf(
                        (#[trigger] index.entries@[e]).0,
                        index.entries@[e].1@,
                        s@,
                    ),
                forall|e1: int, e2: int|
                    0 <= e1 < e2 < index.entries@.len() ==> index.entries@[e1].0
                        != index.entries@[e2].0,
                forall|k: int| 0 <= k < i ==> has_entry_for(index.entries@, #[trigger] s@[k]),
            decreases n - i,
        {
            let c = s.get_char(i);
            match index.find_entry(c) {
                Some(e) => {
                    proof {
                        assert(has_entry_for(index.entries@, c));
                    }
                },
                None => {
                    let mut ps: Vec<usize> = Vec::new();
                    let mut j: usize = 0;
                    while j < n
                        invariant
                            j <= n,
                            forall|t: int|
                                0 <= t < ps@.len() ==> #[trigger] ps@[t] < j && s@[ps@[t] as int]
                                    == c,
                            forall|t1: int, t2: int| 0 <= t1 < t2 < ps@.len() ==> ps@[t1] < ps@[t2],
                            forall|k: int|
                                0 <= k < j && #[trigger] s@[k] == c ==> exists|t: int|
                                    0 <= t < ps@.len() && ps@[t] == k,
                        decreases n - j,
                    {
                        let ghost old_ps = ps@;
                        if s.get_char(j) == c {
                            ps.push(j);
                            proof {
                                assert(ps@[ps@.len() - 1] == j);
                                assert forall|k: int| 0 <= k < j + 1 && #[trigger] s@[k]
                                    == c implies exists|t: int|
                                    0 <= t < ps@.len() && ps@[t] == k by {
                                    if k < j {
                                        let t = choose|t: int|
                                            0 <= t < old_ps.len() && old_ps[t] == k;
                                        assert(ps@[t] == k);
                                    } else {
                                        assert(ps@[ps@.len() - 1] == k);
                                    }
                                }
                            }
                        }
                        j += 1;
                    }
                    proof {
                        assert(entry_wf(c, ps@, s@));
                    }
                    let ghost old_entries = index.entries@;
                    index.entries.push((c, ps));
                    proof {
                        let ghost new_entries = index.entries@;
                        assert((new_entries[new_entries.len() - 1]).0 == c);
                        assert forall|k: int| 0 <= k < i + 1 implies has_entry_for(
                            new_entries,
                            #[trigger] s@[k],
                        ) by {
                            if s@[k] == c {
                                assert((new_entries[new_entries.len() - 1]).0 == s@[k]);
                            } else {
                                assert(has_entry_for(old_entries, s@[k]));
                                let e = choose|e: int|
                                    0 <= e < old_entries.len() && (#[trigger] old_entries[e]).0
                                        == s@[k];
                                assert((new_entries[e]).0 == s@[k]);
                            }
                        }
                    }
                },
            }
            i += 1;
        }
        index
    }

    /// The smallest text position at or after `bound` that holds character
    /// `c`, if there is one: the greedy choice for the next word character.
    fn next_position(&self, c: char, bound: usize, text: Ghost<Seq<char>>) -> (o: Option<usize>)
        requires
            self.wf(text@),
        ensures
            match o {
                Some(p) => bound <= p < text@.len() && text@[p as int] == c && forall|q: int|
                    bound <= q < p ==> text@[q] != c,
                None => forall|q: int| bound <= q < text@.len() ==> text@[q] != c,
            },
    {
        match self.find_entry(c) {
            None => {
                proof {
                    assert forall|q: int| bound <= q < text@.len() implies text@[q] != c by {
                        if text@[q] == c {
                            let e = choose|e: int|
                                0 <= e < self.entries@.len() && (#[trigger] self.entries@[e]).0
                                    == text@[q];
                        }
                    }
                }
                None
            },
            Some(e) => {
                let entry = &self.entries[e];
                let ghost ps = entry.1@;
                match first_at_or_after(&entry.1, bound) {
                    None => {
                        proof {
                            assert forall|q: int| bound <= q < text@.len() implies text@[q]
                                != c by {
                                if text@[q] == c {
                                    let t = choose|t: int| 0 <= t < ps.len() && ps[t] == q;
                                    assert(ps[t] < bound);
                                }
                            }
                        }
                        None
                    },
                    Some(j) => {
                        let p = entry.1[j];
                        proof {
                            assert forall|q: int| bound <= q < p implies text@[q] != c by {
                                if text@[q] == c {
                                    let t = choose|t: int| 0 <= t < ps.len() && ps[t] == q;
                                    if t < j {
                                        assert(ps[t] < bound);
                                    } else if t > j {
                                        assert(ps[j as int] < ps[t]);
                                    }
                                }
                            }
                        }
                        Some(p)
                    },
                }
            },
        }
    }
}

/// The first index of `ps` whose value is at least `bound`; for an ascending
/// list this finds the smallest such value.
fn first_at_or_after(ps: &Vec<usize>, bound: usize) -> (o: Option<usize>)
    ensures
        match o {
            Some(j) => j < ps@.len() && ps@[j as int] >= bound && forall|t: int|
                0 <= t < j ==> ps@[t] < bound,
            None => forall|t: int| 0 <= t < ps@.len() ==> ps@[t] < bound,
        },
{
    let mut j: usize = 0;
    while j < ps.len()
        invariant
            j <= ps@.len(),
            forall|t: int| 0 <= t < j ==> ps@[t] < bound,
        decreases ps@.len() - j,
    {
        if ps[j] >= bound {
            return Some(j);
        }
        j += 1;
    }
    None
}

/// The explicit final check of the index-table matcher: the consumed
/// positions must come out in strictly increasing order, adjacent pair by
/// adjacent pair.
fn positions_strictly_increasing(ps: &Vec<usize>) -> (b: bool)
    ensures
        b == (forall|t: int| 0 < t < ps@.len() ==> ps@[t - 1] < #[trigger] ps@[t]),
{
    let mut t: usize = 1;
    while t < ps.len()
        invariant
            t >= 1,
            forall|u: int| 0 < u < t ==> ps@[u - 1] < #[trigger] ps@[u],
        decreases ps@.len() - t,
    {
        if ps[t - 1] >= ps[t] {
            return false;
        }
        t += 1;
    }
    true
}

/// The index-table matcher: true exactly when the text is non-empty and the
/// word is a subsequence of it. Each word character consumes the smallest
/// text position at or after the previous consumed position plus one; the
/// consumed positions are then checked to be strictly increasing.
#[verifier::loop_isolation(false)]
pub fn hashmap_solver(s: &str, word: &str) -> (r: bool)
    ensures
        r == matches_spec(s@, word@),
{
    let s_len = s.unicode_len();
    if s_len == 0 {
        return false;
    }
    let index = CharacterPositionIndex::build(s);
    let word_len = word.unicode_len();
    let mut positions: Vec<usize> = Vec::new();
    let mut bound: usize = 0;
    let mut k: usize = 0;
    proof {
        assert(word@.skip(0) =~= word@);
        assert(s@.skip(0) =~= s@);
    }
    while k < word_len
        invariant
            k <= word@.len(),
            bound <= s@.len(),
            is_subsequence_of(word@, s@) == is_subsequence_of(
                word@.skip(k as int),
                s@.skip(bound as int),
            ),
            positions@.len() == k,
            forall|t: int| 0 < t < positions@.len() ==> positions@[t - 1] < #[trigger] positions@[t],
            forall|t: int| 0 <= t < positions@.len() ==> #[trigger] positions@[t] < bound,
        decreases word@.len() - k,
    {
        let c = word.get_char(k);
        let ghost word_suffix = word@.skip(k as int);
        let ghost text_suffix = s@.skip(bound as int);
        proof {
            assert(word_suffix[0] == word@[k as int]);
        }
        match index.next_position(c, bound, Ghost(s@)) {
            None => {
                proof {
                    assert forall|t: int| 0 <= t < text_suffix.len() implies text_suffix[t]
                        != word_suffix[0] by {
                        assert(text_suffix[t] == s@[bound + t]);
                    }
                    lemma_no_occurrence(word_suffix, text_suffix);
                }
                return false;
            },
            Some(p) => {
                proof {
                    assert forall|t: int| 0 <= t < p - bound implies text_suffix[t]
                        != word_suffix[0] by {
                        assert(text_suffix[t] == s@[bound + t]);
                    }
                    assert(text_suffix[p - bound] == s@[p as int]);
                    lemma_greedy_step(word_suffix, text_suffix, p - bound);
                    assert(word_suffix.skip(1) =~= word@.skip(k + 1));
                    assert(text_suffix.skip(p - bound + 1) =~= s@.skip(p + 1));
                }
                positions.push(p);
                bound = p + 1;
                k += 1;
            },
        }
    }
    proof {
        assert(word@.skip(word@.len() as int).len() == 0);
    }
    let sorted = positions_strictly_increasing(&positions);
    sorted
}

} // verus!
