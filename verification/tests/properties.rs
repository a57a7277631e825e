use subseq_count::counting::count_substrings_impl;
use subseq_count::index_table::hashmap_solver;
use subseq_count::recursive_scan::{linked_list_solver, linked_list_solver_wrapper};
use subseq_count::two_pointer::{two_pointer_solver, TwoPointerStringSlice};

fn all_three(s: &str, word: &str) -> [bool; 3] {
    [
        linked_list_solver_wrapper(s, word),
        two_pointer_solver(s, word),
        hashmap_solver(s, word),
    ]
}

#[test]
fn agreement_on_assorted_inputs() {
    let texts = ["", "a", "abcde", "aaaaaaaaaa", "dsahjpjauf", "xyzzy"];
    let words = ["", "a", "b", "bb", "ace", "acd", "ja", "xyz", "zyx", "aaa", "abcdef"];
    for text in texts {
        for word in words {
            let results = all_three(text, word);
            assert_eq!(results[0], results[1], "text={:?} word={:?}", text, word);
            assert_eq!(results[1], results[2], "text={:?} word={:?}", text, word);
        }
    }
}

#[test]
fn length_dominance_rejects_longer_words() {
    for (text, word) in [("abc", "abcd"), ("", "a"), ("x", "xx"), ("ab", "aab")] {
        for result in all_three(text, word) {
            assert!(!result, "text={:?} word={:?}", text, word);
        }
    }
}

#[test]
fn empty_word_matches_nonempty_text() {
    for text in ["a", "abc", "aaaaaaaaaa"] {
        for result in all_three(text, "") {
            assert!(result, "text={:?}", text);
        }
    }
}

#[test]
fn empty_text_matches_nothing() {
    // The library's policy: an empty text matches no word, the empty word
    // included, and all three matchers agree on it.
    for word in ["", "a", "ab"] {
        for result in all_three("", word) {
            assert!(!result, "word={:?}", word);
        }
    }
}

#[test]
fn matchers_are_idempotent() {
    for (text, word) in [("abcde", "ace"), ("abcde", "bb"), ("", ""), ("abc", "")] {
        assert_eq!(
            linked_list_solver_wrapper(text, word),
            linked_list_solver_wrapper(text, word)
        );
        assert_eq!(two_pointer_solver(text, word), two_pointer_solver(text, word));
        assert_eq!(hashmap_solver(text, word), hashmap_solver(text, word));
    }
}

#[test]
fn repeated_characters_consume_distinct_positions() {
    // "bb" needs two b positions; "aba" needs the a positions in order.
    for result in all_three("ab", "bb") {
        assert!(!result);
    }
    for result in all_three("abab", "aba") {
        assert!(result);
    }
    for result in all_three("aba", "aa") {
        assert!(result);
    }
    for result in all_three("aba", "bb") {
        assert!(!result);
    }
}

#[test]
fn multibyte_characters_match_per_character() {
    for result in all_three("\u{3b1}\u{3b2}\u{3b3}", "\u{3b1}\u{3b3}") {
        assert!(result);
    }
    for result in all_three("\u{3b1}\u{3b2}\u{3b3}", "\u{3b3}\u{3b1}") {
        assert!(!result);
    }
}

#[test]
fn linked_list_solver_scans_from_cursors() {
    assert!(linked_list_solver("abcde", "ace", 0, 0));
    // starting past the only 'a' leaves "ace" unmatched
    assert!(!linked_list_solver("abcde", "ace", 1, 0));
    // with the leading 'a' already consumed, "ce" remains and matches
    assert!(linked_list_solver("abcde", "ace", 1, 1));
    // an exhausted word suffix matches anything
    assert!(linked_list_solver("abcde", "ace", 5, 3));
}

#[test]
fn two_pointer_slice_walks_both_ends() {
    let mut slice = TwoPointerStringSlice::new("abcd").unwrap();
    assert_eq!(slice.length(), 4);
    assert_eq!(slice.left(), Some('a'));
    assert_eq!(slice.right(), Some('d'));
    assert_eq!(slice.next_left(), Some('a'));
    assert_eq!(slice.next_right(), Some('d'));
    assert_eq!(slice.substring(), "bc");
    assert_eq!(slice.length(), 2);
    assert!(!slice.is_complete());
    assert_eq!(slice.next_left(), Some('b'));
    assert_eq!(slice.next_left(), Some('c'));
    assert!(slice.is_complete());
    assert_eq!(slice.next_left(), None);
    assert_eq!(slice.next_right(), None);
    assert_eq!(slice.left(), None);
    assert_eq!(slice.right(), None);
    assert_eq!(slice.length(), 0);
    assert_eq!(slice.substring(), "");
}

#[test]
fn two_pointer_slice_rejects_empty_strings() {
    assert!(TwoPointerStringSlice::new("").is_err());
    assert!(TwoPointerStringSlice::new("x").is_ok());
}

#[test]
fn count_matches_word_order_is_irrelevant() {
    let forward: Vec<&str> = vec!["a", "bb", "acd", "ace"];
    let backward: Vec<&str> = vec!["ace", "acd", "bb", "a"];
    assert_eq!(
        count_substrings_impl("abcde", &forward, two_pointer_solver),
        count_substrings_impl("abcde", &backward, two_pointer_solver)
    );
}

#[test]
fn count_of_empty_word_list_is_zero() {
    let words: Vec<&str> = Vec::new();
    assert_eq!(count_substrings_impl("abcde", &words, hashmap_solver), 0);
}
