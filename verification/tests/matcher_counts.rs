use subseq_count::counting::count_substrings_impl;
use subseq_count::index_table::hashmap_solver;
use subseq_count::recursive_scan::linked_list_solver_wrapper;
use subseq_count::two_pointer::two_pointer_solver;

struct TestData {
    pub s: &'static str,
    pub words: Vec<&'static str>,
    pub expected: usize,
}

impl TestData {
    fn new(s: &'static str, words: Vec<&'static str>, expected: usize) -> Self {
        Self { s, words, expected }
    }
}

fn test_data_basic() -> TestData {
    TestData::new("abcde", vec!["a", "bb", "acd", "ace"], 3)
}

fn test_data_random() -> TestData {
    TestData::new(
        "dsahjpjauf",
        vec!["ahjpjau", "ja", "ahbwzgqnuk", "tnmlanowax"],
        2,
    )
}

fn test_data_empty() -> TestData {
    TestData::new("", vec!["a", "b"], 0)
}

fn test_data_empty_words() -> TestData {
    TestData::new("abc", vec!["", ""], 2)
}

fn test_data_repeated() -> TestData {
    TestData::new("aaaaaaaaaa", vec!["a", "aa", "aaa"], 3)
}

fn test_data_long() -> TestData {
    TestData::new(
        "thequickbrownfoxjumpsoverthelazydog",
        vec!["the", "quick", "fox", "dog", "cat"],
        4,
    )
}

#[test]
fn test_count_substrings_linked_list_basic() {
    let test_data = test_data_basic();
    let result = count_substrings_impl(&test_data.s, &test_data.words, linked_list_solver_wrapper);
    assert_eq!(result, test_data.expected);
}

#[test]
fn test_count_substrings_linked_list_random() {
    let test_data = test_data_random();
    let result = count_substrings_impl(&test_data.s, &test_data.words, linked_list_solver_wrapper);
    assert_eq!(result, test_data.expected);
}

#[test]
fn test_count_substrings_linked_list_empty() {
    let test_data = test_data_empty();
    let result = count_substrings_impl(&test_data.s, &test_data.words, linked_list_solver_wrapper);
    assert_eq!(result, test_data.expected);
}

#[test]
fn test_count_substrings_linked_list_empty_words() {
    let test_data = test_data_empty_words();
    let result = count_substrings_impl(&test_data.s, &test_data.words, linked_list_solver_wrapper);
    assert_eq!(result, test_data.expected);
}

#[test]
fn test_count_substrings_linked_list_repeated() {
    let test_data = test_data_repeated();
    let result = count_substrings_impl(&test_data.s, &test_data.words, linked_list_solver_wrapper);
    assert_eq!(result, test_data.expected);
}

#[test]
fn test_count_substrings_linked_list_long() {
    let test_data = test_data_long();
    let result = count_substrings_impl(&test_data.s, &test_data.words, linked_list_solver_wrapper);
    assert_eq!(result, test_data.expected);
}

#[test]
fn test_count_substrings_two_pointer_basic() {
    let test_data = test_data_basic();
    let result = count_substrings_impl(&test_data.s, &test_data.words, two_pointer_solver);
    assert_eq!(result, test_data.expected);
}

#[test]
fn test_count_substrings_two_pointer_random() {
    let test_data = test_data_random();
    let result = count_substrings_impl(&test_data.s, &test_data.words, two_pointer_solver);
    assert_eq!(result, test_data.expected);
}

#[test]
fn test_count_substrings_two_pointer_empty() {
    let test_data = test_data_empty();
    let result = count_substrings_impl(&test_data.s, &test_data.words, two_pointer_solver);
    assert_eq!(result, test_data.expected);
}

#[test]
fn test_count_substrings_two_pointer_empty_words() {
    let test_data = test_data_empty_words();
    let result = count_substrings_impl(&test_data.s, &test_data.words, two_pointer_solver);
    assert_eq!(result, test_data.expected);
}

#[test]
fn test_count_substrings_two_pointer_repeated() {
    let test_data = test_data_repeated();
    let result = count_substrings_impl(&test_data.s, &test_data.words, two_pointer_solver);
    assert_eq!(result, test_data.expected);
}

#[test]
fn test_count_substrings_two_pointer_long() {
    let test_data = test_data_long();
    let result = count_substrings_impl(&test_data.s, &test_data.words, two_pointer_solver);
    assert_eq!(result, test_data.expected);
}

#[test]
fn test_count_substrings_hashmap_basic() {
    let test_data = test_data_basic();
    let result = count_substrings_impl(&test_data.s, &test_data.words, hashmap_solver);
    assert_eq!(result, test_data.expected);
}

#[test]
fn test_count_substrings_hashmap_random() {
    let test_data = test_data_random();
    let result = count_substrings_impl(&test_data.s, &test_data.words, hashmap_solver);
    assert_eq!(result, test_data.expected);
}

#[test]
fn test_count_substrings_hashmap_empty() {
    let test_data = test_data_empty();
    let result = count_substrings_impl(&test_data.s, &test_data.words, hashmap_solver);
    assert_eq!(result, test_data.expected);
}

#[test]
fn test_count_substrings_hashmap_empty_words() {
    let test_data = test_data_empty_words();
    let result = count_substrings_impl(&test_data.s, &test_data.words, hashmap_solver);
    assert_eq!(result, test_data.expected);
}

#[test]
fn test_count_substrings_hashmap_repeated() {
    let test_data = test_data_repeated();
    let result = count_substrings_impl(&test_data.s, &test_data.words, hashmap_solver);
    assert_eq!(result, test_data.expected);
}

#[test]
fn test_count_substrings_hashmap_long() {
    let test_data = test_data_long();
    let result = count_substrings_impl(&test_data.s, &test_data.words, hashmap_solver);
    assert_eq!(result, test_data.expected);
}
