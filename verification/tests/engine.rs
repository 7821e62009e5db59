use std::cmp::Reverse;

use wordfreq::hash::fnv32;
use wordfreq::wordcount::{
    fast_eq, find_words, is_alpha, normalize, to_lower, wordcount, WordRef,
};

/// Runs the engine over `text` and returns owned (word, count) rows in
/// first-occurrence order.
fn rows_of(text: &[u8]) -> Vec<(Vec<u8>, u32)> {
    let mut buf = text.to_vec();
    let counts = wordcount(&mut buf);
    counts
        .iter()
        .map(|&(w, c)| (w.as_slice(&buf).to_vec(), c))
        .collect()
}

/// Formats the engine's rows the way the output file does: descending
/// count, then ascending word.
fn formatted(text: &[u8]) -> Vec<String> {
    let mut rows = rows_of(text);
    rows.sort_unstable_by(|a, b| (Reverse(a.1), &a.0).cmp(&(Reverse(b.1), &b.0)));
    rows.iter()
        .map(|(w, c)| format!("{} {}", c, String::from_utf8(w.clone()).unwrap()))
        .collect()
}

#[test]
fn empty_input_empty_output() {
    assert_eq!(rows_of(b""), vec![]);
}

#[test]
fn no_alpha_empty_output() {
    assert_eq!(rows_of(b"!!! 123 ..."), vec![]);
    assert_eq!(rows_of(b"0123456789 \t\n[]{}"), vec![]);
}

#[test]
fn case_insensitive_merge() {
    let lines = formatted(b"The cat sat. The CAT sat!");
    assert_eq!(lines, vec!["2 cat", "2 sat", "2 the"]);
}

#[test]
fn case_insensitive_two_iterations() {
    let lines = formatted(b"The cat. THE CAT.");
    assert_eq!(lines, vec!["2 cat", "2 the"]);
}

#[test]
fn counts_sum_to_run_count() {
    // four maximal alphabetic runs: ab, cd, ab, zz
    let rows = rows_of(b"ab cd ab! zz");
    let total: u32 = rows.iter().map(|&(_, c)| c).sum();
    assert_eq!(total, 4);
    assert_eq!(rows.len(), 3);
}

#[test]
fn rerun_gives_identical_output() {
    let input = b"Some words, some WORDS; more words here. SoMe!";
    assert_eq!(formatted(input), formatted(input));
    assert_eq!(rows_of(input), rows_of(input));
}

#[test]
fn colliding_words_stay_separate() {
    // "uyaaac" and "nthykb" are distinct six-letter words with the same
    // hash, so they share a word key and meet in one table chain.
    assert_eq!(fnv32(b"uyaaac"), fnv32(b"nthykb"));
    let mut rows = rows_of(b"uyaaac nthykb uyaaac");
    rows.sort();
    assert_eq!(
        rows,
        vec![(b"nthykb".to_vec(), 1), (b"uyaaac".to_vec(), 2)]
    );
}

#[test]
fn hash_collision_pair_value() {
    assert_eq!(fnv32(b"uyaaac"), 0x68410b61);
    assert_eq!(fnv32(b"nthykb"), 0x68410b61);
}

#[test]
fn fnv_known_values() {
    assert_eq!(fnv32(b""), 0x811c9dc5);
    assert_eq!(fnv32(b"a"), 0x050c5d7e);
    assert_eq!(fnv32(b"hello"), 0xb6fa7167);
}

#[test]
fn normalize_folds_letters_only() {
    let mut buf = b"Hello, World! 123".to_vec();
    normalize(&mut buf);
    assert_eq!(buf, b"hello, world! 123".to_vec());
}

#[test]
fn find_words_maximal_runs() {
    assert_eq!(find_words(&b"ab!cd".to_vec()), vec![(0, 2), (3, 2)]);
    assert_eq!(find_words(&b"!!abc".to_vec()), vec![(2, 3)]);
    assert_eq!(find_words(&b"abc".to_vec()), vec![(0, 3)]);
    assert_eq!(find_words(&b"".to_vec()), Vec::<(usize, usize)>::new());
    assert_eq!(find_words(&b"a b".to_vec()), vec![(0, 1), (2, 1)]);
}

#[test]
fn word_ref_views_buffer() {
    let buf = b"say hello twice hello".to_vec();
    let w = WordRef::from_ascii_word(&buf, 4, 5);
    assert_eq!(w.as_slice(&buf), b"hello");
}

#[test]
fn fast_eq_short_words_unconditional() {
    // below the threshold the comparator trusts the word key alone
    let buf = b"abcdef".to_vec();
    assert!(fast_eq(&buf, 0, 3, 3));
    assert!(fast_eq(&buf, 0, 0, 5));
}

#[test]
fn fast_eq_long_words_compare_bytes() {
    let buf = b"abcdefgabcdefgabcdefh".to_vec();
    assert!(fast_eq(&buf, 0, 7, 7));
    assert!(!fast_eq(&buf, 0, 14, 7));
    assert!(!fast_eq(&buf, 7, 14, 7));
}

#[test]
fn alpha_and_fold() {
    assert!(is_alpha(b'a'));
    assert!(is_alpha(b'Z'));
    assert!(!is_alpha(b'0'));
    assert!(!is_alpha(b' '));
    assert_eq!(to_lower(b'A'), b'a');
    assert_eq!(to_lower(b'z'), b'z');
    assert_eq!(to_lower(b'M'), b'm');
}

#[test]
fn rows_come_in_first_occurrence_order() {
    let rows = rows_of(b"bb aa bb cc aa bb");
    assert_eq!(
        rows,
        vec![
            (b"bb".to_vec(), 3),
            (b"aa".to_vec(), 2),
            (b"cc".to_vec(), 1)
        ]
    );
}
