use keylayout::frequency::{check_limits, CorpusError, FrequencyTables, Ngram};
use keylayout::ngram::{count_grams, counted_entries, window_code};
use keylayout::ranking::{rank_order, top_ranked};
use std::cmp::Ordering;

fn listing(table: &Vec<Ngram>) -> Vec<(String, i64)> {
    table.iter().map(|e| (String::from_utf8(e.letters.clone()).unwrap(), e.count)).collect()
}

fn pairs(items: &[(&str, i64)]) -> Vec<(String, i64)> {
    items.iter().map(|(letters, count)| (letters.to_string(), *count)).collect()
}

#[test]
fn aabba_counts_single_letters() {
    let tables = FrequencyTables::from_corpus(b"aabba", 1000).unwrap();
    assert_eq!(tables.count_of(b"a"), 3);
    assert_eq!(tables.count_of(b"b"), 2);
    assert_eq!(listing(tables.singles()), pairs(&[("a", 3), ("b", 2)]));
}

#[test]
fn aabba_leaves_out_doubled_letters() {
    let tables = FrequencyTables::from_corpus(b"aabba", 1000).unwrap();
    assert_eq!(tables.count_of(b"aa"), 0);
    assert_eq!(tables.count_of(b"bb"), 0);
    assert_eq!(tables.count_of(b"ab"), 1);
    assert_eq!(tables.count_of(b"ba"), 1);
    assert_eq!(listing(tables.doubles()), pairs(&[("ab", 1), ("ba", 1)]));
    assert!(tables.triples().is_empty());
    assert!(tables.quadruples().is_empty());
}

#[test]
fn th_repeated_counts_the_pair() {
    let corpus = "th".repeat(100);
    let tables = FrequencyTables::from_corpus(corpus.as_bytes(), 1000).unwrap();
    assert!(tables.count_of(b"th") >= 99);
    assert_eq!(tables.count_of(b"th"), 100);
    assert_eq!(tables.count_of(b"ht"), 99);
    assert_eq!(listing(tables.singles()), pairs(&[("h", 100), ("t", 100)]));
    assert_eq!(listing(tables.doubles()), pairs(&[("th", 100), ("ht", 99)]));
    assert!(tables.triples().is_empty());
}

#[test]
fn higher_count_comes_first() {
    let tables = FrequencyTables::from_corpus(b"abb zzzz c", 1000).unwrap();
    assert_eq!(listing(tables.singles()), pairs(&[("z", 4), ("b", 2), ("a", 1), ("c", 1)]));
}

#[test]
fn equal_counts_come_in_alphabetical_order() {
    let tables = FrequencyTables::from_corpus(b"zy yx ab ba zy", 1000).unwrap();
    assert_eq!(
        listing(tables.doubles()),
        pairs(&[("zy", 2), ("ab", 1), ("ba", 1), ("yx", 1)])
    );
}

#[test]
fn table_is_cut_after_the_limit() {
    let tables = FrequencyTables::from_corpus(b"abb zzzz c", 2).unwrap();
    assert_eq!(listing(tables.singles()), pairs(&[("z", 4), ("b", 2)]));
    assert_eq!(tables.count_of(b"a"), 0);
    let none = FrequencyTables::from_corpus(b"abb zzzz c", 0).unwrap();
    assert!(none.singles().is_empty());
    assert!(none.doubles().is_empty());
}

#[test]
fn windows_overlap() {
    let tables = FrequencyTables::from_corpus(b"abcdabcd", 1000).unwrap();
    assert_eq!(tables.count_of(b"ab"), 2);
    assert_eq!(tables.count_of(b"da"), 1);
    assert_eq!(tables.count_of(b"abc"), 2);
    assert_eq!(tables.count_of(b"cda"), 1);
    assert_eq!(tables.count_of(b"abcd"), 2);
    assert_eq!(tables.count_of(b"bcda"), 1);
    assert_eq!(tables.count_of(b"dabc"), 1);
    assert_eq!(tables.count_of(b"abca"), 0);
    assert_eq!(
        listing(tables.quadruples()),
        pairs(&[("abcd", 2), ("bcda", 1), ("cdab", 1), ("dabc", 1)])
    );
}

#[test]
fn order_of_letters_matters() {
    let tables = FrequencyTables::from_corpus(b"th th ht", 1000).unwrap();
    assert_eq!(tables.count_of(b"th"), 2);
    assert_eq!(tables.count_of(b"ht"), 1);
}

#[test]
fn other_bytes_are_not_counted() {
    let tables = FrequencyTables::from_corpus(b"a b,C\0d\xffe{f`g", 1000).unwrap();
    assert_eq!(
        listing(tables.singles()),
        pairs(&[("a", 1), ("b", 1), ("d", 1), ("e", 1), ("f", 1), ("g", 1)])
    );
    assert!(tables.doubles().is_empty());
    assert_eq!(tables.count_of(b"C"), 0);
    assert_eq!(tables.count_of(b" "), 0);
}

#[test]
fn repeated_letter_anywhere_in_the_window_is_left_out() {
    let tables = FrequencyTables::from_corpus(b"abab abca", 1000).unwrap();
    assert_eq!(tables.count_of(b"aba"), 0);
    assert_eq!(tables.count_of(b"bab"), 0);
    assert_eq!(tables.count_of(b"abab"), 0);
    assert_eq!(tables.count_of(b"abca"), 0);
    assert_eq!(tables.count_of(b"abc"), 1);
    assert_eq!(tables.count_of(b"bca"), 1);
}

#[test]
fn short_and_empty_corpus() {
    let empty = FrequencyTables::from_corpus(b"", 1000).unwrap();
    assert!(empty.singles().is_empty());
    assert!(empty.quadruples().is_empty());
    let short = FrequencyTables::from_corpus(b"abc", 1000).unwrap();
    assert_eq!(short.singles().len(), 3);
    assert_eq!(short.doubles().len(), 2);
    assert_eq!(listing(short.triples()), pairs(&[("abc", 1)]));
    assert!(short.quadruples().is_empty());
}

#[test]
fn count_of_other_lengths_is_zero() {
    let tables = FrequencyTables::from_corpus(b"abcdefg", 1000).unwrap();
    assert_eq!(tables.count_of(b""), 0);
    assert_eq!(tables.count_of(b"abcde"), 0);
}

#[test]
fn too_many_samples_is_refused() {
    assert!(matches!(
        FrequencyTables::from_corpus(b"abc", 10_001),
        Err(CorpusError::TooManySamples)
    ));
    assert!(FrequencyTables::from_corpus(b"abc", 10_000).is_ok());
}

#[test]
fn too_large_corpus_is_refused() {
    assert_eq!(check_limits(4_294_967_296, 1000), Err(CorpusError::TooLarge));
    assert_eq!(check_limits(4_294_967_296, 10_001), Err(CorpusError::TooLarge));
    assert_eq!(check_limits(4_294_967_295, 10_001), Err(CorpusError::TooManySamples));
    assert_eq!(check_limits(4_294_967_295, 10_000), Ok(()));
    assert_eq!(check_limits(0, 0), Ok(()));
}

#[test]
fn count_grams_has_one_count_for_each_run() {
    let counts = count_grams(b"abcab", 1);
    assert_eq!(counts.len(), 26);
    assert_eq!(&counts[0..4], &[2, 2, 1, 0]);
    let counts = count_grams(b"abcab", 2);
    assert_eq!(counts.len(), 676);
    assert_eq!(counts[1], 2);
    assert_eq!(counts[26 + 2], 1);
    assert_eq!(counts[2 * 26], 1);
    assert_eq!(counts.iter().sum::<i64>(), 4);
    let counts = count_grams(b"abcab", 3);
    assert_eq!(counts.len(), 17_576);
    assert_eq!(counts[26 + 2], 1);
    assert_eq!(counts[676 + 2 * 26], 1);
    assert_eq!(counts[2 * 676 + 1], 1);
    assert_eq!(counts.iter().sum::<i64>(), 3);
    let counts = count_grams(b"abcab", 4);
    assert_eq!(counts.len(), 456_976);
    assert_eq!(counts.iter().sum::<i64>(), 0);
    assert_eq!(count_grams(b"abcd", 4)[676 + 2 * 26 + 3], 1);
}

#[test]
fn window_code_numbers_runs_alphabetically() {
    assert_eq!(window_code(b"a", 0, 1), Some(0));
    assert_eq!(window_code(b"z", 0, 1), Some(25));
    assert_eq!(window_code(b"xab", 1, 2), Some(1));
    assert_eq!(window_code(b"ba", 0, 2), Some(26));
    assert_eq!(window_code(b"zyxw", 0, 4), Some(25 * 17_576 + 24 * 676 + 23 * 26 + 22));
    assert_eq!(window_code(b"aa", 0, 2), None);
    assert_eq!(window_code(b"aba", 0, 3), None);
    assert_eq!(window_code(b"a b", 0, 3), None);
    assert_eq!(window_code(b"aB", 0, 2), None);
}

#[test]
fn counted_entries_skips_zero_counts() {
    assert_eq!(counted_entries(&vec![0, 3, 0, 0, 1]), vec![(1, 3), (4, 1)]);
    assert_eq!(counted_entries(&vec![0, 0]), vec![]);
}

#[test]
fn rank_order_puts_higher_count_first() {
    assert_eq!(rank_order(&(5, 10), &(1, 3)), Ordering::Less);
    assert_eq!(rank_order(&(1, 3), &(5, 10)), Ordering::Greater);
    assert_eq!(rank_order(&(1, 3), &(5, 3)), Ordering::Less);
    assert_eq!(rank_order(&(5, 3), &(1, 3)), Ordering::Greater);
    assert_eq!(rank_order(&(5, 3), &(5, 3)), Ordering::Equal);
}

#[test]
fn top_ranked_sorts_and_cuts() {
    let entries = vec![(0, 1), (1, 7), (2, 1), (3, 9), (4, 7)];
    assert_eq!(top_ranked(entries.clone(), 10), vec![(3, 9), (1, 7), (4, 7), (0, 1), (2, 1)]);
    assert_eq!(top_ranked(entries.clone(), 3), vec![(3, 9), (1, 7), (4, 7)]);
    assert_eq!(top_ranked(entries, 0), vec![]);
}
