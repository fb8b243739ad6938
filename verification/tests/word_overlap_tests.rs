use keylayout::key_set::KeySet;
use keylayout::spelling::Spelling;
use keylayout::word_overlap::WordOverlap;

fn spellings(words: &[&str]) -> Vec<Spelling> {
    words.iter().map(|w| Spelling::parse(w).unwrap()).collect()
}

fn sorted(v: &Vec<u32>) -> Vec<u32> {
    let mut v = v.clone();
    v.sort();
    v
}

#[test]
fn word_overlap_records_words_differing_by_one_pair() {
    let words = spellings(&["cat", "bat", "hat", "dog"]);
    let overlap = WordOverlap::calculate(&words, 1);
    assert_eq!(sorted(overlap.words_for_pairs(&KeySet::with_layout("bc"))), vec![0, 1]);
    assert_eq!(sorted(overlap.words_for_pairs(&KeySet::with_layout("ch"))), vec![0, 2]);
    assert_eq!(sorted(overlap.words_for_pairs(&KeySet::with_layout("bh"))), vec![1, 2]);
    assert!(overlap.words_for_pairs(&KeySet::with_layout("ao cd gt")).is_empty());
    assert_eq!(overlap.entries().len(), 3);
}

#[test]
fn word_overlap_allows_more_pairs_with_a_higher_limit() {
    let words = spellings(&["cat", "dog"]);
    let overlap = WordOverlap::calculate(&words, 3);
    assert_eq!(sorted(overlap.words_for_pairs(&KeySet::with_layout("ao cd gt"))), vec![0, 1]);
    let overlap = WordOverlap::calculate(&words, 2);
    assert!(overlap.entries().is_empty());
}

#[test]
fn word_overlap_merges_pairs_that_share_a_letter() {
    let words = spellings(&["ab", "bc"]);
    let overlap = WordOverlap::calculate(&words, 2);
    assert!(overlap.words_for_pairs(&KeySet::with_layout("ab bc")).is_empty());
    assert_eq!(sorted(overlap.words_for_pairs(&KeySet::with_layout("abc"))), vec![0, 1]);
    let overlap = WordOverlap::calculate(&words, 1);
    assert!(overlap.entries().is_empty());
}

#[test]
fn word_overlap_ignores_words_of_other_lengths_and_equal_words() {
    let words = spellings(&["cat", "cats", "cat"]);
    let overlap = WordOverlap::calculate(&words, 4);
    assert!(overlap.entries().is_empty());
}

#[test]
fn word_overlap_word_from_index() {
    let words = spellings(&["cat", "bat"]);
    let overlap = WordOverlap::calculate(&words, 1);
    assert_eq!(overlap.word_from_index(1).unwrap().to_string(), "bat");
    assert!(overlap.word_from_index(2).is_none());
}

#[test]
fn word_overlap_with_rows_groups_rows_by_key_set() {
    let words = spellings(&["cat", "bat", "hat"]);
    let rows = vec![
        (KeySet::with_layout("bc"), 0),
        (KeySet::with_layout("bc"), 1),
        (KeySet::with_layout("bh"), 2),
        (KeySet::with_layout("bc"), 1),
    ];
    let overlap = WordOverlap::with_rows(words, rows);
    assert_eq!(sorted(overlap.words_for_pairs(&KeySet::with_layout("bc"))), vec![0, 1]);
    assert_eq!(sorted(overlap.words_for_pairs(&KeySet::with_layout("bh"))), vec![2]);
    assert_eq!(overlap.entries().len(), 2);
}

#[test]
fn key_set_letters_within_and_same_keys() {
    let a = KeySet::with_layout("ab cde");
    assert!(a.letters_within(5));
    assert!(!a.letters_within(4));
    assert!(a.same_keys(&KeySet::with_layout("cde ab")));
    assert!(!a.same_keys(&KeySet::with_layout("ab cd")));
}
