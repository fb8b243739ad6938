use keylayout::tally::Tally;
use std::collections::HashSet;

const A: u32 = 97;
const B: u32 = 98;
const C: u32 = 99;
const BANANA: u32 = 6000;

#[test]
fn from_iterator_of_items() {
    let tally = Tally::from_items(&vec![A, A, B, B, A]);
    assert_eq!(tally.count(A), 3);
    assert_eq!(tally.count(B), 2);
}

#[test]
fn from_tuples_array_sums_duplicate_items() {
    let tally = Tally::from_pairs(&vec![(A, 3), (B, 2), (A, 1)]);
    assert_eq!(tally.count(A), 4);
}

#[test]
fn from_tuples_array_ignores_items_with_zero_occurrences() {
    let tally = Tally::from_pairs(&vec![(A, 3), (B, 0), (C, 5)]);
    assert!(!tally.contains(B));
}

#[test]
fn count() {
    let tally = Tally::from_pairs(&vec![(A, 3), (B, 0), (C, 5)]);
    assert_eq!(3, tally.count(A));
    assert_eq!(5, tally.count(C));
}

#[test]
fn count_is_zero_if_item_missing() {
    let tally = Tally::from_pairs(&vec![(A, 3), (B, 0), (C, 5)]);
    assert_eq!(0, tally.count(BANANA));
}

#[test]
fn increment_by_returns_count() {
    let mut tally = Tally::from_pairs(&vec![(A, 1)]);
    assert_eq!(2, tally.increment_by(A, 1));
    assert_eq!(5, tally.increment_by(A, 3));
    assert_eq!(5, tally.increment_by(A, 0));
}

#[test]
fn increment_by() {
    let mut tally = Tally::from_pairs(&vec![(A, 3), (B, 0), (C, 5)]);
    tally.increment_by(B, 2);
    assert_eq!(2, tally.count(B));
    tally.increment_by(B, 0);
    assert_eq!(2, tally.count(B));
}

#[test]
fn increment_by_zero_has_no_effect() {
    let mut tally = Tally::new();
    tally.increment_by(A, 0);
    assert_eq!(0, tally.len());
}

#[test]
fn increment_by_zero_returns_same_count() {
    let mut tally = Tally::from_pairs(&vec![(A, 1)]);
    assert_eq!(1, tally.increment_by(A, 0));
}

#[test]
fn decrement_by() {
    let mut tally = Tally::from_pairs(&vec![(A, 5)]);
    tally.decrement_by(A, 2);
    assert_eq!(3, tally.count(A));
}

#[test]
fn decrement_by_returns_new_count() {
    let mut tally = Tally::from_pairs(&vec![(A, 5)]);
    assert_eq!(3, tally.decrement_by(A, 2));
    assert_eq!(2, tally.decrement_by(A, 1));
}

#[test]
fn decrement_by_zero_returns_same_count() {
    let mut t1 = Tally::from_pairs(&vec![(A, 5)]);
    assert_eq!(5, t1.decrement_by(A, 0));

    let mut t2 = Tally::from_pairs(&vec![(A, 5)]);
    assert_eq!(0, t2.decrement_by(B, 0));
}

#[test]
fn decrement_by_removes_item_if_zero() {
    let mut tally = Tally::from_pairs(&vec![(A, 5)]);
    tally.decrement_by(A, 5);
    assert_eq!(0, tally.len());
}

#[test]
fn combinations_of_empty_is_one_empty() {
    let tally = Tally::new();
    let result = tally.combinations();
    assert_eq!(1, result.len());
    assert!(result[0].len() == 0);
}

#[test]
fn combinations_count_is_correct() {
    let data = [
        (1, 1, 1, 6),
        (4, 3, 2, 1260),
        (3, 3, 2, 560),
        (7, 1, 4, 3960),
        (1, 0, 0, 1),
        (1, 1, 0, 2),
        (1, 0, 0, 1),
    ];
    for (a, b, c, expected) in data {
        let tally = Tally::from_pairs(&vec![(A, a), (B, b), (C, c)]);
        let result = tally.combinations();
        assert_eq!(expected, result.len());
        let unique = result
            .iter()
            .map(|x| x.iter().map(|n| n.to_string()).collect::<Vec<String>>().join(","))
            .collect::<HashSet<String>>();
        assert_eq!(unique.len(), result.len());
    }
}

#[test]
fn combinations_of_two_a_and_one_b() {
    let tally = Tally::from_pairs(&vec![(A, 2), (B, 1)]);
    let mut result = tally.combinations();
    result.sort();
    assert_eq!(result, vec![vec![A, A, B], vec![A, B, A], vec![B, A, A]]);
}

#[test]
fn decrement_undoes_increment() {
    let mut tally = Tally::from_pairs(&vec![(A, 2)]);
    tally.increment(C);
    tally.decrement(C);
    assert_eq!(tally.count(C), 0);
    assert_eq!(tally.count(A), 2);
    assert_eq!(tally.len(), 1);
}
