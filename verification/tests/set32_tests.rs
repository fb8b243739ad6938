use keylayout::set32::Set32;
use std::collections::HashSet;

fn string_to_bits(s: &str) -> Set32 {
    let s = s.trim();
    if s == "" {
        Set32::empty()
    } else {
        s.split(",")
            .map(|i| {
                i.trim()
                    .parse::<u32>()
                    .expect("could not convert the string to a u32")
            })
            .collect::<Vec<u32>>()
            .into_iter()
            .fold(Set32::empty(), |total, i| total.add(i))
    }
}

fn drain(set: Set32) -> Vec<u32> {
    let mut set = set;
    let mut items = vec![];
    while let Some(i) = set.next() {
        items.push(i);
    }
    items
}

#[test]
fn into_iterator() {
    assert_eq!(drain(Set32::empty()).len(), 0);
    assert_eq!(drain(Set32::empty().add(1).add(2)).len(), 2);
    assert_eq!(
        drain(Set32::empty().add(5).add(3))
            .into_iter()
            .fold(0, |total, i| total + i),
        8,
    );
}

#[test]
fn fill_when_zero() {
    assert_eq!(Set32::fill(0), Set32::empty());
}

#[test]
fn fill_when_max() {
    assert_eq!(
        Set32::fill(32).to_string(),
        "[0,1,2,3,4,5,6,7,8,9,10,11,12,13,14,15,16,17,18,19,20,21,22,23,24,25,26,27,28,29,30,31]"
    );
}

#[test]
fn fill_when_not_zero() {
    assert_eq!(Set32::fill(1).to_string(), "[0]");
    assert_eq!(Set32::fill(2).to_string(), "[0,1]");
}

#[test]
fn add() {
    let zero = Set32::empty();
    assert_eq!(zero.to_string(), "[]");
    assert_eq!(zero.add(3).add(8).to_string(), "[3,8]");
    assert_eq!(zero.add(31).to_string(), "[31]");
}

#[test]
fn difference() {
    let data = [
        ("", "", ""),
        ("1", "1", ""),
        ("1,2,3", "2,3", "1"),
        ("5,6,7", "1", "5,6,7"),
        ("23,1,8,3,4", "8,1", "3,4,23"),
    ];
    for (start, except, expected) in data {
        let actual = string_to_bits(start).difference(string_to_bits(except));
        assert_eq!(actual, string_to_bits(expected));
    }
}

#[test]
fn set32_remove_test() {
    fn test(bits: &str, item: u32, expected: &str) {
        assert_eq!(string_to_bits(bits).remove(item).to_string(), expected);
    }
    test("", 0, "[]");
    test("", 1, "[]");
    test("", 31, "[]");
    test("0", 0, "[]");
    test("0", 1, "[0]");
    test("0,1,2", 1, "[0,2]");
    test("0,1,2,3,4,5", 5, "[0,1,2,3,4]");
    test("0,1,2,3,4,5,31", 31, "[0,1,2,3,4,5]");
    test("0,1,2,3,4,5,31", 0, "[1,2,3,4,5,31]");
}

#[test]
fn set32_to_string_test() {
    let data = [
        ("", "[]"),
        ("1", "[1]"),
        ("1,2,3", "[1,2,3]"),
        ("5,4,3", "[3,4,5]"),
        ("15,4,0", "[0,4,15]"),
    ];
    for (start, expected) in data {
        assert_eq!(string_to_bits(start).to_string(), expected);
    }
}

#[test]
fn contains() {
    assert_eq!(Set32::empty().contains(3), false);
    assert_eq!(Set32::empty().add(1).contains(2), false);
    assert_eq!(Set32::empty().add(1).add(2).contains(1), true);
}

#[test]
fn count_test() {
    assert_eq!(Set32::empty().count(), 0);
    assert_eq!(Set32::empty().add(1).count(), 1);
    assert_eq!(Set32::empty().add(1).add(2).count(), 2);
    assert_eq!(Set32::fill(32).count(), 32);
}

#[test]
fn singleton_test() {
    assert_eq!(Set32::singleton(0).to_string(), "[0]");
    assert_eq!(Set32::singleton(31).to_string(), "[31]");
    assert_eq!(Set32::singleton(5).to_string(), "[5]");
}

#[test]
fn set32_union() {
    let data = [
        ("", "", ""),
        ("1", "1", "1"),
        ("1,2,3", "2,3", "1,2,3"),
        ("5,6,7", "1,2,3", "1,2,3,5,6,7"),
        ("2", "1", "1,2"),
        ("", "5", "5"),
    ];
    for (start, other, expected) in data {
        let actual = string_to_bits(start).union(string_to_bits(other));
        assert_eq!(actual, string_to_bits(expected));
    }
}

#[test]
fn intersect() {
    let data = [
        ("", "", ""),
        ("1", "1", "1"),
        ("1,2,3", "2,3", "2,3"),
        ("5,6,7", "1,2,3", ""),
        ("1,2,3,4,5", "1,2,3,4,5", "1,2,3,4,5"),
        ("0,31", "5,31", "31"),
        ("2", "1,2", "2"),
        ("", "5", ""),
    ];
    for (start, other, expected) in data {
        let actual = string_to_bits(start).intersect(string_to_bits(other));
        assert_eq!(actual, string_to_bits(expected));
    }
}

#[test]
fn max_item() {
    assert_eq!(Set32::empty().max_item(), None);
    assert_eq!(Set32::empty().add(0).max_item(), Some(0));
    assert_eq!(Set32::empty().add(0).add(1).max_item(), Some(1));
    assert_eq!(Set32::empty().add(5).max_item(), Some(5));
    assert_eq!(Set32::empty().add(5).add(17).add(3).max_item(), Some(17));
    assert_eq!(Set32::empty().add(31).max_item(), Some(31));
    assert_eq!(Set32::empty().add(31).add(5).max_item(), Some(31));
    assert_eq!(Set32::fill(32).max_item(), Some(31));
}

#[test]
fn min_item() {
    assert_eq!(Set32::empty().min_item(), None);
    assert_eq!(Set32::empty().add(0).min_item(), Some(0));
    assert_eq!(Set32::empty().add(0).add(1).min_item(), Some(0));
    assert_eq!(Set32::empty().add(5).min_item(), Some(5));
    assert_eq!(Set32::empty().add(5).add(17).add(3).min_item(), Some(3));
    assert_eq!(Set32::empty().add(31).min_item(), Some(31));
}

#[test]
fn set32_same_ones_count_ends_at_max() {
    for expected_ones in [1u32, 5, 9, 12, 32] {
        let max_bits = 32u32;
        let expected_max: u64 = ((1u64 << expected_ones) - 1) << (max_bits - expected_ones);
        let mut numbers = Set32::same_ones_count(expected_ones);
        let mut last: Option<u64> = None;
        while let Some(n) = numbers.next() {
            last = Some(n);
        }
        assert_eq!(last.unwrap_or(u64::MAX), expected_max);
    }
}

#[test]
fn set32_with_ones_count_test() {
    for expected_ones in [1u32, 5, 9, 12, 23, 31, 32] {
        let mut numbers = Set32::same_ones_count(expected_ones);
        let mut taken = 0;
        while taken < 1000 {
            match numbers.next() {
                None => break,
                Some(n) => {
                    assert_eq!((n as u32).count_ones(), expected_ones);
                    taken += 1;
                }
            }
        }
    }
}

fn choose_count(n: u32, k: u32) -> u128 {
    fn factorial(n: u128) -> u128 {
        (1..=n).product()
    }
    let n = n as u128;
    let k = k as u128;
    factorial(n) / factorial(n - k) / factorial(k)
}

#[test]
fn set32_subsets_of_size() {
    let data = [
        "0,1,5,7",
        "2,4,10,30",
        "1,2,3,4,5,6,7,30",
        "1,2,3,4,5,6,7,8,9,10,12,13,14",
        "6,1,8,7,2,9",
        "1",
        "1,2",
    ];
    for items in data {
        let bits = string_to_bits(items);
        let ones_count = drain(bits).len();
        for subset_size in 1..ones_count {
            let subsets = bits.subsets_of_size(subset_size as u32);
            let expected_count = choose_count(ones_count as u32, subset_size as u32);
            assert_eq!(subsets.len(), expected_count as usize);
            let unique = subsets
                .iter()
                .map(|b| b.to_string())
                .collect::<HashSet<String>>();
            assert_eq!(unique.len(), expected_count as usize);
            assert!(subsets.iter().all(|subset| subset.difference(bits) == Set32::empty()));
        }
    }
}
