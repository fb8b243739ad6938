use keylayout::bits::Bits;
use std::collections::HashSet;

fn string_to_bits(s: &str) -> Bits {
    let s = s.trim();
    if s == "" {
        Bits::empty()
    } else {
        s.split(",")
            .map(|i| {
                i.trim()
                    .parse::<u32>()
                    .expect("could not convert the string to a u32")
            })
            .collect::<Vec<u32>>()
            .into_iter()
            .fold(Bits::empty(), |total, i| total.set_bit(i))
    }
}

fn assert_has_set_bits(target: &Bits, expected: Vec<u32>) {
    let actual = target.ones();
    assert_eq!(actual, expected);
}

#[test]
fn equals_operator() {
    assert_eq!(Bits::empty() == Bits::empty(), true);
}

#[test]
fn not_equals_operator() {
    assert_eq!(Bits::empty() != Bits::empty(), false);
}

#[test]
fn comparison_operators() {
    assert_eq!(Bits::empty() < Bits::empty(), false);
}

#[test]
fn set_lowest_when_zero() {
    assert_eq!(Bits::set_lowest(0), Bits::empty());
}

#[test]
fn set_lowest_when_not_zero() {
    for bit_count in 1u32..10u32 {
        let target = Bits::set_lowest(bit_count);
        let actual = target.ones();
        let expected: Vec<u32> = (0..=bit_count - 1).into_iter().collect();
        assert_eq!(actual, expected);
    }
}

#[test]
fn set_bit() {
    let zero = Bits::empty();
    assert_has_set_bits(&zero, vec![]);
    assert_has_set_bits(&zero.set_bit(2), vec![2]);
    assert_has_set_bits(&zero.set_bit(2).set_bit(5), vec![2, 5]);
    assert_has_set_bits(&zero.set_bit(30).set_bit(8).set_bit(13), vec![8, 13, 30]);
}

#[test]
fn except() {
    let data = [
        ("", "", ""),
        ("1", "1", ""),
        ("1,2,3", "2,3", "1"),
        ("5,6,7", "1", "5,6,7"),
        ("23,1,8,3,4", "8,1", "3,4,23"),
    ];
    for (start, except, expected) in data {
        let actual = string_to_bits(start).except(string_to_bits(except));
        assert_eq!(actual, string_to_bits(expected));
    }
}

#[test]
fn except_bit() {
    let data = [
        ("1", 1, ""),
        ("1,2", 2, "1"),
        ("1,2,10", 10, "1,2"),
        ("5,6,7", 1, "5,6,7"),
        ("", 8, ""),
    ];
    for (start, bit, expected) in data {
        let actual = string_to_bits(start).except_bit(bit);
        assert_eq!(actual, string_to_bits(expected));
    }
}

#[test]
fn bits_to_string_test() {
    let data = [
        ("", "[]"),
        ("1", "[1]"),
        ("1,2,3", "[1,2,3]"),
        ("5,4,3", "[3,4,5]"),
        ("15,4,0", "[0,4,15]"),
    ];
    for (start, expected) in data {
        assert_eq!(string_to_bits(start).to_string(), expected);
    }
}

#[test]
fn bits_union() {
    let data = [
        ("", "", ""),
        ("1", "1", "1"),
        ("1,2,3", "2,3", "1,2,3"),
        ("5,6,7", "1,2,3", "1,2,3,5,6,7"),
        ("2", "1", "1,2"),
        ("", "5", "5"),
    ];
    for (start, other, expected) in data {
        let actual = string_to_bits(start).union(string_to_bits(other));
        assert_eq!(actual, string_to_bits(expected));
    }
}

#[test]
fn highest_bit() {
    let data = [
        ("1,2,3", 3),
        ("0", 0),
        ("1", 1),
        ("2", 2),
        ("5,6,7", 7),
        ("23,1,8,3,4", 23),
        ("30", 30),
        ("", u32::MAX),
    ];
    for (input, expected) in data {
        let actual = string_to_bits(input).highest_bit();
        assert_eq!(
            actual,
            if expected == u32::MAX {
                None
            } else {
                Some(expected)
            }
        );
    }
}

#[test]
fn bits_same_ones_count_ends_at_max() {
    for expected_ones in [1u32, 5, 9, 12, 32] {
        let max_bits = 32u32;
        let expected_max: u64 = ((1u64 << expected_ones) - 1) << (max_bits - expected_ones);
        let mut numbers = Bits::same_ones_count(expected_ones);
        let mut last: Option<u64> = None;
        while let Some(n) = numbers.next() {
            last = Some(n);
        }
        assert_eq!(last.unwrap_or(u64::MAX), expected_max);
    }
}

#[test]
fn bits_with_ones_count_test() {
    for expected_ones in [1u32, 5, 9, 12, 23, 31, 32] {
        let mut numbers = Bits::same_ones_count(expected_ones);
        let mut taken = 0;
        while taken < 1000 {
            match numbers.next() {
                None => break,
                Some(n) => {
                    assert_eq!((n as u32).count_ones(), expected_ones);
                    taken += 1;
                }
            }
        }
    }
}

fn choose_count(n: u32, k: u32) -> u128 {
    fn factorial(n: u128) -> u128 {
        (1..=n).product()
    }
    let n = n as u128;
    let k = k as u128;
    factorial(n) / factorial(n - k) / factorial(k)
}

#[test]
fn bits_subsets_of_size() {
    let data = [
        "0,1,5,7",
        "2,4,10,30",
        "1,2,3,4,5,6,7,30",
        "1,2,3,4,5,6,7,8,9,10,12,13,14",
        "6,1,8,7,2,9",
        "1",
        "1,2",
    ];
    for items in data {
        let bits = string_to_bits(items);
        let ones_count = bits.ones().len();
        for subset_size in 1..ones_count {
            let subsets = bits.subsets_of_size(subset_size as u32);
            let expected_count = choose_count(ones_count as u32, subset_size as u32);
            assert_eq!(subsets.len(), expected_count as usize);
            let unique = subsets
                .iter()
                .map(|b| b.to_string())
                .collect::<HashSet<String>>();
            assert_eq!(unique.len(), expected_count as usize);
            assert!(subsets.iter().all(|subset| subset.except(bits) == Bits::empty()));
        }
    }
}
