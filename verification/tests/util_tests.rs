use keylayout::u5::U5;
use keylayout::util::{choose_n_k, factorial, same_set_bits, set_bits, set_bits_decreasing};

#[test]
fn set_bits_test() {
    let data = [
        (127, vec![0, 1, 2, 3, 4, 5, 6]),
        (0, vec![]),
        (1, vec![0]),
        (3, vec![0, 1]),
        (8, vec![3]),
        (2, vec![1]),
        (12, vec![2, 3]),
        (
            u32::MAX,
            vec![
                0, 1, 2, 3, 4, 5, 6, 7, 8, 9, 10, 11, 12, 13, 14, 15, 16, 17, 18, 19, 20, 21, 22,
                23, 24, 25, 26, 27, 28, 29, 30, 31,
            ],
        ),
        (0b10101010101010, vec![1, 3, 5, 7, 9, 11, 13]),
    ];
    for (n, expected_low_to_high) in data {
        let low_to_high = set_bits(n);
        assert_eq!(expected_low_to_high, low_to_high, "for number {}", n);

        let mut high_to_low = set_bits_decreasing(n);
        high_to_low.reverse();
        assert_eq!(expected_low_to_high, high_to_low);
    }
}

#[test]
fn factorial_test() {
    let data = [(5, 120), (4, 24), (3, 6), (2, 2), (1, 1), (0, 1)];
    for (n, expected) in data {
        assert_eq!(factorial(n), expected);
    }
}

#[test]
fn choose_test() {
    let data = [
        (20, 4, 4845),
        (1, 1, 1),
        (1, 0, 1),
        (23, 4, 8855),
        (6, 3, 20),
        (18, 7, 31824),
    ];
    for (n, k, expected) in data {
        assert_eq!(choose_n_k(n, k), expected);
    }
}

#[test]
fn same_set_bits_ends_with_top_bits_filled() {
    for bits in [1u8, 5, 9, 24, 32] {
        let expected_max: u64 = ((1u64 << bits) - 1) << (u32::BITS - bits as u32);
        let mut numbers = same_set_bits(bits);
        let mut last = None;
        while let Some(n) = numbers.next() {
            last = Some(n);
        }
        assert_eq!(last.unwrap(), expected_max);
    }
}

#[test]
fn same_set_bits_returns_numbers_with_same_count_of_bits() {
    for bits in [1u8, 5, 9, 12, 32] {
        let mut numbers = same_set_bits(bits);
        while let Some(n) = numbers.next() {
            assert!(
                n.count_ones() == bits as u32,
                "Expected every number to have exactly {} bits.",
                bits
            );
        }
    }
}

#[test]
fn same_set_bits_returns_correct_count_of_results() {
    for bits in [1u8, 5, 26, 32] {
        let mut numbers = same_set_bits(bits);
        let mut actual = 0usize;
        while numbers.next().is_some() {
            actual += 1;
        }
        let expected: usize = choose_n_k(32, bits as u32).try_into().unwrap();
        assert_eq!(actual, expected);
    }
}

#[test]
fn serialize_creates_non_whitespace_characters() {
    let mut s = String::new();
    (0..=31).for_each(|i| {
        let num = U5::new(i);
        let c = num.serialize();
        assert!(!c.is_whitespace(), "expected not whitespace");
        s.push(c);
    });
    assert_eq!(s.chars().count(), 32);
}
