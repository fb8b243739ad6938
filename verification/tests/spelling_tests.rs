use keylayout::key::Key;
use keylayout::key_set::KeySet;
use keylayout::letter::Letter;
use keylayout::spelling::Spelling;
use std::cmp::Ordering;

#[test]
fn longest_word_fits_in_u128() {
    let max_bits_per_letter = Letter::ALPHABET_SIZE.ilog2() + 1;
    let max_bits = Spelling::MAX_WORD_LENGTH * (max_bits_per_letter as usize);
    assert!(max_bits <= 128)
}

#[test]
fn new_when_valid() {
    let data = ["abc", "happy", "abcdefghijklmnopqrstuvwxy", "bcdefghijklmnopqrstuvwxyz", "there's"];
    for s in data {
        let word = Spelling::parse(s).unwrap();
        let letters_as_string = word
            .letters()
            .iter()
            .map(|r| Letter::to_string(r))
            .collect::<Vec<String>>()
            .join("");
        assert_eq!(s, letters_as_string);
    }
}

#[test]
fn try_from_str_when_too_long() {
    assert!(Spelling::parse("abcdefghijklmnopqrstuvwxy").is_ok());
    assert!(Spelling::parse("abcdefghijklmnopqrstuvwxyz").is_err());
}

#[test]
fn len_for_all_word_lengths() {
    for letter in Letter::ALPHABET {
        for size in 1..=Spelling::MAX_WORD_LENGTH {
            let word_string = std::iter::repeat(letter)
                .take(size)
                .fold(String::new(), |mut total, i| {
                    total.push(i);
                    total
                });
            let word = Spelling::parse(&word_string).unwrap();
            assert_eq!(
                word.len(),
                size as u8,
                "checking size of '{}' repeated {} times",
                word_string,
                size
            );
        }
    }
}

#[test]
fn letters_count_is_correct() {
    for letter in Letter::ALPHABET {
        for size in 1..=Spelling::MAX_WORD_LENGTH {
            let word_string = std::iter::repeat(letter)
                .take(size)
                .fold(String::new(), |mut total, i| {
                    total.push(i);
                    total
                });
            let word = Spelling::parse(&word_string).unwrap();
            let result = word.letters().len();
            assert_eq!(result, size, "checking length of '{}' repeated {} times", word_string, size);
        }
    }
}

#[test]
fn word_try_from_str_when_invalid_characters() {
    for s in ["45jal", "a%pple", "pe   ar", "   "] {
        assert!(Spelling::parse(s).is_err());
    }
}

#[test]
fn try_from_str_when_no_characters_fails() {
    assert!(Spelling::parse("").is_err());
}

#[test]
fn cmp_sorts_only_by_word() {
    let data = [
        ("a", "b", Ordering::Less),
        ("a", "bcd", Ordering::Less),
        ("abc", "abcd", Ordering::Less),
        ("a", "a", Ordering::Equal),
        ("abc", "abc", Ordering::Equal),
        ("aaaaa", "z", Ordering::Greater),
    ];
    for (a, b, ordering) in data {
        let a_word = Spelling::parse(a).unwrap();
        let b_word = Spelling::parse(b).unwrap();
        assert_eq!(a_word.cmp(&b_word), ordering, "comparing '{}' and '{}'", a, b);
        assert_eq!(b_word.cmp(&a_word), ordering.reverse(), "comparing '{}' and '{}'", a, b);
    }
}

#[test]
fn overlap() {
    let data = [
        ("book", "beek", '_', Some("b__k")),
        ("bit", "bat", '_', Some("b_t")),
        ("moist", "moose", '_', Some("mo_s_")),
        ("book", "the", '_', None),
        ("a", "a", '_', Some("a")),
        ("the", "the", '_', Some("the")),
        ("the", "and", '_', Some("___")),
        ("the", "happy", '_', None),
    ];
    for (a, b, placeholder, expect) in data {
        let word_a = Spelling::parse(a).unwrap();
        let word_b = Spelling::parse(b).unwrap();
        let actual = word_a.overlap(&word_b, placeholder);
        let expected = expect.map(|s| s.to_string());
        assert_eq!(actual, expected);
    }
}

#[test]
fn replace_letters() {
    let data = [
        ("abc", "ab", 'x', "xxc"),
        ("abc", "b", 'x', "axc"),
        ("abc", "abc", 'x', "xxx"),
        ("abc", "abcd", 'x', "xxx"),
        ("abc", "q", 'x', "abc"),
        ("abc", "", 'x', "abc"),
    ];
    for (source, find, replace_with, expected) in data {
        let source_word = Spelling::parse(source).unwrap();
        let find_key = Key::new(find);
        let replace_with_letter = Letter::new(replace_with);
        let result = source_word.replace_letters(find_key, replace_with_letter);
        assert_eq!(result.to_string(), expected.to_string(), "{},{},{}", source, find, replace_with)
    }
}

#[test]
fn different_pairs_only_for_equal_lengths() {
    let a = Spelling::parse("hit").unwrap();
    let b = Spelling::parse("hat").unwrap();
    let pairs = a.different_pairs(&b);
    assert_eq!(pairs, vec![(Letter::new('i'), Letter::new('a'))]);
    let c = Spelling::parse("hats").unwrap();
    assert!(a.different_pairs(&c).is_empty());
}

#[test]
fn word_differences() {
    let data = [
        ("hit", "hit", ""),
        ("hit", "hat", "ai"),
        ("hit", "bat", "ai bh"),
        ("hit", "mob", "bt hm io"),
        ("aaa", "bbb", "ab"),
        ("book", "beek", "eo"),
        ("bookii", "beekjj", "eo ij"),
        ("a", "b", "ab"),
        ("a", "a", ""),
        ("ab", "a", ""),
        ("a", "ab", ""),
        ("a", "aa", ""),
    ];
    for (word_a, word_b, expected) in data {
        let a = Spelling::parse(word_a).unwrap();
        let b = Spelling::parse(word_b).unwrap();
        let actual = KeySet::with_word_differences(&a, &b).to_string();
        assert_eq!(actual, expected, "word_a:{} word_b:{} expected:{}, actual:{}", word_a, word_b, expected, actual)
    }
}
