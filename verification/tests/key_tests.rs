use keylayout::key::Key;
use keylayout::letter::Letter;
use keylayout::prohibited::Prohibited;
use keylayout::util::choose_n_k;
use std::collections::HashSet;

#[test]
fn try_from_str_when_valid() {
    for s in ["abc", "a", "abcdez\'", "xyz", ""] {
        let key: Key = s.try_into().unwrap();
        assert_eq!(key.to_string(), s.to_string());
    }
}

#[test]
fn try_from_str_when_invalid() {
    for s in ["098", "a#4", "   "] {
        let key: Result<Key, _> = s.try_into();
        assert!(key.is_err());
    }
}

#[test]
fn to_string_concatenates_letters() {
    let data = ["abc", "", "mnop'"];
    for s in data {
        let actual = Key::new(s).to_string();
        assert_eq!(s.to_string(), actual);
    }
}

#[test]
fn with_every_letter_includes_every_letter() {
    let target = Key::with_every_letter();
    assert_eq!(target.to_string(), "abcdefghijklmnopqrstuvwxyz'".to_string());
}

#[test]
fn with_first_n_letters_includes_first_n() {
    let data = [
        (0, ""),
        (1, "a"),
        (3, "abc"),
        (27, "abcdefghijklmnopqrstuvwxyz'"),
    ];
    for (count, expected) in data {
        let target = Key::with_first_n_letters(count);
        assert_eq!(expected, target.to_string())
    }
}

#[test]
fn max_letters_is_alphabet_size() {
    assert_eq!(Letter::ALPHABET_SIZE, Key::MAX_SIZE as usize);
}

#[test]
fn key_letters_test() {
    let data = ["", "abc", "a", "xyz", "az'"];
    for d in data {
        let k: Vec<String> = Key::new(d).letters().iter().map(|r| r.to_string()).collect();
        let result = k.join("");
        assert_eq!(d, result);
    }
}

#[test]
fn add_test() {
    assert_eq!(
        Key::empty()
            .add(Letter::new('a'))
            .add(Letter::new('b'))
            .add(Letter::new('c'))
            .add(Letter::new('d'))
            .to_string(),
        "abcd"
    );
}

#[test]
fn except_test() {
    let data = [
        ("", "", ""),
        ("a", "a", ""),
        ("abc", "bc", "a"),
        ("abc", "x", "abc"),
        ("abcdefg", "afg", "bcde"),
        ("", "abc", ""),
        ("a", "abc", ""),
    ];
    for (start, other, expected) in data {
        let start = Key::new(start);
        let except = Key::new(other);
        let expected = Key::new(expected);
        assert_eq!(start.except(except), expected);
    }
}

#[test]
fn key_remove_test() {
    let data = [
        ("", 'a', ""),
        ("a", 'a', ""),
        ("abc", 'b', "ac"),
        ("abc", 'x', "abc"),
        ("abcdefg", 'e', "abcdfg"),
        ("", 'a', ""),
    ];
    for (start, to_remove, expected) in data {
        let start = Key::new(start);
        let except = Letter::new(to_remove);
        let expected = Key::new(expected);
        assert_eq!(start.remove(except), expected);
    }
}

#[test]
fn contains_test() {
    let data = [
        ("", 'a', false),
        ("a", 'a', true),
        ("a", 'b', false),
        ("abcd", 'b', true),
        ("abcd", 'x', false),
    ];
    for (start, find, expected) in data {
        let start = Key::new(start);
        let other = Letter::new(find);
        assert_eq!(start.contains(other), expected);
    }
}

#[test]
fn contains_all_test() {
    let data = [
        ("", "", true),
        ("a", "a", true),
        ("a", "ab", false),
        ("a", "x", false),
        ("abc", "a", true),
        ("abc", "ab", true),
        ("abc", "ac", true),
        ("abc", "abc", true),
        ("abc", "abcx", false),
        ("abc", "ax", false),
        ("abc", "x", false),
        ("abc", "", true),
    ];
    for (start, other, expected) in data {
        let start = Key::new(start);
        let other = Key::new(other);
        assert_eq!(start.contains_all(&other), expected);
    }
}

#[test]
fn count_letters_test() {
    let data = [(""), ("a"), ("abcde"), ("abcdefghijklmnopqrstuvwxyz'")];
    for start in data {
        let start = Key::new(start);
        assert_eq!(start.count_letters() as usize, start.to_string().len());
    }
}

#[test]
fn with_one_letter_test() {
    assert_eq!("a", Key::with_one_letter(Letter::new('a')).to_string());
    assert_eq!("b", Key::with_one_letter(Letter::new('b')).to_string());
    assert_eq!("c", Key::with_one_letter(Letter::new('c')).to_string());
}

#[test]
fn union_test() {
    let data = [
        ("", "", ""),
        ("a", "a", "a"),
        ("a", "", "a"),
        ("abc", "x", "abcx"),
        ("abcdefg", "afg", "abcdefg"),
        ("abc", "xyz", "abcxyz"),
    ];
    for (start, other, expected) in data {
        let start = Key::new(start);
        let other = Key::new(other);
        let expected = Key::new(expected);
        assert_eq!(start.union(other), expected);
    }
}

#[test]
fn intersect_test() {
    let data = [
        ("", "", ""),
        ("a", "a", "a"),
        ("a", "", ""),
        ("abc", "x", ""),
        ("abcdefg", "afg", "afg"),
        ("abc", "xyz", ""),
        ("abcd", "cdef", "cd"),
    ];
    for (start, other, expected) in data {
        let start = Key::new(start);
        let other = Key::new(other);
        let expected = Key::new(expected);
        assert_eq!(start.intersect(other), expected);
    }
}

#[test]
fn max_letter_test() {
    let data = [("a", 'a'), ("abc", 'c'), ("cba", 'c')];
    for (start, expected) in data {
        let start = Key::new(start);
        let expected = Letter::new(expected);
        assert_eq!(start.max_letter(), Some(expected));
    }
    assert!(Key::empty().max_letter().is_none());
}

#[test]
fn min_letter_test() {
    let data = [("a", 'a'), ("abc", 'a'), ("cba", 'a'), ("xyfwfg", 'f')];
    for (start, expected) in data {
        let start = Key::new(start);
        let expected = Letter::new(expected);
        assert_eq!(start.min_letter(), Some(expected));
    }
    assert!(Key::empty().min_letter().is_none());
}

#[test]
fn key_is_allowed() {
    let mut p = Prohibited::new();
    p.add(Key::new("ae"));
    p.add(Key::new("st"));

    assert!(Key::new("aem").is_prohibited(&p));
    assert!(false == Key::new("aem").is_allowed(&p));

    assert!(false == Key::new("a").is_prohibited(&p));
    assert!(Key::new("a").is_allowed(&p));
}

#[test]
fn subsets_of_size_zero_return_one_empty_set() {
    let key = Key::with_every_letter();
    let result = key.subsets_of_size(0);
    assert_eq!(1, result.len());
    assert_eq!(Key::empty(), result[0]);
}

#[test]
fn subsets_of_size_test() {
    let data = ["abdfj", "abcdefghmpq", "apqrx", "cdexyz", "", "f"];
    for items in data {
        let key = Key::new(items);
        let ones_count = key.letters().len() as u8;
        for subset_size in 1..ones_count {
            let subsets = key.subsets_of_size(subset_size);
            let expected_count = choose_n_k(ones_count as u32, subset_size as u32);
            assert_eq!(subsets.len(), expected_count as usize);
            let unique = subsets
                .iter()
                .map(|b| b.to_string())
                .collect::<HashSet<String>>();
            assert_eq!(unique.len(), expected_count as usize);
            assert!(subsets.iter().all(|subset| subset.except(key) == Key::empty()));
        }
    }
}

#[test]
fn from_iterator_of_letter() {
    let letters = ['a', 'b', 'c', 'd', 'e', 'f']
        .iter()
        .map(|c| Letter::new(*c))
        .collect::<Vec<Letter>>();
    let result = Key::from_letters(&letters);
    assert_eq!("abcdef", result.to_string());
}

#[test]
fn random_letter_when_empty_return_none() {
    for _i in 1..=1000 {
        assert_eq!(None, Key::empty().random_letter());
    }
}

#[test]
fn random_letter_gets_every_letter_eventually() {
    let data = ["a", "abc", "abcdefghijklmnopqrtsuvwxyz'"];
    for d in data {
        let target = Key::new(d);
        let letters = (1..=1000)
            .map(|_| target.random_letter().unwrap())
            .collect::<Vec<Letter>>();
        let found = Key::from_letters(&letters);
        assert_eq!(target, found)
    }
}

#[test]
fn random_subset_gets_every_letter_eventually() {
    let data = ["", "a", "abc", "abcdefghijklmnopqrtsuvwxyz'"];
    for key in data {
        let source = Key::new(key);
        let letter_count: u8 = key.len().try_into().unwrap();
        for min_size in 0..=letter_count {
            for max_size in min_size..=letter_count {
                let mut result = Key::empty();
                for i in 1..1000 {
                    let subset = source.random_subset(min_size, max_size);
                    result = result.union(subset);
                    if i > 100 && result == source {
                        break;
                    }
                }
                if max_size == 0 {
                    assert_eq!(result, Key::empty())
                } else {
                    assert_eq!(result, source);
                }
            }
        }
    }
}

#[test]
fn random_subsets_returns_keys_with_all_the_letters_of_source_key() {
    let key = Key::with_every_letter();
    let data = [
        vec![3, 3, 5, 4],
        vec![1, 1, 1, 1],
        vec![5, 5, 2, 1],
        vec![1],
    ];
    for key_sizes in data {
        let result = key.random_subsets(&key_sizes);
        let total_letters = key_sizes.iter().fold(0, |total, i| total + i);
        let every_letter = result.iter().fold(Key::empty(), |total, i| total.union(*i));
        assert_eq!(every_letter.count_letters(), total_letters);
        let unique_letters = result
            .into_iter()
            .flat_map(|k| k.letters())
            .collect::<HashSet<Letter>>();
        assert_eq!(unique_letters.len(), total_letters as usize);
    }
}

#[test]
fn subsets() {
    let total_letters = 7;
    let choose = 3;
    let k = Key::with_first_n_letters(total_letters);
    let result = k.subsets_of_size(choose);
    for i in &result {
        println!("{}", i.to_string());
    }
    assert_eq!(result.len(), 35);
}

#[test]
fn swap_random_letter_trades_one_letter_each() {
    let a = Key::new("abc");
    let b = Key::new("xyz");
    let (new_a, new_b) = a.swap_random_letter(&b).unwrap();
    assert_eq!(new_a.count_letters(), 3);
    assert_eq!(new_b.count_letters(), 3);
    assert_eq!(new_a.union(new_b), a.union(b));
    assert_eq!(new_a.intersect(a).count_letters(), 2);
    assert!(Key::empty().swap_random_letter(&b).is_none());
}

fn format_keys(keys: &Vec<Vec<Key>>) -> String {
    let mut formatted = keys
        .iter()
        .map(|k| keylayout::keyboard::Keyboard::with_keys(k.clone()).to_string())
        .collect::<Vec<String>>();
    formatted.sort();
    formatted.join(" : ")
}

#[test]
fn distribute_letters_with_equal_key_sizes() {
    let key = Key::with_first_n_letters(4);
    let key_sizes = keylayout::tally::Tally::from_items(&vec![2, 2]);
    let results = key.distribute(&key_sizes);
    let results_as_text = format_keys(&results);
    assert_eq!("ab cd : ac bd : ad bc", results_as_text);
}

#[test]
fn distribute_letters_with_unequal_key_sizes() {
    let key = Key::with_first_n_letters(3);
    let key_sizes = keylayout::tally::Tally::from_items(&vec![1, 2]);
    let results = key.distribute(&key_sizes);
    let results_as_text = format_keys(&results);
    assert_eq!("a bc : ab c : ac b", results_as_text);
}

#[test]
fn distribute_many_letters_with_one_key() {
    let key = Key::with_first_n_letters(3);
    let key_sizes = keylayout::tally::Tally::from_items(&vec![3]);
    let results = key.distribute(&key_sizes);
    let results_as_text = format_keys(&results);
    assert_eq!("abc", results_as_text);
}

#[test]
fn distribute_one_letter_on_one_key() {
    let key = Key::with_first_n_letters(1);
    let key_sizes = keylayout::tally::Tally::from_items(&vec![1]);
    let results = key.distribute(&key_sizes);
    let results_as_text = format_keys(&results);
    assert_eq!("a", results_as_text);
}

#[test]
fn distribute_letters_calculates_correct_number_of_results() {
    let key = Key::with_first_n_letters(11);
    let key_sizes = keylayout::tally::Tally::from_items(&vec![2, 2, 3, 4]);
    let results = key.distribute(&key_sizes);
    assert_eq!(34650, results.iter().count());
}

#[test]
fn distribute_letters_calculates_unique_results() {
    let data = [
        vec![1u32],
        vec![1, 2],
        vec![2, 2, 3, 3],
        vec![1, 2, 3],
        vec![4, 5],
        vec![5, 5],
    ];
    for d in data {
        let letter_count = d.iter().fold(0, |total, i| total + i) as u8;
        let key = Key::with_first_n_letters(letter_count);
        let key_sizes = keylayout::tally::Tally::from_items(&d);
        key.distribute(&key_sizes)
            .into_iter()
            .map(|ks| keylayout::keyboard::Keyboard::with_keys(ks).to_string())
            .fold(HashSet::new(), |mut total, i| {
                if total.contains(&i) {
                    panic!("There are duplicate results.");
                }
                total.insert(i);
                total
            });
    }
}

#[test]
fn distribute_letters_calculates_results_with_only_correct_letters() {
    let data = [
        vec![1u32],
        vec![1, 2],
        vec![2, 2, 3, 3],
        vec![1, 2, 3],
        vec![4, 5],
        vec![5, 5],
    ];
    for d in data {
        let letter_count = d.iter().fold(0, |total, i| total + i) as u8;
        let key = Key::with_first_n_letters(letter_count);
        let key_sizes = keylayout::tally::Tally::from_items(&d);
        let all_letters = key
            .distribute(&key_sizes)
            .into_iter()
            .flat_map(|ks| ks)
            .fold(Key::empty(), |total, i| total.union(i));
        assert_eq!(all_letters.letters().len(), letter_count as usize);
    }
}

#[test]
fn split_by_letter_gives_one_key_per_letter_in_order() {
    let key: Key = "dab".try_into().unwrap();
    let parts: Vec<String> = key.split_by_letter().iter().map(|k| k.to_string()).collect();
    assert_eq!(parts, vec!["a".to_string(), "b".to_string(), "d".to_string()]);
    let empty: Key = "".try_into().unwrap();
    assert!(empty.split_by_letter().is_empty());
}
