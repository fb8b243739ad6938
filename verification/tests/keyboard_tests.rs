use keylayout::key::Key;
use keylayout::keyboard::Keyboard;
use keylayout::letter::Letter;
use keylayout::partitions::Partitions;
use keylayout::prohibited::Prohibited;
use keylayout::search::place_letter;
use std::collections::HashSet;

fn word_letters(word: &str) -> Vec<Letter> {
    word.chars().map(|c| Letter::new(c)).collect()
}

#[test]
fn spell_test() {
    let k = Keyboard::with_layout("abc,def,ghi,jkl,mno,pqr,stu,vwx,yz'");
    let w = word_letters("word");
    let actual = k.spell(&w);
    assert_eq!(actual, "vwx,mno,pqr,def");
}

#[test]
fn spell_serialized_test() {
    let k = Keyboard::with_layout("abc,def,ghi,jkl,mno,pqr,stu,vwx,y'z");
    let data = [
        ("adg", "beh", true),
        ("adgj", "behk", true),
        ("a", "b", true),
        ("a", "c", true),
        ("a", "d", false),
        ("abc", "cba", true),
        ("abc", "cbaz", false),
        ("z", "y", true),
        ("zzm", "yzm", true),
        ("jmr", "jma", false),
        ("poad", "pobg", false),
        ("poad", "rmaf", true),
    ];
    for (w1, w2, expect_are_same) in data {
        let w1_spell = k.spell_serialized(&word_letters(w1));
        let w2_spell = k.spell_serialized(&word_letters(w2));
        assert_eq!(w1_spell == w2_spell, expect_are_same);
    }
}

#[test]
fn find_key_index_for_letter() {
    let data = [
        ("abc", 'a', Some(0)),
        ("abc", 'b', Some(0)),
        ("abc", 'c', Some(0)),
        ("abc", 'x', None),
        ("abc", 'b', Some(0)),
        ("abc,def", 'd', Some(1)),
        ("abc,def", 'e', Some(1)),
        ("abc,def", 'f', Some(1)),
        ("abc,def", 'x', None),
    ];
    for (layout, letter, expected_key_index) in data {
        let keyboard = Keyboard::with_layout(layout);
        let letter_to_find = Letter::new(letter);
        let actual = keyboard.find_key_index(letter_to_find);
        assert_eq!(actual, expected_key_index);
    }
}

#[test]
fn letters() {
    let data = [("abc,def,ghi", "abcdefghi"), ("abc", "abc"), ("", "")];
    for (keyboard, expected) in data {
        let keyboard = Keyboard::with_layout(&keyboard);
        let actual = keyboard.letters();
        let expected = Key::new(expected);
        assert_eq!(actual, expected)
    }
}

#[test]
fn has_prohibited_keys_true_if_any_prohibited() {
    let data = [
        ("abc,def,ghi", "de", true),
        ("abc,def,ghi", "gh", true),
        ("abc,def,ghi", "c", true),
        ("abc,def,ghi", "fg", false),
        ("abc,def,ghi", "ag", false),
        ("abc,def,ghi", "adg", false),
    ];
    for d in data {
        let (keyboard_layout, prohibited_items, expect_is_prohibited) = d;
        let k = Keyboard::with_layout(&keyboard_layout);
        let mut prohibited = Prohibited::new();
        let keys = prohibited_items
            .split(",")
            .map(|rr| Key::new(rr))
            .collect::<Vec<Key>>();
        prohibited.add_many(&keys);
        let actual = k.has_prohibited_keys(&prohibited);
        assert_eq!(
            actual, expect_is_prohibited,
            "for keyboard {} and prohibited {}",
            keyboard_layout, prohibited_items
        );
    }
}

#[test]
fn with_layout_can_split_on_comma_or_space() {
    let a = Keyboard::with_layout("abc,def,ghi");
    let b = Keyboard::with_layout("abc def ghi");
    assert_eq!(a.to_string(), b.to_string());
}

#[test]
fn to_string_sorts_the_keys() {
    let k = Keyboard::with_layout("ghi,abc,def");
    assert_eq!(k.to_string(), "abc def ghi");
    let k = Keyboard::with_layout("z',ab");
    assert_eq!(k.to_string(), "ab z'");
    let k = Keyboard::with_layout("b,'a");
    assert_eq!(k.to_string(), "a' b");
}

#[test]
fn every_swap_trades_letters_between_keys() {
    let k = Keyboard::with_layout("ab,cd");
    let swaps = k.every_swap();
    let mut texts = swaps.iter().map(|k| k.to_string()).collect::<Vec<String>>();
    texts.sort();
    assert_eq!(texts, vec!["ac bd", "ac bd", "ad bc", "ad bc"]);
    let unique = texts.iter().collect::<HashSet<&String>>();
    assert_eq!(unique.len(), 2);
}

#[test]
fn every_swap_trades_every_letter_pair_once() {
    let k = Keyboard::with_layout("c,ab");
    let swaps = k.every_swap();
    assert_eq!(swaps.len(), 2);
    let placements = |kb: &Keyboard| {
        "abc"
            .chars()
            .map(|c| kb.find_key_index(Letter::new(c)).unwrap())
            .collect::<Vec<usize>>()
    };
    let mut seen = swaps.iter().map(|kb| placements(kb)).collect::<Vec<Vec<usize>>>();
    seen.sort();
    assert_eq!(seen, vec![vec![0, 1, 1], vec![1, 0, 1]]);
    let k = Keyboard::with_layout("abc,def");
    let swaps = k.every_swap();
    assert_eq!(swaps.len(), 9);
    let placements = |kb: &Keyboard| {
        "abcdef"
            .chars()
            .map(|c| kb.find_key_index(Letter::new(c)).unwrap())
            .collect::<Vec<usize>>()
    };
    let unique = swaps.iter().map(|kb| placements(kb)).collect::<HashSet<Vec<usize>>>();
    assert_eq!(unique.len(), 9);
}

#[test]
fn swap_random_letters_keeps_key_sizes_and_letters() {
    let k = Keyboard::with_layout("abc,defg,hi");
    for _ in 0..50 {
        let swapped = k.swap_random_letters().unwrap();
        assert_eq!(swapped.letters(), k.letters());
        assert_eq!(swapped.len(), 3);
        let mut sizes = swapped
            .to_string()
            .split(' ')
            .map(|s| s.len())
            .collect::<Vec<usize>>();
        sizes.sort();
        assert_eq!(sizes, vec![2, 3, 4]);
        assert_ne!(swapped.to_string(), k.to_string());
    }
    let many = k.swap_random_letters_n_times(8).unwrap();
    assert_eq!(many.letters(), k.letters());
    assert!(Keyboard::with_layout("abc").swap_random_letters().is_err());
    assert!(Keyboard::with_layout("abc").swap_random_letters_n_times(0).is_ok());
}

#[test]
fn without_keys_with_one_letter_drops_small_keys() {
    let k = Keyboard::with_layout("abc,d,ef,g");
    assert_eq!(k.without_keys_with_one_letter().to_string(), "abc ef");
}

#[test]
fn fill_missing_adds_single_letter_keys() {
    let k = Keyboard::with_layout("abc,ef");
    let filled = k.fill_missing(Key::new("abcdefg"));
    assert_eq!(filled.to_string(), "abc d ef g");
    assert_eq!(filled.len(), 4);
}

#[test]
fn every_letter_on_own_key() {
    let k = Keyboard::with_every_letter_on_own_key(Key::new("cab"));
    assert_eq!(k.to_string(), "a b c");
    assert_eq!(k.len(), 3);
}

#[test]
fn key_size_statistics() {
    let k = Keyboard::with_layout("abc,de,fgh,i");
    assert_eq!(k.max_key_size(), Some(3));
    assert_eq!(k.min_key_size(), Some(1));
    let sizes = k.key_sizes();
    assert_eq!(sizes.count(3), 2);
    assert_eq!(sizes.count(2), 1);
    assert_eq!(sizes.count(1), 1);
    assert_eq!(Keyboard::empty().max_key_size(), None);
}

#[test]
fn add_key_and_find_key() {
    let k = Keyboard::with_layout("abc").add_key(Key::new("xy"));
    assert_eq!(k.find_key(Letter::new('y')), Some(Key::new("xy")));
    assert_eq!(k.find_key(Letter::new('q')), None);
}

#[test]
fn random_one_uses_a_layout() {
    let alphabet = Key::with_first_n_letters(10);
    let layout = Partitions {
        sum: 10,
        parts: 3,
        min: 2,
        max: 5,
    };
    let options = layout.calculate();
    let prohibited = Prohibited::new();
    let k = Keyboard::random_one(alphabet, &options, &prohibited).unwrap();
    assert_eq!(k.len(), 3);
    assert_eq!(k.letters(), alphabet);
}

fn dfs_partitions(letter_count: u32, key_count: u32) -> Partitions {
    Partitions {
        sum: letter_count,
        min: 1,
        max: letter_count,
        parts: key_count,
    }
}

#[test]
fn with_dfs_creates_proper_number_of_keyboards() {
    let data = [(8, 3), (4, 2), (7, 3), (1, 1), (2, 2), (6, 3)];
    for (letter_count, key_count) in data {
        let key_sizes = dfs_partitions(letter_count, key_count);
        let expected = key_sizes.total_unique_keyboards();
        let alphabet = Key::with_first_n_letters(letter_count as u8);
        let actual = Keyboard::with_dfs(alphabet, &key_sizes, &Prohibited::new())
            .into_iter()
            .filter(|k| k.len() == key_count as usize)
            .count();
        assert_eq!(expected, actual as u128);
    }
}

#[test]
fn with_dfs_never_calls_prune_more_than_once_per_keyboard() {
    let data = [(8, 3), (8, 5), (4, 2), (7, 3), (1, 1), (2, 2), (6, 3)];
    for (letter_count, key_count) in data {
        let key_sizes = dfs_partitions(letter_count, key_count);
        let alphabet = Key::with_first_n_letters(letter_count as u8);
        let mut seen = HashSet::new();
        for k in Keyboard::with_dfs(alphabet, &key_sizes, &Prohibited::new()) {
            if !seen.insert(k.to_string()) {
                panic!("Tried to evaluate the same keyboard more than once.");
            }
        }
    }
}

#[test]
fn with_dfs_creates_unique_intermediate_keyboards() {
    let data = [(8, 5), (6, 2), (5, 1), (1, 1), (4, 2), (4, 3)];
    for (letter_count, key_count) in data {
        let alphabet = Key::with_first_n_letters(letter_count as u8);
        for len in 2..key_count {
            let key_sizes = dfs_partitions(letter_count, key_count);
            let mut seen = HashSet::new();
            for k in Keyboard::with_dfs(alphabet, &key_sizes, &Prohibited::new())
                .into_iter()
                .filter(|k| k.len() == len as usize)
            {
                assert!(seen.insert(k.to_string()), "Expected only unique keyboards of size {}", len);
            }
        }
    }
}

#[test]
fn with_dfs_never_returns_empty_keyboard() {
    let data = [(8, 3), (6, 3), (1, 1), (4, 3), (2, 1)];
    for (letter_count, key_count) in data {
        let alphabet = Key::with_first_n_letters(letter_count as u8);
        let key_sizes = dfs_partitions(letter_count, key_count);
        assert!(Keyboard::with_dfs(alphabet, &key_sizes, &Prohibited::new())
            .iter()
            .all(|k| k.len() > 0));
    }
}

#[test]
fn with_dfs_creates_unique_final_keyboards() {
    let data = [(8, 3), (5, 1), (4, 3), (4, 2)];
    for (letter_count, key_count) in data {
        let alphabet = Key::with_first_n_letters(letter_count as u8);
        let key_sizes = dfs_partitions(letter_count, key_count);
        let mut seen = HashSet::new();
        for k in Keyboard::with_dfs(alphabet, &key_sizes, &Prohibited::new())
            .into_iter()
            .filter(|k| k.len() == key_count as usize)
        {
            assert!(seen.insert(k.to_string()), "Expected only unique keyboards of size {}", key_count);
        }
    }
}

#[test]
fn with_dfs_pruned_keyboard_is_last() {
    let data = [(6, 4, "ab"), (6, 4, "cd"), (6, 4, "ad"), (5, 3, "ab")];
    for (letter_count, key_count, prohibited) in data {
        let key_sizes = dfs_partitions(letter_count, key_count);
        let prohibited = Key::new(prohibited);
        let mut p = Prohibited::new();
        p.add(prohibited);
        let alphabet = Key::with_first_n_letters(letter_count as u8);
        assert!(Keyboard::with_dfs(alphabet, &key_sizes, &p).iter().all(|k| {
            let keys = k.keys();
            keys.iter().enumerate().all(|(index, key)| {
                if key.contains_all(&prohibited) {
                    index == (keys.len() - 1)
                } else {
                    true
                }
            })
        }));
    }
}

#[test]
fn place_letter_offers_each_key_and_a_new_one() {
    let keys = vec![Key::from_str("ab").unwrap(), Key::from_str("c").unwrap()];
    let mut prohibited = Prohibited::new();
    prohibited.add(Key::from_str("cd").unwrap());
    let options = place_letter(&keys, Letter::new('d'), &prohibited);
    assert_eq!(options.len(), 3);
    let texts = |v: &Vec<Key>| v.iter().map(|k| k.to_string()).collect::<Vec<String>>();
    assert_eq!(texts(options[0].as_ref().unwrap()), vec!["abd", "c"]);
    assert!(options[1].is_none());
    assert_eq!(texts(options[2].as_ref().unwrap()), vec!["ab", "c", "d"]);
    let many = (0..10).map(|i| Key::with_one_letter(Letter::new((b'a' + i) as char))).collect::<Vec<Key>>();
    let options = place_letter(&many, Letter::new('z'), &Prohibited::new());
    assert_eq!(options.len(), 10);
    assert!(options.iter().all(|o| o.as_ref().unwrap().len() == 10));
}

#[test]
fn from_draws_takes_first_allowed_candidate_of_each_row() {
    let alphabet = Key::from_str("abc").unwrap();
    let mut prohibited = Prohibited::new();
    prohibited.add(Key::from_str("ab").unwrap());
    let draws = vec![
        vec![Key::from_str("ab").unwrap(), Key::from_str("ac").unwrap(), Key::from_str("bc").unwrap()],
        vec![Key::from_str("b").unwrap()],
    ];
    let k = Keyboard::from_draws(alphabet, &vec![2, 1], &draws, &prohibited).unwrap();
    assert_eq!(k.to_string(), "ac b");
    assert_eq!(k.find_key_index(Letter::new('b')), Some(1));
    let failing = vec![vec![Key::from_str("ab").unwrap(), Key::from_str("ab").unwrap()]];
    assert!(Keyboard::from_draws(alphabet, &vec![2, 1], &failing, &prohibited).is_none());
}

#[test]
fn random_one_without_prohibited_groups_always_succeeds() {
    let alphabet = Key::from_str("abcdef").unwrap();
    let layouts = vec![vec![3, 2, 1], vec![2, 2, 2]];
    for _ in 0..20 {
        let k = Keyboard::random_one(alphabet, &layouts, &Prohibited::new()).unwrap();
        assert_eq!(k.letters().to_string(), alphabet.to_string());
        assert_eq!(k.len(), 3);
    }
}
