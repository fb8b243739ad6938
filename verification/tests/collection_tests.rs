use keylayout::item_count::{with_u32_groups, ItemCount};
use keylayout::letter::Letter;
use keylayout::letter_map::LetterMap;
use keylayout::partitionable::permutations;
use keylayout::tally::Tally;
use keylayout::trie::Node;
use keylayout::utility;

const A: u32 = 0;
const B: u32 = 1;
const C: u32 = 2;

fn make_counts(a: u32, b: u32, c: u32) -> ItemCount {
    ItemCount::from_counts(&vec![(A, a), (B, b), (C, c)])
}

#[test]
fn when_many_items_permutation_count_is_correct() {
    let f = make_counts(2, 1, 1);
    assert_eq!(12, f.permute().len());
}

#[test]
fn when_1_item() {
    let f = make_counts(3, 0, 0);
    assert_eq!(1, f.permute().len());
}

#[test]
fn when_2_item() {
    let f = make_counts(1, 1, 0);
    assert_eq!(2, f.permute().len());
}

#[test]
fn item_count_groups_and_parts() {
    let f = with_u32_groups(&vec![5, 5, 7]);
    assert!(!f.is_empty());
    let parts = f.parts();
    assert_eq!(parts.len(), 2);
    for (item, rest) in parts {
        let rest_orders = rest.permute();
        if item == 5 {
            assert_eq!(rest_orders.len(), 2);
        } else {
            assert_eq!(rest_orders.len(), 1);
        }
    }
    assert!(make_counts(0, 0, 0).is_empty());
}

fn combo_to_string(items: &Vec<u32>) -> String {
    let contents = items
        .iter()
        .map(|i| i.to_string())
        .collect::<Vec<String>>()
        .join(",");
    format!("[{}]", contents)
}

#[test]
fn permutations_when_empty() {
    let source: Vec<u32> = vec![];
    let perms = permutations(&source);
    assert_eq!(0, perms.len());
}

#[test]
fn permutations_when_one_item() {
    let source: Vec<u32> = vec![99];
    let perms: Vec<String> = permutations(&source)
        .iter()
        .map(|c| combo_to_string(c))
        .collect();
    assert_eq!(1, perms.len());
    assert_eq!("[99]", perms.get(0).unwrap());
}

#[test]
fn permutations_when_many() {
    let nums = [1, 2, 3].to_vec();
    let perms: Vec<String> = permutations(&nums)
        .iter()
        .map(|c| combo_to_string(c))
        .collect();
    assert_eq!(6, perms.len());
    [
        "[1,2,3]", "[1,3,2]", "[2,1,3]", "[2,3,1]", "[3,1,2]", "[3,2,1]",
    ]
    .iter()
    .for_each(|s| {
        assert!(perms.contains(&(s.to_string())));
    })
}

#[test]
fn perms_of_nums() {
    let nums = vec![1, 2, 3];
    let results = utility::permutations(&nums);
    println!("=== Permuations of integers in a vector ===");
    results.iter().for_each(|v| {
        println!("{:?}", v);
    });
    assert_eq!(results.len(), 6);
}

#[test]
fn perms_of_freq_count() {
    let a = 10;
    let b = 11;
    let c = 12;
    let counts = Tally::from_pairs(&vec![(a, 2), (b, 1), (c, 2)]);
    let results = counts.combinations();
    println!("=== Permuations by frequency count ===");
    results.iter().for_each(|v| {
        println!("{:?}", v);
    });
    assert_eq!(results.len(), 30);
}

#[test]
fn positional_permutations_keep_repeats() {
    let results = utility::permutations(&vec![4, 4]);
    assert_eq!(results, vec![vec![4, 4], vec![4, 4]]);
    let empty: Vec<u32> = vec![];
    assert_eq!(utility::permutations(&empty), vec![Vec::<u32>::new()]);
}

#[test]
fn new_initializes_all_values_properly() {
    let words = vec!["apple", "banana", "charlie", "bob"]
        .into_iter()
        .map(|w| w.to_string())
        .collect::<Vec<String>>();
    let source = LetterMap::new(&words);

    assert_eq!(source.letter_index_set().count(), 11);

    assert_eq!(source.num_to_letter.len(), 11);
    assert_eq!(source.letter_to_num.len(), 11);

    for i in 0..11 {
        let char1 = source.letter_for(i);
        let inx = source.index_for(char1);
        let char2 = source.letter_for(inx);
        assert_eq!(char1, char2);
    }
}

#[test]
fn insert_word_accept_word_of_max_length() {
    let mut root = Node::new();
    let spelling: Vec<u8> = (1..=Node::MAX_WORD_LENGTH).map(|_| 9).collect::<Vec<u8>>();
    let _result = root.insert(&spelling);
}

#[test]
fn insert_word_accept_max_letter_in_alphabet() {
    let mut root = Node::new();
    let max_letter = (Letter::ALPHABET_SIZE - 1) as u8;
    let max_word = vec![max_letter, max_letter];
    root.insert(&max_word);
    assert_eq!(2, root.insert(&max_word));
}

#[test]
fn insert_returns_number_of_words_inserted() {
    let data = [
        ("a", 1),
        ("ab", 1),
        ("abc", 1),
        ("the", 1),
        ("the", 2),
        ("the", 3),
        ("no", 1),
        ("their", 1),
        ("their", 2),
        ("their", 3),
        ("no", 2),
        ("not", 1),
        ("note", 1),
        ("notes", 1),
        ("note", 2),
        ("not", 2),
        ("no", 3),
        ("experiment", 1),
        ("experiment", 2),
    ];
    let mut root = Node::new();
    for (word, expected) in data {
        let letters = word
            .chars()
            .map(|r| Letter::new(r).to_u8())
            .collect::<Vec<u8>>();
        let actual = root.insert(&letters);
        assert_eq!(
            actual, expected,
            "inserted word '{}' and expected count '{}'",
            word, expected
        );
    }
}

#[test]
fn utility_permutations_with_repeats_give_every_rearrangement() {
    let results = utility::permutations(&vec![1, 1, 2]);
    assert_eq!(results.len(), 6);
    for r in results.iter() {
        let mut sorted = r.clone();
        sorted.sort();
        assert_eq!(sorted, vec![1, 1, 2]);
    }
    for expected in [vec![1, 1, 2], vec![1, 2, 1], vec![2, 1, 1]] {
        assert_eq!(results.iter().filter(|r| **r == expected).count(), 2);
    }
}

#[test]
fn permutations_of_repeated_numbers_take_each_number_once() {
    let results = permutations(&vec![1, 1, 2]);
    assert_eq!(results, vec![vec![2, 1], vec![2, 1], vec![1, 2], vec![1, 2]]);
}
