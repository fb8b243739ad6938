use keylayout::fill_in::{KeyboardInProcess, SizeLimitedKey};
use keylayout::genetic::{StatusCounts, StatusMessage};
use keylayout::key::Key;
use keylayout::key_sizes_tree::KeySizesTree;
use keylayout::keyboard::Keyboard;
use keylayout::partitions::Partitions;
use keylayout::penalty_goal::ProhibitedPairs;
use keylayout::letter::Letter;
use keylayout::tally2::{BuildShortVecU8Hasher, Tally2};

#[test]
fn returns_number_of_same_words_inserted() {
    let data = [
        ("a", 1),
        ("ab", 1),
        ("abc", 1),
        ("the", 1),
        ("the", 2),
        ("the", 3),
        ("no", 1),
        ("their", 1),
        ("their", 2),
        ("their", 3),
        ("no", 2),
        ("not", 1),
        ("note", 1),
        ("notes", 1),
        ("note", 2),
        ("not", 2),
        ("no", 3),
        ("experiment", 1),
        ("experiment", 2),
    ];
    let mut root = Tally2::new();
    for (word, expected) in data {
        let letters = word
            .chars()
            .map(|r| Letter::new(r).to_u8())
            .collect::<Vec<u8>>();
        let actual = root.increment(letters);
        assert_eq!(actual, expected, "inserted word '{}' and expected count '{}'", word, expected);
    }
}

#[test]
fn short_hasher_uses_first_four_bytes() {
    let build = BuildShortVecU8Hasher;
    let mut a = build.build_hasher();
    a.write(&vec![1, 2, 3, 4, 5, 6]);
    let mut b = build.build_hasher();
    b.write(&vec![1, 2, 3, 4, 9]);
    assert_eq!(a.finish(), b.finish());
    assert_eq!(a.finish(), 0x0102_0304);
    let mut c = build.build_hasher();
    c.write(&vec![7]);
    assert_eq!(c.finish(), 7);
}

#[test]
fn size_limited_key_has_space_in_order() {
    let k = SizeLimitedKey::new(2);
    assert!(k.has_space(Letter::new('c')));
    let k = k.insert_letter(Letter::new('c'));
    assert!(!k.has_space(Letter::new('b')));
    assert!(k.has_space(Letter::new('d')));
    let k = k.insert_letter(Letter::new('d'));
    assert!(!k.has_space(Letter::new('z')));
    assert_eq!(k.key, Key::new("cd"));
}

#[test]
fn keyboard_in_process_fills_slots() {
    let kbd = KeyboardInProcess::new();
    assert_eq!(kbd.0.len(), 10);
    assert_eq!(kbd.slot_indexes(Letter::new('e')), (0..10).collect::<Vec<usize>>());
    let kbd = kbd.insert_in_slot(3, Letter::new('e'));
    assert_eq!(kbd.slot_indexes(Letter::new('a')), vec![0, 1, 2, 4, 5, 6, 7, 8, 9]);
    let kbd = kbd.insert_in_slot(0, Letter::new('a'));
    let keyboard = kbd.as_keyboard();
    assert_eq!(keyboard.letters(), Key::new("ae"));
    assert_eq!(keyboard.len(), 10);
}

#[test]
fn status_counts_report_every_hundred_thousand() {
    let mut counts = StatusCounts::new();
    let mut printed = 0;
    for i in 0..200_000u64 {
        let msg = if i % 3 == 0 {
            StatusMessage::CalculatedEstimate
        } else {
            StatusMessage::CalulatedPrecise
        };
        if counts.record(msg, 100_000) {
            printed += 1;
        }
    }
    assert_eq!(printed, 2);
    assert_eq!(counts.estimate + counts.precise, 200_000);
    assert_eq!(counts.estimate, 66_667);
}

#[test]
fn sample_file_names_name_the_pair_count() {
    use_sample_names();
}

fn use_sample_names() {
    assert_eq!(ProhibitedPairs::Zero.sample_file_name(), "kbd_penalties_5000_samples_0_pairs.csv");
    assert_eq!(ProhibitedPairs::Num20.sample_file_name(), "kbd_penalties_5000_samples_20_pairs.csv");
    assert_eq!(ProhibitedPairs::Num80.sample_file_name(), "kbd_penalties_5000_samples_80_pairs.csv");
}

#[test]
fn dfs_children_take_the_smallest_free_letter() {
    let p = Partitions {
        sum: 4,
        parts: 2,
        min: 1,
        max: 4,
    };
    let tree = KeySizesTree::new(&p);
    let letters = Key::with_first_n_letters(4);
    let children = Keyboard::empty().dfs_children(letters, tree);
    let mut keys = children
        .iter()
        .map(|(k, rest, _)| (k.to_string(), rest.to_string()))
        .collect::<Vec<(String, String)>>();
    keys.sort();
    assert_eq!(
        keys,
        vec![
            ("a".to_string(), "bcd".to_string()),
            ("ab".to_string(), "cd".to_string()),
            ("abc".to_string(), "d".to_string()),
            ("abd".to_string(), "c".to_string()),
            ("ac".to_string(), "bd".to_string()),
            ("acd".to_string(), "b".to_string()),
            ("ad".to_string(), "bc".to_string()),
        ]
    );
}

#[test]
fn genetic_children_are_twelve_per_trade_with_parent_letters() {
    let parent = Keyboard::with_layout("ab,c");
    let kids = keylayout::genetic::children(&parent);
    assert_eq!(kids.len(), 24);
    let swaps = parent.every_swap();
    for (i, k) in kids.iter().enumerate() {
        assert_eq!(k.letters(), parent.letters());
        assert_eq!(k.len(), 2);
        let mut sizes = k.to_string().split(' ').map(|s| s.len()).collect::<Vec<usize>>();
        sizes.sort();
        assert_eq!(sizes, vec![1, 2]);
        if i % 12 == 0 {
            assert_eq!(k.to_string(), swaps[i / 12].to_string());
        }
    }
}
