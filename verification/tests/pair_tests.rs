use keylayout::key::Key;
use keylayout::key_set::KeySet;
use keylayout::letter::Letter;
use keylayout::letter_pair::LetterPair;
use keylayout::letter_pair_set::LetterPairSet;

#[test]
fn key_set_display() {
    let data = [
        ("ab,cd", "ab cd"),
        ("cd,ab", "ab cd"),
        ("ab,bc", "abc"),
        ("ac,bc", "abc"),
        ("bc,ab", "abc"),
        ("ab,bc,cd", "abcd"),
        ("dc,cb,ba", "abcd"),
        ("ab,bc,xy,yz", "abc xyz"),
        ("zy,yx,cb,ba", "abc xyz"),
    ];
    for (insert, expected) in data {
        let actual = insert
            .split(',')
            .map(|pair| {
                let a = Letter::new(pair.chars().nth(0).unwrap());
                let b = Letter::new(pair.chars().nth(1).unwrap());
                (a, b)
            })
            .fold(KeySet::empty(), |total, (a, b)| {
                total.with_letters_on_same_key(a, b)
            })
            .to_string();
        assert_eq!(actual, expected, "source:{},expected:{}", insert, expected);
    }
}

#[test]
fn equality() {
    assert!(KeySet::with_layout("abc def") == KeySet::with_layout("abc def"));
    assert!(KeySet::with_layout("abc") != KeySet::with_layout("abc def"));
}

#[test]
fn key_set_with_pairs_joins_chains() {
    let pairs = vec![Key::new("hm"), Key::new("io"), Key::new("bt"), Key::new("mz")];
    let set = KeySet::with_pairs(pairs);
    assert_eq!(set.to_string(), "bt hmz io");
    assert_eq!(set.len(), 3);
    assert_eq!(set.letter_count(), 7);
}

#[test]
fn key_set_with_keys_orders_by_letters() {
    let set = KeySet::with_keys(vec![Key::new("xy"), Key::new("ab"), Key::new("'")]);
    assert_eq!(set.to_string(), "' ab xy");
    assert_eq!(set.find_key_index(Letter::new('y')), Some(2));
    assert_eq!(set.find_key_index(Letter::new('q')), None);
}

#[test]
fn display_concats_the_letters_in_alphabetical_order() {
    let p1 = LetterPair::new(Letter::new('x'), Letter::new('y'));
    let p2 = LetterPair::new(Letter::new('y'), Letter::new('x'));
    assert_eq!("xy", p1.to_string());
    assert_eq!("xy", p2.to_string());
}

#[test]
fn eq_ignores_order_of_letters() {
    let p1 = LetterPair::new(Letter::new('x'), Letter::new('y'));
    let p2 = LetterPair::new(Letter::new('y'), Letter::new('x'));
    assert!(p1 == p2);
}

#[test]
fn try_from_return_error_if_same_letters() {
    assert!(LetterPair::try_from((Letter::new('a'), Letter::new('a'))).is_err());
}

#[test]
fn try_from_return_ok_if_not_same_letter() {
    let p = LetterPair::try_from((Letter::new('a'), Letter::new('b')));
    assert!(p.is_ok());
    assert_eq!(p.unwrap().to_string(), "ab");
}

#[test]
fn display_is_empty_string_if_no_pairs() {
    let actual = LetterPairSet::new(&vec![]);
    assert_eq!("", actual.to_string());
    assert!(actual.is_empty());
}

#[test]
fn duplicates_are_removed() {
    let pair = LetterPair::new(Letter::new('a'), Letter::new('b'));
    let set = LetterPairSet::new(&vec![pair.clone(), pair.clone(), pair.clone()]);
    assert_eq!("ab", set.to_string());
}

#[test]
fn display_test() {
    let data = [
        ("ab,cd,ef", "ab,cd,ef"),
        ("ef,cd,ab", "ab,cd,ef"),
        ("fe,dc,ba", "ab,cd,ef"),
        ("ab", "ab"),
        ("ba", "ab"),
    ];
    for (input, expected) in data {
        let pairs = input
            .split(',')
            .map(|pr| {
                let a = Letter::new(pr.chars().nth(0).unwrap());
                let b = Letter::new(pr.chars().nth(1).unwrap());
                LetterPair::new(a, b)
            })
            .collect::<Vec<LetterPair>>();
        let set = LetterPairSet::new(&pairs);
        let actual = set.to_string();
        assert_eq!(actual, expected);
    }
}

#[test]
fn pair_set_orders_apostrophe_last() {
    let pairs = vec![
        LetterPair::new(Letter::new('\''), Letter::new('a')),
        LetterPair::new(Letter::new('b'), Letter::new('a')),
    ];
    assert_eq!(LetterPairSet::new(&pairs).to_string(), "ab,a'");
}
