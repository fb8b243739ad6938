use keylayout::key::Key;
use keylayout::prohibited::Prohibited;

#[test]
fn prohibited_is_allowed() {
    let data = [
        ("ae,st", "ae", false),
        ("ae,st", "st", false),
        ("ae,st", "xy", true),
        ("ae,st", "a", true),
        ("ae,st", "s", true),
        ("ae,st", "t", true),
        ("ae,st", "aer", false),
        ("ae,st", "stu", false),
        ("ast", "ast", false),
        ("ast", "astx", false),
        ("ast", "as", true),
        ("ast", "str", true),
    ];
    for (prohibited, test_key, expect_is_key_allowed) in data {
        let mut p = Prohibited::new();
        let keys = prohibited
            .split(',')
            .map(|pattern| Key::new(pattern))
            .collect::<Vec<Key>>();
        p.add_many(&keys);
        let actual = p.is_allowed(Key::new(test_key));
        assert_eq!(
            actual, expect_is_key_allowed,
            "prohibited [{}] test [{}] expect_is_allowed {}",
            prohibited, test_key, expect_is_key_allowed
        );
    }
}

#[test]
fn duplicates_are_removed_when_add_smaller_set_first() {
    let mut p = Prohibited::new();
    p.add(Key::new("ab"));
    p.add(Key::new("abc"));
    assert_eq!(p.len(), 1);
    assert_eq!(Key::new("ab"), p.keys()[0]);
}

#[test]
fn duplicates_are_removed_when_add_bigger_set_first() {
    let mut p = Prohibited::new();
    p.add(Key::new("abc"));
    p.add(Key::new("ab"));
    assert_eq!(p.len(), 1);
    assert_eq!(Key::new("ab"), p.keys()[0]);
}

#[test]
fn adding_a_group_forbids_every_key_holding_it() {
    let mut p = Prohibited::new();
    p.add(Key::new("qz"));
    assert!(!p.is_allowed(Key::new("aqz")));
    assert!(!p.is_allowed(Key::new("qz")));
    assert!(p.is_allowed(Key::new("q")));
    assert!(p.is_allowed(Key::new("az")));
}
