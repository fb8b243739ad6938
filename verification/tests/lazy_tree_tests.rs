use keylayout::lazy_tree::{dfs, dfs_include_empty, Seed};

// The state used to generate all combinations of a vector of characters.
// For example, if the items are 'a', 'b', 'c', and index starts at 0, this
// is used to generate a, b, c, ab, ac, bc, abc.
struct Combinations<'a> {
    items: &'a Vec<char>,
    index: usize,
}

impl<'a> Seed<Option<char>, String> for Combinations<'a> {
    fn leaf(&self) -> bool {
        self.index == self.items.len()
    }

    fn empty_value() -> String {
        String::new()
    }

    fn is_empty(&self) -> bool {
        self.index == self.items.len()
    }

    fn children_spec(&self) -> Vec<(Option<char>, Self)> {
        self.children()
    }

    fn add_spec(result: String, item: Option<char>) -> String {
        Self::add(result, &item)
    }

    fn children(&self) -> Vec<(Option<char>, Self)> {
        if self.index == self.items.len() {
            vec![]
        } else {
            vec![
                (
                    Some(self.items[self.index]),
                    Combinations {
                        index: self.index + 1,
                        ..*self
                    },
                ),
                (
                    None,
                    Combinations {
                        index: self.index + 1,
                        ..*self
                    },
                ),
            ]
        }
    }

    fn add(result: String, item: &Option<char>) -> String {
        match *item {
            None => result,
            Some(c) => {
                let mut result = result;
                result.push(c);
                result
            }
        }
    }

    fn empty_result() -> String {
        String::default()
    }

    fn is_empty_result(result: &String) -> bool {
        result.eq(&String::default())
    }
}

#[test]
fn combinations_with_many_items() {
    let source = Combinations {
        items: &vec!['a', 'b', 'c'],
        index: 0,
    };
    let result = dfs_include_empty(&source);
    let expected = ["c", "b", "a", "cb", "ca", "ba", "cba", ""];
    assert_eq!(result.len(), expected.len());
    assert!(expected.into_iter().all(|i| result.contains(&i.to_string())));
}

#[test]
fn combinations_with_one_item() {
    let source = Combinations {
        items: &vec!['a'],
        index: 0,
    };
    let result = dfs_include_empty(&source);
    let expected = ["a", ""];
    assert_eq!(result.len(), expected.len());
    assert!(expected.into_iter().all(|i| result.contains(&i.to_string())));
}

#[test]
fn combinations_with_empty() {
    let source = Combinations {
        items: &vec![],
        index: 0,
    };
    let result = dfs(&source);
    assert!(result.is_empty());
}

#[test]
fn dfs_include_empty_lists_results_depth_first_in_child_order() {
    let source = Combinations {
        items: &vec!['a', 'b', 'c'],
        index: 0,
    };
    let expected = ["cba", "ba", "ca", "a", "cb", "b", "c", ""];
    assert_eq!(dfs_include_empty(&source), expected.map(|s| s.to_string()).to_vec());
    let without_empty = dfs(&source);
    assert_eq!(without_empty, expected[..7].iter().map(|s| s.to_string()).collect::<Vec<String>>());
}
