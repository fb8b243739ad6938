use keylayout::key_sizes_tree::KeySizesTree;
use keylayout::partitions::{unique_keyboards, Goal, Partitions};

#[test]
fn partitions_have_proper_count() {
    let data = [
        (1, 1, 1, 1, 1),
        (10, 3, 1, 10, 8),
        (27, 10, 1, 27, 267),
        (3, 2, 1, 3, 1),
        (4, 2, 1, 3, 2),
        (13, 1, 3, 14, 1),
    ];
    for (sum, parts, min, max, expected) in data {
        assert_eq!(
            Partitions {
                sum: sum,
                parts: parts,
                min: min,
                max: max
            }
            .flatten(Goal::Combinations)
            .len(),
            expected
        );
    }
}

#[test]
fn partitions_total_to_sum() {
    for sum in 1..=20 {
        for parts in 1..=sum {
            for min in 1..=sum {
                for max in min..=sum {
                    let target = Partitions {
                        sum,
                        parts,
                        min,
                        max,
                    };
                    if target.has_solution() {
                        let all_correct_sum = target
                            .flatten(Goal::Combinations)
                            .into_iter()
                            .map(|digits| digits.into_iter().fold(0, |total, i| total + i))
                            .all(|r| r == sum);
                        assert!(all_correct_sum)
                    }
                }
            }
        }
    }
}

#[test]
fn total_unique_keyboards() {
    let p = Partitions {
        sum: 5,
        min: 1,
        max: 5,
        parts: 2,
    };
    assert_eq!(p.total_unique_keyboards(), 15);
}

#[test]
fn flatten_combinations_are_largest_first() {
    let p = Partitions {
        sum: 6,
        parts: 3,
        min: 1,
        max: 4,
    };
    let mut result = p.flatten(Goal::Combinations);
    result.sort();
    assert_eq!(result, vec![vec![2, 2, 2], vec![3, 2, 1], vec![4, 1, 1]]);
}

#[test]
fn flatten_permutations_have_every_order() {
    let p = Partitions {
        sum: 4,
        parts: 2,
        min: 1,
        max: 3,
    };
    let mut result = p.flatten(Goal::Permutations);
    result.sort();
    assert_eq!(result, vec![vec![1, 3], vec![2, 2], vec![3, 1]]);
}

#[test]
fn flatten_of_zero_sum_is_empty() {
    let p = Partitions {
        sum: 0,
        parts: 3,
        min: 0,
        max: 4,
    };
    assert_eq!(p.flatten(Goal::Combinations).len(), 0);
}

#[test]
fn subtract_leaves_a_solvable_rest() {
    let p = Partitions {
        sum: 10,
        parts: 3,
        min: 2,
        max: 5,
    };
    let rest = p.subtract(3, Goal::Combinations).unwrap();
    assert_eq!((rest.sum, rest.parts, rest.min, rest.max), (7, 2, 3, 5));
    assert!(p.subtract(10, Goal::Combinations).is_none());
    assert!(p.subtract(5, Goal::Combinations).is_none());
    let perm = p.subtract(5, Goal::Permutations).unwrap();
    assert_eq!((perm.sum, perm.parts, perm.min, perm.max), (5, 2, 2, 5));
}

#[test]
fn combinations_list_first_numbers_in_order() {
    let p = Partitions {
        sum: 5,
        parts: 2,
        min: 1,
        max: 5,
    };
    let firsts = p.combinations().iter().map(|(n, _)| *n).collect::<Vec<u32>>();
    assert_eq!(firsts, vec![1, 2]);
    let perms = p.permutations().iter().map(|(n, _)| *n).collect::<Vec<u32>>();
    assert_eq!(perms, vec![1, 2, 3, 4]);
}

#[test]
fn unique_keyboards_counts_unordered_keys() {
    assert_eq!(unique_keyboards(&vec![2, 2, 3, 4]), 34650);
    assert_eq!(unique_keyboards(&vec![1, 4]), 5);
    assert_eq!(unique_keyboards(&vec![3, 2]), 10);
    assert_eq!(unique_keyboards(&vec![]), 1);
}

#[test]
fn is_empty_true_if_no_items() {
    let target = KeySizesTree(vec![]);
    assert!(target.is_empty());
}

#[test]
fn is_empty_true_if_only_empty_items() {
    let target = KeySizesTree(vec![vec![], vec![]]);
    assert!(target.is_empty());
}

#[test]
fn is_empty_true_if_only_items_with_zeros() {
    let target = KeySizesTree(vec![vec![0, 0], vec![0, 0]]);
    assert!(target.is_empty());
}

#[test]
fn is_empty_false() {
    assert!(false == KeySizesTree(vec![vec![1, 2]]).is_empty());
    assert!(false == KeySizesTree(vec![vec![1]]).is_empty());
    assert!(false == KeySizesTree(vec![vec![1], vec![2]]).is_empty());
}

#[test]
fn key_sizes_tree_holds_every_order() {
    let p = Partitions {
        sum: 5,
        parts: 2,
        min: 1,
        max: 5,
    };
    let mut tree = KeySizesTree::new(&p).0;
    tree.sort();
    assert_eq!(
        tree,
        vec![vec![1, 4], vec![2, 3], vec![3, 2], vec![4, 1]]
    );
}

#[test]
fn key_sizes_tree_next_groups_by_first_size() {
    let tree = KeySizesTree(vec![vec![1, 4], vec![2, 3], vec![1, 2]]);
    let next = tree.next();
    assert_eq!(next.len(), 2);
    assert_eq!(next[0].0, 1);
    assert_eq!(next[0].1 .0, vec![vec![4], vec![2]]);
    assert_eq!(next[1].0, 2);
    assert_eq!(next[1].1 .0, vec![vec![3]]);
}

#[test]
fn flatten_lists_by_last_number_first() {
    let p = Partitions {
        sum: 4,
        parts: 2,
        min: 1,
        max: 3,
    };
    assert_eq!(p.flatten(Goal::Combinations), vec![vec![3, 1], vec![2, 2]]);
    let p = Partitions {
        sum: 5,
        parts: 2,
        min: 1,
        max: 4,
    };
    assert_eq!(
        p.flatten(Goal::Permutations),
        vec![vec![4, 1], vec![3, 2], vec![2, 3], vec![1, 4]]
    );
}

#[test]
fn key_sizes_tree_lists_each_order_once() {
    let p = Partitions {
        sum: 6,
        parts: 3,
        min: 1,
        max: 4,
    };
    let tree = KeySizesTree::new(&p);
    let mut lists = tree.0.clone();
    lists.sort();
    let before = lists.len();
    lists.dedup();
    assert_eq!(lists.len(), before);
    assert_eq!(before, 10);
}
