use ddbb::btree::{find_slot, BTree, B};

fn keys_of(tree: &BTree<u32, u32>) -> Vec<u32> {
    tree.traverse().iter().map(|entry| entry.0).collect()
}

fn scrambled(n: u32) -> Vec<u32> {
    // a fixed permutation of 0..n: multiplication by a unit modulo n
    (0..n).map(|i| (i * 37 + 11) % n).collect()
}

#[test]
fn empty_tree_holds_nothing() {
    let tree: BTree<u32, u32> = BTree::new();
    assert_eq!(tree.search(&1), None);
    assert_eq!(tree.depth(), 0);
    assert!(tree.traverse().is_empty());
}

#[test]
fn delete_from_empty_tree_is_absent() {
    let mut tree: BTree<u32, u32> = BTree::new();
    assert_eq!(tree.delete(&5), None);
    assert_eq!(tree.depth(), 0);
}

#[test]
fn first_insert_makes_one_level() {
    let mut tree = BTree::new();
    tree.insert(7u32, 70u32);
    assert_eq!(tree.depth(), 1);
    assert_eq!(tree.search(&7), Some(&70));
    assert_eq!(tree.traverse(), vec![(7, 70)]);
}

#[test]
fn tree_grows_by_one_level_when_the_first_leaf_is_full() {
    let mut tree = BTree::new();
    for k in 0..(2 * B as u32 - 1) {
        tree.insert(k, k);
        assert_eq!(tree.depth(), 1);
    }
    tree.insert(2 * B as u32 - 1, 0);
    assert_eq!(tree.depth(), 2);
    assert_eq!(keys_of(&tree), (0..2 * B as u32).collect::<Vec<u32>>());
}

#[test]
fn insert_then_lookup_gives_each_value() {
    let mut tree = BTree::new();
    let keys = scrambled(500);
    for (i, k) in keys.iter().enumerate() {
        tree.insert(*k, i as u32);
    }
    for (i, k) in keys.iter().enumerate() {
        assert_eq!(tree.search(k), Some(&(i as u32)));
    }
    assert_eq!(tree.search(&500), None);
}

#[test]
fn traverse_lists_keys_in_ascending_order_without_repeats() {
    let mut tree = BTree::new();
    for k in scrambled(300) {
        tree.insert(k, k + 1);
        tree.insert(k, 0);
    }
    let all = tree.traverse();
    assert_eq!(all.len(), 300);
    for (i, entry) in all.iter().enumerate() {
        assert_eq!(*entry, (i as u32, i as u32 + 1));
    }
}

#[test]
fn second_insert_under_a_key_keeps_the_first_value() {
    let mut tree = BTree::new();
    tree.insert(3u32, 1u32);
    tree.insert(3u32, 2u32);
    assert_eq!(tree.search(&3), Some(&1));
    assert_eq!(tree.traverse().len(), 1);
}

#[test]
fn re_inserting_the_key_that_a_split_promotes_changes_nothing() {
    let mut tree = BTree::new();
    for k in 0..20u32 {
        tree.insert(k * 2, k);
    }
    let before = tree.traverse();
    for k in 0..20u32 {
        tree.insert(k * 2, 99);
    }
    assert_eq!(tree.traverse(), before);
}

#[test]
fn delete_returns_the_value_and_leaves_the_rest() {
    let mut tree = BTree::new();
    let keys = scrambled(400);
    for k in keys.iter() {
        tree.insert(*k, *k * 10);
    }
    for (round, k) in keys.iter().enumerate() {
        assert_eq!(tree.delete(k), Some(*k * 10));
        assert_eq!(tree.delete(k), None);
        assert_eq!(tree.search(k), None);
        if round % 50 == 0 {
            let mut rest: Vec<u32> = keys[round + 1..].to_vec();
            rest.sort();
            assert_eq!(keys_of(&tree), rest);
            for other in rest {
                assert_eq!(tree.search(&other), Some(&(other * 10)));
            }
        }
    }
    assert_eq!(tree.depth(), 0);
    assert!(tree.traverse().is_empty());
}

#[test]
fn delete_of_an_internal_key_returns_its_own_value() {
    let mut tree = BTree::new();
    for k in 0..30u32 {
        tree.insert(k, k + 100);
    }
    // whichever node holds them, each deletion gives the value of its key
    for k in [15u32, 8, 17, 2, 26, 11] {
        assert_eq!(tree.delete(&k), Some(k + 100));
    }
    let left: Vec<u32> = (0..30u32).filter(|k| ![15u32, 8, 17, 2, 26, 11].contains(k)).collect();
    assert_eq!(keys_of(&tree), left);
}

#[test]
fn deletions_in_ascending_and_in_descending_order_empty_the_tree() {
    let mut up = BTree::new();
    let mut down = BTree::new();
    for k in 0..200u32 {
        up.insert(k, k);
        down.insert(k, k);
    }
    for k in 0..200u32 {
        assert_eq!(up.delete(&k), Some(k));
        assert_eq!(down.delete(&(199 - k)), Some(199 - k));
        assert_eq!(up.traverse().len() as u32, 199 - k);
        assert_eq!(down.traverse().len() as u32, 199 - k);
    }
    assert_eq!(up.depth(), 0);
    assert_eq!(down.depth(), 0);
}

#[test]
fn depth_shrinks_as_the_tree_empties() {
    let mut tree = BTree::new();
    for k in 0..100u32 {
        tree.insert(k, k);
    }
    let full = tree.depth();
    assert!(full >= 3);
    // five entries can still stand on two levels, four cannot
    for k in 0..96u32 {
        let before = tree.depth();
        tree.delete(&k);
        let after = tree.depth();
        assert!(after == before || after + 1 == before);
    }
    assert_eq!(tree.depth(), 1);
}

#[test]
fn find_slot_finds_keys_and_insertion_points() {
    let keys = vec![10u32, 20, 30, 40];
    assert_eq!(find_slot(&keys, &10), Ok(0));
    assert_eq!(find_slot(&keys, &40), Ok(3));
    assert_eq!(find_slot(&keys, &5), Err(0));
    assert_eq!(find_slot(&keys, &25), Err(2));
    assert_eq!(find_slot(&keys, &45), Err(4));
    assert_eq!(find_slot(&Vec::<u32>::new(), &1), Err(0));
}

#[test]
fn delete_of_leaf_key_and_absent_key_keeps_the_other_keys() {
    let mut tree: BTree<&'static str, i32> = BTree::new();
    let keys = [
        "g", "m", "p", "x", "a", "c", "d", "f", "i", "j", "k", "l", "n", "o", "r", "s", "t", "u",
        "v", "y", "z",
    ];
    let values = [
        7, 13, 16, 24, 1, 3, 4, 6, 9, 10, 11, 12, 14, 15, 18, 19, 20, 21, 22, 25, 26,
    ];
    for (key, value) in keys.iter().zip(values.iter()) {
        tree.insert(*key, *value);
    }
    assert_eq!(tree.delete(&"a"), Some(1));
    assert_eq!(tree.delete(&"b"), None);
    assert_eq!(tree.delete(&"g"), Some(7));
    assert_eq!(tree.search(&"a"), None);
    assert_eq!(tree.search(&"b"), None);
    assert_eq!(tree.search(&"g"), None);
    for (key, value) in keys.iter().zip(values.iter()) {
        if *key != "a" && *key != "g" {
            assert_eq!(tree.search(key), Some(value));
        }
    }
}
