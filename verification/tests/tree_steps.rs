use ddbb::btree::BTree;

type Line = (usize, Vec<u32>, Vec<u32>);

fn tree_of(keys: &[u32]) -> BTree<u32, u32> {
    let mut tree = BTree::new();
    for k in keys {
        tree.insert(*k, *k * 10);
    }
    tree
}

fn line(level: usize, keys: &[u32]) -> Line {
    (level, keys.to_vec(), keys.iter().map(|k| k * 10).collect())
}

/// One key over a left leaf of three and a right leaf of two.
fn three_and_two() -> BTree<u32, u32> {
    let tree = tree_of(&[1, 2, 10, 20, 21, 3]);
    assert_eq!(tree.outline(), vec![line(0, &[10]), line(1, &[1, 2, 3]), line(1, &[20, 21])]);
    tree
}

/// One key over a left leaf of two and a right leaf of three.
fn two_and_three() -> BTree<u32, u32> {
    let tree = tree_of(&[1, 2, 10, 20, 21, 22]);
    assert_eq!(tree.outline(), vec![line(0, &[10]), line(1, &[1, 2]), line(1, &[20, 21, 22])]);
    tree
}

/// Two keys over three leaves of two.
fn three_leaves_of_two() -> BTree<u32, u32> {
    let mut tree = tree_of(&[1, 2, 10, 20, 21, 30, 40, 41, 42]);
    assert_eq!(tree.delete(&42), Some(420));
    assert_eq!(
        tree.outline(),
        vec![line(0, &[10, 30]), line(1, &[1, 2]), line(1, &[20, 21]), line(1, &[40, 41])]
    );
    tree
}

#[test]
fn outline_of_the_empty_tree_is_empty() {
    let tree: BTree<u32, u32> = BTree::new();
    assert!(tree.outline().is_empty());
}

#[test]
fn outline_lists_parents_before_children_level_by_level() {
    let tree = tree_of(&(1..=19).collect::<Vec<u32>>());
    assert_eq!(tree.depth(), 3);
    assert_eq!(
        tree.outline(),
        vec![
            line(0, &[9]),
            line(1, &[3, 6]),
            line(2, &[1, 2]),
            line(2, &[4, 5]),
            line(2, &[7, 8]),
            line(1, &[12, 15]),
            line(2, &[10, 11]),
            line(2, &[13, 14]),
            line(2, &[16, 17, 18, 19]),
        ]
    );
}

#[test]
fn full_top_leaf_is_cut_in_the_middle() {
    let mut tree = tree_of(&[1, 2, 3, 4, 5]);
    assert_eq!(tree.outline(), vec![line(0, &[1, 2, 3, 4, 5])]);
    tree.insert(6, 60);
    assert_eq!(tree.depth(), 2);
    assert_eq!(tree.outline(), vec![line(0, &[3]), line(1, &[1, 2]), line(1, &[4, 5, 6])]);
}

#[test]
fn insert_of_the_key_that_moves_up_only_cuts() {
    let mut tree = tree_of(&[1, 2, 3, 4, 5]);
    tree.insert(3, 0);
    assert_eq!(tree.outline(), vec![line(0, &[3]), line(1, &[1, 2]), line(1, &[4, 5])]);
}

#[test]
fn successor_takes_the_place_of_a_deleted_top_key() {
    let mut tree = tree_of(&[1, 2, 3, 4, 5, 6]);
    assert_eq!(tree.delete(&3), Some(30));
    assert_eq!(tree.search(&3), None);
    assert_eq!(tree.outline(), vec![line(0, &[4]), line(1, &[1, 2]), line(1, &[5, 6])]);
}

#[test]
fn merge_at_the_top_takes_a_level_away() {
    let mut tree = tree_of(&[1, 2, 3, 4, 5, 6]);
    assert_eq!(tree.delete(&6), Some(60));
    assert_eq!(tree.outline(), vec![line(0, &[3]), line(1, &[1, 2]), line(1, &[4, 5])]);
    assert_eq!(tree.depth(), 2);
    assert_eq!(tree.delete(&1), Some(10));
    assert_eq!(tree.outline(), vec![line(0, &[2, 3, 4, 5])]);
    assert_eq!(tree.depth(), 1);
}

#[test]
fn predecessor_is_taken_where_the_left_child_can_spare_an_entry() {
    let mut tree = three_and_two();
    assert_eq!(tree.delete(&10), Some(100));
    assert_eq!(tree.outline(), vec![line(0, &[3]), line(1, &[1, 2]), line(1, &[20, 21])]);
}

#[test]
fn successor_is_taken_where_only_the_right_child_can_spare_an_entry() {
    let mut tree = two_and_three();
    assert_eq!(tree.delete(&10), Some(100));
    assert_eq!(tree.outline(), vec![line(0, &[20]), line(1, &[1, 2]), line(1, &[21, 22])]);
}

#[test]
fn children_are_joined_where_neither_can_spare_an_entry() {
    let mut tree = three_leaves_of_two();
    assert_eq!(tree.delete(&10), Some(100));
    assert_eq!(
        tree.outline(),
        vec![line(0, &[30]), line(1, &[1, 2, 20, 21]), line(1, &[40, 41])]
    );
}

#[test]
fn descent_borrows_from_the_left_sibling_first() {
    let mut tree = three_and_two();
    assert_eq!(tree.delete(&20), Some(200));
    assert_eq!(tree.outline(), vec![line(0, &[3]), line(1, &[1, 2]), line(1, &[10, 21])]);
}

#[test]
fn descent_borrows_from_the_right_sibling_where_there_is_no_left_one() {
    let mut tree = two_and_three();
    assert_eq!(tree.delete(&1), Some(10));
    assert_eq!(tree.outline(), vec![line(0, &[20]), line(1, &[2, 10]), line(1, &[21, 22])]);
}

#[test]
fn descent_joins_with_the_left_sibling_where_no_sibling_can_lend() {
    let mut tree = three_leaves_of_two();
    assert_eq!(tree.delete(&40), Some(400));
    assert_eq!(
        tree.outline(),
        vec![line(0, &[10]), line(1, &[1, 2]), line(1, &[20, 21, 30, 41])]
    );
}

#[test]
fn descent_joins_with_the_right_sibling_at_the_first_child() {
    let mut tree = three_leaves_of_two();
    assert_eq!(tree.delete(&1), Some(10));
    assert_eq!(
        tree.outline(),
        vec![line(0, &[30]), line(1, &[2, 10, 20, 21]), line(1, &[40, 41])]
    );
}

#[test]
fn deletion_of_an_absent_key_below_a_full_enough_child_changes_nothing() {
    let mut tree = three_and_two();
    assert_eq!(tree.delete(&0), None);
    assert_eq!(tree.outline(), vec![line(0, &[10]), line(1, &[1, 2, 3]), line(1, &[20, 21])]);
}
