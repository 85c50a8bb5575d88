use bin_tree::{drop, BinSearchTree, BinTreeNode, BinaryTree, List};
use std::collections::VecDeque;

fn sample() -> BinSearchTree<i32> {
    let mut bst = BinSearchTree::new();
    bst.insert(4).insert(3).insert(7).insert(6).insert(9);
    bst
}

fn in_order(bst: &BinSearchTree<i32>) -> Vec<i32> {
    let mut values = Vec::new();
    let mut walk = bst.iter();
    while let Some(link) = walk.next() {
        values.push(link.as_ref().unwrap().value);
    }
    values
}

fn pre_order(bst: &BinSearchTree<i32>) -> Vec<i32> {
    bst.to_vec_pre().into_iter().copied().collect()
}

fn strictly_ascending(values: &[i32]) -> bool {
    values.windows(2).all(|pair| pair[0] < pair[1])
}

#[test]
fn in_order_ascends_after_inserts_and_removes() {
    let mut bst = BinSearchTree::new();
    let inserts = [50, 20, 70, 10, 30, 60, 80, 25, 35, 65, 20, 70, 5];
    for value in inserts {
        bst.insert(value);
        assert!(strictly_ascending(&in_order(&bst)));
    }
    assert_eq!(in_order(&bst), vec![5, 10, 20, 25, 30, 35, 50, 60, 65, 70, 80]);
    let removes = [20, 99, 70, 5, 35, 60, 60];
    for value in removes {
        bst.remove(value);
        assert!(strictly_ascending(&in_order(&bst)));
    }
    assert_eq!(in_order(&bst), vec![10, 25, 30, 50, 65, 80]);
}

#[test]
fn inserting_a_present_value_changes_nothing() {
    let mut bst = sample();
    let before_pre = pre_order(&bst);
    let before_in = in_order(&bst);
    for value in [4, 3, 7, 6, 9] {
        bst.insert(value);
        assert_eq!(pre_order(&bst), before_pre);
        assert_eq!(in_order(&bst), before_in);
        assert_eq!(bst.to_vec_pre().len(), 5);
    }
}

#[test]
fn removing_below_the_root_takes_one_node() {
    for value in [3, 7, 6, 9] {
        let mut bst = sample();
        assert!(bst.remove(value));
        let left: Vec<i32> = [3, 4, 6, 7, 9].into_iter().filter(|v| *v != value).collect();
        assert_eq!(in_order(&bst), left);
        assert_eq!(bst.to_vec_pre().len(), 4);
    }
}

#[test]
fn removing_an_absent_value_changes_nothing() {
    let mut bst = sample();
    for value in [1, 5, 8, 10] {
        assert!(!bst.remove(value));
        assert_eq!(pre_order(&bst), vec![4, 3, 7, 6, 9]);
    }
}

#[test]
fn removing_the_root_value_takes_the_whole_tree() {
    let mut bst = sample();
    assert!(bst.remove(4));
    assert_eq!(None, bst.root);
    assert!(pre_order(&bst).is_empty());
    assert!(!bst.remove(3));
}

#[test]
fn removing_a_node_with_a_right_child_lifts_the_child() {
    let mut bst = BinSearchTree::new();
    bst.insert(10).insert(5).insert(7).insert(6).insert(8);
    assert!(bst.remove(5));
    assert_eq!(pre_order(&bst), vec![10, 7, 6, 8]);
    assert_eq!(in_order(&bst), vec![6, 7, 8, 10]);
}

#[test]
fn removing_a_node_with_a_left_child_lifts_the_child() {
    let mut bst = BinSearchTree::new();
    bst.insert(10).insert(15).insert(13).insert(12).insert(14);
    assert!(bst.remove(15));
    assert_eq!(pre_order(&bst), vec![10, 13, 12, 14]);
    assert_eq!(in_order(&bst), vec![10, 12, 13, 14]);
}

#[test]
fn removing_a_node_with_two_children_takes_its_successor_up() {
    let mut bst = BinSearchTree::new();
    bst.insert(10).insert(5).insert(15).insert(12).insert(20).insert(17).insert(19);
    assert_eq!(pre_order(&bst), vec![10, 5, 15, 12, 20, 17, 19]);
    assert!(bst.remove(15));
    assert_eq!(pre_order(&bst), vec![10, 5, 17, 12, 20, 19]);
    assert_eq!(in_order(&bst), vec![5, 10, 12, 17, 19, 20]);
}

#[test]
fn successor_is_the_next_value_in_order() {
    let mut bst = BinSearchTree::new();
    let values = [50, 20, 70, 10, 30, 60, 80, 25, 35, 65];
    for value in values {
        bst.insert(value);
    }
    let sorted = in_order(&bst);
    for pair in sorted.windows(2) {
        assert_eq!(bst.succ(&pair[0]), Some(pair[1]));
    }
    assert_eq!(bst.succ(&80), None);
    assert_eq!(bst.succ(&55), None);
    assert_eq!(pre_order(&bst), vec![50, 20, 10, 30, 25, 35, 70, 60, 65, 80]);
}

#[test]
fn search_remove_search() {
    for value in [3, 7, 6, 9, 4] {
        let mut bst = sample();
        assert!(bst.bin_search(&value).is_some());
        assert!(bst.remove(value));
        assert!(bst.bin_search(&value).is_none());
    }
    let mut bst = sample();
    assert!(bst.bin_search(&5).is_none());
    assert!(!bst.remove(5));
    assert!(bst.bin_search(&5).is_none());
}

#[test]
fn scenario_of_five_values() {
    let mut bst = BinSearchTree::new();
    bst.insert(4);
    bst.insert(3);
    bst.insert(7);
    bst.insert(6);
    bst.insert(9);
    assert_eq!(pre_order(&bst), vec![4, 3, 7, 6, 9]);
    assert_eq!(in_order(&bst), vec![3, 4, 6, 7, 9]);
    assert_eq!(bst.bin_search_vec(&4), Some(vec![4]));
    assert_eq!(bst.bin_search_vec(&6), Some(vec![4, 7, 6]));
    assert_eq!(bst.succ(&3), Some(4));
    assert_eq!(bst.succ(&9), None);
    assert!(bst.remove(9));
    assert_eq!(pre_order(&bst), vec![4, 3, 7, 6]);
    bst.insert(9);
    assert!(bst.remove(7));
    assert_eq!(pre_order(&bst), vec![4, 3, 9, 6]);
    assert!(bst.remove(6));
    assert!(bst.remove(3));
    assert!(bst.remove(4));
    assert!(pre_order(&bst).is_empty());
    assert!(!bst.remove(4));
}

#[test]
fn the_three_walks_of_five_values() {
    let bst = sample();
    assert_eq!(in_order(&bst), vec![3, 4, 6, 7, 9]);

    let mut bst = sample();
    let mut by_handle = Vec::new();
    let mut walk = bst.iter_mut();
    while let Some(value) = walk.next() {
        by_handle.push(*value);
    }
    assert_eq!(by_handle, vec![9, 6, 7, 3, 4]);

    let mut by_value = Vec::new();
    let mut walk = sample().into_iter();
    while let Some(value) = walk.next() {
        by_value.push(value);
    }
    assert_eq!(by_value, vec![9, 6, 7, 3, 4]);
}

#[test]
fn writing_through_the_walk_changes_the_tree() {
    let mut bst = sample();
    let mut walk = bst.iter_mut();
    while let Some(value) = walk.next() {
        *value += 1;
    }
    assert_eq!(pre_order(&bst), vec![5, 4, 8, 7, 10]);

    let mut bst = sample();
    for handle in bst.to_vec_mut() {
        *handle *= 10;
    }
    assert_eq!(pre_order(&bst), vec![40, 30, 70, 60, 90]);
}

#[test]
fn writing_through_a_found_node_changes_the_tree() {
    let mut bst = sample();
    let node = bst.bin_search(&7).unwrap();
    node.drop_left();
    node.value = 8;
    assert_eq!(pre_order(&bst), vec![4, 3, 8, 9]);
}

#[test]
fn values_by_value_come_in_pre_order() {
    assert_eq!(sample().to_vec_into(), vec![4, 3, 7, 6, 9]);
    let empty: BinSearchTree<i32> = BinSearchTree::new();
    assert_eq!(empty.to_vec_into(), Vec::<i32>::new());
}

#[test]
fn a_walk_that_is_dropped_early_leaves_the_tree() {
    let bst = sample();
    let mut walk = bst.iter();
    assert_eq!(walk.next().unwrap().as_ref().unwrap().value, 3);
    drop(walk);
    assert_eq!(pre_order(&bst), vec![4, 3, 7, 6, 9]);
}

#[test]
fn a_list_shaped_tree_walks_in_order() {
    let mut bst = BinSearchTree::new();
    for value in 0..200 {
        bst.insert(value);
    }
    assert_eq!(in_order(&bst), (0..200).collect::<Vec<i32>>());
    assert_eq!(bst.bin_search_vec(&199).unwrap().len(), 200);
    assert_eq!(bst.succ(&198), Some(199));
    assert!(bst.remove(100));
    assert_eq!(bst.to_vec_pre().len(), 199);
}

#[test]
fn a_string_tree_orders_by_the_strings() {
    let mut bst = BinSearchTree::new();
    bst.insert(String::from("pear")).insert(String::from("apple")).insert(String::from("quince"));
    assert_eq!(bst.succ(&String::from("apple")), Some(String::from("pear")));
    assert!(bst.remove(String::from("quince")));
    assert_eq!(bst.bin_search_vec(&String::from("apple")).unwrap(), vec!["pear", "apple"]);
}

#[test]
fn a_cloned_search_tree_stands_for_itself() {
    let bst = sample();
    let mut copy = bst.clone();
    copy.remove(9);
    assert_eq!(pre_order(&bst), vec![4, 3, 7, 6, 9]);
    assert_eq!(pre_order(&copy), vec![4, 3, 7, 6]);
}

#[test]
fn node_primitives() {
    let mut node = BinTreeNode::new(1);
    assert_eq!(node.value, 1);
    assert_eq!(node.left, None);
    assert_eq!(node.right, None);

    node.insert_left(2);
    node.insert_right(3);
    node.left.as_mut().unwrap().insert_left(4);
    assert_eq!(node.left.as_ref().unwrap().value, 2);
    assert_eq!(node.right.as_ref().unwrap().value, 3);

    node.insert_left(5);
    assert_eq!(node.left, Some(Box::new(BinTreeNode::new(5))));

    node.drop_right();
    assert_eq!(node.right, None);
    assert_eq!(node.left.as_ref().unwrap().value, 5);
    node.drop_left();
    assert_eq!(node, BinTreeNode::new(1));
}

#[test]
fn a_deep_copy_is_equal_and_apart() {
    let mut node = BinTreeNode::new(1);
    node.insert_left(2);
    node.insert_right(3);
    node.right.as_mut().unwrap().insert_left(4);
    let mut copy = node.my_clone();
    assert_eq!(copy, node);
    copy.right.as_mut().unwrap().left.as_mut().unwrap().value = 40;
    assert_eq!(node.right.as_ref().unwrap().left.as_ref().unwrap().value, 4);
    assert_eq!(copy.clone(), copy);
}

#[test]
fn a_cloned_binary_tree_stands_for_itself() {
    let mut bt = BinaryTree::new(3);
    bt.root.as_mut().unwrap().insert_left(2);
    let copy = bt.clone();
    bt.apply(|value| *value += 1);
    assert_eq!(bt.to_vec_pre(), vec![4, 3]);
    assert_eq!(copy.to_vec_pre(), vec![3, 2]);
    assert_eq!(copy.count(), 2);
    assert_eq!(copy.depth(), 2);
}

#[test]
fn dropping_takes_the_value() {
    let node = BinTreeNode::new(String::from("gone"));
    drop(node);
    drop(7);
}

#[test]
fn an_empty_list_hands_out_nothing() {
    let list: List<i32> = List(VecDeque::new());
    let mut walk = list.into_iter();
    assert_eq!(walk.next(), None);
    assert_eq!(walk.next(), None);
}
