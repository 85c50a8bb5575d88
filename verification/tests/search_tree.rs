use bin_tree::BinSearchTree;

#[test]
#[allow(non_snake_case)]
fn BinSearchTree_new() {
    let bst: BinSearchTree<i32> = BinSearchTree::new();

    assert_eq!(None, bst.root)
}

#[test]
fn insert() {
    let mut bst = BinSearchTree::new();

    bst.insert(4);
    let expect = 4;
    let actual = bst.root.as_ref().unwrap().value;
    assert_eq!(expect, actual);

    bst.insert(2);
    let expect = 2;
    let actual = bst.root.as_ref().unwrap().left.as_ref().unwrap().value;
    assert_eq!(expect, actual);

    bst.insert(5);
    let expect = 5;
    let actual = bst.root.as_ref().unwrap().right.as_ref().unwrap().value;
    assert_eq!(expect, actual);
}

#[test]
fn to_vec_pre() {
    let mut bst = BinSearchTree::new();
    bst.insert(4);
    bst.insert(3);
    bst.insert(7);
    bst.insert(6);
    bst.insert(9);

    let expect = vec![&4, &3, &7, &6, &9];
    let actual = bst.to_vec_pre();

    assert_eq!(expect, actual);

    let bst: BinSearchTree<i32> = BinSearchTree::new();
    let expect: Vec<&i32> = Vec::new();
    let actual = bst.to_vec_pre();
    assert_eq!(expect, actual);
}

#[test]
fn insert_row() {
    let mut bst = BinSearchTree::new();
    bst.insert(4).insert(3).insert(7).insert(6).insert(9);

    let expect = vec![&4, &3, &7, &6, &9];
    let actual = bst.to_vec_pre();

    assert_eq!(expect, actual)
}

#[test]
fn bin_search() {
    let mut bst = BinSearchTree::new();
    bst.insert(4).insert(3).insert(7).insert(6).insert(9);

    let expect = 6;
    let actual = bst.bin_search(&6).unwrap().value;
    assert_eq!(expect, actual);

    let expect = 4;
    let actual = bst.bin_search(&4).unwrap().value;
    assert_eq!(expect, actual);

    let expect = 9;
    let actual = bst.bin_search(&9).unwrap().value;
    assert_eq!(expect, actual);

    let expect = None;
    let actual = bst.bin_search(&1);
    assert_eq!(expect, actual);

    let mut bst: BinSearchTree<i32> = BinSearchTree::new();
    let expect = None;
    let actual = bst.bin_search(&1);
    assert_eq!(expect, actual);
}

#[test]
fn bin_search_vec() {
    let mut bst = BinSearchTree::new();
    bst.insert(4).insert(3).insert(7).insert(6).insert(9);

    let expect = vec![4, 7, 9];
    let actual = bst.bin_search_vec(&9).unwrap();
    assert_eq!(expect, actual);

    let expect = None;
    let actual = bst.bin_search_vec(&1);
    assert_eq!(expect, actual);

    let expect = vec![4];
    let actual = bst.bin_search_vec(&4).unwrap();
    assert_eq!(expect, actual);

    let bst: BinSearchTree<i32> = BinSearchTree::new();
    let expect = None;
    let actual = bst.bin_search_vec(&1);
    assert_eq!(expect, actual);
}

#[test]
fn succ() {
    let mut bst = BinSearchTree::new();
    bst.insert(4).insert(3).insert(7).insert(6).insert(9);

    let expect = 4;
    let actual = bst.succ(&3).unwrap();
    assert_eq!(expect, actual);

    let expect = 6;
    let actual = bst.succ(&4).unwrap();
    assert_eq!(expect, actual);

    let expect = 7;
    let actual = bst.succ(&6).unwrap();
    assert_eq!(expect, actual);

    let expect = 9;
    let actual = bst.succ(&7).unwrap();
    assert_eq!(expect, actual);

    let expect = None;
    let actual = bst.succ(&9);
    assert_eq!(expect, actual);

    let mut bst: BinSearchTree<i32> = BinSearchTree::new();
    let expect = None;
    let actual = bst.succ(&9);
    assert_eq!(expect, actual);
}

#[test]
fn remove() {
    let mut bst = BinSearchTree::new();
    bst.insert(4).insert(3).insert(7).insert(6).insert(9);

    bst.remove(9);
    let expect = vec![&4, &3, &7, &6];
    let actual = bst.to_vec_pre();
    assert_eq!(expect, actual);

    bst.insert(9);
    bst.remove(7);
    let expect = vec![&4, &3, &9, &6];
    let actual = bst.to_vec_pre();
    assert_eq!(expect, actual);

    bst.remove(6);
    let expect = vec![&4, &3, &9];
    let actual = bst.to_vec_pre();
    assert_eq!(expect, actual);

    bst.remove(3);
    let expect = vec![&4, &9];
    let actual = bst.to_vec_pre();
    assert_eq!(expect, actual);

    bst.remove(4);
    let expect: Vec<&i32> = Vec::new();
    let actual = bst.to_vec_pre();
    assert_eq!(expect, actual);

    let expect = false;
    let actual = bst.remove(4);
    assert_eq!(expect, actual);
}

#[test]
fn iter_mut() {
    let mut bst = BinSearchTree::new();
    bst.insert(4).insert(3).insert(7).insert(6).insert(9);
    let mut bit = bst.iter_mut();

    let expect = 9;
    let actual = *bit.next().unwrap();
    assert_eq!(expect, actual);

    let expect = 6;
    let actual = *bit.next().unwrap();
    assert_eq!(expect, actual);

    let expect = 7;
    let actual = *bit.next().unwrap();
    assert_eq!(expect, actual);

    let expect = 3;
    let actual = *bit.next().unwrap();
    assert_eq!(expect, actual);

    let expect = 4;
    let actual = *bit.next().unwrap();
    assert_eq!(expect, actual);

    let expect = None;
    let actual = bit.next();
    assert_eq!(expect, actual);

    let mut bst: BinSearchTree<i32> = BinSearchTree::new();
    let mut bit = bst.iter_mut();
    let expect = None;
    let actual = bit.next();
    assert_eq!(expect, actual);
}

#[test]
#[allow(non_snake_case)]
fn BinSearchTree_into_iter() {
    let mut bst = BinSearchTree::new();
    bst.insert(4).insert(3).insert(7).insert(6).insert(9);
    let mut bit = bst.into_iter();

    let expect = 9;
    let actual = bit.next().unwrap();
    assert_eq!(expect, actual);

    let expect = 6;
    let actual = bit.next().unwrap();
    assert_eq!(expect, actual);

    let expect = 7;
    let actual = bit.next().unwrap();
    assert_eq!(expect, actual);

    let expect = 3;
    let actual = bit.next().unwrap();
    assert_eq!(expect, actual);

    let expect = 4;
    let actual = bit.next().unwrap();
    assert_eq!(expect, actual);

    let expect = None;
    let actual = bit.next();
    assert_eq!(expect, actual);

    let b: BinSearchTree<i32> = BinSearchTree::new();
    b.into_iter();
    let expect = None;
    let actual = bit.next();
    assert_eq!(expect, actual);

    let bst: BinSearchTree<i32> = BinSearchTree::new();
    let mut bit = bst.into_iter();
    let expect = None;
    let actual = bit.next();
    assert_eq!(expect, actual);
}

#[test]
fn iter() {
    let mut bst = BinSearchTree::new();
    bst.insert(4).insert(3).insert(7).insert(6).insert(9);
    let mut bit = bst.iter();

    let expect = 3;
    let actual = bit.next().unwrap().as_ref().unwrap().value;
    assert_eq!(expect, actual);

    let expect = 4;
    let actual = bit.next().unwrap().as_ref().unwrap().value;
    assert_eq!(expect, actual);

    let expect = 6;
    let actual = bit.next().unwrap().as_ref().unwrap().value;
    assert_eq!(expect, actual);

    let expect = 7;
    let actual = bit.next().unwrap().as_ref().unwrap().value;
    assert_eq!(expect, actual);

    let expect = 9;
    let actual = bit.next().unwrap().as_ref().unwrap().value;
    assert_eq!(expect, actual);

    let expect = None;
    let actual = bit.next();
    assert_eq!(expect, actual);

    let bst: BinSearchTree<i32> = BinSearchTree::new();
    let mut bit = bst.iter();
    let expect = None;
    let actual = bit.next();
    assert_eq!(expect, actual);
}
