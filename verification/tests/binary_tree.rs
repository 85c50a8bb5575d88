use bin_tree::BinaryTree;

#[test]
#[allow(non_snake_case)]
fn BinaryTree_new() {
    let bt = BinaryTree::new(4);

    let expect = 4;
    let actual = bt.root.as_ref().unwrap().value;

    assert_eq!(expect, actual)
}

#[test]
fn to_vec() {
    let mut bt = BinaryTree::new(3);
    bt.root.as_mut().unwrap().insert_left(2);
    bt.root.as_mut().unwrap().insert_right(4);
    bt.root.as_mut().unwrap().left.as_mut().unwrap().insert_left(1);
    bt.root.as_mut().unwrap().right.as_mut().unwrap().insert_right(5);

    // preorder
    let expect = vec![3, 2, 1, 4, 5];
    let actual = bt.to_vec_pre();

    assert_eq!(expect, actual);

    // inorder
    let expect = vec![1, 2, 3, 4, 5];
    let actual = bt.to_vec_in();

    assert_eq!(expect, actual);

    // postorder
    let expect = vec![1, 2, 5, 4, 3];
    let actual = bt.to_vec_post();

    assert_eq!(expect, actual);
}

#[test]
fn apply() {
    // Any BinTree
    let mut bt = BinaryTree::new(3);
    bt.root.as_mut().unwrap().insert_left(2);
    bt.root.as_mut().unwrap().insert_right(4);
    bt.root.as_mut().unwrap().left.as_mut().unwrap().insert_left(1);
    bt.root.as_mut().unwrap().right.as_mut().unwrap().insert_right(5);

    bt.apply(|val| {
        *val *= 2
    });

    let expect = vec![6, 4, 2, 8, 10];
    let actual = bt.to_vec_pre();

    assert_eq!(expect, actual);

    // BinTree with only root
    let mut bt = BinaryTree::new(3);
    bt.apply(|val| {
        *val *= 2
    });

    let expect = vec![6];
    let actual = bt.to_vec_pre();

    assert_eq!(expect, actual);
}

#[test]
fn depth() {
    // Depth for rand tree
    let mut bt = BinaryTree::new(3);
    bt.root.as_mut().unwrap().insert_left(2);
    bt.root.as_mut().unwrap().insert_right(4);
    bt.root.as_mut().unwrap().left.as_mut().unwrap().insert_left(1);
    bt.root.as_mut().unwrap().right.as_mut().unwrap().insert_right(5);

    let expect = 3;
    let actual = bt.depth();

    assert_eq!(expect, actual);

    // left | right
    let mut bt = BinaryTree::new(3);
    bt.root.as_mut().unwrap().insert_left(2);
    bt.root.as_mut().unwrap().insert_right(4);

    let expect = 2;
    let actual = bt.depth();

    assert_eq!(expect, actual);

    // left | None
    let mut bt = BinaryTree::new(3);
    bt.root.as_mut().unwrap().insert_left(2);

    let expect = 2;
    let actual = bt.depth();

    assert_eq!(expect, actual);

    // None | right
    let mut bt = BinaryTree::new(3);
    bt.root.as_mut().unwrap().insert_right(4);

    let expect = 2;
    let actual = bt.depth();

    assert_eq!(expect, actual);

    // only root
    let bt = BinaryTree::new(3);

    let expect = 1;
    let actual = bt.depth();

    assert_eq!(expect, actual);
}

#[test]
fn count() {
    // Count of nodes for rand tree
    let mut bt = BinaryTree::new(3);
    bt.root.as_mut().unwrap().insert_left(2);
    bt.root.as_mut().unwrap().insert_right(4);
    bt.root.as_mut().unwrap().left.as_mut().unwrap().insert_left(1);
    bt.root.as_mut().unwrap().right.as_mut().unwrap().insert_right(5);

    let expect = 5;
    let actual = bt.count();

    assert_eq!(expect, actual);

    // left | right
    let mut bt = BinaryTree::new(3);
    bt.root.as_mut().unwrap().insert_left(2);
    bt.root.as_mut().unwrap().insert_right(4);

    let expect = 3;
    let actual = bt.count();

    assert_eq!(expect, actual);

    // left | None
    let mut bt = BinaryTree::new(3);
    bt.root.as_mut().unwrap().insert_left(2);

    let expect = 2;
    let actual = bt.count();

    assert_eq!(expect, actual);

    // None | right
    let mut bt = BinaryTree::new(3);
    bt.root.as_mut().unwrap().insert_right(4);

    let expect = 2;
    let actual = bt.count();

    assert_eq!(expect, actual);

    // root
    let bt = BinaryTree::new(3);

    let expect = 1;
    let actual = bt.count();

    assert_eq!(expect, actual);
}
