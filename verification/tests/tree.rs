use collisions::tree::{LinearTree, LinearTreeNode, RecursiveTree};

#[test]
fn recursive_to_linear() {
    let tree = RecursiveTree::Branch(
        1,
        Box::new(RecursiveTree::Branch(
            2,
            Box::new(RecursiveTree::Leaf(4, 44)),
            Box::new(RecursiveTree::Leaf(5, 55)),
        )),
        Box::new(RecursiveTree::Leaf(3, 33)),
    );

    let linear = LinearTree::from_recursive(tree);

    let root = linear.root();
    assert_eq!(1, *linear.key(&root));

    let LinearTreeNode::Branch(left, right) = linear.value(&root) else {
        panic!("expected branch, got value")
    };

    assert_eq!(2, *linear.key(&left));
    assert_eq!(3, *linear.key(&right));

    let LinearTreeNode::Value(leaf) = linear.value(&right) else {
        panic!("expected value, got branch");
    };
    assert_eq!(33, *leaf);

    let LinearTreeNode::Branch(left, right) = linear.value(&left) else {
        panic!("expected branch, got value");
    };

    assert_eq!(4, *linear.key(&left));
    assert_eq!(5, *linear.key(&right));

    let LinearTreeNode::Value(leaf) = linear.value(&left) else {
        panic!("expected value, got branch");
    };

    assert_eq!(44, *leaf);

    let LinearTreeNode::Value(leaf) = linear.value(&right) else {
        panic!("expected value, got branch");
    };

    assert_eq!(55, *leaf);
}

#[test]
fn right_aligned_to_linear() {
    let tree = RecursiveTree::Branch(
        1,
        Box::new(RecursiveTree::Leaf(2, 22)),
        Box::new(RecursiveTree::Branch(
            3,
            Box::new(RecursiveTree::Leaf(4, 44)),
            Box::new(RecursiveTree::Leaf(5, 55)),
        )),
    );

    let linear = LinearTree::from_recursive(tree);
    assert_eq!(1, *linear.key(&linear.root()))
}

#[test]
fn concat_recursive_equal_linear() {
    let recursive1 = RecursiveTree::Branch(
        1,
        Box::new(RecursiveTree::Leaf(2, 22)),
        Box::new(RecursiveTree::Leaf(3, 33)),
    );
    let linear1 = LinearTree::from_recursive(recursive1.clone());

    let recursive2 = RecursiveTree::Branch(
        4,
        Box::new(RecursiveTree::Leaf(5, 55)),
        Box::new(RecursiveTree::Leaf(6, 66)),
    );
    let linear2 = LinearTree::from_recursive(recursive2.clone());

    let recursive = recursive1.concat(recursive2, 7);
    let linear = linear1.concat(&linear2, 7);

    assert_eq!(recursive, RecursiveTree::from(&linear));
}

#[test]
fn concat_unbalanced_recursive_equal_linear() {
    let recursive1 = RecursiveTree::Branch(
        1,
        Box::new(RecursiveTree::Leaf(2, 22)),
        Box::new(RecursiveTree::Leaf(3, 33)),
    );
    let linear1 = LinearTree::from_recursive(recursive1.clone());

    let recursive2 = RecursiveTree::Branch(
        4,
        Box::new(RecursiveTree::Leaf(5, 55)),
        Box::new(RecursiveTree::Branch(
            6,
            Box::new(RecursiveTree::Leaf(7, 77)),
            Box::new(RecursiveTree::Leaf(8, 88)),
        )),
    );
    let linear2 = LinearTree::from_recursive(recursive2.clone());

    let recursive = recursive1.concat(recursive2, 9);
    let linear = linear1.concat(&linear2, 9);

    assert_eq!(recursive, RecursiveTree::from(&linear));
}

#[test]
fn linear_depth_matches_recursive() {
    let leaf = |k: i32, v: i32| RecursiveTree::Leaf(k, v);
    let tree = RecursiveTree::Branch(
        1,
        Box::new(leaf(2, 22)),
        Box::new(RecursiveTree::Branch(
            3,
            Box::new(leaf(4, 44)),
            Box::new(RecursiveTree::Branch(5, Box::new(leaf(6, 66)), Box::new(leaf(7, 77)))),
        )),
    );
    assert_eq!(3, tree.depth());
    let linear = LinearTree::from_recursive(tree);
    assert_eq!(3, linear.depth());
    assert_eq!(15, linear.raw().len());
    assert_eq!(0, LinearTree::from_recursive(leaf(9, 99)).depth());
}
