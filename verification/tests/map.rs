use collisions::tree::{LinearTree, RecursiveTree};

#[test]
fn recursive_map_keeps_shape() {
    let tree = RecursiveTree::Branch(
        1,
        Box::new(RecursiveTree::Leaf(2, 20)),
        Box::new(RecursiveTree::Leaf(3, 30)),
    );
    let mapped = tree.map(&|k: &i32| k * 10, &|v: &i32| v + 1);
    let expected = RecursiveTree::Branch(
        10,
        Box::new(RecursiveTree::Leaf(20, 21)),
        Box::new(RecursiveTree::Leaf(30, 31)),
    );
    assert_eq!(expected, mapped);
}

#[test]
fn recursive_rebuild_recomputes_keys() {
    let tree = RecursiveTree::Branch(
        0,
        Box::new(RecursiveTree::Leaf(0, 2)),
        Box::new(RecursiveTree::Branch(
            0,
            Box::new(RecursiveTree::Leaf(0, 5)),
            Box::new(RecursiveTree::Leaf(0, 7)),
        )),
    );
    let rebuilt = tree.rebuild(&|v: &i32| v * 2, &|v: &i32| *v, &|a: &i32, b: &i32| a + b);
    let expected = RecursiveTree::Branch(
        28,
        Box::new(RecursiveTree::Leaf(4, 4)),
        Box::new(RecursiveTree::Branch(
            24,
            Box::new(RecursiveTree::Leaf(10, 10)),
            Box::new(RecursiveTree::Leaf(14, 14)),
        )),
    );
    assert_eq!(expected, rebuilt);
}

#[test]
fn linear_map_keeps_layout() {
    let tree = RecursiveTree::Branch(
        1,
        Box::new(RecursiveTree::Leaf(2, 20)),
        Box::new(RecursiveTree::Branch(
            3,
            Box::new(RecursiveTree::Leaf(4, 40)),
            Box::new(RecursiveTree::Leaf(5, 50)),
        )),
    );
    let linear = LinearTree::from_recursive(tree);
    let mapped = linear.map(&|k: &i32| k + 100, &|v: &i32| v * 2);
    let expected = RecursiveTree::Branch(
        101,
        Box::new(RecursiveTree::Leaf(102, 40)),
        Box::new(RecursiveTree::Branch(
            103,
            Box::new(RecursiveTree::Leaf(104, 80)),
            Box::new(RecursiveTree::Leaf(105, 100)),
        )),
    );
    assert_eq!(expected, RecursiveTree::from(&mapped));
    assert_eq!(linear.raw().len(), mapped.raw().len());
}
