use collisions::assemble::{build_from_leaves, build_recursive, into_leaves};
use collisions::tree::RecursiveTree;

type Tree = RecursiveTree<(i64, i64), i64>;

fn bound(v: &i64) -> (i64, i64) {
    (*v, *v)
}

fn join(a: &(i64, i64), b: &(i64, i64)) -> (i64, i64) {
    (a.0.min(b.0), a.1.max(b.1))
}

fn leaf(v: i64) -> Tree {
    RecursiveTree::Leaf((v, v), v)
}

fn key_of(t: &Tree) -> (i64, i64) {
    *t.key()
}

/// Orders the subtrees by the lower end of their keys and cuts after the first half,
/// rounded up.
fn split(leaves: &[Tree]) -> (Vec<Tree>, Vec<Tree>) {
    let mut ordered: Vec<Tree> = leaves.iter().map(clone_tree).collect();
    ordered.sort_by_key(|t| key_of(t).0);
    let half = ordered.len().div_ceil(2);
    let right = ordered.split_off(half);
    (ordered, right)
}

fn clone_tree(t: &Tree) -> Tree {
    match t {
        RecursiveTree::Leaf(k, v) => RecursiveTree::Leaf(*k, *v),
        RecursiveTree::Branch(k, l, r) => {
            RecursiveTree::Branch(*k, Box::new(clone_tree(l)), Box::new(clone_tree(r)))
        }
    }
}

#[test]
fn leaves_are_bounded_values() {
    let leaves = into_leaves(&[3, 1, 2], &bound);
    assert_eq!(vec![leaf(3), leaf(1), leaf(2)], leaves);
}

#[test]
fn single_leaf_is_the_tree() {
    assert_eq!(leaf(7), build_from_leaves(vec![leaf(7)], &split, &join));
}

#[test]
fn two_leaves_put_the_last_on_the_left() {
    let tree = build_from_leaves(vec![leaf(1), leaf(5)], &split, &join);
    assert_eq!(
        RecursiveTree::Branch((1, 5), Box::new(leaf(5)), Box::new(leaf(1))),
        tree
    );
}

#[test]
fn more_leaves_are_split_in_halves() {
    let tree = build_from_leaves(vec![leaf(9), leaf(1), leaf(5), leaf(3), leaf(7)], &split, &join);
    // first part: 1, 3, 5; second part: 7, 9
    let first = RecursiveTree::Branch(
        (1, 5),
        Box::new(RecursiveTree::Branch((1, 3), Box::new(leaf(3)), Box::new(leaf(1)))),
        Box::new(leaf(5)),
    );
    let second = RecursiveTree::Branch((7, 9), Box::new(leaf(9)), Box::new(leaf(7)));
    assert_eq!(RecursiveTree::Branch((1, 9), Box::new(first), Box::new(second)), tree);
    assert_eq!(3, tree.depth());
}

fn values_of(t: &Tree, out: &mut Vec<i64>) {
    match t {
        RecursiveTree::Leaf(_, v) => out.push(*v),
        RecursiveTree::Branch(_, l, r) => {
            values_of(l, out);
            values_of(r, out);
        }
    }
}

#[test]
fn recursive_build_bounds_and_splits() {
    let tree = build_recursive(&[9, 1, 5, 3, 7], &bound, &split, &join);
    assert_eq!(build_from_leaves(into_leaves(&[9, 1, 5, 3, 7], &bound), &split, &join), tree);
    assert_eq!((1, 9), *tree.key());
}

#[test]
fn recursive_build_keeps_every_value_once() {
    let values = [4, 8, 15, 16, 23, 42, 8];
    let tree = build_recursive(&values, &bound, &split, &join);
    let mut got = Vec::new();
    values_of(&tree, &mut got);
    got.sort();
    let mut expected = values.to_vec();
    expected.sort();
    assert_eq!(expected, got);
}

#[test]
fn recursive_build_depth_is_ceil_log2() {
    for (n, depth) in [(1usize, 0usize), (2, 1), (3, 2), (4, 2), (5, 3), (8, 3), (9, 4)] {
        let values: Vec<i64> = (0..n as i64).collect();
        let tree = build_recursive(&values, &bound, &split, &join);
        assert_eq!(depth, tree.depth(), "{} leaves", n);
    }
}
