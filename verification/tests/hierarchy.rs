use collisions::common::Collides;
use collisions::hierarchy::{collides_with_linear_node, collides_with_node};
use collisions::tree::{LinearTree, RecursiveTree};

/// A closed interval of integers, as a bounding volume.
#[derive(Debug, Clone, Copy, PartialEq)]
struct Span(i64, i64);

impl Collides<Span> for Span {
    fn collides_with(&self, other: &Span) -> bool {
        self.0 <= other.1 && other.0 <= self.1
    }
}

/// A point on the line, as a primitive.
#[derive(Debug, Clone, Copy, PartialEq)]
struct Pt(i64);

impl Collides<Pt> for Pt {
    fn collides_with(&self, other: &Pt) -> bool {
        self.0 == other.0
    }
}

fn leaf(p: i64) -> RecursiveTree<Span, Pt> {
    RecursiveTree::Leaf(Span(p, p), Pt(p))
}

fn branch(l: RecursiveTree<Span, Pt>, r: RecursiveTree<Span, Pt>) -> RecursiveTree<Span, Pt> {
    let s = Span(l.key().0.min(r.key().0), l.key().1.max(r.key().1));
    RecursiveTree::Branch(s, Box::new(l), Box::new(r))
}

fn brute_force(a: &RecursiveTree<Span, Pt>, b: &RecursiveTree<Span, Pt>) -> bool {
    a.leaves().iter().any(|x| b.leaves().iter().any(|y| x.collides_with(y)))
}

#[test]
fn recursive_query_finds_shared_point() {
    let a = branch(branch(leaf(1), leaf(3)), leaf(7));
    let b = branch(leaf(5), branch(leaf(7), leaf(9)));
    assert!(collides_with_node(&a, &b));
    assert!(collides_with_node(&b, &a));
    assert_eq!(brute_force(&a, &b), collides_with_node(&a, &b));
}

#[test]
fn recursive_query_prunes_disjoint() {
    let a = branch(branch(leaf(1), leaf(3)), leaf(4));
    let b = branch(leaf(5), branch(leaf(2), leaf(9)));
    assert!(!collides_with_node(&a, &b));
    assert_eq!(brute_force(&a, &b), collides_with_node(&a, &b));
    assert!(!collides_with_node(&leaf(1), &leaf(2)));
    assert!(collides_with_node(&leaf(2), &leaf(2)));
}

#[test]
fn linear_query_matches_recursive() {
    let a = branch(branch(leaf(1), leaf(3)), leaf(7));
    let b = branch(leaf(5), branch(leaf(7), leaf(9)));
    let c = branch(leaf(0), leaf(2));
    let la = LinearTree::from_recursive(a.clone());
    let lb = LinearTree::from_recursive(b.clone());
    let lc = LinearTree::from_recursive(c.clone());
    assert!(collides_with_linear_node(&la, la.root(), &lb, lb.root()));
    assert!(!collides_with_linear_node(&la, la.root(), &lc, lc.root()));
    assert!(!collides_with_linear_node(&lb, lb.root(), &lc, lc.root()));
}

#[test]
fn leaves_in_order() {
    let a = branch(branch(leaf(1), leaf(3)), branch(leaf(7), leaf(8)));
    let values: Vec<i64> = a.leaves().iter().map(|p| p.0).collect();
    assert_eq!(vec![1, 3, 7, 8], values);
}

#[test]
fn linear_values_in_slot_order() {
    let a = branch(leaf(1), branch(leaf(7), leaf(8)));
    let linear = LinearTree::from_recursive(a);
    let values: Vec<i64> = linear.values().iter().map(|p| p.0).collect();
    assert_eq!(vec![1, 7, 8], values);
    assert_eq!(2, linear.depth());
    assert_eq!(7, linear.raw().len());
}
