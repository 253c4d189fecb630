use collisions::bvh_array::BvhTreeArr;
use collisions::common::Collides;
use collisions::tree::RecursiveTree;

#[derive(Debug, Clone, Copy, PartialEq)]
struct Span(i64, i64);

impl Collides<Span> for Span {
    fn collides_with(&self, other: &Span) -> bool {
        self.0 <= other.1 && other.0 <= self.1
    }
}

#[derive(Debug, Clone, Copy, PartialEq)]
struct Pt(i64);

impl Collides<Pt> for Pt {
    fn collides_with(&self, other: &Pt) -> bool {
        self.0 == other.0
    }
}

fn bound(p: &Pt) -> Span {
    Span(p.0, p.0)
}

fn join(a: &Span, b: &Span) -> Span {
    Span(a.0.min(b.0), a.1.max(b.1))
}

/// Splits by the lower ends of the boxes, the first half rounded up.
fn split(boxes: &[Span], indexes: &[usize]) -> (Vec<usize>, Vec<usize>) {
    let mut ordered = indexes.to_vec();
    ordered.sort_by_key(|i| boxes[*i].0);
    let half = ordered.len().div_ceil(2);
    let right = ordered.split_off(half);
    (ordered, right)
}

fn build(points: &[i64]) -> BvhTreeArr<Span, Pt> {
    let tris: Vec<Pt> = points.iter().map(|p| Pt(*p)).collect();
    BvhTreeArr::build(&tris, &bound, &split, &join)
}

fn leaves(tree: &RecursiveTree<Span, Pt>) -> Vec<i64> {
    tree.leaves().iter().map(|p| p.0).collect()
}

#[test]
fn build_keeps_every_triangle() {
    let bvh = build(&[5, 1, 9, 3]);
    let values: Vec<i64> = bvh.triangles().iter().map(|p| p.0).collect();
    assert_eq!(vec![5, 1, 9, 3], values);
    assert_eq!(Span(1, 9), *bvh.root_box());
}

#[test]
fn build_single_triangle() {
    let bvh = build(&[4]);
    assert_eq!(Span(4, 4), *bvh.root_box());
    assert!(bvh.collides_with(&build(&[4])));
    assert!(!bvh.collides_with(&build(&[5])));
}

#[test]
fn collides_like_brute_force() {
    let a = build(&[1, 3, 5, 7]);
    let b = build(&[8, 6, 10]);
    let c = build(&[2, 12, 7]);
    assert!(!a.collides_with(&b));
    assert!(a.collides_with(&c));
    assert!(c.collides_with(&a));
    assert!(!b.collides_with(&build(&[9, 11])));
}

#[test]
fn concat_equal_sizes() {
    let a = build(&[1, 3]);
    let b = build(&[10, 12]);
    let ab = a.concat(b, &join);
    // The new root box joins the boxes that this hierarchy stores at both root indices.
    assert_eq!(Span(1, 3), *ab.root_box());
    let values: Vec<i64> = ab.triangles().iter().map(|p| p.0).collect();
    assert_eq!(vec![1, 3, 10, 12], values);
    assert!(!ab.collides_with(&build(&[12])));
    assert!(ab.collides_with(&build(&[1])));
    assert!(!ab.collides_with(&build(&[5, 7])));
}

#[test]
fn map_translates() {
    let a = build(&[1, 3, 5]);
    let moved = a.map(&|s: &Span| Span(s.0 + 10, s.1 + 10), &|p: &Pt| Pt(p.0 + 10));
    assert_eq!(Span(11, 15), *moved.root_box());
    assert!(moved.collides_with(&build(&[13])));
    assert!(!moved.collides_with(&build(&[3])));
}

#[test]
fn rebuilt_recomputes_boxes() {
    let a = build(&[1, 3, 5]);
    let flipped = a.rebuilt(&|p: &Pt| Pt(-p.0), &bound, &join);
    assert_eq!(Span(-5, -1), *flipped.root_box());
    assert!(flipped.collides_with(&build(&[-3])));
    assert!(!flipped.collides_with(&build(&[3])));
}

#[test]
fn clone_is_equal() {
    let a = build(&[2, 4, 6]);
    let b = a.clone();
    assert_eq!(*a.root_box(), *b.root_box());
    assert!(b.collides_with(&build(&[4])));
    let _ = leaves(&RecursiveTree::Leaf(Span(0, 0), Pt(0)));
}

#[test]
fn concat_larger_first() {
    let a = build(&[1, 3, 5]);
    let b = build(&[10]);
    let ab = a.concat(b, &join);
    let values: Vec<i64> = ab.triangles().iter().map(|p| p.0).collect();
    assert_eq!(vec![1, 3, 5, 10], values);
    assert_eq!(7, ab.node_total());
    assert_eq!(6, ab.root_position());
    // The new root box joins this hierarchy's root box with its own box at the other's root index.
    assert_eq!(Span(1, 5), *ab.root_box());
    assert!(ab.collides_with(&build(&[3])));
    assert!(!ab.collides_with(&build(&[7])));
}

#[test]
fn build_sizes() {
    let a = build(&[4, 2, 8, 6, 1]);
    assert_eq!(9, a.node_total());
    assert_eq!(8, a.root_position());
}
