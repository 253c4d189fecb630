use collisions::bvh_tree::{nodes_collide, BvhTree};
use collisions::common::Collides;

/// An axis-aligned box given by its centre and size; a point is a box of size zero.
#[derive(Debug, Clone, Copy, PartialEq)]
struct Cbox {
    pos: [f64; 3],
    size: [f64; 3],
}

impl Cbox {
    fn min(&self) -> [f64; 3] {
        [
            self.pos[0] - self.size[0] / 2.0,
            self.pos[1] - self.size[1] / 2.0,
            self.pos[2] - self.size[2] / 2.0,
        ]
    }

    fn max(&self) -> [f64; 3] {
        [
            self.pos[0] + self.size[0] / 2.0,
            self.pos[1] + self.size[1] / 2.0,
            self.pos[2] + self.size[2] / 2.0,
        ]
    }

    fn center(&self) -> [f64; 3] {
        let (min, max) = (self.min(), self.max());
        [
            min[0] + (max[0] - min[0]) / 2.0,
            min[1] + (max[1] - min[1]) / 2.0,
            min[2] + (max[2] - min[2]) / 2.0,
        ]
    }
}

impl Collides<Cbox> for Cbox {
    fn collides_with(&self, other: &Cbox) -> bool {
        let (a0, a1, b0, b1) = (self.min(), self.max(), other.min(), other.max());
        (0..3).all(|i| a0[i] <= b1[i] && b0[i] <= a1[i])
    }
}

fn cbox(x: f64, y: f64, z: f64, w: f64, h: f64, d: f64) -> Cbox {
    Cbox { pos: [x, y, z], size: [w, h, d] }
}

fn cpoint(x: f64, y: f64, z: f64) -> Cbox {
    cbox(x, y, z, 0.0, 0.0, 0.0)
}

fn lexi_min(points: impl Iterator<Item = [f64; 3]>) -> [f64; 3] {
    points.min_by(|a, b| a.partial_cmp(b).unwrap()).unwrap()
}

fn lexi_max(points: impl Iterator<Item = [f64; 3]>) -> [f64; 3] {
    points.max_by(|a, b| a.partial_cmp(b).unwrap()).unwrap()
}

/// Orders the colliders by their centres along the axis on which the centres spread most.
fn order(colliders: &[Cbox]) -> Vec<Cbox> {
    let min = lexi_min(colliders.iter().map(Cbox::center));
    let max = lexi_max(colliders.iter().map(Cbox::center));
    let diff = [max[0] - min[0], max[1] - min[1], max[2] - min[2]];
    let axis = if diff[0] >= diff[1] && diff[0] >= diff[2] {
        0
    } else if diff[1] >= diff[0] && diff[1] >= diff[2] {
        1
    } else {
        2
    };
    let mut ordered = colliders.to_vec();
    ordered.sort_by(|a, b| a.center()[axis].partial_cmp(&b.center()[axis]).unwrap());
    ordered
}

/// The box between the least minimum and the greatest maximum of the colliders.
fn bound(colliders: &[Cbox]) -> Cbox {
    let min = lexi_min(colliders.iter().map(Cbox::min));
    let max = lexi_max(colliders.iter().map(Cbox::max));
    let size = [max[0] - min[0], max[1] - min[1], max[2] - min[2]];
    let pos = [min[0] + size[0] / 2.0, min[1] + size[1] / 2.0, min[2] + size[2] / 2.0];
    Cbox { pos, size }
}

fn build(objects: &[Cbox]) -> Option<BvhTree<Cbox>> {
    BvhTree::build(objects, &order, &bound)
}

fn leaf(c: Cbox) -> Option<Box<BvhTree<Cbox>>> {
    Some(Box::new(BvhTree::Leaf(c)))
}

fn branch(c: Cbox, l: Option<Box<BvhTree<Cbox>>>, r: Option<Box<BvhTree<Cbox>>>) -> Option<Box<BvhTree<Cbox>>> {
    Some(Box::new(BvhTree::Branch(c, l, r)))
}

#[test]
fn build_bhv_correct() {
    let objects = vec![
        cpoint(1.0, 1.0, 1.0),
        cpoint(2.0, 2.0, 2.0),
        cpoint(3.0, 3.0, 3.0),
        cpoint(4.0, 4.0, 4.0),
    ];

    let tree = build(&objects[..]);

    assert!(tree.is_some());
    assert_eq!(
        BvhTree::Branch(
            cbox(2.5, 2.5, 2.5, 3.0, 3.0, 3.0),
            branch(
                cbox(1.5, 1.5, 1.5, 1.0, 1.0, 1.0),
                leaf(cpoint(1.0, 1.0, 1.0)),
                leaf(cpoint(2.0, 2.0, 2.0)),
            ),
            branch(
                cbox(3.5, 3.5, 3.5, 1.0, 1.0, 1.0),
                leaf(cpoint(3.0, 3.0, 3.0)),
                leaf(cpoint(4.0, 4.0, 4.0)),
            ),
        ),
        tree.unwrap()
    );
}

#[test]
fn build_bhv_complex() {
    let objects = vec![
        cbox(0.0, 0.0, 0.0, 1.0, 1.0, 1.0),
        cbox(2.0, 0.0, 0.0, 1.0, 1.0, 1.0),
        cbox(0.0, 2.0, 0.0, 1.0, 1.0, 1.0),
        cbox(2.0, 2.0, 0.0, 1.0, 1.0, 1.0),
        cbox(0.0, 0.0, 2.0, 1.0, 1.0, 1.0),
        cbox(2.0, 0.0, 2.0, 1.0, 1.0, 1.0),
        cbox(0.0, 2.0, 2.0, 1.0, 1.0, 1.0),
        cbox(2.0, 2.0, 2.0, 1.0, 1.0, 1.0),
    ];

    let tree = build(&objects[..]);

    assert!(tree.is_some());
    assert_eq!(
        BvhTree::Branch(
            cbox(1.0, 1.0, 1.0, 3.0, 3.0, 3.0),
            branch(
                cbox(0.0, 1.0, 1.0, 1.0, 3.0, 3.0),
                branch(
                    cbox(0.0, 0.0, 1.0, 1.0, 1.0, 3.0),
                    leaf(cbox(0.0, 0.0, 0.0, 1.0, 1.0, 1.0)),
                    leaf(cbox(0.0, 0.0, 2.0, 1.0, 1.0, 1.0)),
                ),
                branch(
                    cbox(0.0, 2.0, 1.0, 1.0, 1.0, 3.0),
                    leaf(cbox(0.0, 2.0, 0.0, 1.0, 1.0, 1.0)),
                    leaf(cbox(0.0, 2.0, 2.0, 1.0, 1.0, 1.0)),
                ),
            ),
            branch(
                cbox(2.0, 1.0, 1.0, 1.0, 3.0, 3.0),
                branch(
                    cbox(2.0, 0.0, 1.0, 1.0, 1.0, 3.0),
                    leaf(cbox(2.0, 0.0, 0.0, 1.0, 1.0, 1.0)),
                    leaf(cbox(2.0, 0.0, 2.0, 1.0, 1.0, 1.0)),
                ),
                branch(
                    cbox(2.0, 2.0, 1.0, 1.0, 1.0, 3.0),
                    leaf(cbox(2.0, 2.0, 0.0, 1.0, 1.0, 1.0)),
                    leaf(cbox(2.0, 2.0, 2.0, 1.0, 1.0, 1.0)),
                ),
            ),
        ),
        tree.unwrap()
    );
}

#[test]
fn build_empty_and_single() {
    assert_eq!(None, build(&[]));
    assert_eq!(Some(BvhTree::Leaf(cpoint(1.0, 2.0, 3.0))), build(&[cpoint(1.0, 2.0, 3.0)]));
}

#[test]
fn build_odd_count_splits_lower_half() {
    let objects = vec![cpoint(1.0, 0.0, 0.0), cpoint(2.0, 0.0, 0.0), cpoint(3.0, 0.0, 0.0)];
    let tree = build(&objects).unwrap();
    match tree {
        BvhTree::Branch(_, Some(l), Some(r)) => {
            assert_eq!(BvhTree::Leaf(cpoint(1.0, 0.0, 0.0)), *l);
            assert!(matches!(*r, BvhTree::Branch(_, Some(_), Some(_))));
        }
        _ => panic!("expected a branch with two children"),
    }
}

#[test]
fn nodes_collide_some() {
    let a = Some(Box::new(BvhTree::Leaf(cpoint(1.0, 1.0, 1.0))));
    let b = Some(Box::new(BvhTree::Leaf(cpoint(1.0, 1.0, 1.0))));

    assert!(nodes_collide(&a, &b));
}

#[test]
fn nodes_collide_some_none() {
    let a = Some(Box::new(BvhTree::Leaf(cpoint(1.0, 1.0, 1.0))));
    let b = None;

    assert!(!nodes_collide(&a, &b));
}

#[test]
fn leafs_collide() {
    let a = BvhTree::Leaf(cpoint(1.0, 1.0, 1.0));
    let b = BvhTree::Leaf(cpoint(1.0, 1.0, 1.0));

    assert!(a.collides_with(&b));
}

#[test]
fn branches_collide() {
    let leaf_a = BvhTree::Leaf(cpoint(1.0, 1.0, 1.0));
    let branch_a = BvhTree::Branch(cbox(1.0, 1.0, 1.0, 1.0, 1.0, 1.0), None, Some(Box::new(leaf_a)));
    let leaf_b = BvhTree::Leaf(cpoint(1.0, 1.0, 1.0));
    let branch_b = BvhTree::Branch(cbox(1.0, 1.0, 1.0, 1.0, 1.0, 1.0), Some(Box::new(leaf_b)), None);

    assert!(branch_a.collides_with(&branch_b));
}

#[test]
fn built_trees_collide_like_their_leaves() {
    let a = build(&[cpoint(0.0, 0.0, 0.0), cpoint(5.0, 0.0, 0.0), cpoint(9.0, 0.0, 0.0)]).unwrap();
    let b = build(&[cpoint(5.0, 0.0, 0.0), cpoint(20.0, 0.0, 0.0)]).unwrap();
    let c = build(&[cpoint(4.0, 0.0, 0.0), cpoint(6.0, 0.0, 0.0)]).unwrap();
    assert!(a.collides_with(&b));
    assert!(b.collides_with(&a));
    // The bounding boxes overlap, but no pair of points coincides.
    assert!(!a.collides_with(&c));
    assert!(!c.collides_with(&a));
}
