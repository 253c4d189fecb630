use collisions::common::Collides;
use collisions::group::{fold_group, group_collides_with, ColliderGroup};

struct Col;

impl Collides<Col> for Col {
    fn collides_with(&self, _: &Col) -> bool {
        true
    }
}

/// A collider that collides with colliders of the same number.
struct Num(u32);

impl Collides<Num> for Num {
    fn collides_with(&self, other: &Num) -> bool {
        self.0 == other.0
    }
}

#[test]
fn collider_group() {
    let a = Col;
    let b = Col;
    let c = Col;
    let group = ColliderGroup(vec![a, b, c]);
    assert!(group_collides_with(&group, &Col));
    assert!(group.collides_with(&ColliderGroup(vec![Col])));
}

#[test]
fn group_collides_with_member() {
    let group = ColliderGroup(vec![Num(1), Num(2), Num(3)]);
    assert!(group_collides_with(&group, &Num(3)));
    assert!(!group_collides_with(&group, &Num(4)));
    assert!(!group_collides_with(&ColliderGroup(Vec::<Num>::new()), &Num(1)));
}

#[test]
fn groups_collide_when_some_pair_collides() {
    let group = ColliderGroup(vec![Num(1), Num(2)]);
    assert!(group.collides_with(&ColliderGroup(vec![Num(5), Num(2)])));
    assert!(!group.collides_with(&ColliderGroup(vec![Num(5), Num(6)])));
    assert!(!group.collides_with(&ColliderGroup(Vec::<Num>::new())));
}

#[test]
fn extended_appends_members() {
    let group = ColliderGroup(vec![Num(1)]).extended(ColliderGroup(vec![Num(2), Num(3)]));
    let ids: Vec<u32> = group.0.iter().map(|n| n.0).collect();
    assert_eq!(vec![1, 2, 3], ids);

    let mut group = ColliderGroup(vec![Num(4)]);
    group.extend(ColliderGroup(vec![Num(5)]));
    let ids: Vec<u32> = group.0.iter().map(|n| n.0).collect();
    assert_eq!(vec![4, 5], ids);
}

#[test]
fn fold_joins_left_to_right() {
    let group = ColliderGroup(vec![1i64, 2, 3, 4]);
    // ((1 - 2) - 3) - 4
    assert_eq!(-8, fold_group(group, &|a: i64, b: i64| a - b));
}

#[test]
fn fold_of_one_member_is_that_member() {
    assert_eq!(7, fold_group(ColliderGroup(vec![7u32]), &|a: u32, b: u32| a + b));
}

#[test]
fn fold_keeps_the_order_of_members() {
    let group = ColliderGroup(vec!["a".to_string(), "b".to_string(), "c".to_string()]);
    assert_eq!("((ab)c)", fold_group(group, &|a: String, b: String| format!("({}{})", a, b)));
}
