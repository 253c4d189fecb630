//! Groups of colliders that collide as a whole.
use crate::common::{answers, Collides};
use vstd::prelude::*;

verus! {

/// A group of colliders: it collides with whatever one of its members collides with.
pub struct ColliderGroup<T>(pub Vec<T>);

impl<T> ColliderGroup<T> {
    /// This group followed by the members of `other`.
    pub fn extended(self, other: ColliderGroup<T>) -> (res: Self)
        ensures
            res.0@ == self.0@ + other.0@,
    {
        let mut group = self;
        group.extend(other);
        group
    }

    /// Appends the members of `other` to this group.
    pub fn extend(&mut self, other: ColliderGroup<T>)
        ensures
            final(self).0@ == old(self).0@ + other.0@,
    {
        let mut other = other;
        self.0.append(&mut other.0);
    }
}

/// Whether some member of `group` collides with `other`, trying the members in order.
pub fn group_collides_with<T: Collides<O>, O>(group: &ColliderGroup<T>, other: &O) -> (res: bool)
    ensures
        res ==> exists|i: int| 0 <= i < group.0@.len() && #[trigger] answers(&group.0@[i], other, true),
        !res ==> forall|i: int| 0 <= i < group.0@.len() ==> #[trigger] answers(&group.0@[i], other, false),
{
    let n = group.0.len();
    let mut i: usize = 0;
    while i < n
        invariant
            n == group.0@.len(),
            i <= n,
            forall|j: int| 0 <= j < i ==> #[trigger] answers(&group.0@[j], other, false),
        decreases n - i,
    {
        if group.0[i].collides_with(other) {
            assert(answers(&group.0@[i as int], other, true));
            return true;
        }
        i = i + 1;
    }
    false
}

impl<A, B: Collides<A>> Collides<ColliderGroup<A>> for ColliderGroup<B> {
    /// Whether some member of this group collides with some member of `a`.
    fn collides_with(&self, a: &ColliderGroup<A>) -> (res: bool)
        ensures
            res ==> exists|i: int, j: int|
                0 <= i < self.0@.len() && 0 <= j < a.0@.len() && #[trigger] answers(
                    &self.0@[i],
                    &a.0@[j],
                    true,
                ),
            !res ==> forall|i: int, j: int|
                0 <= i < self.0@.len() && 0 <= j < a.0@.len() ==> #[trigger] answers(
                    &self.0@[i],
                    &a.0@[j],
                    false,
                ),
    {
        let n = self.0.len();
        let mut i: usize = 0;
        while i < n
            invariant
                n == self.0@.len(),
                i <= n,
                forall|x: int, y: int|
                    0 <= x < i && 0 <= y < a.0@.len() ==> #[trigger] answers(
                        &self.0@[x],
                        &a.0@[y],
                        false,
                    ),
            decreases n - i,
        {
            let b = &self.0[i];
            let m = a.0.len();
            let mut j: usize = 0;
            while j < m
                invariant
                    m == a.0@.len(),
                    n == self.0@.len(),
                    i < n,
                    j <= m,
                    *b == self.0@[i as int],
                    forall|y: int| 0 <= y < j ==> #[trigger] answers(b, &a.0@[y], false),
                decreases m - j,
            {
                if b.collides_with(&a.0[j]) {
                    assert(answers(&self.0@[i as int], &a.0@[j as int], true));
                    return true;
                }
                j = j + 1;
            }
            i = i + 1;
        }
        false
    }
}


/// `acc` holds the results of joining `items` from the left with `join`: its first entry is
/// the first item, and each next entry joins the previous one with the next item.
pub open spec fn left_folded<A, F: Fn(A, A) -> A>(items: Seq<A>, acc: Seq<A>, join: F) -> bool {
    &&& acc.len() == items.len()
    &&& acc.len() >= 1 ==> acc[0] == items[0]
    &&& forall|i: int| 0 < i < acc.len() ==> #[trigger] join.ensures((acc[i - 1], items[i]), acc[i])
}

/// Joins the members of a non-empty group into one, left to right, with `join`.
pub fn fold_group<A, F: Fn(A, A) -> A>(group: ColliderGroup<A>, join: &F) -> (res: A)
    requires
        group.0@.len() >= 1,
        forall|a: A, b: A| #[trigger] join.requires((a, b)),
    ensures
        exists|acc: Seq<A>| left_folded(group.0@, acc, *join) && res == acc.last(),
{
    let ghost items = group.0@;
    let mut rest = group.0;
    let mut res = rest.remove(0);
    let ghost mut acc: Seq<A> = seq![res];
    while rest.len() > 0
        invariant
            items.len() >= 1,
            acc.len() >= 1,
            acc.len() + rest@.len() == items.len(),
            rest@ == items.subrange(acc.len() as int, items.len() as int),
            left_folded(items.subrange(0, acc.len() as int), acc, *join),
            res == acc.last(),
            forall|a: A, b: A| #[trigger] join.requires((a, b)),
        decreases rest@.len(),
    {
        let next = rest.remove(0);
        let joined = join(res, next);
        proof {
            let k = acc.len() as int;
            assert(next == items[k]);
            let acc2 = acc.push(joined);
            assert forall|i: int| 0 < i < acc2.len() implies #[trigger] join.ensures(
                (acc2[i - 1], items.subrange(0, k + 1)[i]),
                acc2[i],
            ) by {
                if i < k {
                    assert(items.subrange(0, k + 1)[i] == items.subrange(0, k)[i]);
                }
            }
            acc = acc2;
        }
        res = joined;
    }
    assert(items.subrange(0, acc.len() as int) =~= items);
    res
}

} // verus!
