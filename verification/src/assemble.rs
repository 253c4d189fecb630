//! Building recursive hierarchies bottom-up: a leaf for each primitive, bounded by its own
//! volume, and branches that join the volumes of their children.
use crate::tree::{clone_is_exact, RecursiveTree};
use vstd::prelude::*;
use vstd::multiset::Multiset;

verus! {

/// A leaf for each value, keyed by `bound` of the value.
pub fn into_leaves<K, V: Clone, FB: Fn(&V) -> K>(values: &[V], bound: &FB) -> (res: Vec<
    RecursiveTree<K, V>,
>)
    requires
        forall|v: &V| #[trigger] bound.requires((v,)),
    ensures
        res@.len() == values@.len(),
        forall|i: int|
            0 <= i < values@.len() ==> (#[trigger] res@[i]) is Leaf && bound.ensures(
                (&values@[i],),
                res@[i]->Leaf_0,
            ) && cloned(values@[i], res@[i]->Leaf_1),
{
    let mut leaves: Vec<RecursiveTree<K, V>> = Vec::new();
    let n = values.len();
    let mut i: usize = 0;
    while i < n
        invariant
            n == values@.len(),
            i <= n,
            leaves@.len() == i,
            forall|v: &V| #[trigger] bound.requires((v,)),
            forall|j: int|
                0 <= j < i ==> (#[trigger] leaves@[j]) is Leaf && bound.ensures(
                    (&values@[j],),
                    leaves@[j]->Leaf_0,
                ) && cloned(values@[j], leaves@[j]->Leaf_1),
        decreases n - i,
    {
        let value = &values[i];
        let leaf = RecursiveTree::Leaf(bound(value), value.clone());
        leaves.push(leaf);
        i = i + 1;
    }
    leaves
}

/// The values at the leaves of a list of trees, tree after tree.
pub open spec fn all_leaves<K, V>(trees: Seq<RecursiveTree<K, V>>) -> Seq<V>
    decreases trees.len(),
{
    if trees.len() == 0 {
        seq![]
    } else {
        all_leaves(trees.drop_last()) + trees.last().spec_leaves()
    }
}

/// `split` only rearranges what it is given: the two parts together hold exactly its input.
pub open spec fn split_partitions<K, V, FS>(split: FS) -> bool where
    FS: Fn(&[RecursiveTree<K, V>]) -> (Vec<RecursiveTree<K, V>>, Vec<RecursiveTree<K, V>>),
 {
    forall|s: &[RecursiveTree<K, V>], r: (Vec<RecursiveTree<K, V>>, Vec<RecursiveTree<K, V>>)|
        #[trigger] split.ensures((s,), r) ==> (r.0@ + r.1@).to_multiset() =~= s@.to_multiset()
}

/// `ceil(log2(n))` for `n >= 1` (and 0 for `n == 0`).
pub open spec fn ceil_log2(n: nat) -> nat
    decreases n,
{
    if n <= 1 {
        0
    } else {
        1 + ceil_log2(((n + 1) / 2) as nat)
    }
}

proof fn lemma_ceil_log2_mono(a: nat, b: nat)
    requires
        a <= b,
    ensures
        ceil_log2(a) <= ceil_log2(b),
    decreases b,
{
    if a > 1 {
        lemma_ceil_log2_mono(((a + 1) / 2) as nat, ((b + 1) / 2) as nat);
    }
}

proof fn lemma_all_leaves_concat<K, V>(a: Seq<RecursiveTree<K, V>>, b: Seq<RecursiveTree<K, V>>)
    ensures
        all_leaves(a + b) == all_leaves(a) + all_leaves(b),
    decreases b.len(),
{
    if b.len() == 0 {
        assert(a + b =~= a);
        assert(all_leaves(a) + all_leaves(b) =~= all_leaves(a));
    } else {
        lemma_all_leaves_concat(a, b.drop_last());
        assert((a + b).drop_last() =~= a + b.drop_last());
        assert((a + b).last() == b.last());
        assert(all_leaves(a) + all_leaves(b.drop_last()) + b.last().spec_leaves() =~= all_leaves(a)
            + (all_leaves(b.drop_last()) + b.last().spec_leaves()));
    }
}

proof fn lemma_all_leaves_one<K, V>(t: RecursiveTree<K, V>)
    ensures
        all_leaves(seq![t]) == t.spec_leaves(),
{
    assert(seq![t].drop_last() =~= Seq::<RecursiveTree<K, V>>::empty());
    assert(all_leaves(Seq::<RecursiveTree<K, V>>::empty()) == Seq::<V>::empty());
    assert(Seq::<V>::empty() + t.spec_leaves() =~= t.spec_leaves());
}

/// Lists of trees that hold the same trees have the same leaves, in some order.
proof fn lemma_all_leaves_perm<K, V>(a: Seq<RecursiveTree<K, V>>, b: Seq<RecursiveTree<K, V>>)
    requires
        a.to_multiset() =~= b.to_multiset(),
    ensures
        all_leaves(a).to_multiset() =~= all_leaves(b).to_multiset(),
    decreases a.len(),
{
    broadcast use vstd::seq_lib::group_to_multiset_ensures;
    broadcast use vstd::multiset::group_multiset_axioms;

    if a.len() == 0 {
        assert(a.to_multiset().len() == 0);
        assert(b.to_multiset().len() == 0);
        assert(b.len() == 0);
        assert(b =~= a);
    } else {
        let x = a.last();
        let a0 = a.drop_last();
        assert(a =~= a0.push(x));
        assert(a.to_multiset().count(x) > 0);
        assert(b.contains(x));
        let j = choose|j: int| 0 <= j < b.len() && b[j] == x;
        let b0 = b.remove(j);
        assert(b0.to_multiset() =~= b.to_multiset().remove(x));
        assert(a0.to_multiset() =~= a.to_multiset().remove(x));
        lemma_all_leaves_perm(a0, b0);
        let p = b.subrange(0, j);
        let q = b.subrange(j + 1, b.len() as int);
        assert(b =~= p + seq![x] + q);
        assert(b0 =~= p + q);
        lemma_all_leaves_concat(p + seq![x], q);
        lemma_all_leaves_concat(p, seq![x]);
        lemma_all_leaves_concat(p, q);
        lemma_all_leaves_one(x);
        let lp = all_leaves(p);
        let lq = all_leaves(q);
        let lx = x.spec_leaves();
        vstd::seq_lib::lemma_multiset_commutative(lp + lx, lq);
        vstd::seq_lib::lemma_multiset_commutative(lp, lx);
        vstd::seq_lib::lemma_multiset_commutative(lp, lq);
        vstd::seq_lib::lemma_multiset_commutative(all_leaves(a0), lx);
        assert(all_leaves(a) == all_leaves(a0) + lx);
        assert(all_leaves(b) == lp + lx + lq);
        assert(all_leaves(b0) == lp + lq);
    }
}

/// `t` is a hierarchy built over `leaves`: the one subtree itself; for two, a branch over
/// the last and the first; for more, a branch over hierarchies built over the first part
/// and over the rest of what `split` made of the subtrees. Each branch made is keyed by
/// `join` of its children's keys.
pub open spec fn built_from<K, V, FS, FJ>(
    t: RecursiveTree<K, V>,
    leaves: Seq<RecursiveTree<K, V>>,
    split: FS,
    join: FJ,
) -> bool where
    FS: Fn(&[RecursiveTree<K, V>]) -> (Vec<RecursiveTree<K, V>>, Vec<RecursiveTree<K, V>>),
    FJ: Fn(&K, &K) -> K,

    decreases leaves.len(),
{
    if leaves.len() == 1 {
        t == leaves[0]
    } else if leaves.len() == 2 {
        t matches RecursiveTree::Branch(k, l, r) && *l == leaves[1] && *r == leaves[0]
            && join.ensures((&leaves[1].spec_key(), &leaves[0].spec_key()), k)
    } else if leaves.len() > 2 {
        &&& t matches RecursiveTree::Branch(k, l, r)
        &&& join.ensures((&t->Branch_1.spec_key(), &t->Branch_2.spec_key()), t->Branch_0)
        &&& exists|s: &[RecursiveTree<K, V>], parts: (Vec<RecursiveTree<K, V>>, Vec<RecursiveTree<K, V>>)|
            #![trigger split.ensures((s,), parts)]
            s@ == leaves && split.ensures((s,), parts) && 0 < parts.0@.len() < leaves.len() && 0
                < parts.1@.len() < leaves.len() && built_from(*t->Branch_1, parts.0@, split, join)
                && built_from(*t->Branch_2, parts.1@, split, join)
    } else {
        false
    }
}

/// Builds a hierarchy over the given subtrees: one subtree is the hierarchy; two are joined
/// under a branch with the last one on the left; more are divided by `split` into a first
/// part of `ceil(n / 2)` subtrees and the rest, each built into a hierarchy, and the two
/// are joined under a branch. A branch is keyed by `join` of its children's keys.
pub fn build_from_leaves<K, V, FS, FJ>(leaves: Vec<RecursiveTree<K, V>>, split: &FS, join: &FJ) -> (res:
    RecursiveTree<K, V>) where
    FS: Fn(&[RecursiveTree<K, V>]) -> (Vec<RecursiveTree<K, V>>, Vec<RecursiveTree<K, V>>),
    FJ: Fn(&K, &K) -> K,

    requires
        leaves@.len() >= 1,
        forall|s: &[RecursiveTree<K, V>]| #[trigger] split.requires((s,)),
        forall|s: &[RecursiveTree<K, V>], r: (Vec<RecursiveTree<K, V>>, Vec<RecursiveTree<K, V>>)|
            #[trigger] split.ensures((s,), r) ==> r.0@.len() == (s@.len() + 1) / 2 && r.1@.len()
                == s@.len() - (s@.len() + 1) / 2,
        forall|a: &K, b: &K| #[trigger] join.requires((a, b)),
    ensures
        built_from(res, leaves@, *split, *join),
        split_partitions(*split) ==> res.spec_leaves().to_multiset() =~= all_leaves(
            leaves@,
        ).to_multiset(),
        split_partitions(*split) && (forall|i: int| 0 <= i < leaves@.len() ==> #[trigger] leaves@[i] is Leaf)
            ==> res.spec_depth() == ceil_log2(leaves@.len()),
    decreases leaves@.len(),
{
    let mut leaves = leaves;
    let ghost all = leaves@;
    if leaves.len() == 1 {
        proof {
            assert(all =~= seq![all[0]]);
            lemma_all_leaves_one(all[0]);
        }
        return leaves.pop().unwrap();
    }
    if leaves.len() == 2 {
        let left = leaves.pop().unwrap();
        let right = leaves.pop().unwrap();
        let bounding = join(left.key(), right.key());
        let res = RecursiveTree::Branch(bounding, Box::new(left), Box::new(right));
        proof {
            assert(all =~= seq![all[0]] + seq![all[1]]);
            lemma_all_leaves_concat(seq![all[0]], seq![all[1]]);
            lemma_all_leaves_one(all[0]);
            lemma_all_leaves_one(all[1]);
            vstd::seq_lib::lemma_multiset_commutative(all[1].spec_leaves(), all[0].spec_leaves());
            vstd::seq_lib::lemma_multiset_commutative(all[0].spec_leaves(), all[1].spec_leaves());
            broadcast use vstd::multiset::group_multiset_axioms;
            assert(ceil_log2(1) == 0);
            assert(ceil_log2(2) == 1);
            if forall|i: int| 0 <= i < all.len() ==> #[trigger] all[i] is Leaf {
                assert(all[0] is Leaf);
                assert(all[1] is Leaf);
                assert(all[0].spec_depth() == 0);
                assert(all[1].spec_depth() == 0);
                assert(res.spec_depth() == 1);
            }
        }
        return res;
    }
    let s = leaves.as_slice();
    let parts = split(s);
    let ghost ghost_parts = parts;
    let (left, right) = parts;
    let left = build_from_leaves(left, split, join);
    let right = build_from_leaves(right, split, join);
    let bounding = join(left.key(), right.key());
    let res = left.concat(right, bounding);
    assert(split.ensures((s,), ghost_parts));
    proof {
        let p0 = ghost_parts.0@;
        let p1 = ghost_parts.1@;
        if split_partitions(*split) {
            broadcast use vstd::multiset::group_multiset_axioms;
            broadcast use vstd::seq_lib::group_to_multiset_ensures;

            assert((p0 + p1).to_multiset() =~= all.to_multiset());
            lemma_all_leaves_perm(p0 + p1, all);
            lemma_all_leaves_concat(p0, p1);
            vstd::seq_lib::lemma_multiset_commutative(all_leaves(p0), all_leaves(p1));
            vstd::seq_lib::lemma_multiset_commutative(
                res->Branch_1.spec_leaves(),
                res->Branch_2.spec_leaves(),
            );
            if forall|i: int| 0 <= i < all.len() ==> #[trigger] all[i] is Leaf {
                vstd::seq_lib::lemma_multiset_commutative(p0, p1);
                assert forall|i: int| 0 <= i < p0.len() implies #[trigger] p0[i] is Leaf by {
                    assert((p0 + p1)[i] == p0[i]);
                    assert((p0 + p1).to_multiset().count(p0[i]) > 0);
                    assert(all.contains(p0[i]));
                }
                assert forall|i: int| 0 <= i < p1.len() implies #[trigger] p1[i] is Leaf by {
                    assert((p0 + p1)[p0.len() + i] == p1[i]);
                    assert((p0 + p1).to_multiset().count(p1[i]) > 0);
                    assert(all.contains(p1[i]));
                }
                lemma_ceil_log2_mono(p1.len(), p0.len());
            }
        }
    }
    res
}

/// The leaves of a list of leaf trees are their values, in order.
proof fn lemma_all_leaves_of_leaves<K, V>(trees: Seq<RecursiveTree<K, V>>)
    requires
        forall|i: int| 0 <= i < trees.len() ==> #[trigger] trees[i] is Leaf,
    ensures
        all_leaves(trees) =~= trees.map_values(|t: RecursiveTree<K, V>| t->Leaf_1),
    decreases trees.len(),
{
    if trees.len() > 0 {
        lemma_all_leaves_of_leaves(trees.drop_last());
        assert(trees.last() is Leaf);
    }
}

/// Builds a hierarchy over non-empty `values`: a leaf for each value, keyed by `bound` of
/// it, assembled by [build_from_leaves].
pub fn build_recursive<K, V: Clone, FB, FS, FJ>(values: &[V], bound: &FB, split: &FS, join: &FJ) -> (res:
    RecursiveTree<K, V>) where
    FB: Fn(&V) -> K,
    FS: Fn(&[RecursiveTree<K, V>]) -> (Vec<RecursiveTree<K, V>>, Vec<RecursiveTree<K, V>>),
    FJ: Fn(&K, &K) -> K,

    requires
        values@.len() >= 1,
        forall|v: &V| #[trigger] bound.requires((v,)),
        forall|s: &[RecursiveTree<K, V>]| #[trigger] split.requires((s,)),
        forall|s: &[RecursiveTree<K, V>], r: (Vec<RecursiveTree<K, V>>, Vec<RecursiveTree<K, V>>)|
            #[trigger] split.ensures((s,), r) ==> r.0@.len() == (s@.len() + 1) / 2 && r.1@.len()
                == s@.len() - (s@.len() + 1) / 2,
        forall|a: &K, b: &K| #[trigger] join.requires((a, b)),
    ensures
        exists|leaves: Seq<RecursiveTree<K, V>>|
            {
                &&& leaves.len() == values@.len()
                &&& forall|i: int|
                    0 <= i < values@.len() ==> (#[trigger] leaves[i]) is Leaf && bound.ensures(
                        (&values@[i],),
                        leaves[i]->Leaf_0,
                    ) && cloned(values@[i], leaves[i]->Leaf_1)
                &&& built_from(res, leaves, *split, *join)
            },
        split_partitions(*split) ==> res.spec_depth() == ceil_log2(values@.len()),
        split_partitions(*split) && clone_is_exact::<V>() ==> res.spec_leaves().to_multiset()
            =~= values@.to_multiset(),
{
    let leaves = into_leaves(values, bound);
    let ghost ls = leaves@;
    let res = build_from_leaves(leaves, split, join);
    proof {
        if split_partitions(*split) && clone_is_exact::<V>() {
            lemma_all_leaves_of_leaves(ls);
            assert(ls.map_values(|t: RecursiveTree<K, V>| t->Leaf_1) =~= values@) by {
                assert forall|i: int| 0 <= i < values@.len() implies ls[i]->Leaf_1 == values@[i] by {
                    assert(cloned(values@[i], ls[i]->Leaf_1));
                }
            }
        }
        assert(ls.len() == values@.len());
    }
    res
}

} // verus!
