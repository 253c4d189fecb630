//! Collision queries over bounding-volume hierarchies, generic in the bounding
//! volumes (the keys of the tree) and the primitives (the values at its leaves).
//!
//! A query descends both hierarchies together and prunes every pair of nodes
//! whose bounding volumes do not collide.
use crate::common::{answers, Collides};
use crate::tree::{LinearNode, LinearTree, LinearTreeNode, LinearTreePtr, RecursiveTree, node_tree};
use vstd::prelude::*;

verus! {

impl<K, V> RecursiveTree<K, V> {
    /// Number of nodes.
    pub open spec fn spec_size(self) -> nat
        decreases self,
    {
        match self {
            RecursiveTree::Leaf(_, _) => 1,
            RecursiveTree::Branch(_, l, r) => 1 + l.spec_size() + r.spec_size(),
        }
    }

    /// The values at the leaves, from left to right.
    pub open spec fn spec_leaves(self) -> Seq<V>
        decreases self,
    {
        match self {
            RecursiveTree::Leaf(_, v) => seq![v],
            RecursiveTree::Branch(_, l, r) => l.spec_leaves() + r.spec_leaves(),
        }
    }
}

/// The query over `a` and `b` can answer that they collide: it reaches a pair of leaves
/// whose values were found to collide, through pairs of nodes whose keys were found to collide.
pub open spec fn pruned_hit<K: Collides<K>, V: Collides<V>>(
    a: RecursiveTree<K, V>,
    b: RecursiveTree<K, V>,
) -> bool
    decreases a.spec_size() + b.spec_size(),
{
    match (a, b) {
        (RecursiveTree::Leaf(_, v1), RecursiveTree::Leaf(_, v2)) => answers(&v1, &v2, true),
        (RecursiveTree::Leaf(s1, _), RecursiveTree::Branch(s2, l, r)) => {
            answers(&s1, &s2, true) && (pruned_hit(*l, a) || pruned_hit(*r, a))
        },
        (RecursiveTree::Branch(s1, l, r), RecursiveTree::Leaf(s2, _)) => {
            answers(&s1, &s2, true) && (pruned_hit(*l, b) || pruned_hit(*r, b))
        },
        (RecursiveTree::Branch(s1, l1, r1), RecursiveTree::Branch(s2, l2, r2)) => {
            answers(&s1, &s2, true) && (pruned_hit(*l1, *l2) || pruned_hit(*l1, *r2) || pruned_hit(
                *r1,
                *l2,
            ) || pruned_hit(*r1, *r2))
        },
    }
}

/// The query over `a` and `b` can answer that they do not collide: every pair of nodes
/// it reaches is pruned by its keys, or is a pair of leaves whose values do not collide.
pub open spec fn pruned_miss<K: Collides<K>, V: Collides<V>>(
    a: RecursiveTree<K, V>,
    b: RecursiveTree<K, V>,
) -> bool
    decreases a.spec_size() + b.spec_size(),
{
    match (a, b) {
        (RecursiveTree::Leaf(_, v1), RecursiveTree::Leaf(_, v2)) => answers(&v1, &v2, false),
        (RecursiveTree::Leaf(s1, _), RecursiveTree::Branch(s2, l, r)) => {
            answers(&s1, &s2, false) || (pruned_miss(*l, a) && pruned_miss(*r, a))
        },
        (RecursiveTree::Branch(s1, l, r), RecursiveTree::Leaf(s2, _)) => {
            answers(&s1, &s2, false) || (pruned_miss(*l, b) && pruned_miss(*r, b))
        },
        (RecursiveTree::Branch(s1, l1, r1), RecursiveTree::Branch(s2, l2, r2)) => {
            answers(&s1, &s2, false) || (pruned_miss(*l1, *l2) && pruned_miss(*l1, *r2)
                && pruned_miss(*r1, *l2) && pruned_miss(*r1, *r2))
        },
    }
}

/// The query over `a` and `b` that tests the keys of every pair of nodes that is not a pair
/// of leaves, and descends the branch of the pair (or both branches), can answer that they collide.
pub open spec fn checked_hit<K: Collides<K>, V: Collides<V>>(
    a: RecursiveTree<K, V>,
    b: RecursiveTree<K, V>,
) -> bool
    decreases a.spec_size() + b.spec_size(),
{
    match (a, b) {
        (RecursiveTree::Leaf(_, v1), RecursiveTree::Leaf(_, v2)) => answers(&v1, &v2, true),
        (RecursiveTree::Leaf(s1, _), RecursiveTree::Branch(s2, l, r)) => {
            answers(&s1, &s2, true) && (checked_hit(a, *l) || checked_hit(a, *r))
        },
        (RecursiveTree::Branch(s1, l, r), RecursiveTree::Leaf(s2, _)) => {
            answers(&s1, &s2, true) && (checked_hit(*l, b) || checked_hit(*r, b))
        },
        (RecursiveTree::Branch(s1, l1, r1), RecursiveTree::Branch(s2, l2, r2)) => {
            answers(&s1, &s2, true) && (checked_hit(*l1, *l2) || checked_hit(*l1, *r2)
                || checked_hit(*r1, *l2) || checked_hit(*r1, *r2))
        },
    }
}

/// The query of [checked_hit] can answer that `a` and `b` do not collide.
pub open spec fn checked_miss<K: Collides<K>, V: Collides<V>>(
    a: RecursiveTree<K, V>,
    b: RecursiveTree<K, V>,
) -> bool
    decreases a.spec_size() + b.spec_size(),
{
    match (a, b) {
        (RecursiveTree::Leaf(_, v1), RecursiveTree::Leaf(_, v2)) => answers(&v1, &v2, false),
        (RecursiveTree::Leaf(s1, _), RecursiveTree::Branch(s2, l, r)) => {
            answers(&s1, &s2, false) || (checked_miss(a, *l) && checked_miss(a, *r))
        },
        (RecursiveTree::Branch(s1, l, r), RecursiveTree::Leaf(s2, _)) => {
            answers(&s1, &s2, false) || (checked_miss(*l, b) && checked_miss(*r, b))
        },
        (RecursiveTree::Branch(s1, l1, r1), RecursiveTree::Branch(s2, l2, r2)) => {
            answers(&s1, &s2, false) || (checked_miss(*l1, *l2) && checked_miss(*l1, *r2)
                && checked_miss(*r1, *l2) && checked_miss(*r1, *r2))
        },
    }
}

/// Whether two hierarchies collide: pairs of nodes are pruned when their keys do not
/// collide, and pairs of leaves collide when their values do.
pub fn collides_with_node<K: Collides<K>, V: Collides<V>>(
    left: &RecursiveTree<K, V>,
    right: &RecursiveTree<K, V>,
) -> (res: bool)
    ensures
        res ==> pruned_hit(*left, *right),
        !res ==> pruned_miss(*left, *right),
        res ==> leaf_pair_hit(*left, *right),
        values_agree(*left, *right) && keys_bound(*left, *right) ==> res == leaf_pair_hit(
            *left,
            *right,
        ),
    decreases left.spec_size() + right.spec_size(),
{
    let res = match (left, right) {
        (RecursiveTree::Leaf(_, t1), RecursiveTree::Leaf(_, t2)) => t1.collides_with(t2),
        (RecursiveTree::Leaf(s1, _), RecursiveTree::Branch(s2, l, r)) => {
            s1.collides_with(s2) && (collides_with_node(l, left) || collides_with_node(r, left))
        },
        (RecursiveTree::Branch(s1, l, r), RecursiveTree::Leaf(s2, _)) => {
            s1.collides_with(s2) && (collides_with_node(l, right) || collides_with_node(r, right))
        },
        (RecursiveTree::Branch(s1, l1, r1), RecursiveTree::Branch(s2, l2, r2)) => {
            s1.collides_with(s2) && (collides_with_node(l1, l2) || collides_with_node(l1, r2)
                || collides_with_node(r1, l2) || collides_with_node(r1, r2))
        },
    };
    proof {
        if res {
            lemma_pruned_hit_sound(*left, *right);
        } else if values_agree(*left, *right) && keys_bound(*left, *right) {
            lemma_pruned_miss_complete(*left, *right);
        }
    }
    res
}

/// `v` is the value at one of the leaves of `t`.
pub open spec fn has_leaf<K, V>(t: RecursiveTree<K, V>, v: V) -> bool
    decreases t,
{
    match t {
        RecursiveTree::Leaf(_, w) => w == v,
        RecursiveTree::Branch(_, l, r) => has_leaf(*l, v) || has_leaf(*r, v),
    }
}

/// `x` is a node of `t` (`t` itself included).
pub open spec fn is_subtree<K, V>(x: RecursiveTree<K, V>, t: RecursiveTree<K, V>) -> bool
    decreases t,
{
    x == t || match t {
        RecursiveTree::Leaf(_, _) => false,
        RecursiveTree::Branch(_, l, r) => is_subtree(x, *l) || is_subtree(x, *r),
    }
}

/// Some value at a leaf of `a` was found to collide with some value at a leaf of `b`
/// (tested in either order).
pub open spec fn leaf_pair_hit<K, V: Collides<V>>(a: RecursiveTree<K, V>, b: RecursiveTree<K, V>) -> bool {
    exists|v1: V, v2: V|
        #![trigger has_leaf(a, v1), has_leaf(b, v2)]
        has_leaf(a, v1) && has_leaf(b, v2) && (answers(&v1, &v2, true) || answers(&v2, &v1, true))
}

/// For the values at the leaves of `a` and `b`, an answer that two do not collide (in either
/// order) excludes an answer that they do (in either order).
pub open spec fn values_agree<K, V: Collides<V>>(a: RecursiveTree<K, V>, b: RecursiveTree<K, V>) -> bool {
    forall|v1: V, v2: V|
        #![trigger has_leaf(a, v1), has_leaf(b, v2)]
        has_leaf(a, v1) && has_leaf(b, v2) && (answers(&v1, &v2, false) || answers(&v2, &v1, false))
            ==> !answers(&v1, &v2, true) && !answers(&v2, &v1, true)
}

/// The keys bound the leaves: for nodes `x` of `a` and `y` of `b` with colliding leaf values,
/// the keys of `x` and `y` are never found not to collide (in either order).
pub open spec fn keys_bound<K: Collides<K>, V: Collides<V>>(
    a: RecursiveTree<K, V>,
    b: RecursiveTree<K, V>,
) -> bool {
    forall|x: RecursiveTree<K, V>, y: RecursiveTree<K, V>|
        #![trigger is_subtree(x, a), is_subtree(y, b)]
        is_subtree(x, a) && is_subtree(y, b) && leaf_pair_hit(x, y) ==> !answers(
            &x.spec_key(),
            &y.spec_key(),
            false,
        ) && !answers(&y.spec_key(), &x.spec_key(), false)
}

proof fn lemma_subtree_refl<K, V>(t: RecursiveTree<K, V>)
    ensures
        is_subtree(t, t),
{
}

proof fn lemma_pair_hit_sym<K, V: Collides<V>>(a: RecursiveTree<K, V>, b: RecursiveTree<K, V>)
    ensures
        leaf_pair_hit(a, b) == leaf_pair_hit(b, a),
{
    if leaf_pair_hit(a, b) {
        let (v1, v2) = choose|v1: V, v2: V|
            #![trigger has_leaf(a, v1), has_leaf(b, v2)]
            has_leaf(a, v1) && has_leaf(b, v2) && (answers(&v1, &v2, true) || answers(&v2, &v1, true));
        assert(has_leaf(b, v2) && has_leaf(a, v1));
    }
    if leaf_pair_hit(b, a) {
        let (v1, v2) = choose|v1: V, v2: V|
            #![trigger has_leaf(b, v1), has_leaf(a, v2)]
            has_leaf(b, v1) && has_leaf(a, v2) && (answers(&v1, &v2, true) || answers(&v2, &v1, true));
        assert(has_leaf(a, v2) && has_leaf(b, v1));
    }
}

/// A pair of colliding leaves of a branch and `x` comes from one of the branch's children.
proof fn lemma_pair_hit_branch<K, V: Collides<V>>(t: RecursiveTree<K, V>, x: RecursiveTree<K, V>)
    requires
        t is Branch,
    ensures
        leaf_pair_hit(t, x) == (leaf_pair_hit(*t->Branch_1, x) || leaf_pair_hit(*t->Branch_2, x)),
{
    let l = *t->Branch_1;
    let r = *t->Branch_2;
    if leaf_pair_hit(t, x) {
        let (v1, v2) = choose|v1: V, v2: V|
            #![trigger has_leaf(t, v1), has_leaf(x, v2)]
            has_leaf(t, v1) && has_leaf(x, v2) && (answers(&v1, &v2, true) || answers(&v2, &v1, true));
        if has_leaf(l, v1) {
            assert(has_leaf(l, v1) && has_leaf(x, v2));
        } else {
            assert(has_leaf(r, v1) && has_leaf(x, v2));
        }
    }
    if leaf_pair_hit(l, x) {
        let (v1, v2) = choose|v1: V, v2: V|
            #![trigger has_leaf(l, v1), has_leaf(x, v2)]
            has_leaf(l, v1) && has_leaf(x, v2) && (answers(&v1, &v2, true) || answers(&v2, &v1, true));
        assert(has_leaf(t, v1) && has_leaf(x, v2));
    }
    if leaf_pair_hit(r, x) {
        let (v1, v2) = choose|v1: V, v2: V|
            #![trigger has_leaf(r, v1), has_leaf(x, v2)]
            has_leaf(r, v1) && has_leaf(x, v2) && (answers(&v1, &v2, true) || answers(&v2, &v1, true));
        assert(has_leaf(t, v1) && has_leaf(x, v2));
    }
}

/// The agreement hypotheses hold for any pair of nodes of the two trees, in either order.
proof fn lemma_agree_sub<K: Collides<K>, V: Collides<V>>(
    a: RecursiveTree<K, V>,
    b: RecursiveTree<K, V>,
    x: RecursiveTree<K, V>,
    y: RecursiveTree<K, V>,
)
    requires
        values_agree(a, b),
        keys_bound(a, b),
        (is_subtree(x, a) && is_subtree(y, b)) || (is_subtree(x, b) && is_subtree(y, a)),
    ensures
        values_agree(x, y),
        keys_bound(x, y),
{
    assert forall|v1: V, v2: V|
        #![trigger has_leaf(x, v1), has_leaf(y, v2)]
        has_leaf(x, v1) && has_leaf(y, v2) && (answers(&v1, &v2, false) || answers(&v2, &v1, false))
            implies !answers(&v1, &v2, true) && !answers(&v2, &v1, true) by {
        if is_subtree(x, a) && is_subtree(y, b) {
            lemma_subtree_leaf(x, a, v1);
            lemma_subtree_leaf(y, b, v2);
            assert(has_leaf(a, v1) && has_leaf(b, v2));
        } else {
            lemma_subtree_leaf(x, b, v1);
            lemma_subtree_leaf(y, a, v2);
            assert(has_leaf(a, v2) && has_leaf(b, v1));
        }
    }
    assert forall|x1: RecursiveTree<K, V>, y1: RecursiveTree<K, V>|
        #![trigger is_subtree(x1, x), is_subtree(y1, y)]
        is_subtree(x1, x) && is_subtree(y1, y) && leaf_pair_hit(x1, y1) implies !answers(
            &x1.spec_key(),
            &y1.spec_key(),
            false,
        ) && !answers(&y1.spec_key(), &x1.spec_key(), false) by {
        if is_subtree(x, a) && is_subtree(y, b) {
            lemma_subtree_trans(x1, x, a);
            lemma_subtree_trans(y1, y, b);
            assert(is_subtree(x1, a) && is_subtree(y1, b));
        } else {
            lemma_subtree_trans(x1, x, b);
            lemma_subtree_trans(y1, y, a);
            lemma_pair_hit_sym(x1, y1);
            assert(is_subtree(y1, a) && is_subtree(x1, b));
        }
    }
}

proof fn lemma_subtree_trans<K, V>(x: RecursiveTree<K, V>, y: RecursiveTree<K, V>, t: RecursiveTree<K, V>)
    requires
        is_subtree(x, y),
        is_subtree(y, t),
    ensures
        is_subtree(x, t),
    decreases t,
{
    if y != t {
        if let RecursiveTree::Branch(_, l, r) = t {
            if is_subtree(y, *l) {
                lemma_subtree_trans(x, y, *l);
            } else {
                lemma_subtree_trans(x, y, *r);
            }
        }
    }
}

proof fn lemma_subtree_leaf<K, V>(x: RecursiveTree<K, V>, t: RecursiveTree<K, V>, v: V)
    requires
        is_subtree(x, t),
        has_leaf(x, v),
    ensures
        has_leaf(t, v),
    decreases t,
{
    if x != t {
        if let RecursiveTree::Branch(_, l, r) = t {
            if is_subtree(x, *l) {
                lemma_subtree_leaf(x, *l, v);
            } else {
                lemma_subtree_leaf(x, *r, v);
            }
        }
    }
}

/// A query over two hierarchies answers that they collide only when some pair of their
/// leaves was found to collide.
pub proof fn lemma_pruned_hit_sound<K: Collides<K>, V: Collides<V>>(
    a: RecursiveTree<K, V>,
    b: RecursiveTree<K, V>,
)
    requires
        pruned_hit(a, b),
    ensures
        leaf_pair_hit(a, b),
    decreases a.spec_size() + b.spec_size(),
{
    match (a, b) {
        (RecursiveTree::Leaf(_, v1), RecursiveTree::Leaf(_, v2)) => {
            assert(has_leaf(a, v1) && has_leaf(b, v2));
        },
        (RecursiveTree::Leaf(s1, _), RecursiveTree::Branch(s2, l, r)) => {
            if pruned_hit(*l, a) {
                lemma_pruned_hit_sound(*l, a);
            } else {
                lemma_pruned_hit_sound(*r, a);
            }
            lemma_pair_hit_branch(b, a);
            lemma_pair_hit_sym(a, b);
        },
        (RecursiveTree::Branch(s1, l, r), RecursiveTree::Leaf(s2, _)) => {
            if pruned_hit(*l, b) {
                lemma_pruned_hit_sound(*l, b);
            } else {
                lemma_pruned_hit_sound(*r, b);
            }
            lemma_pair_hit_branch(a, b);
        },
        (RecursiveTree::Branch(s1, l1, r1), RecursiveTree::Branch(s2, l2, r2)) => {
            if pruned_hit(*l1, *l2) {
                lemma_pruned_hit_sound(*l1, *l2);
            } else if pruned_hit(*l1, *r2) {
                lemma_pruned_hit_sound(*l1, *r2);
            } else if pruned_hit(*r1, *l2) {
                lemma_pruned_hit_sound(*r1, *l2);
            } else {
                lemma_pruned_hit_sound(*r1, *r2);
            }
            lemma_pair_hit_branch(b, *l1);
            lemma_pair_hit_branch(b, *r1);
            lemma_pair_hit_sym(b, *l1);
            lemma_pair_hit_sym(b, *r1);
            lemma_pair_hit_sym(*l1, *l2);
            lemma_pair_hit_sym(*l1, *r2);
            lemma_pair_hit_sym(*r1, *l2);
            lemma_pair_hit_sym(*r1, *r2);
            lemma_pair_hit_branch(a, b);
        },
    }
}

/// When the keys bound the leaves and the answers for leaf values agree, a query that
/// answers that two hierarchies do not collide misses no pair of colliding leaves.
pub proof fn lemma_pruned_miss_complete<K: Collides<K>, V: Collides<V>>(
    a: RecursiveTree<K, V>,
    b: RecursiveTree<K, V>,
)
    requires
        values_agree(a, b),
        keys_bound(a, b),
        pruned_miss(a, b),
    ensures
        !leaf_pair_hit(a, b),
    decreases a.spec_size() + b.spec_size(),
{
    lemma_subtree_refl(a);
    lemma_subtree_refl(b);
    match (a, b) {
        (RecursiveTree::Leaf(_, v1), RecursiveTree::Leaf(_, v2)) => {
            assert(has_leaf(a, v1) && has_leaf(b, v2));
        },
        (RecursiveTree::Leaf(s1, _), RecursiveTree::Branch(s2, l, r)) => {
            if !answers(&s1, &s2, false) {
                lemma_subtree_refl(*l);
                lemma_subtree_refl(*r);
                lemma_agree_sub(a, b, *l, a);
                lemma_agree_sub(a, b, *r, a);
                lemma_pruned_miss_complete(*l, a);
                lemma_pruned_miss_complete(*r, a);
            }
            lemma_pair_hit_branch(b, a);
            lemma_pair_hit_sym(a, b);
        },
        (RecursiveTree::Branch(s1, l, r), RecursiveTree::Leaf(s2, _)) => {
            if !answers(&s1, &s2, false) {
                lemma_subtree_refl(*l);
                lemma_subtree_refl(*r);
                lemma_agree_sub(a, b, *l, b);
                lemma_agree_sub(a, b, *r, b);
                lemma_pruned_miss_complete(*l, b);
                lemma_pruned_miss_complete(*r, b);
            }
            lemma_pair_hit_branch(a, b);
        },
        (RecursiveTree::Branch(s1, l1, r1), RecursiveTree::Branch(s2, l2, r2)) => {
            if !answers(&s1, &s2, false) {
                lemma_subtree_refl(*l1);
                lemma_subtree_refl(*r1);
                lemma_subtree_refl(*l2);
                lemma_subtree_refl(*r2);
                lemma_agree_sub(a, b, *l1, *l2);
                lemma_agree_sub(a, b, *l1, *r2);
                lemma_agree_sub(a, b, *r1, *l2);
                lemma_agree_sub(a, b, *r1, *r2);
                lemma_pruned_miss_complete(*l1, *l2);
                lemma_pruned_miss_complete(*l1, *r2);
                lemma_pruned_miss_complete(*r1, *l2);
                lemma_pruned_miss_complete(*r1, *r2);
            }
            lemma_pair_hit_branch(b, *l1);
            lemma_pair_hit_branch(b, *r1);
            lemma_pair_hit_sym(b, *l1);
            lemma_pair_hit_sym(b, *r1);
            lemma_pair_hit_sym(*l1, *l2);
            lemma_pair_hit_sym(*l1, *r2);
            lemma_pair_hit_sym(*r1, *l2);
            lemma_pair_hit_sym(*r1, *r2);
            lemma_pair_hit_branch(a, b);
        },
    }
}

/// A query over two linear hierarchies answers that they collide only when some pair of
/// their leaves was found to collide.
pub proof fn lemma_linear_hit_sound<K: Collides<K>, V: Collides<V>>(
    a: RecursiveTree<K, V>,
    b: RecursiveTree<K, V>,
)
    requires
        linear_hit(a, b),
    ensures
        leaf_pair_hit(a, b),
    decreases a.spec_size() + b.spec_size(),
{
    match (a, b) {
        (RecursiveTree::Leaf(_, v1), RecursiveTree::Leaf(_, v2)) => {
            assert(has_leaf(a, v1) && has_leaf(b, v2));
        },
        (RecursiveTree::Leaf(s1, _), RecursiveTree::Branch(s2, l, r)) => {
            if linear_hit(a, *l) {
                lemma_linear_hit_sound(a, *l);
            } else {
                lemma_linear_hit_sound(a, *r);
            }
            lemma_pair_hit_sym(a, *l);
            lemma_pair_hit_sym(a, *r);
            lemma_pair_hit_branch(b, a);
            lemma_pair_hit_sym(a, b);
        },
        (RecursiveTree::Branch(s1, l, r), RecursiveTree::Leaf(s2, _)) => {
            if linear_hit(*l, b) {
                lemma_linear_hit_sound(*l, b);
            } else {
                lemma_linear_hit_sound(*r, b);
            }
            lemma_pair_hit_branch(a, b);
        },
        (RecursiveTree::Branch(s1, l1, r1), RecursiveTree::Branch(s2, l2, r2)) => {
            if linear_hit(*l1, *l2) {
                lemma_linear_hit_sound(*l1, *l2);
            } else if linear_hit(*l1, *r2) {
                lemma_linear_hit_sound(*l1, *r2);
            } else if linear_hit(*r1, *l2) {
                lemma_linear_hit_sound(*r1, *l2);
            } else {
                lemma_linear_hit_sound(*r1, *r2);
            }
            lemma_pair_hit_branch(b, *l1);
            lemma_pair_hit_branch(b, *r1);
            lemma_pair_hit_sym(b, *l1);
            lemma_pair_hit_sym(b, *r1);
            lemma_pair_hit_sym(*l1, *l2);
            lemma_pair_hit_sym(*l1, *r2);
            lemma_pair_hit_sym(*r1, *l2);
            lemma_pair_hit_sym(*r1, *r2);
            lemma_pair_hit_branch(a, b);
        },
    }
}

/// When the keys bound the leaves and the answers for leaf values agree, a query over two
/// linear hierarchies that answers that they do not collide misses no pair of colliding leaves.
pub proof fn lemma_linear_miss_complete<K: Collides<K>, V: Collides<V>>(
    a: RecursiveTree<K, V>,
    b: RecursiveTree<K, V>,
)
    requires
        values_agree(a, b),
        keys_bound(a, b),
        linear_miss(a, b),
    ensures
        !leaf_pair_hit(a, b),
    decreases a.spec_size() + b.spec_size(),
{
    lemma_subtree_refl(a);
    lemma_subtree_refl(b);
    match (a, b) {
        (RecursiveTree::Leaf(_, v1), RecursiveTree::Leaf(_, v2)) => {
            assert(has_leaf(a, v1) && has_leaf(b, v2));
        },
        (RecursiveTree::Leaf(s1, _), RecursiveTree::Branch(s2, l, r)) => {
            if !answers(&s1, &s2, false) {
                lemma_subtree_refl(*l);
                lemma_subtree_refl(*r);
                lemma_agree_sub(a, b, a, *l);
                lemma_agree_sub(a, b, a, *r);
                lemma_linear_miss_complete(a, *l);
                lemma_linear_miss_complete(a, *r);
            }
            lemma_pair_hit_sym(a, *l);
            lemma_pair_hit_sym(a, *r);
            lemma_pair_hit_branch(b, a);
            lemma_pair_hit_sym(a, b);
        },
        (RecursiveTree::Branch(s1, l, r), RecursiveTree::Leaf(s2, _)) => {
            if !answers(&s1, &s2, false) {
                lemma_subtree_refl(*l);
                lemma_subtree_refl(*r);
                lemma_agree_sub(a, b, *l, b);
                lemma_agree_sub(a, b, *r, b);
                lemma_linear_miss_complete(*l, b);
                lemma_linear_miss_complete(*r, b);
            }
            lemma_pair_hit_branch(a, b);
        },
        (RecursiveTree::Branch(s1, l1, r1), RecursiveTree::Branch(s2, l2, r2)) => {
            lemma_subtree_refl(*l1);
            lemma_subtree_refl(*r1);
            lemma_subtree_refl(*l2);
            lemma_subtree_refl(*r2);
            lemma_agree_sub(a, b, *l1, *l2);
            lemma_agree_sub(a, b, *l1, *r2);
            lemma_agree_sub(a, b, *r1, *l2);
            lemma_agree_sub(a, b, *r1, *r2);
            lemma_linear_miss_complete(*l1, *l2);
            lemma_linear_miss_complete(*l1, *r2);
            lemma_linear_miss_complete(*r1, *l2);
            lemma_linear_miss_complete(*r1, *r2);
            lemma_pair_hit_branch(b, *l1);
            lemma_pair_hit_branch(b, *r1);
            lemma_pair_hit_sym(b, *l1);
            lemma_pair_hit_sym(b, *r1);
            lemma_pair_hit_sym(*l1, *l2);
            lemma_pair_hit_sym(*l1, *r2);
            lemma_pair_hit_sym(*r1, *l2);
            lemma_pair_hit_sym(*r1, *r2);
            lemma_pair_hit_branch(a, b);
        },
    }
}

/// A query of [checked_hit] answers that two hierarchies collide only when some pair of
/// their leaves was found to collide.
pub proof fn lemma_checked_hit_sound<K: Collides<K>, V: Collides<V>>(
    a: RecursiveTree<K, V>,
    b: RecursiveTree<K, V>,
)
    requires
        checked_hit(a, b),
    ensures
        leaf_pair_hit(a, b),
    decreases a.spec_size() + b.spec_size(),
{
    match (a, b) {
        (RecursiveTree::Leaf(_, v1), RecursiveTree::Leaf(_, v2)) => {
            assert(has_leaf(a, v1) && has_leaf(b, v2));
        },
        (RecursiveTree::Leaf(s1, _), RecursiveTree::Branch(s2, l, r)) => {
            if checked_hit(a, *l) {
                lemma_checked_hit_sound(a, *l);
            } else {
                lemma_checked_hit_sound(a, *r);
            }
            lemma_pair_hit_sym(a, *l);
            lemma_pair_hit_sym(a, *r);
            lemma_pair_hit_branch(b, a);
            lemma_pair_hit_sym(a, b);
        },
        (RecursiveTree::Branch(s1, l, r), RecursiveTree::Leaf(s2, _)) => {
            if checked_hit(*l, b) {
                lemma_checked_hit_sound(*l, b);
            } else {
                lemma_checked_hit_sound(*r, b);
            }
            lemma_pair_hit_branch(a, b);
        },
        (RecursiveTree::Branch(s1, l1, r1), RecursiveTree::Branch(s2, l2, r2)) => {
            if checked_hit(*l1, *l2) {
                lemma_checked_hit_sound(*l1, *l2);
            } else if checked_hit(*l1, *r2) {
                lemma_checked_hit_sound(*l1, *r2);
            } else if checked_hit(*r1, *l2) {
                lemma_checked_hit_sound(*r1, *l2);
            } else {
                lemma_checked_hit_sound(*r1, *r2);
            }
            lemma_pair_hit_branch(b, *l1);
            lemma_pair_hit_branch(b, *r1);
            lemma_pair_hit_sym(b, *l1);
            lemma_pair_hit_sym(b, *r1);
            lemma_pair_hit_sym(*l1, *l2);
            lemma_pair_hit_sym(*l1, *r2);
            lemma_pair_hit_sym(*r1, *l2);
            lemma_pair_hit_sym(*r1, *r2);
            lemma_pair_hit_branch(a, b);
        },
    }
}

/// When the keys bound the leaves and the answers for leaf values agree, a query of
/// [checked_hit] that answers that two hierarchies do not collide misses no pair of colliding leaves.
pub proof fn lemma_checked_miss_complete<K: Collides<K>, V: Collides<V>>(
    a: RecursiveTree<K, V>,
    b: RecursiveTree<K, V>,
)
    requires
        values_agree(a, b),
        keys_bound(a, b),
        checked_miss(a, b),
    ensures
        !leaf_pair_hit(a, b),
    decreases a.spec_size() + b.spec_size(),
{
    lemma_subtree_refl(a);
    lemma_subtree_refl(b);
    match (a, b) {
        (RecursiveTree::Leaf(_, v1), RecursiveTree::Leaf(_, v2)) => {
            assert(has_leaf(a, v1) && has_leaf(b, v2));
        },
        (RecursiveTree::Leaf(s1, _), RecursiveTree::Branch(s2, l, r)) => {
            if !answers(&s1, &s2, false) {
                lemma_subtree_refl(*l);
                lemma_subtree_refl(*r);
                lemma_agree_sub(a, b, a, *l);
                lemma_agree_sub(a, b, a, *r);
                lemma_checked_miss_complete(a, *l);
                lemma_checked_miss_complete(a, *r);
            }
            lemma_pair_hit_sym(a, *l);
            lemma_pair_hit_sym(a, *r);
            lemma_pair_hit_branch(b, a);
            lemma_pair_hit_sym(a, b);
        },
        (RecursiveTree::Branch(s1, l, r), RecursiveTree::Leaf(s2, _)) => {
            if !answers(&s1, &s2, false) {
                lemma_subtree_refl(*l);
                lemma_subtree_refl(*r);
                lemma_agree_sub(a, b, *l, b);
                lemma_agree_sub(a, b, *r, b);
                lemma_checked_miss_complete(*l, b);
                lemma_checked_miss_complete(*r, b);
            }
            lemma_pair_hit_branch(a, b);
        },
        (RecursiveTree::Branch(s1, l1, r1), RecursiveTree::Branch(s2, l2, r2)) => {
            if !answers(&s1, &s2, false) {
                lemma_subtree_refl(*l1);
                lemma_subtree_refl(*r1);
                lemma_subtree_refl(*l2);
                lemma_subtree_refl(*r2);
                lemma_agree_sub(a, b, *l1, *l2);
                lemma_agree_sub(a, b, *l1, *r2);
                lemma_agree_sub(a, b, *r1, *l2);
                lemma_agree_sub(a, b, *r1, *r2);
                lemma_checked_miss_complete(*l1, *l2);
                lemma_checked_miss_complete(*l1, *r2);
                lemma_checked_miss_complete(*r1, *l2);
                lemma_checked_miss_complete(*r1, *r2);
            }
            lemma_pair_hit_branch(b, *l1);
            lemma_pair_hit_branch(b, *r1);
            lemma_pair_hit_sym(b, *l1);
            lemma_pair_hit_sym(b, *r1);
            lemma_pair_hit_sym(*l1, *l2);
            lemma_pair_hit_sym(*l1, *r2);
            lemma_pair_hit_sym(*r1, *l2);
            lemma_pair_hit_sym(*r1, *r2);
            lemma_pair_hit_branch(a, b);
        },
    }
}

/// Appends the values at the leaves of `node`, from left to right.
fn push_leaves<'a, K, V>(node: &'a RecursiveTree<K, V>, out: &mut Vec<&'a V>)
    ensures
        final(out)@.len() == old(out)@.len() + node.spec_leaves().len(),
        forall|i: int| 0 <= i < old(out)@.len() ==> final(out)@[i] == old(out)@[i],
        forall|i: int|
            0 <= i < node.spec_leaves().len() ==> *final(out)@[old(out)@.len() + i]
                == node.spec_leaves()[i],
    decreases node,
{
    match node {
        RecursiveTree::Leaf(_, v) => {
            out.push(v);
        },
        RecursiveTree::Branch(_, l, r) => {
            let ghost n0 = out@.len();
            push_leaves(l, out);
            let ghost n1 = out@.len();
            push_leaves(r, out);
            assert forall|i: int| 0 <= i < node.spec_leaves().len() implies *out@[n0 + i]
                == node.spec_leaves()[i] by {
                if i < l.spec_leaves().len() {
                } else {
                    assert(out@[n0 + i] == out@[n1 + (i - l.spec_leaves().len())]);
                }
            }
        },
    }
}

impl<K, V> RecursiveTree<K, V> {
    /// The values at the leaves, from left to right.
    pub fn leaves(&self) -> (res: Vec<&V>)
        ensures
            res@.len() == self.spec_leaves().len(),
            forall|i: int| 0 <= i < res@.len() ==> *res@[i] == self.spec_leaves()[i],
    {
        let mut out: Vec<&V> = Vec::new();
        push_leaves(self, &mut out);
        out
    }
}

/// The values held by the slots of a layout, in the order of the slots.
pub open spec fn slot_values<K, V>(raw: Seq<Option<LinearNode<K, V>>>) -> Seq<V>
    decreases raw.len(),
{
    if raw.len() == 0 {
        seq![]
    } else {
        let rest = slot_values(raw.drop_last());
        match raw.last() {
            Some(LinearNode(_, Some(v))) => rest.push(v),
            _ => rest,
        }
    }
}

impl<K, V> LinearTree<K, V> {
    /// The values at the leaves, in the order of their slots (breadth-first).
    pub fn values(&self) -> (res: Vec<&V>)
        ensures
            res@.len() == slot_values(self@).len(),
            forall|i: int| 0 <= i < res@.len() ==> *res@[i] == slot_values(self@)[i],
    {
        let raw = self.raw();
        let n = raw.len();
        let mut out: Vec<&V> = Vec::new();
        let mut i: usize = 0;
        while i < n
            invariant
                raw@ == self@,
                n == raw@.len(),
                i <= n,
                out@.len() == slot_values(raw@.take(i as int)).len(),
                forall|j: int|
                    0 <= j < out@.len() ==> *out@[j] == slot_values(raw@.take(i as int))[j],
            decreases n - i,
        {
            assert(raw@.take(i + 1).drop_last() == raw@.take(i as int));
            if let Some(node) = &raw[i] {
                if let Some(v) = &node.1 {
                    out.push(v);
                }
            }
            i = i + 1;
        }
        assert(raw@.take(n as int) == raw@);
        out
    }
}

/// The query over the linear hierarchies rooted at `a` and `b` can answer that they collide:
/// pairs of branches are descended without a test of their keys, a leaf and a branch are
/// pruned by their keys, and a pair of leaves collides when their values do.
pub open spec fn linear_hit<K: Collides<K>, V: Collides<V>>(
    a: RecursiveTree<K, V>,
    b: RecursiveTree<K, V>,
) -> bool
    decreases a.spec_size() + b.spec_size(),
{
    match (a, b) {
        (RecursiveTree::Leaf(_, v1), RecursiveTree::Leaf(_, v2)) => answers(&v1, &v2, true),
        (RecursiveTree::Branch(_, l1, r1), RecursiveTree::Branch(_, l2, r2)) => {
            linear_hit(*l1, *l2) || linear_hit(*l1, *r2) || linear_hit(*r1, *l2) || linear_hit(
                *r1,
                *r2,
            )
        },
        (RecursiveTree::Leaf(s1, _), RecursiveTree::Branch(s2, l, r)) => {
            answers(&s1, &s2, true) && (linear_hit(a, *l) || linear_hit(a, *r))
        },
        (RecursiveTree::Branch(s1, l, r), RecursiveTree::Leaf(s2, _)) => {
            answers(&s1, &s2, true) && (linear_hit(*l, b) || linear_hit(*r, b))
        },
    }
}

/// The query over the linear hierarchies rooted at `a` and `b` can answer that they do not
/// collide (see [linear_hit]).
pub open spec fn linear_miss<K: Collides<K>, V: Collides<V>>(
    a: RecursiveTree<K, V>,
    b: RecursiveTree<K, V>,
) -> bool
    decreases a.spec_size() + b.spec_size(),
{
    match (a, b) {
        (RecursiveTree::Leaf(_, v1), RecursiveTree::Leaf(_, v2)) => answers(&v1, &v2, false),
        (RecursiveTree::Branch(_, l1, r1), RecursiveTree::Branch(_, l2, r2)) => {
            linear_miss(*l1, *l2) && linear_miss(*l1, *r2) && linear_miss(*r1, *l2) && linear_miss(
                *r1,
                *r2,
            )
        },
        (RecursiveTree::Leaf(s1, _), RecursiveTree::Branch(s2, l, r)) => {
            answers(&s1, &s2, false) || (linear_miss(a, *l) && linear_miss(a, *r))
        },
        (RecursiveTree::Branch(s1, l, r), RecursiveTree::Leaf(s2, _)) => {
            answers(&s1, &s2, false) || (linear_miss(*l, b) && linear_miss(*r, b))
        },
    }
}

/// Whether the subtrees of two linear hierarchies at `left` and `right` collide.
pub fn collides_with_linear_node<K: Collides<K>, V: Collides<V>>(
    left_tree: &LinearTree<K, V>,
    left: LinearTreePtr,
    right_tree: &LinearTree<K, V>,
    right: LinearTreePtr,
) -> (res: bool)
    requires
        left_tree.valid_ptr(left),
        right_tree.valid_ptr(right),
    ensures
        res ==> linear_hit(
            node_tree(left_tree@, left.index() as int),
            node_tree(right_tree@, right.index() as int),
        ),
        !res ==> linear_miss(
            node_tree(left_tree@, left.index() as int),
            node_tree(right_tree@, right.index() as int),
        ),
        res ==> leaf_pair_hit(
            node_tree(left_tree@, left.index() as int),
            node_tree(right_tree@, right.index() as int),
        ),
        values_agree(
            node_tree(left_tree@, left.index() as int),
            node_tree(right_tree@, right.index() as int),
        ) && keys_bound(
            node_tree(left_tree@, left.index() as int),
            node_tree(right_tree@, right.index() as int),
        ) ==> res == leaf_pair_hit(
            node_tree(left_tree@, left.index() as int),
            node_tree(right_tree@, right.index() as int),
        ),
    decreases (left_tree@.len() - left.index()) + (right_tree@.len() - right.index()),
{
    let s1 = left_tree.key(&left);
    let s2 = right_tree.key(&right);
    let res = match (left_tree.value(&left), right_tree.value(&right)) {
        (LinearTreeNode::Value(t1), LinearTreeNode::Value(t2)) => t1.collides_with(t2),
        (LinearTreeNode::Branch(l1, r1), LinearTreeNode::Branch(l2, r2)) => {
            collides_with_linear_node(left_tree, l1, right_tree, l2) || collides_with_linear_node(
                left_tree,
                l1,
                right_tree,
                r2,
            ) || collides_with_linear_node(left_tree, r1, right_tree, l2)
                || collides_with_linear_node(left_tree, r1, right_tree, r2)
        },
        (LinearTreeNode::Value(_), LinearTreeNode::Branch(l, r)) => {
            s1.collides_with(s2) && (collides_with_linear_node(left_tree, left, right_tree, l)
                || collides_with_linear_node(left_tree, left, right_tree, r))
        },
        (LinearTreeNode::Branch(l, r), LinearTreeNode::Value(_)) => {
            s1.collides_with(s2) && (collides_with_linear_node(left_tree, l, right_tree, right)
                || collides_with_linear_node(left_tree, r, right_tree, right))
        },
    };
    proof {
        let a = node_tree(left_tree@, left.index() as int);
        let b = node_tree(right_tree@, right.index() as int);
        if res {
            lemma_linear_hit_sound(a, b);
        } else if values_agree(a, b) && keys_bound(a, b) {
            lemma_linear_miss_complete(a, b);
        }
    }
    res
}

} // verus!
