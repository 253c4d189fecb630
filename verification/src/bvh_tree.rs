//! A bounding volume hierarchy whose nodes are all colliders of one type: a branch holds
//! a collider that bounds its (optional) children, a leaf holds one of the colliders the
//! hierarchy was built from.
use crate::common::{answers, Collides};
use crate::tree::clone_is_exact;
use vstd::prelude::*;

verus! {

/// # Bounding Volume Hierarchy
/// A tree structure that allows for efficient collision detection.
#[derive(Debug, PartialEq)]
pub enum BvhTree<C> {
    Branch(C, Option<Box<BvhTree<C>>>, Option<Box<BvhTree<C>>>),
    Leaf(C),
}

impl<C> BvhTree<C> {
    /// Number of nodes.
    pub open spec fn spec_size(self) -> nat
        decreases self,
    {
        match self {
            BvhTree::Leaf(_) => 1,
            BvhTree::Branch(_, l, r) => 1 + (match l {
                Some(t) => t.spec_size(),
                None => 0,
            }) + (match r {
                Some(t) => t.spec_size(),
                None => 0,
            }),
        }
    }

    /// The collider held by the node itself.
    pub open spec fn spec_collider(self) -> C {
        match self {
            BvhTree::Leaf(c) => c,
            BvhTree::Branch(c, _, _) => c,
        }
    }

    /// Number of leaves.
    pub open spec fn leaf_count(self) -> nat
        decreases self,
    {
        match self {
            BvhTree::Leaf(_) => 1,
            BvhTree::Branch(_, l, r) => (match l {
                Some(t) => t.leaf_count(),
                None => 0,
            }) + (match r {
                Some(t) => t.leaf_count(),
                None => 0,
            }),
        }
    }
}

impl<C> BvhTree<C> {
    /// The colliders at the leaves, from left to right.
    pub open spec fn leaf_colliders(self) -> Seq<C>
        decreases self,
    {
        match self {
            BvhTree::Leaf(c) => seq![c],
            BvhTree::Branch(_, l, r) => (match l {
                Some(t) => t.leaf_colliders(),
                None => seq![],
            }) + (match r {
                Some(t) => t.leaf_colliders(),
                None => seq![],
            }),
        }
    }
}

/// `order` only rearranges the colliders it is given.
pub open spec fn order_permutes<C, FO: Fn(&[C]) -> Vec<C>>(order: FO) -> bool {
    forall|s: &[C], r: Vec<C>| #[trigger] order.ensures((s,), r) ==> r@.to_multiset() =~= s@.to_multiset()
}

/// The hierarchy built over `n` colliders: a leaf for one collider; for more, a branch
/// whose children are built over the first `n / 2` and over the other colliders.
pub open spec fn halved<C>(t: BvhTree<C>, n: nat) -> bool
    decreases n,
{
    if n <= 1 {
        t is Leaf
    } else {
        match t {
            BvhTree::Branch(_, Some(l), Some(r)) => halved(*l, n / 2) && halved(*r, (n - n / 2) as nat),
            _ => false,
        }
    }
}

/// A hierarchy built over `n` colliders has `n` leaves.
pub proof fn lemma_halved_leaves<C>(t: BvhTree<C>, n: nat)
    requires
        n >= 1,
        halved(t, n),
    ensures
        t.leaf_count() == n,
    decreases n,
{
    if n > 1 {
        if let BvhTree::Branch(_, Some(l), Some(r)) = t {
            lemma_halved_leaves(*l, n / 2);
            lemma_halved_leaves(*r, (n - n / 2) as nat);
        }
    }
}

/// `t` is a hierarchy built over `objects`: a leaf with a clone of the one object; for more,
/// a branch holding `bound` of the objects, over hierarchies built over the first half and
/// over the rest of what `order` made of the objects.
pub open spec fn built_over<C: Clone, FO: Fn(&[C]) -> Vec<C>, FB: Fn(&[C]) -> C>(
    t: BvhTree<C>,
    objects: Seq<C>,
    order: FO,
    bound: FB,
) -> bool
    decreases objects.len(),
{
    if objects.len() == 1 {
        t matches BvhTree::Leaf(c) && cloned(objects[0], c)
    } else if objects.len() > 1 {
        &&& t matches BvhTree::Branch(_, Some(_), Some(_))
        &&& exists|s: &[C], ordered: Vec<C>|
            #![trigger order.ensures((s,), ordered)]
            s@ == objects && bound.ensures((s,), t->Branch_0) && order.ensures((s,), ordered)
                && ordered@.len() == objects.len() && built_over(
                *t->Branch_1->Some_0,
                ordered@.subrange(0, (objects.len() / 2) as int),
                order,
                bound,
            ) && built_over(
                *t->Branch_2->Some_0,
                ordered@.subrange((objects.len() / 2) as int, objects.len() as int),
                order,
                bound,
            )
    } else {
        false
    }
}

impl<C: Clone> BvhTree<C> {
    /// Builds a hierarchy over `objects`: `None` for no object, a leaf for one; otherwise
    /// `order` arranges the objects, the first half and the rest are built into the two
    /// children, and the branch holds `bound` of all the objects.
    pub fn build<FO: Fn(&[C]) -> Vec<C>, FB: Fn(&[C]) -> C>(
        objects: &[C],
        order: &FO,
        bound: &FB,
    ) -> (res: Option<BvhTree<C>>)
        requires
            forall|s: &[C]| #[trigger] order.requires((s,)),
            forall|s: &[C], r: Vec<C>| #[trigger] order.ensures((s,), r) ==> r@.len() == s@.len(),
            forall|s: &[C]| #[trigger] bound.requires((s,)),
        ensures
            res is None <==> objects@.len() == 0,
            res matches Some(t) ==> halved(t, objects@.len()),
            res matches Some(t) ==> t.leaf_count() == objects@.len(),
            res matches Some(t) ==> built_over(t, objects@, *order, *bound),
            objects@.len() == 1 ==> (res matches Some(t) && t is Leaf && cloned(
                objects@[0],
                t->Leaf_0,
            )),
            objects@.len() > 1 ==> (res matches Some(t) && t is Branch && bound.ensures(
                (objects,),
                t->Branch_0,
            )),
            clone_is_exact::<C>() && order_permutes(*order) ==> (res matches Some(t)
                ==> t.leaf_colliders().to_multiset() =~= objects@.to_multiset()),
        decreases objects@.len(),
    {
        if objects.len() == 0 {
            return None;
        }
        if objects.len() == 1 {
            let res = BvhTree::Leaf(objects[0].clone());
            proof {
                lemma_halved_leaves(res, 1);
                assert(objects@ =~= seq![objects@[0]]);
            }
            return Some(res);
        }
        let ordered = order(objects);
        let half = ordered.len() / 2;
        let first = &ordered.as_slice()[0..half];
        let rest = &ordered.as_slice()[half..ordered.len()];
        let left = Self::build(first, order, bound);
        let right = Self::build(rest, order, bound);
        let bounding = bound(objects);
        let left = match left {
            Some(t) => Some(Box::new(t)),
            None => None,
        };
        let right = match right {
            Some(t) => Some(Box::new(t)),
            None => None,
        };
        let res = BvhTree::Branch(bounding, left, right);
        proof {
            lemma_halved_leaves(res, objects@.len());
            assert(first@ == ordered@.subrange(0, (objects@.len() / 2) as int));
            assert(rest@ == ordered@.subrange((objects@.len() / 2) as int, objects@.len() as int));
            assert(order.ensures((objects,), ordered));
            if clone_is_exact::<C>() && order_permutes(*order) {
                assert(ordered@ =~= first@ + rest@);
                vstd::seq_lib::lemma_multiset_commutative(first@, rest@);
                let lt = *res->Branch_1->Some_0;
                let rt = *res->Branch_2->Some_0;
                vstd::seq_lib::lemma_multiset_commutative(lt.leaf_colliders(), rt.leaf_colliders());
                assert(res.leaf_colliders() == lt.leaf_colliders() + rt.leaf_colliders());
            }
        }
        Some(res)
    }
}

/// The query over `a` and `b` can answer that they collide: it reaches a pair of leaves
/// whose colliders were found to collide, through pairs of nodes whose colliders were
/// found to collide.
pub open spec fn tree_hit<C: Collides<C>>(a: BvhTree<C>, b: BvhTree<C>) -> bool
    decreases a.spec_size() + b.spec_size(),
{
    match (a, b) {
        (BvhTree::Leaf(c1), BvhTree::Leaf(c2)) => answers(&c1, &c2, true),
        (BvhTree::Leaf(c1), BvhTree::Branch(c2, l, r)) => answers(&c1, &c2, true) && ((match l {
            Some(x) => tree_hit(*x, a),
            None => false,
        }) || (match r {
            Some(x) => tree_hit(*x, a),
            None => false,
        })),
        (BvhTree::Branch(c1, l, r), BvhTree::Leaf(c2)) => answers(&c1, &c2, true) && ((match l {
            Some(x) => tree_hit(*x, b),
            None => false,
        }) || (match r {
            Some(x) => tree_hit(*x, b),
            None => false,
        })),
        (BvhTree::Branch(c1, l1, r1), BvhTree::Branch(c2, l2, r2)) => answers(&c1, &c2, true) && (
        (match (l1, l2) {
            (Some(x), Some(y)) => tree_hit(*x, *y),
            _ => false,
        }) || (match (l1, r2) {
            (Some(x), Some(y)) => tree_hit(*x, *y),
            _ => false,
        }) || (match (r1, l2) {
            (Some(x), Some(y)) => tree_hit(*x, *y),
            _ => false,
        }) || (match (r1, r2) {
            (Some(x), Some(y)) => tree_hit(*x, *y),
            _ => false,
        })),
    }
}

/// The query over `a` and `b` can answer that they do not collide: every pair of nodes it
/// reaches is pruned by its colliders, or is a pair of leaves that do not collide.
pub open spec fn tree_miss<C: Collides<C>>(a: BvhTree<C>, b: BvhTree<C>) -> bool
    decreases a.spec_size() + b.spec_size(),
{
    match (a, b) {
        (BvhTree::Leaf(c1), BvhTree::Leaf(c2)) => answers(&c1, &c2, false),
        (BvhTree::Leaf(c1), BvhTree::Branch(c2, l, r)) => answers(&c1, &c2, false) || ((match l {
            Some(x) => tree_miss(*x, a),
            None => true,
        }) && (match r {
            Some(x) => tree_miss(*x, a),
            None => true,
        })),
        (BvhTree::Branch(c1, l, r), BvhTree::Leaf(c2)) => answers(&c1, &c2, false) || ((match l {
            Some(x) => tree_miss(*x, b),
            None => true,
        }) && (match r {
            Some(x) => tree_miss(*x, b),
            None => true,
        })),
        (BvhTree::Branch(c1, l1, r1), BvhTree::Branch(c2, l2, r2)) => answers(&c1, &c2, false) || (
        (match (l1, l2) {
            (Some(x), Some(y)) => tree_miss(*x, *y),
            _ => true,
        }) && (match (l1, r2) {
            (Some(x), Some(y)) => tree_miss(*x, *y),
            _ => true,
        }) && (match (r1, l2) {
            (Some(x), Some(y)) => tree_miss(*x, *y),
            _ => true,
        }) && (match (r1, r2) {
            (Some(x), Some(y)) => tree_miss(*x, *y),
            _ => true,
        })),
    }
}

/// Number of nodes of an optional child.
pub open spec fn opt_size<C>(t: Option<Box<BvhTree<C>>>) -> nat {
    match t {
        Some(x) => x.spec_size(),
        None => 0,
    }
}

/// Whether two optional children collide; a missing child collides with nothing.
pub fn nodes_collide<C: Collides<C>>(
    a: &Option<Box<BvhTree<C>>>,
    b: &Option<Box<BvhTree<C>>>,
) -> (res: bool)
    ensures
        res ==> (a matches Some(x) && b matches Some(y) && tree_hit(**x, **y)),
        !res ==> (a matches Some(x) ==> (b matches Some(y) ==> tree_miss(**x, **y))),
    decreases opt_size(*a) + opt_size(*b), 1nat,
{
    match (a, b) {
        (Some(a), Some(b)) => tree_collides(a, b),
        _ => false,
    }
}

/// Whether two hierarchies collide: pairs of nodes are pruned when their colliders do not
/// collide, and pairs of leaves collide when their colliders do.
pub fn tree_collides<C: Collides<C>>(a: &BvhTree<C>, b: &BvhTree<C>) -> (res: bool)
    ensures
        res ==> tree_hit(*a, *b),
        !res ==> tree_miss(*a, *b),
    decreases a.spec_size() + b.spec_size(), 0nat,
{
    match (a, b) {
        (BvhTree::Leaf(c1), BvhTree::Leaf(c2)) => c1.collides_with(c2),
        (BvhTree::Leaf(c1), BvhTree::Branch(c2, left, right)) => {
            c1.collides_with(c2) && ((match left {
                Some(l) => tree_collides(l, a),
                None => false,
            }) || (match right {
                Some(r) => tree_collides(r, a),
                None => false,
            }))
        },
        (BvhTree::Branch(c1, left, right), BvhTree::Leaf(c2)) => {
            c1.collides_with(c2) && ((match left {
                Some(l) => tree_collides(l, b),
                None => false,
            }) || (match right {
                Some(r) => tree_collides(r, b),
                None => false,
            }))
        },
        (BvhTree::Branch(c1, left1, right1), BvhTree::Branch(c2, left2, right2)) => {
            c1.collides_with(c2) && (nodes_collide(left1, left2) || nodes_collide(left1, right2)
                || nodes_collide(right1, left2) || nodes_collide(right1, right2))
        },
    }
}

impl<C: Collides<C>> Collides<BvhTree<C>> for BvhTree<C> {
    /// Whether the two hierarchies collide, see [tree_collides].
    fn collides_with(&self, other: &BvhTree<C>) -> (res: bool)
        ensures
            res ==> tree_hit(*self, *other),
            !res ==> tree_miss(*self, *other),
            res ==> leaves_hit(*self, *other),
            leaves_agree(*self, *other) && colliders_bound(*self, *other) ==> res == leaves_hit(
                *self,
                *other,
            ),
    {
        let res = tree_collides(self, other);
        proof {
            if res {
                lemma_tree_hit_sound(*self, *other);
            } else if leaves_agree(*self, *other) && colliders_bound(*self, *other) {
                lemma_tree_miss_complete(*self, *other);
            }
        }
        res
    }
}

/// `c` is the collider of one of the leaves of `t`.
pub open spec fn holds_leaf<C>(t: BvhTree<C>, c: C) -> bool
    decreases t,
{
    match t {
        BvhTree::Leaf(x) => x == c,
        BvhTree::Branch(_, l, r) => (match l {
            Some(x) => holds_leaf(*x, c),
            None => false,
        }) || (match r {
            Some(x) => holds_leaf(*x, c),
            None => false,
        }),
    }
}

/// `x` is a node of `t` (`t` itself included).
pub open spec fn is_node_of<C>(x: BvhTree<C>, t: BvhTree<C>) -> bool
    decreases t,
{
    x == t || match t {
        BvhTree::Leaf(_) => false,
        BvhTree::Branch(_, l, r) => (match l {
            Some(y) => is_node_of(x, *y),
            None => false,
        }) || (match r {
            Some(y) => is_node_of(x, *y),
            None => false,
        }),
    }
}

/// Some collider at a leaf of `a` was found to collide with some collider at a leaf of `b`
/// (tested in either order).
pub open spec fn leaves_hit<C: Collides<C>>(a: BvhTree<C>, b: BvhTree<C>) -> bool {
    exists|c1: C, c2: C|
        #![trigger holds_leaf(a, c1), holds_leaf(b, c2)]
        holds_leaf(a, c1) && holds_leaf(b, c2) && (answers(&c1, &c2, true) || answers(&c2, &c1, true))
}

/// For the colliders at the leaves of `a` and `b`, an answer that two do not collide (in
/// either order) excludes an answer that they do (in either order).
pub open spec fn leaves_agree<C: Collides<C>>(a: BvhTree<C>, b: BvhTree<C>) -> bool {
    forall|c1: C, c2: C|
        #![trigger holds_leaf(a, c1), holds_leaf(b, c2)]
        holds_leaf(a, c1) && holds_leaf(b, c2) && (answers(&c1, &c2, false) || answers(&c2, &c1, false))
            ==> !answers(&c1, &c2, true) && !answers(&c2, &c1, true)
}

/// The colliders of the nodes bound their leaves: for nodes `x` of `a` and `y` of `b` with
/// colliding leaves, the colliders of `x` and `y` are never found not to collide (in either
/// order).
pub open spec fn colliders_bound<C: Collides<C>>(a: BvhTree<C>, b: BvhTree<C>) -> bool {
    forall|x: BvhTree<C>, y: BvhTree<C>|
        #![trigger is_node_of(x, a), is_node_of(y, b)]
        is_node_of(x, a) && is_node_of(y, b) && leaves_hit(x, y) ==> !answers(
            &x.spec_collider(),
            &y.spec_collider(),
            false,
        ) && !answers(&y.spec_collider(), &x.spec_collider(), false)
}

/// Some leaf of the optional child hits some leaf of `x`.
pub open spec fn child_hits<C: Collides<C>>(o: Option<Box<BvhTree<C>>>, x: BvhTree<C>) -> bool {
    match o {
        Some(y) => leaves_hit(*y, x),
        None => false,
    }
}

proof fn lemma_node_refl<C>(t: BvhTree<C>)
    ensures
        is_node_of(t, t),
{
}

proof fn lemma_leaves_hit_sym<C: Collides<C>>(a: BvhTree<C>, b: BvhTree<C>)
    ensures
        leaves_hit(a, b) == leaves_hit(b, a),
{
    if leaves_hit(a, b) {
        let (c1, c2) = choose|c1: C, c2: C|
            #![trigger holds_leaf(a, c1), holds_leaf(b, c2)]
            holds_leaf(a, c1) && holds_leaf(b, c2) && (answers(&c1, &c2, true) || answers(&c2, &c1, true));
        assert(holds_leaf(b, c2) && holds_leaf(a, c1));
    }
    if leaves_hit(b, a) {
        let (c1, c2) = choose|c1: C, c2: C|
            #![trigger holds_leaf(b, c1), holds_leaf(a, c2)]
            holds_leaf(b, c1) && holds_leaf(a, c2) && (answers(&c1, &c2, true) || answers(&c2, &c1, true));
        assert(holds_leaf(a, c2) && holds_leaf(b, c1));
    }
}

/// A pair of colliding leaves of a branch and `x` comes from one of the branch's children.
proof fn lemma_leaves_hit_branch<C: Collides<C>>(t: BvhTree<C>, x: BvhTree<C>)
    requires
        t is Branch,
    ensures
        leaves_hit(t, x) == (child_hits(t->Branch_1, x) || child_hits(t->Branch_2, x)),
{
    let l = t->Branch_1;
    let r = t->Branch_2;
    if leaves_hit(t, x) {
        let (c1, c2) = choose|c1: C, c2: C|
            #![trigger holds_leaf(t, c1), holds_leaf(x, c2)]
            holds_leaf(t, c1) && holds_leaf(x, c2) && (answers(&c1, &c2, true) || answers(&c2, &c1, true));
        if l matches Some(y) && holds_leaf(*y, c1) {
            let y = l->Some_0;
            assert(holds_leaf(*y, c1) && holds_leaf(x, c2));
        } else if let Some(y) = r {
            assert(holds_leaf(*y, c1) && holds_leaf(x, c2));
        }
    }
    if let Some(y) = l {
        if leaves_hit(*y, x) {
            let (c1, c2) = choose|c1: C, c2: C|
                #![trigger holds_leaf(*y, c1), holds_leaf(x, c2)]
                holds_leaf(*y, c1) && holds_leaf(x, c2) && (answers(&c1, &c2, true) || answers(&c2, &c1, true));
            assert(holds_leaf(t, c1) && holds_leaf(x, c2));
        }
    }
    if let Some(y) = r {
        if leaves_hit(*y, x) {
            let (c1, c2) = choose|c1: C, c2: C|
                #![trigger holds_leaf(*y, c1), holds_leaf(x, c2)]
                holds_leaf(*y, c1) && holds_leaf(x, c2) && (answers(&c1, &c2, true) || answers(&c2, &c1, true));
            assert(holds_leaf(t, c1) && holds_leaf(x, c2));
        }
    }
}

proof fn lemma_node_trans<C>(x: BvhTree<C>, y: BvhTree<C>, t: BvhTree<C>)
    requires
        is_node_of(x, y),
        is_node_of(y, t),
    ensures
        is_node_of(x, t),
    decreases t,
{
    if y != t {
        if let BvhTree::Branch(_, l, r) = t {
            if l matches Some(z) && is_node_of(y, *z) {
                lemma_node_trans(x, y, *l->Some_0);
            } else {
                lemma_node_trans(x, y, *r->Some_0);
            }
        }
    }
}

proof fn lemma_node_leaf<C>(x: BvhTree<C>, t: BvhTree<C>, c: C)
    requires
        is_node_of(x, t),
        holds_leaf(x, c),
    ensures
        holds_leaf(t, c),
    decreases t,
{
    if x != t {
        if let BvhTree::Branch(_, l, r) = t {
            if l matches Some(z) && is_node_of(x, *z) {
                lemma_node_leaf(x, *l->Some_0, c);
            } else {
                lemma_node_leaf(x, *r->Some_0, c);
            }
        }
    }
}

/// The agreement hypotheses hold for any pair of nodes of the two trees, in either order.
proof fn lemma_agree_nodes<C: Collides<C>>(a: BvhTree<C>, b: BvhTree<C>, x: BvhTree<C>, y: BvhTree<C>)
    requires
        leaves_agree(a, b),
        colliders_bound(a, b),
        (is_node_of(x, a) && is_node_of(y, b)) || (is_node_of(x, b) && is_node_of(y, a)),
    ensures
        leaves_agree(x, y),
        colliders_bound(x, y),
{
    assert forall|c1: C, c2: C|
        #![trigger holds_leaf(x, c1), holds_leaf(y, c2)]
        holds_leaf(x, c1) && holds_leaf(y, c2) && (answers(&c1, &c2, false) || answers(&c2, &c1, false))
            implies !answers(&c1, &c2, true) && !answers(&c2, &c1, true) by {
        if is_node_of(x, a) && is_node_of(y, b) {
            lemma_node_leaf(x, a, c1);
            lemma_node_leaf(y, b, c2);
            assert(holds_leaf(a, c1) && holds_leaf(b, c2));
        } else {
            lemma_node_leaf(x, b, c1);
            lemma_node_leaf(y, a, c2);
            assert(holds_leaf(a, c2) && holds_leaf(b, c1));
        }
    }
    assert forall|x1: BvhTree<C>, y1: BvhTree<C>|
        #![trigger is_node_of(x1, x), is_node_of(y1, y)]
        is_node_of(x1, x) && is_node_of(y1, y) && leaves_hit(x1, y1) implies !answers(
            &x1.spec_collider(),
            &y1.spec_collider(),
            false,
        ) && !answers(&y1.spec_collider(), &x1.spec_collider(), false) by {
        if is_node_of(x, a) && is_node_of(y, b) {
            lemma_node_trans(x1, x, a);
            lemma_node_trans(y1, y, b);
            assert(is_node_of(x1, a) && is_node_of(y1, b));
        } else {
            lemma_node_trans(x1, x, b);
            lemma_node_trans(y1, y, a);
            lemma_leaves_hit_sym(x1, y1);
            assert(is_node_of(y1, a) && is_node_of(x1, b));
        }
    }
}

/// A query over two hierarchies answers that they collide only when some pair of their
/// leaves was found to collide.
pub proof fn lemma_tree_hit_sound<C: Collides<C>>(a: BvhTree<C>, b: BvhTree<C>)
    requires
        tree_hit(a, b),
    ensures
        leaves_hit(a, b),
    decreases a.spec_size() + b.spec_size(),
{
    match (a, b) {
        (BvhTree::Leaf(c1), BvhTree::Leaf(c2)) => {
            assert(holds_leaf(a, c1) && holds_leaf(b, c2));
        },
        (BvhTree::Leaf(_), BvhTree::Branch(_, l, r)) => {
            if l matches Some(x) && tree_hit(*x, a) {
                lemma_tree_hit_sound(*l->Some_0, a);
            } else {
                lemma_tree_hit_sound(*r->Some_0, a);
            }
            lemma_leaves_hit_branch(b, a);
            lemma_leaves_hit_sym(a, b);
        },
        (BvhTree::Branch(_, l, r), BvhTree::Leaf(_)) => {
            if l matches Some(x) && tree_hit(*x, b) {
                lemma_tree_hit_sound(*l->Some_0, b);
            } else {
                lemma_tree_hit_sound(*r->Some_0, b);
            }
            lemma_leaves_hit_branch(a, b);
        },
        (BvhTree::Branch(_, l1, r1), BvhTree::Branch(_, l2, r2)) => {
            let (x, y) = if l1 is Some && l2 is Some && tree_hit(*l1->Some_0, *l2->Some_0) {
                (*l1->Some_0, *l2->Some_0)
            } else if l1 is Some && r2 is Some && tree_hit(*l1->Some_0, *r2->Some_0) {
                (*l1->Some_0, *r2->Some_0)
            } else if r1 is Some && l2 is Some && tree_hit(*r1->Some_0, *l2->Some_0) {
                (*r1->Some_0, *l2->Some_0)
            } else {
                (*r1->Some_0, *r2->Some_0)
            };
            lemma_tree_hit_sound(x, y);
            lemma_leaves_hit_branch(a, y);
            lemma_leaves_hit_sym(a, y);
            lemma_leaves_hit_branch(b, a);
            lemma_leaves_hit_sym(a, b);
        },
    }
}

/// When the colliders of the nodes bound their leaves and the answers for leaves agree, a
/// query that answers that two hierarchies do not collide misses no pair of colliding leaves.
pub proof fn lemma_tree_miss_complete<C: Collides<C>>(a: BvhTree<C>, b: BvhTree<C>)
    requires
        leaves_agree(a, b),
        colliders_bound(a, b),
        tree_miss(a, b),
    ensures
        !leaves_hit(a, b),
    decreases a.spec_size() + b.spec_size(),
{
    lemma_node_refl(a);
    lemma_node_refl(b);
    match (a, b) {
        (BvhTree::Leaf(c1), BvhTree::Leaf(c2)) => {
            assert(holds_leaf(a, c1) && holds_leaf(b, c2));
        },
        (BvhTree::Leaf(c1), BvhTree::Branch(c2, l, r)) => {
            if !answers(&c1, &c2, false) {
                if let Some(x) = l {
                    lemma_node_refl(*x);
                    lemma_agree_nodes(a, b, *x, a);
                    lemma_tree_miss_complete(*x, a);
                }
                if let Some(x) = r {
                    lemma_node_refl(*x);
                    lemma_agree_nodes(a, b, *x, a);
                    lemma_tree_miss_complete(*x, a);
                }
            }
            lemma_leaves_hit_branch(b, a);
            lemma_leaves_hit_sym(a, b);
        },
        (BvhTree::Branch(c1, l, r), BvhTree::Leaf(c2)) => {
            if !answers(&c1, &c2, false) {
                if let Some(x) = l {
                    lemma_node_refl(*x);
                    lemma_agree_nodes(a, b, *x, b);
                    lemma_tree_miss_complete(*x, b);
                }
                if let Some(x) = r {
                    lemma_node_refl(*x);
                    lemma_agree_nodes(a, b, *x, b);
                    lemma_tree_miss_complete(*x, b);
                }
            }
            lemma_leaves_hit_branch(a, b);
        },
        (BvhTree::Branch(c1, l1, r1), BvhTree::Branch(c2, l2, r2)) => {
            if !answers(&c1, &c2, false) {
                lemma_pairs_miss(a, b, l1, l2);
                lemma_pairs_miss(a, b, l1, r2);
                lemma_pairs_miss(a, b, r1, l2);
                lemma_pairs_miss(a, b, r1, r2);
                lemma_children_miss(a, b, l2);
                lemma_children_miss(a, b, r2);
                lemma_leaves_hit_branch(b, a);
                lemma_leaves_hit_sym(a, b);
            }
        },
    }
}

/// For a child `o1` of branch `a` and a child `o2` of branch `b` that the query found not
/// to collide, no leaves of the two collide.
proof fn lemma_pairs_miss<C: Collides<C>>(
    a: BvhTree<C>,
    b: BvhTree<C>,
    o1: Option<Box<BvhTree<C>>>,
    o2: Option<Box<BvhTree<C>>>,
)
    requires
        leaves_agree(a, b),
        colliders_bound(a, b),
        a is Branch,
        b is Branch,
        o1 == a->Branch_1 || o1 == a->Branch_2,
        o2 == b->Branch_1 || o2 == b->Branch_2,
        (o1 matches Some(x) && o2 matches Some(y)) ==> tree_miss(*o1->Some_0, *o2->Some_0),
    ensures
        (o1 matches Some(x) && o2 matches Some(y)) ==> !leaves_hit(*o1->Some_0, *o2->Some_0),
    decreases a.spec_size() + b.spec_size(), 0nat,
{
    if let (Some(x), Some(y)) = (o1, o2) {
        lemma_node_refl(*x);
        lemma_node_refl(*y);
        assert(is_node_of(*x, a));
        assert(is_node_of(*y, b));
        lemma_agree_nodes(a, b, *x, *y);
        lemma_tree_miss_complete(*x, *y);
    }
}

/// For a child `o` of branch `b`, when no leaves of the children of branch `a` collide with
/// its leaves, no leaves of `a` do.
proof fn lemma_children_miss<C: Collides<C>>(
    a: BvhTree<C>,
    b: BvhTree<C>,
    o: Option<Box<BvhTree<C>>>,
)
    requires
        a is Branch,
        o matches Some(y) ==> (a->Branch_1 matches Some(x) ==> !leaves_hit(*x, *o->Some_0)),
        o matches Some(y) ==> (a->Branch_2 matches Some(x) ==> !leaves_hit(*x, *o->Some_0)),
    ensures
        o matches Some(y) ==> !leaves_hit(a, *o->Some_0),
{
    if let Some(y) = o {
        lemma_leaves_hit_branch(a, *y);
    }
}

} // verus!
