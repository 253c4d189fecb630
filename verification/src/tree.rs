use crate::layout::{
    in_left_half, left_slot, left_source, lemma_left_slot, lemma_right_slot, lemma_slot_source,
    right_slot, right_source,
    floor_log2, is_desc, level, lemma_desc_child, lemma_desc_ge, lemma_desc_root, lemma_desc_siblings,
    lemma_desc_split, lemma_floor_log2_full, lemma_floor_log2_le, lemma_level_below, lemma_level_bounds, lemma_level_child,
    lemma_level_of, lemma_level_within, lemma_two_pow_mono, lemma_two_pow_pos, two_pow,
};
use vstd::prelude::*;

verus! {

/// Regular recursive binary tree using [Box] for nodes.
#[derive(Debug, PartialEq)]
pub enum RecursiveTree<K, V> {
    Branch(K, Box<RecursiveTree<K, V>>, Box<RecursiveTree<K, V>>),
    Leaf(K, V),
}

impl<K, V> RecursiveTree<K, V> {
    /// Number of edges on the longest path from the root to a leaf.
    pub open spec fn spec_depth(self) -> nat
        decreases self,
    {
        match self {
            RecursiveTree::Leaf(_, _) => 0,
            RecursiveTree::Branch(_, l, r) => {
                let dl = l.spec_depth();
                let dr = r.spec_depth();
                (if dl >= dr { dl } else { dr }) + 1
            },
        }
    }

    /// The key stored at the root.
    pub open spec fn spec_key(self) -> K {
        match self {
            RecursiveTree::Leaf(k, _) => k,
            RecursiveTree::Branch(k, _, _) => k,
        }
    }

    /// Concatenates two trees into one.
    pub fn concat(self, other: RecursiveTree<K, V>, key: K) -> (res: RecursiveTree<K, V>)
        ensures
            res == RecursiveTree::Branch(key, Box::new(self), Box::new(other)),
    {
        RecursiveTree::Branch(key, Box::new(self), Box::new(other))
    }

    /// Returns the depth of the tree.
    pub fn depth(&self) -> (res: usize)
        requires
            self.spec_depth() <= usize::MAX,
        ensures
            res == self.spec_depth(),
        decreases self,
    {
        match self {
            RecursiveTree::Leaf(_, _) => 0,
            RecursiveTree::Branch(_, left, right) => {
                let dl = left.depth();
                let dr = right.depth();
                let m = if dl >= dr { dl } else { dr };
                m + 1
            },
        }
    }

    /// Returns the key stored at the root.
    pub fn key(&self) -> (res: &K)
        ensures
            *res == self.spec_key(),
    {
        match self {
            RecursiveTree::Leaf(key, _) => key,
            RecursiveTree::Branch(key, _, _) => key,
        }
    }
}

/// `copy` has the shape of `orig`, and each key and value of `copy` is a clone
/// of the one at the same place in `orig`.
pub open spec fn tree_cloned<K: Clone, V: Clone>(
    orig: RecursiveTree<K, V>,
    copy: RecursiveTree<K, V>,
) -> bool
    decreases orig,
{
    match (orig, copy) {
        (RecursiveTree::Leaf(k1, v1), RecursiveTree::Leaf(k2, v2)) => cloned(k1, k2) && cloned(v1, v2),
        (RecursiveTree::Branch(k1, l1, r1), RecursiveTree::Branch(k2, l2, r2)) => {
            &&& cloned(k1, k2)
            &&& tree_cloned(*l1, *l2)
            &&& tree_cloned(*r1, *r2)
        },
        _ => false,
    }
}

impl<K: Clone, V: Clone> Clone for RecursiveTree<K, V> {
    fn clone(&self) -> (res: Self)
        ensures
            tree_cloned(*self, res),
        decreases self,
    {
        match self {
            RecursiveTree::Leaf(k, v) => RecursiveTree::Leaf(k.clone(), v.clone()),
            RecursiveTree::Branch(k, l, r) => {
                let l2 = (&**l).clone();
                let r2 = (&**r).clone();
                RecursiveTree::Branch(k.clone(), Box::new(l2), Box::new(r2))
            },
        }
    }
}

/// Clones a slot of a linear tree.
fn clone_node<K: Clone, V: Clone>(node: &Option<LinearNode<K, V>>) -> (res: Option<
    LinearNode<K, V>,
>)
    ensures
        node_cloned(*node, res),
{
    match node {
        None => None,
        Some(LinearNode(k, v)) => {
            let v2 = match v {
                None => None,
                Some(x) => Some(x.clone()),
            };
            Some(LinearNode(k.clone(), v2))
        },
    }
}

/// Position of a node in a [LinearTree].
#[derive(Debug, Clone, Copy, PartialOrd, Ord, PartialEq, Eq)]
pub struct LinearTreePtr(usize);

impl LinearTreePtr {
    /// The index of the node in the tree's vector.
    pub closed spec fn index(self) -> nat {
        self.0 as nat
    }
}

/// What a node of a [LinearTree] holds besides its key: either the positions
/// of its two children, or its value.
pub enum LinearTreeNode<'a, V> {
    Branch(LinearTreePtr, LinearTreePtr),
    Value(&'a V),
}

/// A node of a [LinearTree]: its key, and its value if it is a leaf.
#[derive(Debug, Clone)]
pub struct LinearNode<K, V>(pub K, pub Option<V>);

/// Implementation of binary tree with nodes in single vector.
/// Traversing is slower than [RecursiveTree] but operations
/// can be applied by iterating over the inner vector.
///
/// The root is at index 0 and the children of index `i` at `2i + 1` and
/// `2i + 2`; the vector's length is one less than a power of two.
#[derive(Debug)]
pub struct LinearTree<K, V>(Vec<Option<LinearNode<K, V>>>);

/// A linear node is a clone of another: the same variant, with cloned key and value.
pub open spec fn node_cloned<K: Clone, V: Clone>(
    orig: Option<LinearNode<K, V>>,
    copy: Option<LinearNode<K, V>>,
) -> bool {
    match (orig, copy) {
        (None, None) => true,
        (Some(a), Some(b)) => {
            &&& cloned(a.0, b.0)
            &&& match (a.1, b.1) {
                (None, None) => true,
                (Some(x), Some(y)) => cloned(x, y),
                _ => false,
            }
        },
        _ => false,
    }
}

/// The node at index `i` is a branch whose children lie within the vector,
/// or a leaf, or absent.
pub open spec fn node_wf<K, V>(raw: Seq<Option<LinearNode<K, V>>>, i: int) -> bool {
    (raw[i] is Some && raw[i]->Some_0.1 is None) ==> {
        &&& 2 * i + 2 < raw.len()
        &&& raw[2 * i + 1] is Some
        &&& raw[2 * i + 2] is Some
    }
}

/// A breadth-first layout of a binary tree: the length is `2^(d + 1) - 1`,
/// the root is present, and every branch has both its children.
pub open spec fn layout_wf<K, V>(raw: Seq<Option<LinearNode<K, V>>>) -> bool {
    &&& raw.len() > 0
    &&& raw.len() + 1 == two_pow(floor_log2(raw.len()) + 1)
    &&& raw[0] is Some
    &&& forall|i: int| 0 <= i < raw.len() ==> #[trigger] node_wf(raw, i)
}

/// The tree whose root is at index `i` of a layout.
pub open spec fn node_tree<K, V>(raw: Seq<Option<LinearNode<K, V>>>, i: int) -> RecursiveTree<K, V>
    decreases raw.len() - i,
{
    if 0 <= i < raw.len() && raw[i] is Some {
        let node = raw[i]->Some_0;
        match node.1 {
            Some(v) => RecursiveTree::Leaf(node.0, v),
            None => if 2 * i + 2 < raw.len() {
                RecursiveTree::Branch(
                    node.0,
                    Box::new(node_tree(raw, 2 * i + 1)),
                    Box::new(node_tree(raw, 2 * i + 2)),
                )
            } else {
                arbitrary()
            },
        }
    } else {
        arbitrary()
    }
}

/// The subtree of `t` at index `i`, where the root of `t` is at index `p`.
pub open spec fn subtree_at<K, V>(t: RecursiveTree<K, V>, p: int, i: int) -> Option<
    RecursiveTree<K, V>,
>
    decreases i,
{
    if i == p {
        Some(t)
    } else if i > p && i > 0 {
        match subtree_at(t, p, (i - 1) / 2) {
            Some(RecursiveTree::Branch(_, l, r)) => if i % 2 == 1 {
                Some(*l)
            } else {
                Some(*r)
            },
            _ => None,
        }
    } else {
        None
    }
}

/// The linear node that stands for the root of a subtree.
pub open spec fn node_of<K, V>(t: Option<RecursiveTree<K, V>>) -> Option<LinearNode<K, V>> {
    match t {
        Some(RecursiveTree::Leaf(k, v)) => Some(LinearNode(k, Some(v))),
        Some(RecursiveTree::Branch(k, _, _)) => Some(LinearNode(k, None)),
        None => None,
    }
}

/// The breadth-first layout of `t` in `n` slots.
pub open spec fn layout_of<K, V>(t: RecursiveTree<K, V>, n: nat) -> Seq<Option<LinearNode<K, V>>> {
    Seq::new(n, |i: int| node_of(subtree_at(t, 0, i)))
}

impl<K, V> View for LinearTree<K, V> {
    type V = Seq<Option<LinearNode<K, V>>>;

    closed spec fn view(&self) -> Seq<Option<LinearNode<K, V>>> {
        self.0@
    }
}

impl<K, V> LinearTree<K, V> {
    /// The vector is a breadth-first layout of a binary tree.
    #[verifier::type_invariant]
    pub open spec fn inv(&self) -> bool {
        layout_wf(self@)
    }

    /// The tree that the vector lays out.
    pub open spec fn tree(&self) -> RecursiveTree<K, V> {
        node_tree(self@, 0)
    }

    /// `ptr` designates a node of this tree.
    pub open spec fn valid_ptr(&self, ptr: LinearTreePtr) -> bool {
        ptr.index() < self@.len() && self@[ptr.index() as int] is Some
    }

    /// This function expects data in specific order and can create invalid tree otherwise.
    pub(crate) fn from_raw(raw: Vec<Option<LinearNode<K, V>>>) -> (res: Self)
        requires
            layout_wf(raw@),
        ensures
            res@ == raw@,
    {
        LinearTree(raw)
    }

    /// The nodes in breadth-first order.
    pub fn raw(&self) -> (res: &[Option<LinearNode<K, V>>])
        ensures
            res@ == self@,
    {
        self.0.as_slice()
    }

    /// Position of the root.
    pub fn root(&self) -> (res: LinearTreePtr)
        ensures
            res.index() == 0,
    {
        LinearTreePtr(0)
    }

    /// The key of the node at `ptr`.
    pub fn key(&self, ptr: &LinearTreePtr) -> (res: &K)
        requires
            self.valid_ptr(*ptr),
        ensures
            *res == self@[ptr.index() as int]->Some_0.0,
    {
        let LinearTreePtr(ptr) = ptr;
        &self.0[*ptr].as_ref().unwrap().0
    }

    /// The value of the leaf at `ptr`, or the positions of the children of the branch at `ptr`.
    pub fn value(&self, ptr: &LinearTreePtr) -> (res: LinearTreeNode<'_, V>)
        requires
            self.valid_ptr(*ptr),
        ensures
            match res {
                LinearTreeNode::Value(v) => self@[ptr.index() as int]->Some_0.1 == Some(*v),
                LinearTreeNode::Branch(left, right) => {
                    &&& self@[ptr.index() as int]->Some_0.1 is None
                    &&& left.index() == 2 * ptr.index() + 1
                    &&& right.index() == 2 * ptr.index() + 2
                    &&& self.valid_ptr(left)
                    &&& self.valid_ptr(right)
                },
            },
    {
        proof {
            use_type_invariant(self);
        }
        let LinearTreePtr(ptr) = ptr;
        assert(node_wf(self@, *ptr as int));
        let node = self.0[*ptr].as_ref().unwrap();
        if let Some(value) = node.1.as_ref() {
            LinearTreeNode::Value(value)
        } else {
            let len = self.0.len();
            assert(2 * *ptr + 2 < len);
            let left = 2 * *ptr + 1;
            let right = 2 * *ptr + 2;
            LinearTreeNode::Branch(LinearTreePtr(left), LinearTreePtr(right))
        }
    }

    /// The depth of the layout: `ceil(log2(len + 1)) - 1`, which is
    /// `floor(log2(len))` for a nonempty vector.
    pub fn depth(&self) -> (res: usize)
        ensures
            res == floor_log2(self@.len()),
    {
        proof {
            use_type_invariant(self);
            lemma_floor_log2_le(self@.len());
        }
        let mut n = self.0.len();
        let mut d: usize = 0;
        while n > 1
            invariant
                n >= 1,
                self@.len() <= usize::MAX,
                floor_log2(self@.len()) <= self@.len(),
                d + floor_log2(n as nat) == floor_log2(self@.len()),
                n <= self@.len(),
            decreases n,
        {
            assert(floor_log2(n as nat) >= 1);
            n = n / 2;
            d = d + 1;
        }
        d
    }
}

proof fn lemma_subtree_of_leaf<K, V>(t: RecursiveTree<K, V>, p: int, i: int)
    requires
        t is Leaf,
        i != p,
    ensures
        subtree_at(t, p, i) is None,
    decreases i,
{
    if i > p && i > 0 {
        let q = (i - 1) / 2;
        if q != p {
            lemma_subtree_of_leaf(t, p, q);
        }
    }
}

/// Inside the subtree of a child, the subtrees of a branch are those of that child.
proof fn lemma_subtree_of_child<K, V>(t: RecursiveTree<K, V>, p: int, i: int)
    requires
        t is Branch,
        p >= 0,
    ensures
        is_desc(2 * p + 1, i) ==> subtree_at(t, p, i) == subtree_at(*t->Branch_1, 2 * p + 1, i),
        is_desc(2 * p + 2, i) ==> subtree_at(t, p, i) == subtree_at(*t->Branch_2, 2 * p + 2, i),
    decreases i,
{
    lemma_desc_siblings(p, i);
    if is_desc(2 * p + 1, i) || is_desc(2 * p + 2, i) {
        lemma_desc_child(p, i);
        let q = (i - 1) / 2;
        if i == 2 * p + 1 || i == 2 * p + 2 {
            assert(q == p);
            assert(subtree_at(t, p, p) == Some(t));
            assert((2 * p + 1) % 2 == 1);
            assert((2 * p + 2) % 2 == 0);
            if i == 2 * p + 1 {
                assert(subtree_at(t, p, i) == Some(*t->Branch_1));
            } else {
                assert(subtree_at(t, p, i) == Some(*t->Branch_2));
            }
        } else {
            if is_desc(2 * p + 1, i) {
                lemma_desc_ge(2 * p + 1, i);
            } else {
                lemma_desc_ge(2 * p + 2, i);
            }
            lemma_desc_siblings(p, i);
            lemma_subtree_of_child(t, p, q);
            if is_desc(2 * p + 1, i) {
                assert(is_desc(2 * p + 1, q));
                assert(subtree_at(t, p, q) == subtree_at(*t->Branch_1, 2 * p + 1, q));
                assert(i > 2 * p + 1);
                assert(subtree_at(t, p, i) == subtree_at(*t->Branch_1, 2 * p + 1, i));
            }
        }
    }
}

/// Room left for the subtrees of the two children.
proof fn lemma_child_room(p: nat, dc: nat, d: nat, n: nat)
    requires
        dc < d,
        (p + 2) * two_pow(d) <= n + 1,
    ensures
        (2 * p + 4) * two_pow(dc) <= n + 1,
        (2 * p + 3) * two_pow(dc) <= n + 1,
        2 * p + 2 < n,
{
    lemma_two_pow_mono(dc, (d - 1) as nat);
    lemma_two_pow_pos(dc);
    let a = two_pow(dc);
    let b = two_pow((d - 1) as nat);
    assert(two_pow(d) == 2 * b);
    assert((2 * p + 4) * a <= (2 * p + 4) * b) by (nonlinear_arith)
        requires
            a <= b,
    ;
    assert((2 * p + 4) * a >= 2 * p + 4) by (nonlinear_arith)
        requires
            a >= 1,
    ;
    assert((2 * p + 4) * b == (p + 2) * (2 * b)) by (nonlinear_arith);
    assert((2 * p + 3) * a <= (2 * p + 4) * a) by (nonlinear_arith);
}

/// Writes the layout of `t` into the slots of the subtree rooted at `p`.
fn fill<K, V>(nodes: &mut Vec<Option<LinearNode<K, V>>>, t: RecursiveTree<K, V>, p: usize)
    requires
        p < old(nodes)@.len(),
        (p + 2) * two_pow(t.spec_depth()) <= old(nodes)@.len() + 1,
        forall|i: int|
            0 <= i < old(nodes)@.len() && is_desc(p as int, i) ==> old(nodes)@[i] is None,
    ensures
        final(nodes)@.len() == old(nodes)@.len(),
        forall|i: int|
            0 <= i < old(nodes)@.len() && is_desc(p as int, i) ==> final(nodes)@[i] == node_of(
                subtree_at(t, p as int, i),
            ),
        forall|i: int|
            0 <= i < old(nodes)@.len() && !is_desc(p as int, i) ==> final(nodes)@[i] == old(
                nodes,
            )@[i],
    decreases t,
{
    let ghost t0 = t;
    let ghost n0 = nodes@;
    match t {
        RecursiveTree::Leaf(k, v) => {
            nodes.set(p, Some(LinearNode(k, Some(v))));
            proof {
                assert forall|i: int|
                    0 <= i < n0.len() && is_desc(p as int, i) implies nodes@[i] == node_of(
                    subtree_at(t0, p as int, i),
                ) by {
                    if i != p {
                        lemma_subtree_of_leaf(t0, p as int, i);
                    }
                }
            }
        },
        RecursiveTree::Branch(k, l, r) => {
            let ghost lt = *l;
            let ghost rt = *r;
            proof {
                lemma_child_room(
                    p as nat,
                    lt.spec_depth(),
                    t0.spec_depth(),
                    n0.len(),
                );
                lemma_child_room(
                    p as nat,
                    rt.spec_depth(),
                    t0.spec_depth(),
                    n0.len(),
                );
                assert forall|i: int|
                    0 <= i < n0.len() && (is_desc(2 * p + 1, i) || is_desc(2 * p + 2, i)) implies (
                    is_desc(p as int, i) && i != p) by {
                    lemma_desc_child(p as int, i);
                }
            }
            let len = nodes.len();
            nodes.set(p, Some(LinearNode(k, None)));
            let ghost n1 = nodes@;
            assert forall|i: int| 0 <= i < n0.len() && is_desc(2 * p + 1, i) implies n1[i] is None by {
                lemma_desc_child(p as int, i);
            }
            fill(nodes, *l, 2 * p + 1);
            let ghost n2 = nodes@;
            proof {
                assert forall|i: int| 0 <= i < n0.len() && is_desc(2 * p + 2, i) implies n2[i] is None by {
                    lemma_desc_siblings(p as int, i);
                    lemma_desc_child(p as int, i);
                }
            }
            fill(nodes, *r, 2 * p + 2);
            proof {
                assert forall|i: int|
                    0 <= i < n0.len() && is_desc(p as int, i) implies nodes@[i] == node_of(
                    subtree_at(t0, p as int, i),
                ) by {
                    lemma_subtree_of_child(t0, p as int, i);
                    lemma_desc_siblings(p as int, i);
                    if i == p {
                        if is_desc(2 * p + 1, p as int) {
                            lemma_desc_ge(2 * p + 1, p as int);
                        }
                        if is_desc(2 * p + 2, p as int) {
                            lemma_desc_ge(2 * p + 2, p as int);
                        }
                    } else {
                        lemma_desc_split(p as int, i);
                    }
                }
                assert forall|i: int|
                    0 <= i < n0.len() && !is_desc(p as int, i) implies nodes@[i] == n0[i] by {
                    if is_desc(2 * p + 1, i) || is_desc(2 * p + 2, i) {
                        lemma_desc_child(p as int, i);
                    }
                }
            }
        },
    }
}

/// A subtree at index `i` sits `level(i)` levels below the root.
proof fn lemma_subtree_depth<K, V>(t: RecursiveTree<K, V>, i: int, s: RecursiveTree<K, V>)
    requires
        i >= 0,
        subtree_at(t, 0, i) == Some(s),
    ensures
        level(i as nat) + s.spec_depth() <= t.spec_depth(),
    decreases i,
{
    if i > 0 {
        let q = (i - 1) / 2;
        let ps = subtree_at(t, 0, q)->Some_0;
        lemma_subtree_depth(t, q, ps);
    }
}

/// In a breadth-first layout of `t`, the tree rooted at index `i` is the subtree of `t` at `i`.
proof fn lemma_layout_node_tree<K, V>(
    t: RecursiveTree<K, V>,
    d: nat,
    i: int,
    s: RecursiveTree<K, V>,
)
    requires
        t.spec_depth() <= d,
        0 <= i,
        subtree_at(t, 0, i) == Some(s),
    ensures
        i < two_pow(d + 1) - 1,
        node_tree(layout_of(t, (two_pow(d + 1) - 1) as nat), i) == s,
        node_wf(layout_of(t, (two_pow(d + 1) - 1) as nat), i),
    decreases two_pow(d + 1) - 1 - i,
{
    let n = (two_pow(d + 1) - 1) as nat;
    let raw = layout_of(t, n);
    lemma_subtree_depth(t, i, s);
    lemma_level_within(i as nat, d);
    if let RecursiveTree::Branch(k, l, r) = s {
        lemma_level_child(i as nat);
        lemma_level_within((2 * i + 2) as nat, d);
        assert((2 * i + 1 - 1) / 2 == i);
        assert((2 * i + 2 - 1) / 2 == i);
        assert((2 * i + 1) % 2 == 1);
        assert((2 * i + 2) % 2 == 0);
        assert(subtree_at(t, 0, 2 * i + 1) == Some(*l));
        assert(subtree_at(t, 0, 2 * i + 2) == Some(*r));
        lemma_layout_node_tree(t, d, 2 * i + 1, *l);
        lemma_layout_node_tree(t, d, 2 * i + 2, *r);
    }
}

/// The breadth-first layout of `t` with room for depth `d >= depth(t)` is a layout whose tree is `t`.
proof fn lemma_layout_wf<K, V>(t: RecursiveTree<K, V>, d: nat)
    requires
        t.spec_depth() <= d,
    ensures
        layout_wf(layout_of(t, (two_pow(d + 1) - 1) as nat)),
        node_tree(layout_of(t, (two_pow(d + 1) - 1) as nat), 0) == t,
{
    let n = (two_pow(d + 1) - 1) as nat;
    let raw = layout_of(t, n);
    lemma_two_pow_pos(d);
    lemma_floor_log2_full(d);
    lemma_layout_node_tree(t, d, 0, t);
    assert forall|i: int| 0 <= i < raw.len() implies #[trigger] node_wf(raw, i) by {
        if raw[i] is Some {
            let s = subtree_at(t, 0, i)->Some_0;
            lemma_layout_node_tree(t, d, i, s);
        }
    }
}

proof fn lemma_two_pow_gt(e: nat)
    ensures
        two_pow(e) > e,
    decreases e,
{
    if e > 0 {
        lemma_two_pow_gt((e - 1) as nat);
    }
}

impl<K, V> LinearTree<K, V> {
    /// Lays a recursive tree out breadth-first in a vector of `2^(depth + 1) - 1` slots.
    pub fn from_recursive(tree: RecursiveTree<K, V>) -> (res: Self)
        requires
            two_pow(tree.spec_depth() + 1) <= usize::MAX,
        ensures
            res@ == layout_of(tree, (two_pow(tree.spec_depth() + 1) - 1) as nat),
            res.tree() == tree,
            floor_log2(res@.len()) == tree.spec_depth(),
    {
        let ghost t = tree;
        let ghost d = tree.spec_depth();
        proof {
            lemma_two_pow_gt(d + 1);
        }
        let depth = tree.depth();
        let mut pw: usize = 1;
        let mut e: usize = 0;
        while e <= depth
            invariant
                depth == d,
                e <= d + 1,
                pw == two_pow(e as nat),
                two_pow(d + 1) <= usize::MAX,
                d + 1 < usize::MAX,
            decreases d + 1 - e,
        {
            proof {
                lemma_two_pow_mono((e + 1) as nat, d + 1);
            }
            pw = pw * 2;
            e = e + 1;
        }
        let size = pw - 1;
        let mut nodes: Vec<Option<LinearNode<K, V>>> = Vec::new();
        let mut i: usize = 0;
        while i < size
            invariant
                i <= size,
                nodes@.len() == i,
                forall|j: int| 0 <= j < i ==> #[trigger] nodes@[j] is None,
            decreases size - i,
        {
            nodes.push(None);
            i = i + 1;
        }
        proof {
            lemma_two_pow_pos(d);
            assert((0 + 2) * two_pow(d) == two_pow(d + 1));
        }
        fill(&mut nodes, tree, 0);
        proof {
            lemma_layout_wf(t, d);
            assert forall|j: int| 0 <= j < size implies nodes@[j] == node_of(subtree_at(t, 0, j)) by {
                lemma_desc_root(j);
            }
            assert(nodes@ =~= layout_of(t, size as nat));
            lemma_floor_log2_full(d);
        }
        LinearTree(nodes)
    }
}

/// Slot `k >= 1` of the concatenation of layouts `a` (left) and `b` (right) holds a clone of
/// the node of `a` or `b` that lands there, or nothing where that node lies beyond its layout.
pub open spec fn concat_slot<K: Clone, V: Clone>(
    a: Seq<Option<LinearNode<K, V>>>,
    b: Seq<Option<LinearNode<K, V>>>,
    res: Seq<Option<LinearNode<K, V>>>,
    k: nat,
) -> bool {
    if in_left_half(k) {
        let s = left_source(k);
        if s < a.len() {
            node_cloned(a[s], res[k as int])
        } else {
            res[k as int] is None
        }
    } else {
        let s = right_source(k);
        if s < b.len() {
            node_cloned(b[s], res[k as int])
        } else {
            res[k as int] is None
        }
    }
}

/// The larger of two numbers.
pub open spec fn max_nat(a: nat, b: nat) -> nat {
    if a >= b {
        a
    } else {
        b
    }
}

/// An index of a layout of depth `d` lands within a layout of depth `d + 1`.
proof fn lemma_slot_bound(x: nat, d: nat)
    requires
        x + 1 < two_pow(d + 1),
    ensures
        left_slot(x) + 1 < two_pow(d + 2),
        right_slot(x) + 1 < two_pow(d + 2),
{
    lemma_level_below(x, d);
    lemma_left_slot(x);
    lemma_right_slot(x);
    lemma_level_within(left_slot(x), d + 1);
    lemma_level_within(right_slot(x), d + 1);
}

/// The tree at the landing slot of index `i` of the left layout is a clone of the tree at `i`.
proof fn lemma_concat_left_tree<K: Clone, V: Clone>(
    a: Seq<Option<LinearNode<K, V>>>,
    b: Seq<Option<LinearNode<K, V>>>,
    res: Seq<Option<LinearNode<K, V>>>,
    i: int,
)
    requires
        layout_wf(a),
        forall|x: nat| x < a.len() ==> #[trigger] left_slot(x) < res.len(),
        forall|k: nat| 1 <= k < res.len() ==> #[trigger] concat_slot(a, b, res, k),
        0 <= i < a.len(),
        a[i] is Some,
    ensures
        tree_cloned(node_tree(a, i), node_tree(res, left_slot(i as nat) as int)),
    decreases a.len() - i,
{
    let k = left_slot(i as nat);
    lemma_left_slot(i as nat);
    assert(left_slot(i as nat) < res.len());
    assert(concat_slot(a, b, res, k));
    assert(node_wf(a, i));
    if a[i]->Some_0.1 is None {
        let i1 = (2 * i + 1) as nat;
        let i2 = (2 * i + 2) as nat;
        assert(left_slot(i2) < res.len());
        lemma_concat_left_tree(a, b, res, 2 * i + 1);
        lemma_concat_left_tree(a, b, res, 2 * i + 2);
    }
}

/// The tree at the landing slot of index `i` of the right layout is a clone of the tree at `i`.
proof fn lemma_concat_right_tree<K: Clone, V: Clone>(
    a: Seq<Option<LinearNode<K, V>>>,
    b: Seq<Option<LinearNode<K, V>>>,
    res: Seq<Option<LinearNode<K, V>>>,
    i: int,
)
    requires
        layout_wf(b),
        forall|x: nat| x < b.len() ==> #[trigger] right_slot(x) < res.len(),
        forall|k: nat| 1 <= k < res.len() ==> #[trigger] concat_slot(a, b, res, k),
        0 <= i < b.len(),
        b[i] is Some,
    ensures
        tree_cloned(node_tree(b, i), node_tree(res, right_slot(i as nat) as int)),
    decreases b.len() - i,
{
    let k = right_slot(i as nat);
    lemma_right_slot(i as nat);
    assert(right_slot(i as nat) < res.len());
    assert(concat_slot(a, b, res, k));
    assert(node_wf(b, i));
    if b[i]->Some_0.1 is None {
        let i2 = (2 * i + 2) as nat;
        assert(right_slot(i2) < res.len());
        lemma_concat_right_tree(a, b, res, 2 * i + 1);
        lemma_concat_right_tree(a, b, res, 2 * i + 2);
    }
}

/// The concatenation of two layouts is the layout of a branch over their trees.
proof fn lemma_concat_wf<K: Clone, V: Clone>(
    a: Seq<Option<LinearNode<K, V>>>,
    b: Seq<Option<LinearNode<K, V>>>,
    res: Seq<Option<LinearNode<K, V>>>,
    key: K,
    d: nat,
)
    requires
        layout_wf(a),
        layout_wf(b),
        floor_log2(a.len()) <= d,
        floor_log2(b.len()) <= d,
        res.len() + 1 == two_pow(d + 2),
        res[0] == Some(LinearNode::<K, V>(key, None)),
        forall|k: nat| 1 <= k < res.len() ==> #[trigger] concat_slot(a, b, res, k),
    ensures
        layout_wf(res),
        match node_tree(res, 0) {
            RecursiveTree::Branch(k, l, r) => {
                &&& k == key
                &&& tree_cloned(node_tree(a, 0), *l)
                &&& tree_cloned(node_tree(b, 0), *r)
            },
            _ => false,
        },
{
    let da = floor_log2(a.len());
    let db = floor_log2(b.len());
    assert forall|x: nat| x < a.len() implies #[trigger] left_slot(x) < res.len() by {
        lemma_slot_bound(x, da);
        lemma_two_pow_mono(da + 2, d + 2);
    }
    assert forall|x: nat| x < b.len() implies #[trigger] right_slot(x) < res.len() by {
        lemma_slot_bound(x, db);
        lemma_two_pow_mono(db + 2, d + 2);
    }
    lemma_left_slot(0);
    lemma_right_slot(0);
    assert(two_pow(0) == 1);
    assert(left_slot(0) == 1);
    assert(right_slot(0) == 2);
    assert(concat_slot(a, b, res, 1));
    assert(concat_slot(a, b, res, 2));
    lemma_concat_left_tree(a, b, res, 0);
    lemma_concat_right_tree(a, b, res, 0);
    lemma_floor_log2_full(d + 1);
    assert forall|k: int| 0 <= k < res.len() implies #[trigger] node_wf(res, k) by {
        if k >= 1 && res[k] is Some && res[k]->Some_0.1 is None {
            let kn = k as nat;
            lemma_slot_source(kn);
            assert(concat_slot(a, b, res, kn));
            if in_left_half(kn) {
                let src = left_source(kn) as nat;
                assert(node_wf(a, src as int));
                lemma_left_slot(src);
                assert(left_slot(src) == kn);
                assert(left_slot((2 * src + 2) as nat) < res.len());
                lemma_left_slot((2 * src + 1) as nat);
                lemma_left_slot((2 * src + 2) as nat);
                assert(concat_slot(a, b, res, (2 * kn + 1) as nat));
                assert(concat_slot(a, b, res, (2 * kn + 2) as nat));
            } else {
                let src = right_source(kn) as nat;
                assert(node_wf(b, src as int));
                lemma_right_slot(src);
                assert(right_slot(src) == kn);
                assert(right_slot((2 * src + 2) as nat) < res.len());
                lemma_right_slot((2 * src + 1) as nat);
                lemma_right_slot((2 * src + 2) as nat);
                assert(concat_slot(a, b, res, (2 * kn + 1) as nat));
                assert(concat_slot(a, b, res, (2 * kn + 2) as nat));
            }
        }
    }
}

/// Every clone of a `T` equals its original (as for the integer types).
pub open spec fn clone_is_exact<T: Clone>() -> bool {
    forall|a: T, b: T| #[trigger] cloned(a, b) ==> a == b
}

/// Where cloning is exact, a tree's clone equals it.
pub proof fn lemma_tree_cloned_exact<K: Clone, V: Clone>(
    orig: RecursiveTree<K, V>,
    copy: RecursiveTree<K, V>,
)
    requires
        clone_is_exact::<K>(),
        clone_is_exact::<V>(),
        tree_cloned(orig, copy),
    ensures
        orig == copy,
    decreases orig,
{
    match (orig, copy) {
        (RecursiveTree::Leaf(k1, v1), RecursiveTree::Leaf(k2, v2)) => {
            assert(cloned(k1, k2));
            assert(cloned(v1, v2));
        },
        (RecursiveTree::Branch(k1, l1, r1), RecursiveTree::Branch(k2, l2, r2)) => {
            assert(cloned(k1, k2));
            lemma_tree_cloned_exact(*l1, *l2);
            lemma_tree_cloned_exact(*r1, *r2);
        },
        _ => {},
    }
}

/// Rebuilds the recursive form of the subtree rooted at `ptr`.
fn linear_subtree_to_recursive<K: Clone, V: Clone>(
    tree: &LinearTree<K, V>,
    ptr: LinearTreePtr,
) -> (res: RecursiveTree<K, V>)
    requires
        tree.valid_ptr(ptr),
    ensures
        tree_cloned(node_tree(tree@, ptr.index() as int), res),
    decreases tree@.len() - ptr.index(),
{
    let key = tree.key(&ptr);
    match tree.value(&ptr) {
        LinearTreeNode::Value(value) => RecursiveTree::Leaf(key.clone(), value.clone()),
        LinearTreeNode::Branch(left, right) => {
            let l = linear_subtree_to_recursive(tree, left);
            let r = linear_subtree_to_recursive(tree, right);
            RecursiveTree::Branch(key.clone(), Box::new(l), Box::new(r))
        },
    }
}

impl<'a, K: Clone, V: Clone> From<&'a LinearTree<K, V>> for RecursiveTree<K, V> {
    fn from(tree: &'a LinearTree<K, V>) -> (res: Self)
        ensures
            tree_cloned(tree.tree(), res),
    {
        proof {
            use_type_invariant(tree);
        }
        let root = tree.root();
        let res = linear_subtree_to_recursive(tree, root);
        proof {
            if clone_is_exact::<K>() && clone_is_exact::<V>() {
                lemma_tree_cloned_exact(tree.tree(), res);
            }
        }
        res
    }
}

impl<'a, K: Clone, V: Clone> vstd::std_specs::convert::FromSpecImpl<&'a LinearTree<K, V>> for RecursiveTree<K, V> {
    open spec fn obeys_from_spec() -> bool {
        clone_is_exact::<K>() && clone_is_exact::<V>()
    }

    open spec fn from_spec(v: &'a LinearTree<K, V>) -> Self {
        v.tree()
    }
}

impl<K: Clone, V: Clone> LinearTree<K, V> {
    /// Concatenates two trees into one under a new root with key `key`: the new layout has
    /// depth `max(depth, other.depth) + 1`, this tree on the left and `other` on the right.
    pub fn concat(&self, other: &LinearTree<K, V>, key: K) -> (res: LinearTree<K, V>)
        requires
            two_pow(max_nat(floor_log2(self@.len()), floor_log2(other@.len())) + 3) <= usize::MAX + 1,
        ensures
            res@.len() + 1 == two_pow(max_nat(floor_log2(self@.len()), floor_log2(other@.len())) + 2),
            res@[0] == Some(LinearNode::<K, V>(key, None)),
            forall|k: nat| 1 <= k < res@.len() ==> #[trigger] concat_slot(self@, other@, res@, k),
            match res.tree() {
                RecursiveTree::Branch(k, l, r) => {
                    &&& k == key
                    &&& tree_cloned(self.tree(), *l)
                    &&& tree_cloned(other.tree(), *r)
                },
                _ => false,
            },
    {
        proof {
            use_type_invariant(self);
            use_type_invariant(other);
        }
        let ghost a = self@;
        let ghost b = other@;
        let ghost dm = max_nat(floor_log2(a.len()), floor_log2(b.len()));
        let d1 = self.depth();
        let d2 = other.depth();
        proof {
            lemma_two_pow_gt(dm + 3);
            lemma_two_pow_mono(dm + 2, dm + 3);
        }
        let depth = if d1 >= d2 {
            d1
        } else {
            d2
        } + 1;

        // size = 2^(depth + 1) - 1
        let mut pw: usize = 1;
        let mut e: usize = 0;
        while e <= depth
            invariant
                depth == dm + 1,
                depth < usize::MAX,
                e <= depth + 1,
                pw == two_pow(e as nat),
                two_pow(dm + 2) <= usize::MAX,
            decreases depth + 1 - e,
        {
            proof {
                lemma_two_pow_mono((e + 1) as nat, dm + 2);
            }
            pw = pw * 2;
            e = e + 1;
        }
        let size = pw - 1;

        let mut nodes: Vec<Option<LinearNode<K, V>>> = Vec::new();
        let mut i: usize = 0;
        while i < size
            invariant
                i <= size,
                nodes@.len() == i,
                forall|j: int| 0 <= j < i ==> #[trigger] nodes@[j] is None,
            decreases size - i,
        {
            nodes.push(None);
            i = i + 1;
        }
        proof {
            lemma_two_pow_pos(dm + 1);
        }
        nodes.set(0, Some(LinearNode(key, None)));
        let ghost root_node = nodes@[0];

        let len1 = self.0.len();
        let len2 = other.0.len();
        let mut ptr: usize = 1;
        let mut tree: usize = 0;
        let mut width: usize = 1;
        let mut d: usize = 0;
        assert(two_pow(0) == 1);
        assert(two_pow(1) == 2);
        while d <= depth
            invariant
                a == self@,
                b == other@,
                len1 == a.len(),
                len2 == b.len(),
                layout_wf(a),
                layout_wf(b),
                depth == dm + 1,
                depth < usize::MAX,
                floor_log2(a.len()) <= dm,
                floor_log2(b.len()) <= dm,
                size + 1 == two_pow(dm + 2),
                two_pow(dm + 3) <= usize::MAX + 1,
                d <= depth + 1,
                width == two_pow(d as nat),
                tree + 1 == two_pow(d as nat),
                ptr + 1 == two_pow(d as nat + 1),
                nodes@.len() == size,
                nodes@[0] == root_node,
                forall|k: nat| 1 <= k < ptr && k < size ==> #[trigger] concat_slot(a, b, nodes@, k),
                forall|k: int| ptr <= k < size ==> #[trigger] nodes@[k] is None,
            decreases depth + 1 - d,
        {
            proof {
                lemma_two_pow_mono(d as nat + 2, dm + 3);
                assert(two_pow(d as nat + 2) == 2 * two_pow(d as nat + 1));
                assert(two_pow(d as nat + 1) == 2 * two_pow(d as nat));
            }
            // left half of level d + 1
            if tree + width <= len1 {
                proof {
                    let d1 = floor_log2(a.len());
                    if d as nat > d1 {
                        lemma_two_pow_mono(d1 + 2, d as nat + 1);
                    }
                    lemma_two_pow_mono(d as nat + 2, dm + 2);
                }
                let mut j: usize = 0;
                while j < width
                    invariant
                        a == self@,
                        len1 == a.len(),
                        tree + width <= len1,
                        width == two_pow(d as nat),
                        tree + 1 == two_pow(d as nat),
                        ptr + 1 == two_pow(d as nat + 1),
                        two_pow(d as nat + 1) == 2 * two_pow(d as nat),
                        ptr + width <= size,
                        j <= width,
                        nodes@.len() == size,
                        nodes@[0] == root_node,
                        forall|k: nat|
                            1 <= k < ptr + j && k < size ==> #[trigger] concat_slot(a, b, nodes@, k),
                        forall|k: int| ptr + j <= k < size ==> #[trigger] nodes@[k] is None,
                    decreases width - j,
                {
                    let node = clone_node(&self.0[tree + j]);
                    let ghost prev = nodes@;
                    nodes.set(ptr + j, node);
                    proof {
                        let kn = (ptr + j) as nat;
                        lemma_level_of(d as nat + 1, j as nat);
                        assert(in_left_half(kn));
                        assert(left_source(kn) == tree + j);
                        assert(concat_slot(a, b, nodes@, kn));
                        assert forall|k: nat|
                            1 <= k < ptr + j + 1 && k < size implies #[trigger] concat_slot(
                            a,
                            b,
                            nodes@,
                            k,
                        ) by {
                            if k < ptr + j {
                                assert(concat_slot(a, b, prev, k));
                            }
                        }
                    }
                    j = j + 1;
                }
            } else {
                proof {
                    let d1 = floor_log2(a.len());
                    if d as nat <= d1 {
                        lemma_two_pow_mono(d as nat + 1, d1 + 1);
                    } else {
                        lemma_two_pow_mono(d1 + 1, d as nat);
                    }
                    assert(tree >= len1);
                    assert forall|k: nat|
                        1 <= k < ptr + width && k < size implies #[trigger] concat_slot(
                        a,
                        b,
                        nodes@,
                        k,
                    ) by {
                        if k >= ptr {
                            let j = (k - ptr) as nat;
                            lemma_level_of(d as nat + 1, j);
                            assert(in_left_half(k));
                            assert(left_source(k) == tree + j);
                        }
                    }
                }
            }
            ptr = ptr + width;
            // right half of level d + 1
            if tree + width <= len2 {
                proof {
                    let d2 = floor_log2(b.len());
                    if d as nat > d2 {
                        lemma_two_pow_mono(d2 + 2, d as nat + 1);
                    }
                    lemma_two_pow_mono(d as nat + 2, dm + 2);
                }
                let mut j: usize = 0;
                while j < width
                    invariant
                        b == other@,
                        len2 == b.len(),
                        tree + width <= len2,
                        width == two_pow(d as nat),
                        tree + 1 == two_pow(d as nat),
                        ptr + 1 == two_pow(d as nat + 1) + width,
                        two_pow(d as nat + 1) == 2 * two_pow(d as nat),
                        ptr + width <= size,
                        j <= width,
                        nodes@.len() == size,
                        nodes@[0] == root_node,
                        forall|k: nat|
                            1 <= k < ptr + j && k < size ==> #[trigger] concat_slot(a, b, nodes@, k),
                        forall|k: int| ptr + j <= k < size ==> #[trigger] nodes@[k] is None,
                    decreases width - j,
                {
                    let node = clone_node(&other.0[tree + j]);
                    let ghost prev = nodes@;
                    nodes.set(ptr + j, node);
                    proof {
                        let kn = (ptr + j) as nat;
                        lemma_level_of(d as nat + 1, (width + j) as nat);
                        assert(!in_left_half(kn));
                        assert(right_source(kn) == tree + j);
                        assert(concat_slot(a, b, nodes@, kn));
                        assert forall|k: nat|
                            1 <= k < ptr + j + 1 && k < size implies #[trigger] concat_slot(
                            a,
                            b,
                            nodes@,
                            k,
                        ) by {
                            if k < ptr + j {
                                assert(concat_slot(a, b, prev, k));
                            }
                        }
                    }
                    j = j + 1;
                }
            } else {
                proof {
                    let d2 = floor_log2(b.len());
                    if d as nat <= d2 {
                        lemma_two_pow_mono(d as nat + 1, d2 + 1);
                    } else {
                        lemma_two_pow_mono(d2 + 1, d as nat);
                    }
                    assert(tree >= len2);
                    assert forall|k: nat|
                        1 <= k < ptr + width && k < size implies #[trigger] concat_slot(
                        a,
                        b,
                        nodes@,
                        k,
                    ) by {
                        if k >= ptr {
                            let j = (k - ptr) as nat;
                            lemma_level_of(d as nat + 1, (width + j) as nat);
                            assert(!in_left_half(k));
                            assert(right_source(k) == tree + j);
                        }
                    }
                }
            }
            ptr = ptr + width;
            tree = tree + width;
            width = width * 2;
            d = d + 1;
        }
        proof {
            lemma_concat_wf(a, b, nodes@, key, dm);
        }
        LinearTree(nodes)
    }
}

impl<K: Clone, V: Clone> Clone for LinearTree<K, V> {
    fn clone(&self) -> (res: Self)
        ensures
            res@.len() == self@.len(),
            forall|i: int| 0 <= i < self@.len() ==> node_cloned(self@[i], #[trigger] res@[i]),
    {
        proof {
            use_type_invariant(self);
        }
        let mut nodes: Vec<Option<LinearNode<K, V>>> = Vec::new();
        let n = self.0.len();
        let mut i: usize = 0;
        while i < n
            invariant
                n == self@.len(),
                i <= n,
                nodes@.len() == i,
                forall|j: int| 0 <= j < i ==> node_cloned(self@[j], #[trigger] nodes@[j]),
            decreases n - i,
        {
            nodes.push(clone_node(&self.0[i]));
            i = i + 1;
        }
        proof {
            lemma_same_shape_wf(self@, nodes@);
        }
        LinearTree(nodes)
    }
}

/// A slot-by-slot clone of a layout is a layout.
proof fn lemma_same_shape_wf<K: Clone, V: Clone>(
    orig: Seq<Option<LinearNode<K, V>>>,
    copy: Seq<Option<LinearNode<K, V>>>,
)
    requires
        layout_wf(orig),
        orig.len() == copy.len(),
        forall|i: int| 0 <= i < orig.len() ==> node_cloned(orig[i], #[trigger] copy[i]),
    ensures
        layout_wf(copy),
{
    assert forall|i: int| 0 <= i < copy.len() implies #[trigger] node_wf(copy, i) by {
        assert(node_cloned(orig[i], copy[i]));
        assert(node_wf(orig, i));
        if copy[i] is Some && copy[i]->Some_0.1 is None {
            assert(node_cloned(orig[2 * i + 1], copy[2 * i + 1]));
            assert(node_cloned(orig[2 * i + 2], copy[2 * i + 2]));
        }
    }
    assert(node_cloned(orig[0], copy[0]));
}

} // verus!
