//! Applying a function to every key and value of a tree, keeping its shape.
use crate::tree::{layout_wf, node_wf, LinearNode, LinearTree, RecursiveTree};
use vstd::prelude::*;

verus! {

/// `res` has the shape of `orig`, with each key and value mapped by `fk` and `fv`.
pub open spec fn tree_mapped<K, V, K2, V2, FK: Fn(&K) -> K2, FV: Fn(&V) -> V2>(
    orig: RecursiveTree<K, V>,
    res: RecursiveTree<K2, V2>,
    fk: FK,
    fv: FV,
) -> bool
    decreases orig,
{
    match (orig, res) {
        (RecursiveTree::Leaf(k, v), RecursiveTree::Leaf(k2, v2)) => fk.ensures((&k,), k2) && fv.ensures(
            (&v,),
            v2,
        ),
        (RecursiveTree::Branch(k, l, r), RecursiveTree::Branch(k2, l2, r2)) => {
            &&& fk.ensures((&k,), k2)
            &&& tree_mapped(*l, *l2, fk, fv)
            &&& tree_mapped(*r, *r2, fk, fv)
        },
        _ => false,
    }
}

/// `res` has the shape of `orig`: each value mapped by `fv`, each leaf keyed by `leaf_key` of its
/// new value, and each branch keyed by `join` of the new keys of its children.
pub open spec fn tree_rebuilt<K, V, FV: Fn(&V) -> V, FL: Fn(&V) -> K, FJ: Fn(&K, &K) -> K>(
    orig: RecursiveTree<K, V>,
    res: RecursiveTree<K, V>,
    fv: FV,
    leaf_key: FL,
    join: FJ,
) -> bool
    decreases orig,
{
    match (orig, res) {
        (RecursiveTree::Leaf(_, v), RecursiveTree::Leaf(k2, v2)) => fv.ensures((&v,), v2)
            && leaf_key.ensures((&v2,), k2),
        (RecursiveTree::Branch(_, l, r), RecursiveTree::Branch(k2, l2, r2)) => {
            &&& tree_rebuilt(*l, *l2, fv, leaf_key, join)
            &&& tree_rebuilt(*r, *r2, fv, leaf_key, join)
            &&& join.ensures((&l2.spec_key(), &r2.spec_key()), k2)
        },
        _ => false,
    }
}

/// Every branch of `t` is keyed by `join` of the keys of its children.
pub open spec fn keys_joined<K, V, FJ: Fn(&K, &K) -> K>(t: RecursiveTree<K, V>, join: FJ) -> bool
    decreases t,
{
    match t {
        RecursiveTree::Leaf(_, _) => true,
        RecursiveTree::Branch(k, l, r) => {
            &&& join.ensures((&l.spec_key(), &r.spec_key()), k)
            &&& keys_joined(*l, join)
            &&& keys_joined(*r, join)
        },
    }
}

/// A rebuilt tree has every branch keyed by `join` of its children's keys.
pub proof fn lemma_rebuilt_keys_joined<K, V, FV: Fn(&V) -> V, FL: Fn(&V) -> K, FJ: Fn(&K, &K) -> K>(
    orig: RecursiveTree<K, V>,
    res: RecursiveTree<K, V>,
    fv: FV,
    leaf_key: FL,
    join: FJ,
)
    requires
        tree_rebuilt(orig, res, fv, leaf_key, join),
    ensures
        keys_joined(res, join),
    decreases orig,
{
    if let (RecursiveTree::Branch(_, l, r), RecursiveTree::Branch(_, l2, r2)) = (orig, res) {
        lemma_rebuilt_keys_joined(*l, *l2, fv, leaf_key, join);
        lemma_rebuilt_keys_joined(*r, *r2, fv, leaf_key, join);
    }
}

/// Slot `res` holds the node of slot `orig` with its key and value mapped by `fk` and `fv`.
pub open spec fn slot_mapped<K, V, K2, V2, FK: Fn(&K) -> K2, FV: Fn(&V) -> V2>(
    orig: Option<LinearNode<K, V>>,
    res: Option<LinearNode<K2, V2>>,
    fk: FK,
    fv: FV,
) -> bool {
    match (orig, res) {
        (None, None) => true,
        (Some(a), Some(b)) => {
            &&& fk.ensures((&a.0,), b.0)
            &&& match (a.1, b.1) {
                (None, None) => true,
                (Some(x), Some(y)) => fv.ensures((&x,), y),
                _ => false,
            }
        },
        _ => false,
    }
}

/// A slot-by-slot image of a layout under functions of the keys and values is a layout.
proof fn lemma_mapped_wf<K, V, K2, V2, FK: Fn(&K) -> K2, FV: Fn(&V) -> V2>(
    a: Seq<Option<LinearNode<K, V>>>,
    res: Seq<Option<LinearNode<K2, V2>>>,
    fk: FK,
    fv: FV,
)
    requires
        layout_wf(a),
        res.len() == a.len(),
        forall|i: int| 0 <= i < a.len() ==> slot_mapped(a[i], #[trigger] res[i], fk, fv),
    ensures
        layout_wf(res),
{
    assert forall|i: int| 0 <= i < res.len() implies #[trigger] node_wf(res, i) by {
        assert(slot_mapped(a[i], res[i], fk, fv));
        assert(node_wf(a, i));
        if res[i] is Some && res[i]->Some_0.1 is None {
            assert(slot_mapped(a[2 * i + 1], res[2 * i + 1], fk, fv));
            assert(slot_mapped(a[2 * i + 2], res[2 * i + 2], fk, fv));
        }
    }
    assert(slot_mapped(a[0], res[0], fk, fv));
}

impl<K, V> RecursiveTree<K, V> {
    /// The tree with every key mapped by `fk` and every value by `fv`.
    pub fn map<K2, V2, FK: Fn(&K) -> K2, FV: Fn(&V) -> V2>(&self, fk: &FK, fv: &FV) -> (res:
        RecursiveTree<K2, V2>)
        requires
            forall|k: &K| #[trigger] fk.requires((k,)),
            forall|v: &V| #[trigger] fv.requires((v,)),
        ensures
            tree_mapped(*self, res, *fk, *fv),
        decreases self,
    {
        match self {
            RecursiveTree::Leaf(k, v) => RecursiveTree::Leaf(fk(k), fv(v)),
            RecursiveTree::Branch(k, l, r) => {
                let k2 = fk(k);
                let l2 = l.map(fk, fv);
                let r2 = r.map(fk, fv);
                RecursiveTree::Branch(k2, Box::new(l2), Box::new(r2))
            },
        }
    }
}

impl<K, V> RecursiveTree<K, V> {
    /// The tree with every value mapped by `fv`, and its keys recomputed bottom-up: a leaf
    /// keyed by `leaf_key` of its new value, a branch by `join` of its children's new keys.
    pub fn rebuild<FV: Fn(&V) -> V, FL: Fn(&V) -> K, FJ: Fn(&K, &K) -> K>(
        &self,
        fv: &FV,
        leaf_key: &FL,
        join: &FJ,
    ) -> (res: RecursiveTree<K, V>)
        requires
            forall|v: &V| #[trigger] fv.requires((v,)),
            forall|v: &V| #[trigger] leaf_key.requires((v,)),
            forall|a: &K, b: &K| #[trigger] join.requires((a, b)),
        ensures
            tree_rebuilt(*self, res, *fv, *leaf_key, *join),
        decreases self,
    {
        match self {
            RecursiveTree::Leaf(_, t) => {
                let triangle = fv(t);
                let bound = leaf_key(&triangle);
                RecursiveTree::Leaf(bound, triangle)
            },
            RecursiveTree::Branch(_, l, r) => {
                let left = l.rebuild(fv, leaf_key, join);
                let right = r.rebuild(fv, leaf_key, join);
                let bounding = join(left.key(), right.key());
                RecursiveTree::Branch(bounding, Box::new(left), Box::new(right))
            },
        }
    }
}

impl<K, V> LinearTree<K, V> {
    /// The tree with every key mapped by `fk` and every value by `fv`, slot by slot.
    pub fn map<K2, V2, FK: Fn(&K) -> K2, FV: Fn(&V) -> V2>(&self, fk: &FK, fv: &FV) -> (res:
        LinearTree<K2, V2>)
        requires
            forall|k: &K| #[trigger] fk.requires((k,)),
            forall|v: &V| #[trigger] fv.requires((v,)),
        ensures
            res@.len() == self@.len(),
            forall|i: int| 0 <= i < self@.len() ==> slot_mapped(self@[i], #[trigger] res@[i], *fk, *fv),
    {
        let raw = self.raw();
        let n = raw.len();
        let mut out: Vec<Option<LinearNode<K2, V2>>> = Vec::new();
        let mut i: usize = 0;
        while i < n
            invariant
                raw@ == self@,
                n == raw@.len(),
                i <= n,
                out@.len() == i,
                forall|k: &K| #[trigger] fk.requires((k,)),
                forall|v: &V| #[trigger] fv.requires((v,)),
                forall|j: int| 0 <= j < i ==> slot_mapped(raw@[j], #[trigger] out@[j], *fk, *fv),
            decreases n - i,
        {
            let slot = match &raw[i] {
                None => None,
                Some(node) => {
                    let k2 = fk(&node.0);
                    let v2 = match &node.1 {
                        None => None,
                        Some(v) => Some(fv(v)),
                    };
                    Some(LinearNode(k2, v2))
                },
            };
            out.push(slot);
            i = i + 1;
        }
        proof {
            use_type_invariant(self);
            lemma_mapped_wf(self@, out@, *fk, *fv);
        }
        LinearTree::from_raw(out)
    }
}

} // verus!
