//! Bounding-volume hierarchy stored in flat vectors: nodes, bounding volumes
//! (boxes) and primitives (triangles), linked by indices.
use crate::common::Collides;
use crate::hierarchy::{
    checked_hit, checked_miss, keys_bound, leaf_pair_hit, lemma_checked_hit_sound,
    lemma_checked_miss_complete, values_agree,
};
use crate::map::{keys_joined, tree_mapped, tree_rebuilt};
use crate::tree::{tree_cloned, RecursiveTree};
use vstd::prelude::*;

verus! {

#[derive(Debug, Clone, Copy)]
struct BoxIdx(usize);

#[derive(Debug, Clone, Copy)]
struct TriIdx(usize);

#[derive(Debug, Clone, Copy)]
struct NodeIdx(usize);

#[derive(Clone, Copy)]
enum BvhNode {
    Branch(BoxIdx, NodeIdx, NodeIdx),
    Leaf(BoxIdx, TriIdx),
}

/// The index of the box of a node.
spec fn node_box(n: BvhNode) -> nat {
    match n {
        BvhNode::Branch(b, _, _) => b.0 as nat,
        BvhNode::Leaf(b, _) => b.0 as nat,
    }
}

impl BvhNode {
    #[inline]
    fn get_box_idx(&self) -> (res: &BoxIdx)
        ensures
            res.0 == node_box(*self),
    {
        match self {
            BvhNode::Branch(idx, ..) => idx,
            BvhNode::Leaf(idx, ..) => idx,
        }
    }
}

/// Node `i` has box `i`, its children come before it, and a leaf's triangle exists.
spec fn node_ok(n: BvhNode, i: int, nt: nat) -> bool {
    match n {
        BvhNode::Branch(b, l, r) => b.0 == i && l.0 < i && r.0 < i,
        BvhNode::Leaf(b, t) => b.0 == i && t.0 < nt,
    }
}

/// Node `j` lies in the hierarchy under node `i` (`i` itself included).
spec fn under(nodes: Seq<BvhNode>, i: int, j: int) -> bool
    decreases i,
{
    j == i || (0 <= i < nodes.len() && match nodes[i] {
        BvhNode::Branch(_, l, r) => 0 <= l.0 < i && 0 <= r.0 < i && (under(nodes, l.0 as int, j)
            || under(nodes, r.0 as int, j)),
        BvhNode::Leaf(_, _) => false,
    })
}

/// The two children of a branch are distinct and share no node.
spec fn shaped_at(nodes: Seq<BvhNode>, i: int) -> bool {
    match nodes[i] {
        BvhNode::Branch(_, l, r) => l.0 != r.0 && forall|j: int|
            !(#[trigger] under(nodes, l.0 as int, j) && under(nodes, r.0 as int, j)),
        BvhNode::Leaf(_, _) => true,
    }
}

/// Nodes and boxes match one to one, every node is well formed, and the hierarchy under
/// every node is a tree.
spec fn nodes_ok(nodes: Seq<BvhNode>, nb: nat, nt: nat) -> bool {
    &&& nodes.len() == nb
    &&& forall|i: int| 0 <= i < nodes.len() ==> #[trigger] node_ok(nodes[i], i, nt)
    &&& forall|i: int| 0 <= i < nodes.len() ==> #[trigger] shaped_at(nodes, i)
}

/// A node under node `i` comes no later than `i`, and no earlier than the first node.
proof fn lemma_under_le(nodes: Seq<BvhNode>, i: int, j: int)
    requires
        under(nodes, i, j),
        i >= 0,
    ensures
        0 <= j <= i,
    decreases i,
{
    if j != i {
        if let BvhNode::Branch(_, l, r) = nodes[i] {
            if under(nodes, l.0 as int, j) {
                lemma_under_le(nodes, l.0 as int, j);
            } else {
                lemma_under_le(nodes, r.0 as int, j);
            }
        }
    }
}

/// Appending nodes leaves the hierarchies under the existing nodes unchanged.
proof fn lemma_under_prefix(nodes: Seq<BvhNode>, more: Seq<BvhNode>, i: int, j: int)
    requires
        nodes.len() <= more.len(),
        forall|k: int| 0 <= k < nodes.len() ==> #[trigger] more[k] == nodes[k],
        0 <= i < nodes.len(),
    ensures
        under(nodes, i, j) == under(more, i, j),
    decreases i,
{
    assert(more[i] == nodes[i]);
    if let BvhNode::Branch(_, l, r) = nodes[i] {
        if 0 <= l.0 < i && 0 <= r.0 < i {
            lemma_under_prefix(nodes, more, l.0 as int, j);
            lemma_under_prefix(nodes, more, r.0 as int, j);
        }
    }
}

/// Appending nodes keeps the existing nodes shaped.
proof fn lemma_shaped_prefix(nodes: Seq<BvhNode>, more: Seq<BvhNode>, i: int, nt: nat)
    requires
        nodes.len() <= more.len(),
        forall|k: int| 0 <= k < nodes.len() ==> #[trigger] more[k] == nodes[k],
        0 <= i < nodes.len(),
        node_ok(nodes[i], i, nt),
        shaped_at(nodes, i),
    ensures
        shaped_at(more, i),
{
    assert(more[i] == nodes[i]);
    if let BvhNode::Branch(_, l, r) = nodes[i] {
        assert forall|j: int| !(#[trigger] under(more, l.0 as int, j) && under(more, r.0 as int, j)) by {
            lemma_under_prefix(nodes, more, l.0 as int, j);
            lemma_under_prefix(nodes, more, r.0 as int, j);
        }
    }
}

/// The hierarchy rooted at node `i`, with its boxes as keys and its triangles as values.
spec fn arr_tree<B, T>(nodes: Seq<BvhNode>, boxes: Seq<B>, tris: Seq<T>, i: int) -> RecursiveTree<B, T>
    decreases i,
{
    if 0 <= i < nodes.len() {
        match nodes[i] {
            BvhNode::Leaf(b, t) => RecursiveTree::Leaf(boxes[b.0 as int], tris[t.0 as int]),
            BvhNode::Branch(b, l, r) => if 0 <= l.0 < i && 0 <= r.0 < i {
                RecursiveTree::Branch(
                    boxes[b.0 as int],
                    Box::new(arr_tree(nodes, boxes, tris, l.0 as int)),
                    Box::new(arr_tree(nodes, boxes, tris, r.0 as int)),
                )
            } else {
                arbitrary()
            },
        }
    } else {
        arbitrary()
    }
}

/// `left` and `right` split `indexes`: neither is empty and together they hold the indexes.
pub open spec fn valid_split(indexes: Seq<usize>, left: Seq<usize>, right: Seq<usize>) -> bool {
    &&& left.len() >= 1
    &&& right.len() >= 1
    &&& (left + right).to_multiset() =~= indexes.to_multiset()
}

/// The split results are smaller than what was split, and come from it.
proof fn lemma_valid_split(indexes: Seq<usize>, left: Seq<usize>, right: Seq<usize>)
    requires
        valid_split(indexes, left, right),
    ensures
        left.len() < indexes.len(),
        right.len() < indexes.len(),
        left.len() + right.len() == indexes.len(),
        forall|x: usize| left.contains(x) ==> indexes.contains(x),
        forall|x: usize| right.contains(x) ==> indexes.contains(x),
{
    broadcast use vstd::seq_lib::group_to_multiset_ensures;

    vstd::seq_lib::lemma_multiset_commutative(left, right);
    assert forall|x: usize| left.contains(x) implies indexes.contains(x) by {
        assert(left.to_multiset().count(x) > 0);
        assert((left + right).to_multiset().count(x) > 0);
    }
    assert forall|x: usize| right.contains(x) implies indexes.contains(x) by {
        assert(right.to_multiset().count(x) > 0);
        assert((left + right).to_multiset().count(x) > 0);
    }
    assert((left + right).to_multiset().len() == indexes.to_multiset().len());
    assert((left + right).len() == indexes.len());
}

/// The leaf nodes under node `i`, from left to right.
spec fn leaf_nodes(nodes: Seq<BvhNode>, i: int) -> Seq<usize>
    decreases i,
{
    if 0 <= i < nodes.len() {
        match nodes[i] {
            BvhNode::Leaf(_, _) => seq![i as usize],
            BvhNode::Branch(_, l, r) => if 0 <= l.0 < i && 0 <= r.0 < i {
                leaf_nodes(nodes, l.0 as int) + leaf_nodes(nodes, r.0 as int)
            } else {
                seq![]
            },
        }
    } else {
        seq![]
    }
}

/// Appending nodes leaves the subtrees of the existing nodes unchanged.
proof fn lemma_leaf_nodes_prefix(nodes: Seq<BvhNode>, more: Seq<BvhNode>, i: int)
    requires
        nodes.len() <= more.len(),
        nodes =~= more.subrange(0, nodes.len() as int),
        0 <= i < nodes.len(),
    ensures
        leaf_nodes(nodes, i) == leaf_nodes(more, i),
    decreases i,
{
    assert(nodes[i] == more[i]);
    if let BvhNode::Branch(_, l, r) = nodes[i] {
        if 0 <= l.0 < i && 0 <= r.0 < i {
            lemma_leaf_nodes_prefix(nodes, more, l.0 as int);
            lemma_leaf_nodes_prefix(nodes, more, r.0 as int);
        }
    }
}

/// `split` can divide `indexes` into `left` and `right`, given boxes that `boxes` begins with.
pub open spec fn split_made<B, FS: Fn(&[B], &[usize]) -> (Vec<usize>, Vec<usize>)>(
    boxes: Seq<B>,
    indexes: Seq<usize>,
    left: Seq<usize>,
    right: Seq<usize>,
    split: FS,
) -> bool {
    exists|b: &[B], x: &[usize], out: (Vec<usize>, Vec<usize>)|
        #![trigger split.ensures((b, x), out)]
        b@.len() <= boxes.len() && b@ == boxes.subrange(0, b@.len() as int) && x@ == indexes
            && out.0@ == left && out.1@ == right && split.ensures((b, x), out)
}

/// Node `i` is the hierarchy built over the leaf nodes `indexes`: that leaf for one index;
/// otherwise a branch over the hierarchies built over the two parts that `split` made of
/// the indexes.
spec fn built_at<B, FS: Fn(&[B], &[usize]) -> (Vec<usize>, Vec<usize>)>(
    nodes: Seq<BvhNode>,
    boxes: Seq<B>,
    i: int,
    indexes: Seq<usize>,
    split: FS,
) -> bool
    decreases indexes.len(),
{
    if indexes.len() == 1 {
        i == indexes[0] as int
    } else if indexes.len() > 1 {
        &&& 0 <= i < nodes.len()
        &&& nodes[i] is Branch
        &&& exists|left: Seq<usize>, right: Seq<usize>|
            #![trigger split_made(boxes, indexes, left, right, split)]
            split_made(boxes, indexes, left, right, split) && 1 <= left.len() < indexes.len() && 1
                <= right.len() < indexes.len() && built_at(
                nodes,
                boxes,
                nodes[i]->Branch_1.0 as int,
                left,
                split,
            ) && built_at(nodes, boxes, nodes[i]->Branch_2.0 as int, right, split)
    } else {
        false
    }
}

proof fn lemma_split_made_prefix<B, FS: Fn(&[B], &[usize]) -> (Vec<usize>, Vec<usize>)>(
    boxes: Seq<B>,
    more: Seq<B>,
    indexes: Seq<usize>,
    left: Seq<usize>,
    right: Seq<usize>,
    split: FS,
)
    requires
        split_made(boxes, indexes, left, right, split),
        boxes.len() <= more.len(),
        forall|j: int| 0 <= j < boxes.len() ==> #[trigger] more[j] == boxes[j],
    ensures
        split_made(more, indexes, left, right, split),
{
    let (b, x, out) = choose|b: &[B], x: &[usize], out: (Vec<usize>, Vec<usize>)|
        #![trigger split.ensures((b, x), out)]
        b@.len() <= boxes.len() && b@ == boxes.subrange(0, b@.len() as int) && x@ == indexes
            && out.0@ == left && out.1@ == right && split.ensures((b, x), out);
    assert(b@ =~= more.subrange(0, b@.len() as int)) by {
        assert forall|j: int| 0 <= j < b@.len() implies b@[j] == more[j] by {
            assert(b@[j] == boxes[j]);
        }
    }
}

/// Appending nodes and boxes keeps the hierarchies built at existing nodes.
proof fn lemma_built_prefix<B, FS: Fn(&[B], &[usize]) -> (Vec<usize>, Vec<usize>)>(
    nodes: Seq<BvhNode>,
    boxes: Seq<B>,
    more_nodes: Seq<BvhNode>,
    more_boxes: Seq<B>,
    i: int,
    indexes: Seq<usize>,
    split: FS,
)
    requires
        built_at(nodes, boxes, i, indexes, split),
        nodes.len() <= more_nodes.len(),
        forall|j: int| 0 <= j < nodes.len() ==> #[trigger] more_nodes[j] == nodes[j],
        boxes.len() <= more_boxes.len(),
        forall|j: int| 0 <= j < boxes.len() ==> #[trigger] more_boxes[j] == boxes[j],
    ensures
        built_at(more_nodes, more_boxes, i, indexes, split),
    decreases indexes.len(),
{
    if indexes.len() > 1 {
        let (left, right) = choose|left: Seq<usize>, right: Seq<usize>|
            #![trigger split_made(boxes, indexes, left, right, split)]
            split_made(boxes, indexes, left, right, split) && 1 <= left.len() < indexes.len() && 1
                <= right.len() < indexes.len() && built_at(
                nodes,
                boxes,
                nodes[i]->Branch_1.0 as int,
                left,
                split,
            ) && built_at(nodes, boxes, nodes[i]->Branch_2.0 as int, right, split);
        assert(more_nodes[i] == nodes[i]);
        lemma_split_made_prefix(boxes, more_boxes, indexes, left, right, split);
        lemma_built_prefix(
            nodes,
            boxes,
            more_nodes,
            more_boxes,
            nodes[i]->Branch_1.0 as int,
            left,
            split,
        );
        lemma_built_prefix(
            nodes,
            boxes,
            more_nodes,
            more_boxes,
            nodes[i]->Branch_2.0 as int,
            right,
            split,
        );
    }
}

/// Pushes a leaf node and its box for each triangle; returns the indexes of the new nodes.
fn make_leaves<B, T, FB: Fn(&T) -> B>(
    triangles: &[T],
    nodes: &mut Vec<BvhNode>,
    boxes: &mut Vec<B>,
    bound_triangle: &FB,
) -> (res: Vec<usize>)
    requires
        old(nodes)@.len() == 0,
        old(boxes)@.len() == 0,
        forall|t: &T| #[trigger] bound_triangle.requires((t,)),
    ensures
        final(nodes)@.len() == triangles@.len(),
        final(boxes)@.len() == triangles@.len(),
        res@.len() == triangles@.len(),
        forall|i: int|
            0 <= i < triangles@.len() ==> #[trigger] final(nodes)@[i] == BvhNode::Leaf(
                BoxIdx(i as usize),
                TriIdx(i as usize),
            ),
        forall|i: int|
            0 <= i < triangles@.len() ==> bound_triangle.ensures(
                (&triangles@[i],),
                #[trigger] final(boxes)@[i],
            ),
        forall|i: int| 0 <= i < triangles@.len() ==> #[trigger] res@[i] == i,
{
    let mut tri_indexes: Vec<usize> = Vec::new();
    let n = triangles.len();
    let mut idx: usize = 0;
    while idx < n
        invariant
            n == triangles@.len(),
            idx <= n,
            nodes@.len() == idx,
            boxes@.len() == idx,
            tri_indexes@.len() == idx,
            forall|t: &T| #[trigger] bound_triangle.requires((t,)),
            forall|i: int|
                0 <= i < idx ==> #[trigger] nodes@[i] == BvhNode::Leaf(
                    BoxIdx(i as usize),
                    TriIdx(i as usize),
                ),
            forall|i: int| 0 <= i < idx ==> bound_triangle.ensures((&triangles@[i],), #[trigger] boxes@[i]),
            forall|i: int| 0 <= i < idx ==> #[trigger] tri_indexes@[i] == i,
        decreases n - idx,
    {
        let tri = &triangles[idx];
        boxes.push(bound_triangle(tri));
        nodes.push(BvhNode::Leaf(BoxIdx(boxes.len() - 1), TriIdx(idx)));
        tri_indexes.push(idx);
        idx = idx + 1;
    }
    tri_indexes
}

/// Builds a subtree over the (leaf) nodes in `indexes`: splits them with `split`, builds the
/// two halves, and joins their boxes with `join`. Returns the index of the subtree's root.
fn make_subtree<B, T, FS: Fn(&[B], &[usize]) -> (Vec<usize>, Vec<usize>), FJ: Fn(&B, &B) -> B>(
    nodes: &mut Vec<BvhNode>,
    boxes: &mut Vec<B>,
    indexes: &[usize],
    split: &FS,
    join: &FJ,
    Ghost(nt): Ghost<nat>,
    Ghost(tris): Ghost<Seq<T>>,
) -> (res: usize)
    requires
        tris.len() == nt,
        nodes_ok(old(nodes)@, old(boxes)@.len(), nt),
        indexes@.len() >= 1,
        forall|j: int| 0 <= j < indexes@.len() ==> #[trigger] indexes@[j] < old(nodes)@.len(),
        forall|j: int|
            0 <= j < indexes@.len() ==> old(nodes)@[#[trigger] indexes@[j] as int] is Leaf,
        forall|x: usize| #[trigger] indexes@.to_multiset().count(x) <= 1,
        forall|b: &[B], x: &[usize]| #[trigger] split.requires((b, x)),
        forall|b: &[B], x: &[usize], out: (Vec<usize>, Vec<usize>)|
            #[trigger] split.ensures((b, x), out) && x@.len() >= 2 ==> valid_split(
                x@,
                out.0@,
                out.1@,
            ),
        forall|a: &B, b: &B| #[trigger] join.requires((a, b)),
    ensures
        nodes_ok(final(nodes)@, final(boxes)@.len(), nt),
        res < final(nodes)@.len(),
        old(nodes)@.len() <= final(nodes)@.len(),
        old(nodes)@ =~= final(nodes)@.subrange(0, old(nodes)@.len() as int),
        old(boxes)@ =~= final(boxes)@.subrange(0, old(boxes)@.len() as int),
        leaf_nodes(final(nodes)@, res as int).to_multiset() =~= indexes@.to_multiset(),
        forall|j: int|
            #[trigger] under(final(nodes)@, res as int, j) ==> (0 <= j && indexes@.contains(j as usize))
                || (old(nodes)@.len() <= j < final(nodes)@.len()),
        keys_joined(arr_tree(final(nodes)@, final(boxes)@, tris, res as int), *join),
        built_at(final(nodes)@, final(boxes)@, res as int, indexes@, *split),
        final(nodes)@.len() == old(nodes)@.len() + indexes@.len() - 1,
        indexes@.len() > 1 ==> res == final(nodes)@.len() - 1,
    decreases indexes@.len(),
{
    if indexes.len() == 1 {
        proof {
            assert(indexes@ =~= seq![indexes@[0]]);
            assert forall|j: int|
                #[trigger] under(nodes@, indexes@[0] as int, j) implies (0 <= j && indexes@.contains(j as usize))
                    || (nodes@.len() <= j < nodes@.len()) by {
                assert(nodes@[indexes@[0] as int] is Leaf);
                assert(indexes@[0] == j as usize);
            }
        }
        return indexes[0];
    }
    let ghost b0 = boxes@;
    let bs = boxes.as_slice();
    let parts = split(bs, indexes);
    proof {
        assert(bs@ =~= b0.subrange(0, bs@.len() as int));
        assert(split.ensures((bs, indexes), parts));
        assert(split_made(b0, indexes@, parts.0@, parts.1@, *split));
    }
    let (left, right) = parts;
    proof {
        lemma_valid_split(indexes@, left@, right@);
        broadcast use vstd::seq_lib::group_to_multiset_ensures;
        vstd::seq_lib::lemma_multiset_commutative(left@, right@);
        assert forall|x: usize| #[trigger] left@.to_multiset().count(x) <= 1 by {
            assert(indexes@.to_multiset().count(x) <= 1);
        }
        assert forall|x: usize| #[trigger] right@.to_multiset().count(x) <= 1 by {
            assert(indexes@.to_multiset().count(x) <= 1);
        }
        assert forall|x: usize| !(#[trigger] left@.contains(x) && right@.contains(x)) by {
            if left@.contains(x) && right@.contains(x) {
                assert(left@.to_multiset().count(x) > 0);
                assert(right@.to_multiset().count(x) > 0);
                assert(indexes@.to_multiset().count(x) <= 1);
            }
        }
        assert forall|j: int| 0 <= j < left@.len() implies #[trigger] left@[j] < nodes@.len() && nodes@[left@[j] as int] is Leaf by {
            assert(left@.contains(left@[j]));
        }
        assert forall|j: int| 0 <= j < right@.len() implies #[trigger] right@[j] < nodes@.len() && nodes@[right@[j] as int] is Leaf by {
            assert(right@.contains(right@[j]));
        }
    }
    let ghost n0 = nodes@;
    let left_idx = make_subtree::<B, T, FS, FJ>(nodes, boxes, left.as_slice(), split, join, Ghost(nt), Ghost(tris));
    let ghost b1 = boxes@;
    let ghost n1 = nodes@;
    proof {
        assert forall|j: int| 0 <= j < right@.len() implies #[trigger] right@[j] < n1.len() && n1[right@[j] as int] is Leaf by {
            assert(right@.contains(right@[j]));
            assert(n0[right@[j] as int] == n1[right@[j] as int]);
        }
    }
    let right_idx = make_subtree::<B, T, FS, FJ>(nodes, boxes, right.as_slice(), split, join, Ghost(nt), Ghost(tris));
    let ghost n2 = nodes@;
    let ghost b2 = boxes@;
    let lb = nodes[left_idx].get_box_idx().0;
    let rb = nodes[right_idx].get_box_idx().0;
    proof {
        assert(node_ok(n2[left_idx as int], left_idx as int, nt));
        assert(node_ok(n2[right_idx as int], right_idx as int, nt));
    }
    let bounding = join(&boxes[lb], &boxes[rb]);
    boxes.push(bounding);
    nodes.push(BvhNode::Branch(BoxIdx(boxes.len() - 1), NodeIdx(left_idx), NodeIdx(right_idx)));
    proof {
        let n3 = nodes@;
        let top = (n3.len() - 1) as int;
        assert forall|i: int| 0 <= i < n3.len() implies #[trigger] node_ok(n3[i], i, nt) by {
            if i < n2.len() {
                assert(n3[i] == n2[i]);
            }
        }
        assert forall|j: int| #[trigger] under(n3, left_idx as int, j) == under(n1, left_idx as int, j) by {
            lemma_under_prefix(n1, n3, left_idx as int, j);
        }
        assert forall|j: int| #[trigger] under(n3, right_idx as int, j) == under(n2, right_idx as int, j) by {
            lemma_under_prefix(n2, n3, right_idx as int, j);
        }
        assert forall|i: int| 0 <= i < n3.len() implies #[trigger] shaped_at(n3, i) by {
            if i < n2.len() {
                assert(node_ok(n2[i], i, nt));
                lemma_shaped_prefix(n2, n3, i, nt);
            } else {
                assert forall|j: int|
                    !(#[trigger] under(n3, left_idx as int, j) && under(n3, right_idx as int, j)) by {
                    if under(n3, left_idx as int, j) && under(n3, right_idx as int, j) {
                        assert(under(n1, left_idx as int, j));
                        assert(under(n2, right_idx as int, j));
                        if 0 <= j && left@.contains(j as usize) {
                            assert(indexes@.contains(j as usize));
                        }
                    }
                }
                assert(under(n3, left_idx as int, left_idx as int));
                assert(under(n3, right_idx as int, right_idx as int));
            }
        }
        assert forall|j: int|
            #[trigger] under(n3, top, j) implies (0 <= j && indexes@.contains(j as usize))
                || (n0.len() <= j < n3.len()) by {
            if j != top {
                assert(n3[top] == BvhNode::Branch(BoxIdx(top as usize), NodeIdx(left_idx), NodeIdx(right_idx)));
                assert(under(n3, left_idx as int, j) || under(n3, right_idx as int, j));
                if under(n3, left_idx as int, j) {
                    assert(under(n1, left_idx as int, j));
                } else {
                    assert(under(n3, right_idx as int, j));
                    assert(under(n2, right_idx as int, j));
                }
            }
        }
        assert(n1 =~= n2.subrange(0, n1.len() as int));
        lemma_leaf_nodes_prefix(n1, n3, left_idx as int);
        lemma_leaf_nodes_prefix(n2, n3, right_idx as int);
        assert(n2 =~= n3.subrange(0, n2.len() as int));
        let root = (n3.len() - 1) as int;
        assert(leaf_nodes(n3, root) == leaf_nodes(n3, left_idx as int) + leaf_nodes(n3, right_idx as int));
        vstd::seq_lib::lemma_multiset_commutative(leaf_nodes(n3, left_idx as int), leaf_nodes(n3, right_idx as int));
        vstd::seq_lib::lemma_multiset_commutative(left@, right@);
        let b3 = boxes@;
        assert forall|j: int| 0 <= j < n1.len() implies #[trigger] n3[j] == n1[j] by {
            assert(n1[j] == n2[j]);
        }
        assert forall|j: int| 0 <= j < b1.len() implies #[trigger] b3[j] == b1[j] by {
            assert(b1 =~= b2.subrange(0, b1.len() as int));
            assert(b1[j] == b2[j]);
        }
        assert forall|j: int| 0 <= j < n2.len() implies #[trigger] n3[j] == n2[j] by {}
        assert forall|j: int| 0 <= j < b2.len() implies #[trigger] b3[j] == b2[j] by {}
        lemma_arr_tree_prefix(n1, b1, tris, n3, b3, tris, left_idx as int);
        lemma_arr_tree_prefix(n2, b2, tris, n3, b3, tris, right_idx as int);
        assert(arr_tree(n3, b3, tris, left_idx as int).spec_key() == b3[lb as int]);
        assert(arr_tree(n3, b3, tris, right_idx as int).spec_key() == b3[rb as int]);
        assert forall|j: int| 0 <= j < b0.len() implies #[trigger] b3[j] == b0[j] by {
            assert(b0 =~= b1.subrange(0, b0.len() as int));
            assert(b0[j] == b1[j]);
        }
        lemma_split_made_prefix(b0, b3, indexes@, left@, right@, *split);
        lemma_built_prefix(n1, b1, n3, b3, left_idx as int, left@, *split);
        lemma_built_prefix(n2, b2, n3, b3, right_idx as int, right@, *split);
        assert(n3[top] is Branch);
        assert(n3[top]->Branch_1.0 == left_idx);
        assert(n3[top]->Branch_2.0 == right_idx);
    }
    nodes.len() - 1
}

/// The triangle index of a leaf node.
spec fn tri_index(n: BvhNode) -> usize {
    match n {
        BvhNode::Leaf(_, t) => t.0,
        BvhNode::Branch(_, _, _) => 0,
    }
}

/// The leaf nodes under a node are leaves.
proof fn lemma_leaf_nodes_are_leaves(nodes: Seq<BvhNode>, i: int)
    requires
        nodes.len() <= usize::MAX,
    ensures
        forall|j: int|
            0 <= j < leaf_nodes(nodes, i).len() ==> {
                let x = #[trigger] leaf_nodes(nodes, i)[j];
                0 <= x < nodes.len() && nodes[x as int] is Leaf
            },
    decreases i,
{
    if 0 <= i < nodes.len() {
        if nodes[i] is Leaf {
            assert(leaf_nodes(nodes, i) =~= seq![i as usize]);
        }
        if let BvhNode::Branch(_, l, r) = nodes[i] {
            if 0 <= l.0 < i && 0 <= r.0 < i {
                assert(leaf_nodes(nodes, i) == leaf_nodes(nodes, l.0 as int) + leaf_nodes(nodes, r.0 as int));
                lemma_leaf_nodes_are_leaves(nodes, l.0 as int);
                lemma_leaf_nodes_are_leaves(nodes, r.0 as int);
                let a = leaf_nodes(nodes, l.0 as int);
                let b = leaf_nodes(nodes, r.0 as int);
                assert forall|j: int| 0 <= j < (a + b).len() implies {
                    let x = #[trigger] (a + b)[j];
                    0 <= x < nodes.len() && nodes[x as int] is Leaf
                } by {
                    if j < a.len() {
                        assert((a + b)[j] == a[j]);
                    } else {
                        assert((a + b)[j] == b[j - a.len()]);
                    }
                }
            }
        }
    }
}

/// The values at the leaves of the hierarchy under node `i` are the triangles of its leaf nodes.
proof fn lemma_arr_tree_leaves<B, T>(nodes: Seq<BvhNode>, boxes: Seq<B>, tris: Seq<T>, i: int)
    requires
        nodes_ok(nodes, boxes.len(), tris.len()),
        0 <= i < nodes.len(),
    ensures
        arr_tree(nodes, boxes, tris, i).spec_leaves() =~= leaf_nodes(nodes, i).map_values(
            |x: usize| tris[tri_index(nodes[x as int]) as int],
        ),
    decreases i,
{
    assert(node_ok(nodes[i], i, tris.len()));
    if let BvhNode::Branch(_, l, r) = nodes[i] {
        lemma_arr_tree_leaves(nodes, boxes, tris, l.0 as int);
        lemma_arr_tree_leaves(nodes, boxes, tris, r.0 as int);
        let f = |x: usize| tris[tri_index(nodes[x as int]) as int];
        let a = leaf_nodes(nodes, l.0 as int);
        let b = leaf_nodes(nodes, r.0 as int);
        assert((a + b).map_values(f) =~= a.map_values(f) + b.map_values(f));
    }
}

/// # Array Volume Hierarchy of Triangles
/// A tree structure of triangle mesh with boxes as bounding volumes, stored in flat vectors.
pub struct BvhTreeArr<B, T> {
    root: NodeIdx,
    nodes: Vec<BvhNode>,
    boxes: Vec<B>,
    triangles: Vec<T>,
}

impl<B, T> BvhTreeArr<B, T> {
    #[verifier::type_invariant]
    spec fn inv(&self) -> bool {
        &&& self.root.0 < self.nodes@.len()
        &&& nodes_ok(self.nodes@, self.boxes@.len(), self.triangles@.len())
    }

    /// The hierarchy, with its boxes as keys and its triangles as values.
    pub closed spec fn tree(&self) -> RecursiveTree<B, T> {
        arr_tree(self.nodes@, self.boxes@, self.triangles@, self.root.0 as int)
    }

    /// The triangles, in the order of their storage.
    pub closed spec fn triangle_seq(&self) -> Seq<T> {
        self.triangles@
    }

    /// The boxes, in the order of their storage (one per node).
    pub closed spec fn box_seq(&self) -> Seq<B> {
        self.boxes@
    }

    /// The index of the root node (and of its box).
    pub closed spec fn root_index(&self) -> nat {
        self.root.0 as nat
    }

    /// The triangle indices at the leaves of the hierarchy, from left to right.
    pub closed spec fn leaf_triangle_indices(&self) -> Seq<usize> {
        leaf_nodes(self.nodes@, self.root.0 as int).map_values(
            |x: usize| tri_index(self.nodes@[x as int]),
        )
    }

    /// The number of nodes (and of boxes).
    pub closed spec fn node_count(&self) -> nat {
        self.nodes@.len()
    }

    /// The hierarchy was built with `split`: over the leaf nodes of all the triangles, each
    /// branch lies over the hierarchies built over the two parts that `split` made of the
    /// leaf nodes under it, given the boxes made before that branch.
    pub closed spec fn built_by<FS: Fn(&[B], &[usize]) -> (Vec<usize>, Vec<usize>)>(
        &self,
        split: FS,
    ) -> bool {
        built_at(
            self.nodes@,
            self.boxes@,
            self.root.0 as int,
            Seq::new(self.triangles@.len(), |i: int| i as usize),
            split,
        )
    }

    /// The hierarchy under node `i`.
    pub closed spec fn subtree(&self, i: nat) -> RecursiveTree<B, T> {
        arr_tree(self.nodes@, self.boxes@, self.triangles@, i as int)
    }

    /// The number of nodes (and of boxes).
    pub fn node_total(&self) -> (res: usize)
        ensures
            res == self.node_count(),
    {
        self.nodes.len()
    }

    /// The index of the root node (and of its box).
    pub fn root_position(&self) -> (res: usize)
        ensures
            res == self.root_index(),
    {
        self.root.0
    }

    /// The triangles, in the order of their storage.
    pub fn triangles(&self) -> (res: &[T])
        ensures
            res@ == self.triangle_seq(),
    {
        self.triangles.as_slice()
    }
}

/// The node of a hierarchy appended after `node_offset` nodes, `tri_offset` triangles.
spec fn shifted(n: BvhNode, node_offset: nat, tri_offset: nat) -> BvhNode {
    match n {
        BvhNode::Branch(b, l, r) => BvhNode::Branch(
            BoxIdx((b.0 + node_offset) as usize),
            NodeIdx((l.0 + node_offset) as usize),
            NodeIdx((r.0 + node_offset) as usize),
        ),
        BvhNode::Leaf(b, t) => BvhNode::Leaf(
            BoxIdx((b.0 + node_offset) as usize),
            TriIdx((t.0 + tri_offset) as usize),
        ),
    }
}

/// The nodes under a shifted node are the shifted nodes under the original node.
proof fn lemma_under_shifted(
    nodes: Seq<BvhNode>,
    more: Seq<BvhNode>,
    node_offset: nat,
    tri_offset: nat,
    nt: nat,
    i: int,
    x: int,
)
    requires
        forall|k: int| 0 <= k < nodes.len() ==> #[trigger] node_ok(nodes[k], k, nt),
        node_offset + nodes.len() <= more.len(),
        node_offset + nodes.len() <= usize::MAX,
        tri_offset + nt <= usize::MAX,
        forall|j: int|
            0 <= j < nodes.len() ==> #[trigger] more[node_offset + j] == shifted(
                nodes[j],
                node_offset,
                tri_offset,
            ),
        0 <= i < nodes.len(),
    ensures
        under(more, node_offset + i, x) == (x >= node_offset && under(nodes, i, x - node_offset)),
    decreases i,
{
    assert(node_ok(nodes[i], i, nt));
    assert(more[node_offset + i] == shifted(nodes[i], node_offset, tri_offset));
    if let BvhNode::Branch(_, l, r) = nodes[i] {
        lemma_under_shifted(nodes, more, node_offset, tri_offset, nt, l.0 as int, x);
        lemma_under_shifted(nodes, more, node_offset, tri_offset, nt, r.0 as int, x);
    }
}

/// The hierarchies under the nodes of the first part of a concatenation are unchanged.
proof fn lemma_arr_tree_prefix<B, T>(
    nodes: Seq<BvhNode>,
    boxes: Seq<B>,
    tris: Seq<T>,
    more_nodes: Seq<BvhNode>,
    more_boxes: Seq<B>,
    more_tris: Seq<T>,
    i: int,
)
    requires
        nodes_ok(nodes, boxes.len(), tris.len()),
        nodes.len() <= more_nodes.len(),
        boxes.len() <= more_boxes.len(),
        tris.len() <= more_tris.len(),
        forall|j: int| 0 <= j < nodes.len() ==> #[trigger] more_nodes[j] == nodes[j],
        forall|j: int| 0 <= j < boxes.len() ==> #[trigger] more_boxes[j] == boxes[j],
        forall|j: int| 0 <= j < tris.len() ==> #[trigger] more_tris[j] == tris[j],
        0 <= i < nodes.len(),
    ensures
        arr_tree(more_nodes, more_boxes, more_tris, i) == arr_tree(nodes, boxes, tris, i),
    decreases i,
{
    assert(node_ok(nodes[i], i, tris.len()));
    if let BvhNode::Branch(_, l, r) = nodes[i] {
        lemma_arr_tree_prefix(nodes, boxes, tris, more_nodes, more_boxes, more_tris, l.0 as int);
        lemma_arr_tree_prefix(nodes, boxes, tris, more_nodes, more_boxes, more_tris, r.0 as int);
    }
}

/// The hierarchies under the shifted nodes of the second part of a concatenation are those
/// of the second hierarchy.
proof fn lemma_arr_tree_shifted<B, T>(
    nodes: Seq<BvhNode>,
    boxes: Seq<B>,
    tris: Seq<T>,
    more_nodes: Seq<BvhNode>,
    more_boxes: Seq<B>,
    more_tris: Seq<T>,
    node_offset: nat,
    tri_offset: nat,
    i: int,
)
    requires
        nodes_ok(nodes, boxes.len(), tris.len()),
        node_offset + nodes.len() <= more_nodes.len(),
        node_offset + boxes.len() <= more_boxes.len(),
        tri_offset + tris.len() <= more_tris.len(),
        node_offset + nodes.len() <= usize::MAX,
        tri_offset + tris.len() <= usize::MAX,
        forall|j: int|
            0 <= j < nodes.len() ==> #[trigger] more_nodes[node_offset + j] == shifted(
                nodes[j],
                node_offset,
                tri_offset,
            ),
        forall|j: int| 0 <= j < boxes.len() ==> #[trigger] more_boxes[node_offset + j] == boxes[j],
        forall|j: int| 0 <= j < tris.len() ==> #[trigger] more_tris[tri_offset + j] == tris[j],
        0 <= i < nodes.len(),
    ensures
        arr_tree(more_nodes, more_boxes, more_tris, node_offset + i) == arr_tree(nodes, boxes, tris, i),
    decreases i,
{
    assert(node_ok(nodes[i], i, tris.len()));
    assert(more_nodes[node_offset + i] == shifted(nodes[i], node_offset, tri_offset));
    match nodes[i] {
        BvhNode::Branch(b, l, r) => {
            lemma_arr_tree_shifted(
                nodes,
                boxes,
                tris,
                more_nodes,
                more_boxes,
                more_tris,
                node_offset,
                tri_offset,
                l.0 as int,
            );
            lemma_arr_tree_shifted(
                nodes,
                boxes,
                tris,
                more_nodes,
                more_boxes,
                more_tris,
                node_offset,
                tri_offset,
                r.0 as int,
            );
            assert(more_boxes[node_offset + b.0] == boxes[b.0 as int]);
        },
        BvhNode::Leaf(b, t) => {
            assert(more_boxes[node_offset + b.0] == boxes[b.0 as int]);
            assert(more_tris[tri_offset + t.0] == tris[t.0 as int]);
        },
    }
}

impl<B, T> BvhTreeArr<B, T> {
    /// Concatenates two hierarchies: the nodes, boxes and triangles of `other` follow those
    /// of this one, and a new root over node `self.root` and node `self.root + node_count`
    /// is bounded by `join` of the boxes at `self.root` and at `other.root` of this hierarchy.
    ///
    /// Where the two roots have the same index (as for hierarchies built from the same number
    /// of triangles), the new root is the branch over the two hierarchies. Where node
    /// `self.root + node_count` would not be one of the nodes of `other` (this hierarchy has
    /// more nodes than `other`), the right child is the root of `other`.
    pub fn concat<FJ: Fn(&B, &B) -> B>(self, other: BvhTreeArr<B, T>, join: &FJ) -> (res: Self)
        requires
            other.root_index() < self.node_count(),
            self.node_count() + other.node_count() < usize::MAX,
            self.triangle_seq().len() + other.triangle_seq().len() <= usize::MAX,
            forall|a: &B, b: &B| #[trigger] join.requires((a, b)),
        ensures
            res.triangle_seq() == self.triangle_seq() + other.triangle_seq(),
            res.node_count() == self.node_count() + other.node_count() + 1,
            res.box_seq().subrange(0, (self.node_count() + other.node_count()) as int) == self.box_seq()
                + other.box_seq(),
            join.ensures(
                (
                    &self.box_seq()[self.root_index() as int],
                    &self.box_seq()[other.root_index() as int],
                ),
                res.box_seq()[(self.node_count() + other.node_count()) as int],
            ),
            res.root_index() == self.node_count() + other.node_count(),
            self.root_index() < other.node_count() ==> res.tree() == RecursiveTree::Branch(
                res.box_seq()[(self.node_count() + other.node_count()) as int],
                Box::new(self.tree()),
                Box::new(other.subtree(self.root_index())),
            ),
            self.root_index() >= other.node_count() ==> res.tree() == RecursiveTree::Branch(
                res.box_seq()[(self.node_count() + other.node_count()) as int],
                Box::new(self.tree()),
                Box::new(other.tree()),
            ),
            self.root_index() == other.root_index() ==> res.tree() == RecursiveTree::Branch(
                res.box_seq()[(self.node_count() + other.node_count()) as int],
                Box::new(self.tree()),
                Box::new(other.tree()),
            ),
    {
        proof {
            use_type_invariant(&self);
            use_type_invariant(&other);
        }
        let ghost s = self;
        let ghost o = other;
        let BvhTreeArr { root: self_root, nodes: mut nodes, boxes: mut boxes, triangles: mut triangles } = self;
        let BvhTreeArr { root: other_root, nodes: other_nodes, boxes: mut other_boxes, triangles: mut other_triangles } = other;
        let node_offset = nodes.len();
        let tri_offset = triangles.len();

        let bounding = join(&boxes[self_root.0], &boxes[other_root.0]);

        let root = NodeIdx(nodes.len() + other_nodes.len());
        let n2 = other_nodes.len();
        let mut j: usize = 0;
        while j < n2
            invariant
                n2 == o.nodes@.len(),
                other_nodes@ == o.nodes@,
                node_offset == s.nodes@.len(),
                tri_offset == s.triangles@.len(),
                node_offset + n2 < usize::MAX,
                tri_offset + o.triangles@.len() <= usize::MAX,
                nodes_ok(o.nodes@, o.boxes@.len(), o.triangles@.len()),
                j <= n2,
                nodes@.len() == node_offset + j,
                forall|i: int| 0 <= i < node_offset ==> #[trigger] nodes@[i] == s.nodes@[i],
                forall|i: int|
                    0 <= i < j ==> #[trigger] nodes@[node_offset + i] == shifted(
                        o.nodes@[i],
                        node_offset as nat,
                        tri_offset as nat,
                    ),
            decreases n2 - j,
        {
            proof {
                assert(node_ok(o.nodes@[j as int], j as int, o.triangles@.len()));
            }
            let n = match &other_nodes[j] {
                BvhNode::Branch(BoxIdx(bi), NodeIdx(li), NodeIdx(ri)) => BvhNode::Branch(
                    BoxIdx(*bi + node_offset),
                    NodeIdx(*li + node_offset),
                    NodeIdx(*ri + node_offset),
                ),
                BvhNode::Leaf(BoxIdx(bi), TriIdx(ti)) => {
                    BvhNode::Leaf(BoxIdx(*bi + node_offset), TriIdx(*ti + tri_offset))
                },
            };
            nodes.push(n);
            j = j + 1;
        }
        let box_count = boxes.len() + other_boxes.len();
        let right_source = if self_root.0 < n2 {
            self_root.0
        } else {
            other_root.0
        };
        let ghost rs = right_source as int;
        nodes.push(BvhNode::Branch(
            BoxIdx(box_count),
            self_root,
            NodeIdx(right_source + node_offset),
        ));

        boxes.append(&mut other_boxes);
        boxes.push(bounding);

        triangles.append(&mut other_triangles);

        proof {
            let n1 = s.nodes@.len();
            let nn = nodes@;
            let nt = triangles@.len();
            assert(boxes@.len() == nn.len());
            assert(triangles@ == s.triangles@ + o.triangles@);
            assert forall|i: int| 0 <= i < nn.len() implies #[trigger] node_ok(nn[i], i, nt) by {
                if i < n1 {
                    assert(node_ok(s.nodes@[i], i, s.triangles@.len()));
                } else if i < n1 + n2 {
                    assert(node_ok(o.nodes@[i - n1], i - n1, o.triangles@.len()));
                    assert(nn[n1 + (i - n1)] == shifted(o.nodes@[i - n1], n1, tri_offset as nat));
                }
            }
            assert forall|i: int| 0 <= i < nn.len() implies #[trigger] shaped_at(nn, i) by {
                if i < n1 {
                    assert(node_ok(s.nodes@[i], i, s.triangles@.len()));
                    assert(shaped_at(s.nodes@, i));
                    lemma_shaped_prefix(s.nodes@, nn, i, s.triangles@.len());
                } else if i < n1 + n2 {
                    let k = i - n1;
                    assert(node_ok(o.nodes@[k], k, o.triangles@.len()));
                    assert(shaped_at(o.nodes@, k));
                    assert(nn[n1 + k] == shifted(o.nodes@[k], n1, tri_offset as nat));
                    if let BvhNode::Branch(_, l, r) = o.nodes@[k] {
                        assert forall|x: int|
                            !(#[trigger] under(nn, l.0 + n1, x) && under(nn, r.0 + n1, x)) by {
                            lemma_under_shifted(o.nodes@, nn, n1, tri_offset as nat, o.triangles@.len(), l.0 as int, x);
                            lemma_under_shifted(o.nodes@, nn, n1, tri_offset as nat, o.triangles@.len(), r.0 as int, x);
                            assert(!(under(o.nodes@, l.0 as int, x - n1) && under(o.nodes@, r.0 as int, x - n1)));
                        }
                    }
                } else {
                    let sr = s.root.0 as int;
                    assert forall|x: int| !(#[trigger] under(nn, sr, x) && under(nn, rs + n1, x)) by {
                        if under(nn, sr, x) {
                            lemma_under_prefix(s.nodes@, nn, sr, x);
                            lemma_under_le(s.nodes@, sr, x);
                        }
                        lemma_under_shifted(o.nodes@, nn, n1, tri_offset as nat, o.triangles@.len(), rs, x);
                    }
                    assert(under(nn, sr, sr));
                }
            }
        }
        let res = BvhTreeArr { root, nodes, boxes, triangles };
        proof {
            let n1 = s.nodes@.len();
            let nn = res.nodes@;
            lemma_arr_tree_prefix(
                s.nodes@,
                s.boxes@,
                s.triangles@,
                nn,
                res.boxes@,
                res.triangles@,
                s.root.0 as int,
            );
            assert forall|i: int| 0 <= i < o.boxes@.len() implies #[trigger] res.boxes@[n1 + i] == o.boxes@[i] by {
                assert(res.boxes@[n1 + i] == (s.boxes@ + o.boxes@)[n1 + i]);
            }
            assert forall|i: int| 0 <= i < o.triangles@.len() implies #[trigger] res.triangles@[tri_offset + i] == o.triangles@[i] by {
                assert(res.triangles@[tri_offset + i] == (s.triangles@ + o.triangles@)[tri_offset + i]);
            }
            lemma_arr_tree_shifted(
                o.nodes@,
                o.boxes@,
                o.triangles@,
                nn,
                res.boxes@,
                res.triangles@,
                n1,
                tri_offset as nat,
                rs,
            );
            lemma_arr_tree_shifted(
                o.nodes@,
                o.boxes@,
                o.triangles@,
                nn,
                res.boxes@,
                res.triangles@,
                n1,
                tri_offset as nat,
                o.root.0 as int,
            );
            assert(res.boxes@.subrange(0, (n1 + n2) as int) =~= s.boxes@ + o.boxes@);
        }
        res
    }
}

impl<B: Collides<B>, T: Collides<T>> BvhTreeArr<B, T> {
    /// Whether the hierarchies under node `self_idx` of this tree and node `other_idx` of
    /// `other` collide: pairs of nodes are pruned when their boxes do not collide.
    fn collide_nodes(&self, other: &BvhTreeArr<B, T>, self_idx: NodeIdx, other_idx: NodeIdx) -> (res: bool)
        requires
            self_idx.0 < self.node_count(),
            other_idx.0 < other.node_count(),
        ensures
            res ==> checked_hit(self.subtree(self_idx.0 as nat), other.subtree(other_idx.0 as nat)),
            !res ==> checked_miss(self.subtree(self_idx.0 as nat), other.subtree(other_idx.0 as nat)),
        decreases self_idx.0 + other_idx.0,
    {
        proof {
            use_type_invariant(self);
            use_type_invariant(other);
            assert(node_ok(self.nodes@[self_idx.0 as int], self_idx.0 as int, self.triangles@.len()));
            assert(node_ok(other.nodes@[other_idx.0 as int], other_idx.0 as int, other.triangles@.len()));
        }
        let self_node = &self.nodes[self_idx.0];
        let other_node = &other.nodes[other_idx.0];
        match (self_node, other_node) {
            (BvhNode::Leaf(_, TriIdx(self_tx)), BvhNode::Leaf(_, TriIdx(other_tx))) => {
                self.triangles[*self_tx].collides_with(&other.triangles[*other_tx])
            },
            (BvhNode::Leaf(BoxIdx(self_bx), _), BvhNode::Branch(BoxIdx(other_bx), other_lx, other_rx)) => {
                self.boxes[*self_bx].collides_with(&other.boxes[*other_bx]) && (self.collide_nodes(
                    other,
                    self_idx,
                    *other_lx,
                ) || self.collide_nodes(other, self_idx, *other_rx))
            },
            (BvhNode::Branch(BoxIdx(self_bx), self_lx, self_rx), BvhNode::Leaf(BoxIdx(other_bx), _)) => {
                self.boxes[*self_bx].collides_with(&other.boxes[*other_bx]) && (self.collide_nodes(
                    other,
                    *self_lx,
                    other_idx,
                ) || self.collide_nodes(other, *self_rx, other_idx))
            },
            (
                BvhNode::Branch(BoxIdx(self_bx), self_lx, self_rx),
                BvhNode::Branch(BoxIdx(other_bx), other_lx, other_rx),
            ) => {
                self.boxes[*self_bx].collides_with(&other.boxes[*other_bx]) && (self.collide_nodes(
                    other,
                    *self_lx,
                    *other_lx,
                ) || self.collide_nodes(other, *self_lx, *other_rx) || self.collide_nodes(
                    other,
                    *self_rx,
                    *other_lx,
                ) || self.collide_nodes(other, *self_rx, *other_rx))
            },
        }
    }
}

impl<B: Collides<B>, T: Collides<T>> Collides<BvhTreeArr<B, T>> for BvhTreeArr<B, T> {
    /// Whether the two hierarchies collide (see [checked_hit] and [checked_miss]).
    #[inline]
    fn collides_with(&self, other: &BvhTreeArr<B, T>) -> (res: bool)
        ensures
            res ==> checked_hit(self.tree(), other.tree()),
            !res ==> checked_miss(self.tree(), other.tree()),
            res ==> leaf_pair_hit(self.tree(), other.tree()),
            values_agree(self.tree(), other.tree()) && keys_bound(self.tree(), other.tree())
                ==> res == leaf_pair_hit(self.tree(), other.tree()),
    {
        proof {
            use_type_invariant(self);
            use_type_invariant(other);
        }
        let res = self.collide_nodes(other, self.root, other.root);
        proof {
            if res {
                lemma_checked_hit_sound(self.tree(), other.tree());
            } else if values_agree(self.tree(), other.tree()) && keys_bound(self.tree(), other.tree()) {
                lemma_checked_miss_complete(self.tree(), other.tree());
            }
        }
        res
    }
}

/// The hierarchy over boxes and triangles mapped one by one is the mapped hierarchy.
proof fn lemma_arr_tree_mapped<B, T, FB: Fn(&B) -> B, FT: Fn(&T) -> T>(
    nodes: Seq<BvhNode>,
    boxes: Seq<B>,
    tris: Seq<T>,
    new_boxes: Seq<B>,
    new_tris: Seq<T>,
    fb: FB,
    ft: FT,
    i: int,
)
    requires
        nodes_ok(nodes, boxes.len(), tris.len()),
        new_boxes.len() == boxes.len(),
        new_tris.len() == tris.len(),
        forall|j: int| 0 <= j < boxes.len() ==> fb.ensures((&boxes[j],), #[trigger] new_boxes[j]),
        forall|j: int| 0 <= j < tris.len() ==> ft.ensures((&tris[j],), #[trigger] new_tris[j]),
        0 <= i < nodes.len(),
    ensures
        tree_mapped(arr_tree(nodes, boxes, tris, i), arr_tree(nodes, new_boxes, new_tris, i), fb, ft),
    decreases i,
{
    assert(node_ok(nodes[i], i, tris.len()));
    match nodes[i] {
        BvhNode::Branch(b, l, r) => {
            lemma_arr_tree_mapped(nodes, boxes, tris, new_boxes, new_tris, fb, ft, l.0 as int);
            lemma_arr_tree_mapped(nodes, boxes, tris, new_boxes, new_tris, fb, ft, r.0 as int);
            assert(fb.ensures((&boxes[b.0 as int],), new_boxes[b.0 as int]));
        },
        BvhNode::Leaf(b, t) => {
            assert(fb.ensures((&boxes[b.0 as int],), new_boxes[b.0 as int]));
            assert(ft.ensures((&tris[t.0 as int],), new_tris[t.0 as int]));
        },
    }
}

/// The hierarchy over clones of the boxes and triangles is a clone of the hierarchy.
proof fn lemma_arr_tree_cloned<B: Clone, T: Clone>(
    nodes: Seq<BvhNode>,
    boxes: Seq<B>,
    tris: Seq<T>,
    new_boxes: Seq<B>,
    new_tris: Seq<T>,
    i: int,
)
    requires
        nodes_ok(nodes, boxes.len(), tris.len()),
        new_boxes.len() == boxes.len(),
        new_tris.len() == tris.len(),
        forall|j: int| 0 <= j < boxes.len() ==> cloned(boxes[j], #[trigger] new_boxes[j]),
        forall|j: int| 0 <= j < tris.len() ==> cloned(tris[j], #[trigger] new_tris[j]),
        0 <= i < nodes.len(),
    ensures
        tree_cloned(arr_tree(nodes, boxes, tris, i), arr_tree(nodes, new_boxes, new_tris, i)),
    decreases i,
{
    assert(node_ok(nodes[i], i, tris.len()));
    match nodes[i] {
        BvhNode::Branch(b, l, r) => {
            lemma_arr_tree_cloned(nodes, boxes, tris, new_boxes, new_tris, l.0 as int);
            lemma_arr_tree_cloned(nodes, boxes, tris, new_boxes, new_tris, r.0 as int);
            assert(cloned(boxes[b.0 as int], new_boxes[b.0 as int]));
        },
        BvhNode::Leaf(b, t) => {
            assert(cloned(boxes[b.0 as int], new_boxes[b.0 as int]));
            assert(cloned(tris[t.0 as int], new_tris[t.0 as int]));
        },
    }
}

impl<B, T> BvhTreeArr<B, T> {
    /// The box of the root node.
    pub fn root_box(&self) -> (res: &B)
        ensures
            *res == self.box_seq()[self.root_index() as int],
            *res == self.tree().spec_key(),
    {
        proof {
            use_type_invariant(self);
            assert(node_ok(self.nodes@[self.root.0 as int], self.root.0 as int, self.triangles@.len()));
        }
        let BoxIdx(box_idx) = self.get_node_box(self.root);
        &self.boxes[*box_idx]
    }

    #[inline]
    fn get_node_box(&self, node: NodeIdx) -> (res: &BoxIdx)
        requires
            node.0 < self.node_count(),
        ensures
            res.0 == node.0,
    {
        proof {
            use_type_invariant(self);
            assert(node_ok(self.nodes@[node.0 as int], node.0 as int, self.triangles@.len()));
        }
        self.nodes[node.0].get_box_idx()
    }

    /// The hierarchy with every box mapped by `fb` and every triangle by `ft`, in place.
    pub fn map<FB: Fn(&B) -> B, FT: Fn(&T) -> T>(&self, fb: &FB, ft: &FT) -> (res: Self)
        requires
            forall|b: &B| #[trigger] fb.requires((b,)),
            forall|t: &T| #[trigger] ft.requires((t,)),
        ensures
            res.root_index() == self.root_index(),
            res.node_count() == self.node_count(),
            res.box_seq().len() == self.box_seq().len(),
            res.triangle_seq().len() == self.triangle_seq().len(),
            forall|j: int|
                0 <= j < self.box_seq().len() ==> fb.ensures(
                    (&self.box_seq()[j],),
                    #[trigger] res.box_seq()[j],
                ),
            forall|j: int|
                0 <= j < self.triangle_seq().len() ==> ft.ensures(
                    (&self.triangle_seq()[j],),
                    #[trigger] res.triangle_seq()[j],
                ),
            tree_mapped(self.tree(), res.tree(), *fb, *ft),
    {
        proof {
            use_type_invariant(self);
        }
        let mut boxes: Vec<B> = Vec::new();
        let nb = self.boxes.len();
        let mut i: usize = 0;
        while i < nb
            invariant
                nb == self.boxes@.len(),
                i <= nb,
                boxes@.len() == i,
                forall|b: &B| #[trigger] fb.requires((b,)),
                forall|j: int| 0 <= j < i ==> fb.ensures((&self.boxes@[j],), #[trigger] boxes@[j]),
            decreases nb - i,
        {
            boxes.push(fb(&self.boxes[i]));
            i = i + 1;
        }
        let mut triangles: Vec<T> = Vec::new();
        let nt = self.triangles.len();
        let mut i: usize = 0;
        while i < nt
            invariant
                nt == self.triangles@.len(),
                i <= nt,
                triangles@.len() == i,
                forall|t: &T| #[trigger] ft.requires((t,)),
                forall|j: int| 0 <= j < i ==> ft.ensures((&self.triangles@[j],), #[trigger] triangles@[j]),
            decreases nt - i,
        {
            triangles.push(ft(&self.triangles[i]));
            i = i + 1;
        }
        let nodes = copy_nodes(&self.nodes);
        proof {
            lemma_arr_tree_mapped(
                self.nodes@,
                self.boxes@,
                self.triangles@,
                boxes@,
                triangles@,
                *fb,
                *ft,
                self.root.0 as int,
            );
        }
        BvhTreeArr { root: self.root, nodes, boxes, triangles }
    }
}

/// A copy of the nodes.
fn copy_nodes(nodes: &Vec<BvhNode>) -> (res: Vec<BvhNode>)
    ensures
        res@ == nodes@,
{
    let mut out: Vec<BvhNode> = Vec::new();
    let n = nodes.len();
    let mut i: usize = 0;
    while i < n
        invariant
            n == nodes@.len(),
            i <= n,
            out@ =~= nodes@.subrange(0, i as int),
        decreases n - i,
    {
        out.push(nodes[i]);
        i = i + 1;
    }
    out
}

impl<B: Clone, T: Clone> Clone for BvhTreeArr<B, T> {
    fn clone(&self) -> (res: Self)
        ensures
            res.root_index() == self.root_index(),
            res.node_count() == self.node_count(),
            res.triangle_seq().len() == self.triangle_seq().len(),
            forall|j: int|
                0 <= j < self.triangle_seq().len() ==> cloned(
                    self.triangle_seq()[j],
                    #[trigger] res.triangle_seq()[j],
                ),
            tree_cloned(self.tree(), res.tree()),
    {
        proof {
            use_type_invariant(self);
        }
        let mut boxes: Vec<B> = Vec::new();
        let nb = self.boxes.len();
        let mut i: usize = 0;
        while i < nb
            invariant
                nb == self.boxes@.len(),
                i <= nb,
                boxes@.len() == i,
                forall|j: int| 0 <= j < i ==> cloned(self.boxes@[j], #[trigger] boxes@[j]),
            decreases nb - i,
        {
            boxes.push(self.boxes[i].clone());
            i = i + 1;
        }
        let mut triangles: Vec<T> = Vec::new();
        let nt = self.triangles.len();
        let mut i: usize = 0;
        while i < nt
            invariant
                nt == self.triangles@.len(),
                i <= nt,
                triangles@.len() == i,
                forall|j: int| 0 <= j < i ==> cloned(self.triangles@[j], #[trigger] triangles@[j]),
            decreases nt - i,
        {
            triangles.push(self.triangles[i].clone());
            i = i + 1;
        }
        let nodes = copy_nodes(&self.nodes);
        proof {
            lemma_arr_tree_cloned(
                self.nodes@,
                self.boxes@,
                self.triangles@,
                boxes@,
                triangles@,
                self.root.0 as int,
            );
        }
        BvhTreeArr { root: self.root, nodes, boxes, triangles }
    }
}

/// Box `j` is recomputed: a leaf's box bounds its triangle, a branch's box joins its children's.
spec fn box_recomputed<B, T, FB: Fn(&T) -> B, FJ: Fn(&B, &B) -> B>(
    nodes: Seq<BvhNode>,
    boxes: Seq<B>,
    tris: Seq<T>,
    j: int,
    bound_triangle: FB,
    join: FJ,
) -> bool {
    match nodes[j] {
        BvhNode::Leaf(_, t) => bound_triangle.ensures((&tris[t.0 as int],), boxes[j]),
        BvhNode::Branch(_, l, r) => join.ensures((&boxes[l.0 as int], &boxes[r.0 as int]), boxes[j]),
    }
}

/// The children of a node under `i` are under `i`.
proof fn lemma_under_children(nodes: Seq<BvhNode>, i: int, j: int, nt: nat)
    requires
        forall|k: int| 0 <= k < nodes.len() ==> #[trigger] node_ok(nodes[k], k, nt),
        0 <= i < nodes.len(),
        under(nodes, i, j),
        nodes[j] is Branch,
    ensures
        under(nodes, i, nodes[j]->Branch_1.0 as int),
        under(nodes, i, nodes[j]->Branch_2.0 as int),
    decreases i,
{
    lemma_under_le(nodes, i, j);
    if j == i {
        assert(node_ok(nodes[i], i, nt));
        assert(under(nodes, nodes[j]->Branch_1.0 as int, nodes[j]->Branch_1.0 as int));
        assert(under(nodes, nodes[j]->Branch_2.0 as int, nodes[j]->Branch_2.0 as int));
    } else {
        assert(node_ok(nodes[i], i, nt));
        if let BvhNode::Branch(_, l, r) = nodes[i] {
            if under(nodes, l.0 as int, j) {
                lemma_under_children(nodes, l.0 as int, j, nt);
            } else {
                lemma_under_children(nodes, r.0 as int, j, nt);
            }
        }
    }
}

/// The hierarchy over recomputed boxes and mapped triangles is the rebuilt hierarchy.
proof fn lemma_arr_tree_rebuilt<B, T, FT: Fn(&T) -> T, FB: Fn(&T) -> B, FJ: Fn(&B, &B) -> B>(
    nodes: Seq<BvhNode>,
    boxes: Seq<B>,
    tris: Seq<T>,
    new_boxes: Seq<B>,
    new_tris: Seq<T>,
    ft: FT,
    bound_triangle: FB,
    join: FJ,
    root: int,
    i: int,
)
    requires
        nodes_ok(nodes, boxes.len(), tris.len()),
        new_boxes.len() == boxes.len(),
        new_tris.len() == tris.len(),
        forall|j: int| 0 <= j < tris.len() ==> ft.ensures((&tris[j],), #[trigger] new_tris[j]),
        0 <= root < nodes.len(),
        forall|j: int|
            0 <= j < nodes.len() && #[trigger] under(nodes, root, j) ==> box_recomputed(
                nodes,
                new_boxes,
                new_tris,
                j,
                bound_triangle,
                join,
            ),
        0 <= i < nodes.len(),
        under(nodes, root, i),
    ensures
        tree_rebuilt(
            arr_tree(nodes, boxes, tris, i),
            arr_tree(nodes, new_boxes, new_tris, i),
            ft,
            bound_triangle,
            join,
        ),
    decreases i,
{
    assert(node_ok(nodes[i], i, tris.len()));
    assert(box_recomputed(nodes, new_boxes, new_tris, i, bound_triangle, join));
    match nodes[i] {
        BvhNode::Branch(b, l, r) => {
            lemma_under_children(nodes, root, i, tris.len());
            lemma_arr_tree_rebuilt(nodes, boxes, tris, new_boxes, new_tris, ft, bound_triangle, join, root, l.0 as int);
            lemma_arr_tree_rebuilt(nodes, boxes, tris, new_boxes, new_tris, ft, bound_triangle, join, root, r.0 as int);
            assert(node_ok(nodes[l.0 as int], l.0 as int, tris.len()));
            assert(node_ok(nodes[r.0 as int], r.0 as int, tris.len()));
        },
        BvhNode::Leaf(b, t) => {
            assert(ft.ensures((&tris[t.0 as int],), new_tris[t.0 as int]));
        },
    }
}

impl<B, T> BvhTreeArr<B, T> {
    /// Recomputes the boxes under node `node_idx` bottom-up from `new_triangles`: a leaf's
    /// box bounds its new triangle, a branch's box joins the new boxes of its children.
    /// Returns the index of the box of `node_idx`.
    fn updated_boxes<FB: Fn(&T) -> B, FJ: Fn(&B, &B) -> B>(
        &self,
        node_idx: NodeIdx,
        new_triangles: &[T],
        new_boxes: &mut Vec<B>,
        bound_triangle: &FB,
        join: &FJ,
    ) -> (res: &BoxIdx)
        requires
            node_idx.0 < self.node_count(),
            old(new_boxes)@.len() == self.node_count(),
            new_triangles@.len() == self.triangle_seq().len(),
            forall|t: &T| #[trigger] bound_triangle.requires((t,)),
            forall|a: &B, b: &B| #[trigger] join.requires((a, b)),
        ensures
            res.0 == node_idx.0,
            final(new_boxes)@.len() == old(new_boxes)@.len(),
            forall|j: int|
                0 <= j < self.node_count() && !under(self.nodes@, node_idx.0 as int, j)
                    ==> #[trigger] final(new_boxes)@[j] == old(new_boxes)@[j],
            forall|j: int|
                0 <= j < self.node_count() && #[trigger] under(self.nodes@, node_idx.0 as int, j)
                    ==> box_recomputed(self.nodes@, final(new_boxes)@, new_triangles@, j, *bound_triangle, *join),
        decreases node_idx.0,
    {
        proof {
            use_type_invariant(self);
            assert(node_ok(self.nodes@[node_idx.0 as int], node_idx.0 as int, self.triangles@.len()));
            assert(shaped_at(self.nodes@, node_idx.0 as int));
        }
        let ghost nodes = self.nodes@;
        let ghost b0 = new_boxes@;
        let node = &self.nodes[node_idx.0];
        match node {
            BvhNode::Leaf(box_idx, tri_idx) => {
                let bx = bound_triangle(&new_triangles[tri_idx.0]);
                new_boxes.set(box_idx.0, bx);
                proof {
                    assert forall|j: int|
                        0 <= j < self.node_count() && #[trigger] under(nodes, node_idx.0 as int, j)
                            implies box_recomputed(nodes, new_boxes@, new_triangles@, j, *bound_triangle, *join) by {
                        assert(j == node_idx.0);
                    }
                }
                box_idx
            },
            BvhNode::Branch(box_idx, left_idx, right_idx) => {
                let left_bx = self.updated_boxes(*left_idx, new_triangles, new_boxes, bound_triangle, join);
                let ghost b1 = new_boxes@;
                let right_bx = self.updated_boxes(*right_idx, new_triangles, new_boxes, bound_triangle, join);
                let ghost b2 = new_boxes@;
                let bx = join(&new_boxes[left_bx.0], &new_boxes[right_bx.0]);
                new_boxes.set(box_idx.0, bx);
                proof {
                    let i = node_idx.0 as int;
                    let l = left_idx.0 as int;
                    let r = right_idx.0 as int;
                    assert forall|j: int|
                        0 <= j < self.node_count() && !under(nodes, i, j) implies #[trigger] new_boxes@[j] == b0[j] by {
                        assert(!under(nodes, l, j) && !under(nodes, r, j));
                    }
                    assert forall|j: int|
                        0 <= j < self.node_count() && #[trigger] under(nodes, i, j)
                            implies box_recomputed(nodes, new_boxes@, new_triangles@, j, *bound_triangle, *join) by {
                        if j == i {
                            assert(!under(nodes, l, i)) by {
                                if under(nodes, l, i) {
                                    lemma_under_le(nodes, l, i);
                                }
                            }
                        } else if under(nodes, l, j) {
                            assert(box_recomputed(nodes, b1, new_triangles@, j, *bound_triangle, *join));
                            lemma_under_le(nodes, l, j);
                            assert(!under(nodes, r, j));
                            if let BvhNode::Branch(_, a, c) = nodes[j] {
                                lemma_under_children(nodes, l, j, self.triangles@.len());
                                assert(!under(nodes, r, a.0 as int));
                                assert(!under(nodes, r, c.0 as int));
                                lemma_under_le(nodes, l, a.0 as int);
                                lemma_under_le(nodes, l, c.0 as int);
                            }
                        } else {
                            assert(under(nodes, r, j));
                            lemma_under_le(nodes, r, j);
                            if let BvhNode::Branch(_, a, c) = nodes[j] {
                                lemma_under_children(nodes, r, j, self.triangles@.len());
                                lemma_under_le(nodes, r, a.0 as int);
                                lemma_under_le(nodes, r, c.0 as int);
                            }
                        }
                    }
                }
                box_idx
            },
        }
    }
}

impl<B: Clone, T> BvhTreeArr<B, T> {
    /// The hierarchy with every triangle mapped by `ft` and its boxes recomputed bottom-up:
    /// a leaf's box bounds its new triangle (`bound_triangle`), a branch's box joins its
    /// children's new boxes (`join`). Boxes of nodes outside the hierarchy are cloned.
    pub fn rebuilt<FT: Fn(&T) -> T, FB: Fn(&T) -> B, FJ: Fn(&B, &B) -> B>(
        &self,
        ft: &FT,
        bound_triangle: &FB,
        join: &FJ,
    ) -> (res: Self)
        requires
            forall|t: &T| #[trigger] ft.requires((t,)),
            forall|t: &T| #[trigger] bound_triangle.requires((t,)),
            forall|a: &B, b: &B| #[trigger] join.requires((a, b)),
        ensures
            res.root_index() == self.root_index(),
            res.node_count() == self.node_count(),
            res.triangle_seq().len() == self.triangle_seq().len(),
            forall|j: int|
                0 <= j < self.triangle_seq().len() ==> ft.ensures(
                    (&self.triangle_seq()[j],),
                    #[trigger] res.triangle_seq()[j],
                ),
            tree_rebuilt(self.tree(), res.tree(), *ft, *bound_triangle, *join),
    {
        proof {
            use_type_invariant(self);
        }
        let mut triangles: Vec<T> = Vec::new();
        let nt = self.triangles.len();
        let mut i: usize = 0;
        while i < nt
            invariant
                nt == self.triangles@.len(),
                i <= nt,
                triangles@.len() == i,
                forall|t: &T| #[trigger] ft.requires((t,)),
                forall|j: int| 0 <= j < i ==> ft.ensures((&self.triangles@[j],), #[trigger] triangles@[j]),
            decreases nt - i,
        {
            triangles.push(ft(&self.triangles[i]));
            i = i + 1;
        }
        let mut new_boxes: Vec<B> = Vec::new();
        let nb = self.boxes.len();
        let mut i: usize = 0;
        while i < nb
            invariant
                nb == self.boxes@.len(),
                i <= nb,
                new_boxes@.len() == i,
            decreases nb - i,
        {
            new_boxes.push(self.boxes[i].clone());
            i = i + 1;
        }
        let _ = self.updated_boxes(self.root, triangles.as_slice(), &mut new_boxes, bound_triangle, join);
        let nodes = copy_nodes(&self.nodes);
        proof {
            lemma_arr_tree_rebuilt(
                self.nodes@,
                self.boxes@,
                self.triangles@,
                new_boxes@,
                triangles@,
                *ft,
                *bound_triangle,
                *join,
                self.root.0 as int,
                self.root.0 as int,
            );
        }
        BvhTreeArr { root: self.root, nodes, boxes: new_boxes, triangles }
    }
}

impl<B, T: Clone> BvhTreeArr<B, T> {
    /// Builds a hierarchy over a copy of `triangles`: a leaf bounded by `bound_triangle` for
    /// each triangle, then branches made by splitting the leaves with `split` and bounding two
    /// subtrees with `join`, until one root remains.
    ///
    /// **Expects a non-empty list of triangles.**
    pub fn build<
        FB: Fn(&T) -> B,
        FS: Fn(&[B], &[usize]) -> (Vec<usize>, Vec<usize>),
        FJ: Fn(&B, &B) -> B,
    >(triangles: &[T], bound_triangle: &FB, split: &FS, join: &FJ) -> (res: Self)
        requires
            triangles@.len() >= 1,
            forall|t: &T| #[trigger] bound_triangle.requires((t,)),
            forall|b: &[B], x: &[usize]| #[trigger] split.requires((b, x)),
            forall|b: &[B], x: &[usize], out: (Vec<usize>, Vec<usize>)|
                #[trigger] split.ensures((b, x), out) && x@.len() >= 2 ==> valid_split(
                    x@,
                    out.0@,
                    out.1@,
                ),
            forall|a: &B, b: &B| #[trigger] join.requires((a, b)),
        ensures
            res.triangle_seq().len() == triangles@.len(),
            forall|i: int|
                0 <= i < triangles@.len() ==> cloned(triangles@[i], #[trigger] res.triangle_seq()[i]),
            forall|i: int|
                0 <= i < triangles@.len() ==> bound_triangle.ensures(
                    (&res.triangle_seq()[i],),
                    #[trigger] res.box_seq()[i],
                ),
            res.leaf_triangle_indices().to_multiset() =~= Seq::new(
                triangles@.len(),
                |i: int| i as usize,
            ).to_multiset(),
            res.tree().spec_leaves() =~= res.leaf_triangle_indices().map_values(
                |t: usize| res.triangle_seq()[t as int],
            ),
            keys_joined(res.tree(), *join),
            res.built_by(*split),
            res.node_count() == 2 * triangles@.len() - 1,
            res.root_index() == 2 * triangles@.len() - 2,
    {
        let mut tris: Vec<T> = Vec::new();
        let n = triangles.len();
        let mut i: usize = 0;
        while i < n
            invariant
                n == triangles@.len(),
                i <= n,
                tris@.len() == i,
                forall|j: int| 0 <= j < i ==> cloned(triangles@[j], #[trigger] tris@[j]),
            decreases n - i,
        {
            tris.push(triangles[i].clone());
            i = i + 1;
        }
        let mut nodes: Vec<BvhNode> = Vec::new();
        let mut boxes: Vec<B> = Vec::new();
        let indexes = make_leaves(tris.as_slice(), &mut nodes, &mut boxes, bound_triangle);
        let ghost leaves = nodes@;
        let ghost leaf_boxes = boxes@;
        proof {
            assert forall|j: int| 0 <= j < nodes@.len() implies #[trigger] node_ok(nodes@[j], j, n as nat) by {
                assert(nodes@[j] == BvhNode::Leaf(BoxIdx(j as usize), TriIdx(j as usize)));
            }
            assert forall|j: int| 0 <= j < indexes@.len() implies #[trigger] indexes@[j] < nodes@.len() && nodes@[indexes@[j] as int] is Leaf by {
                assert(nodes@[j] == BvhNode::Leaf(BoxIdx(j as usize), TriIdx(j as usize)));
            }
        }
        proof {
            broadcast use vstd::seq_lib::group_to_multiset_ensures;
            assert(indexes@.no_duplicates());
            indexes@.lemma_multiset_has_no_duplicates();
            assert forall|x: usize| #[trigger] indexes@.to_multiset().count(x) <= 1 by {
                if indexes@.to_multiset().count(x) > 0 {
                    assert(indexes@.to_multiset().contains(x));
                }
            }
        }
        let root = make_subtree::<B, T, FS, FJ>(
            &mut nodes,
            &mut boxes,
            indexes.as_slice(),
            split,
            join,
            Ghost(n as nat),
            Ghost(tris@),
        );
        let node_count = nodes.len();
        let res = BvhTreeArr { root: NodeIdx(root), nodes, boxes, triangles: tris };
        proof {
            let ns = res.nodes@;
            assert(ns.len() == node_count);
            assert(indexes@ =~= Seq::new(n as nat, |i: int| i as usize));
            assert forall|j: int| 0 <= j < n implies #[trigger] ns[j] == BvhNode::Leaf(BoxIdx(j as usize), TriIdx(j as usize)) by {
                assert(leaves[j] == ns[j]);
            }
            assert forall|j: int| 0 <= j < n implies bound_triangle.ensures((&res.triangles@[j],), #[trigger] res.boxes@[j]) by {
                assert(leaf_boxes[j] == res.boxes@[j]);
            }
            lemma_leaf_nodes_are_leaves(ns, root as int);
            let ln = leaf_nodes(ns, root as int);
            broadcast use vstd::seq_lib::group_to_multiset_ensures;
            assert forall|j: int| 0 <= j < ln.len() implies tri_index(ns[#[trigger] ln[j] as int]) == ln[j] by {
                let x = ln[j];
                assert(ln.to_multiset().count(x) > 0);
                assert(indexes@.contains(x));
                let k = choose|k: int| 0 <= k < indexes@.len() && indexes@[k] == x;
                assert(ns[x as int] == BvhNode::Leaf(BoxIdx(x), TriIdx(x)));
            }
            assert(res.leaf_triangle_indices() =~= ln);
            lemma_arr_tree_leaves(ns, res.boxes@, res.triangles@, root as int);
        }
        res
    }
}

} // verus!
