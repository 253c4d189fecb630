//! Index arithmetic of a binary tree stored breadth-first in one array:
//! the root at index 0 and the children of index `i` at `2i + 1` and `2i + 2`.
use vstd::prelude::*;

verus! {

/// `2` to the power `e`.
pub open spec fn two_pow(e: nat) -> nat
    decreases e,
{
    if e == 0 {
        1
    } else {
        2 * two_pow((e - 1) as nat)
    }
}

/// Index of the parent of index `i > 0`.
pub open spec fn parent(i: int) -> int {
    (i - 1) / 2
}

/// Level of index `i`: the root is at level 0, its children at level 1, and so on.
pub open spec fn level(i: nat) -> nat
    decreases i,
{
    if i == 0 {
        0
    } else {
        level(((i - 1) / 2) as nat) + 1
    }
}

/// `floor(log2(n))` for `n >= 1`, and `0` for `n == 0`.
pub open spec fn floor_log2(n: nat) -> nat
    decreases n,
{
    if n <= 1 {
        0
    } else {
        1 + floor_log2(n / 2)
    }
}

/// Index `i` lies in the subtree rooted at index `p` (`p` itself included).
pub open spec fn is_desc(p: int, i: int) -> bool
    decreases i,
{
    if i == p {
        true
    } else if i > p && i > 0 {
        is_desc(p, (i - 1) / 2)
    } else {
        false
    }
}

pub proof fn lemma_two_pow_pos(e: nat)
    ensures
        two_pow(e) >= 1,
    decreases e,
{
    if e > 0 {
        lemma_two_pow_pos((e - 1) as nat);
    }
}

pub proof fn lemma_two_pow_mono(a: nat, b: nat)
    requires
        a <= b,
    ensures
        two_pow(a) <= two_pow(b),
    decreases b,
{
    lemma_two_pow_pos(b);
    if a < b {
        lemma_two_pow_mono(a, (b - 1) as nat);
    }
}

/// The indices of level `level(i)` are `2^level(i) - 1 ..= 2^(level(i) + 1) - 2`.
pub proof fn lemma_level_bounds(i: nat)
    ensures
        two_pow(level(i)) <= i + 1 < two_pow(level(i) + 1),
    decreases i,
{
    if i > 0 {
        let p = ((i - 1) / 2) as nat;
        lemma_level_bounds(p);
        assert(two_pow(level(i) + 1) == 2 * two_pow(level(i)));
    }
}

/// Index `2^e - 1 + j` with `j < 2^e` is at level `e`.
pub proof fn lemma_level_of(e: nat, j: nat)
    requires
        j < two_pow(e),
    ensures
        level((two_pow(e) - 1 + j) as nat) == e,
{
    let i = (two_pow(e) - 1 + j) as nat;
    lemma_two_pow_pos(e);
    lemma_level_bounds(i);
    let l = level(i);
    if l < e {
        lemma_two_pow_mono(l + 1, e);
    } else if l > e {
        lemma_two_pow_mono(e + 1, l);
    }
}

/// The children of index `i` are one level below it.
pub proof fn lemma_level_child(i: nat)
    ensures
        level(2 * i + 1) == level(i) + 1,
        level(2 * i + 2) == level(i) + 1,
{
    assert(((2 * i + 1 - 1) / 2) as nat == i);
    assert(((2 * i + 2 - 1) / 2) as nat == i);
}

/// An index below `2^(d + 1) - 1` is at level at most `d`.
pub proof fn lemma_level_below(i: nat, d: nat)
    requires
        i + 1 < two_pow(d + 1),
    ensures
        level(i) <= d,
{
    lemma_level_bounds(i);
    if level(i) > d {
        lemma_two_pow_mono(d + 1, level(i));
    }
}

/// An index at level at most `d` is below `2^(d + 1) - 1`.
pub proof fn lemma_level_within(i: nat, d: nat)
    requires
        level(i) <= d,
    ensures
        i + 1 < two_pow(d + 1),
{
    lemma_level_bounds(i);
    lemma_two_pow_mono(level(i) + 1, d + 1);
}

/// Where index `i` lands when its tree becomes the left subtree of a new root.
pub open spec fn left_slot(i: nat) -> nat {
    i + two_pow(level(i))
}

/// Where index `i` lands when its tree becomes the right subtree of a new root.
pub open spec fn right_slot(i: nat) -> nat {
    i + 2 * two_pow(level(i))
}

/// Index `k >= 1` lies in the left subtree of the root.
pub open spec fn in_left_half(k: nat) -> bool {
    k + 1 < two_pow(level(k)) + two_pow((level(k) - 1) as nat)
}

/// The index in the left subtree that lands at `k` (see [left_slot]).
pub open spec fn left_source(k: nat) -> int {
    k - two_pow((level(k) - 1) as nat)
}

/// The index in the right subtree that lands at `k` (see [right_slot]).
pub open spec fn right_source(k: nat) -> int {
    k - two_pow(level(k))
}

pub proof fn lemma_left_slot(i: nat)
    ensures
        level(left_slot(i)) == level(i) + 1,
        in_left_half(left_slot(i)),
        left_source(left_slot(i)) == i,
        left_slot(2 * i + 1) == 2 * left_slot(i) + 1,
        left_slot(2 * i + 2) == 2 * left_slot(i) + 2,
{
    let e = level(i);
    lemma_level_bounds(i);
    let j = (i + 1 - two_pow(e)) as nat;
    assert(two_pow(e + 1) == 2 * two_pow(e));
    lemma_level_of(e + 1, j);
    assert(left_slot(i) == two_pow(e + 1) - 1 + j);
    lemma_level_child(i);
    assert(two_pow(level(2 * i + 1)) == 2 * two_pow(e));
}

pub proof fn lemma_right_slot(i: nat)
    ensures
        level(right_slot(i)) == level(i) + 1,
        !in_left_half(right_slot(i)),
        right_source(right_slot(i)) == i,
        right_slot(2 * i + 1) == 2 * right_slot(i) + 1,
        right_slot(2 * i + 2) == 2 * right_slot(i) + 2,
{
    let e = level(i);
    lemma_level_bounds(i);
    let j = (i + 1 - two_pow(e)) as nat;
    assert(two_pow(e + 1) == 2 * two_pow(e));
    lemma_level_of(e + 1, two_pow(e) + j);
    assert(right_slot(i) == two_pow(e + 1) - 1 + two_pow(e) + j);
    lemma_level_child(i);
    assert(two_pow(level(2 * i + 1)) == 2 * two_pow(e));
}

/// Every index below the root lands from its source.
pub proof fn lemma_slot_source(k: nat)
    requires
        k >= 1,
    ensures
        level(k) >= 1,
        left_source(k) >= 0,
        !in_left_half(k) ==> right_source(k) >= 0,
        in_left_half(k) ==> left_slot(left_source(k) as nat) == k,
        !in_left_half(k) ==> right_slot(right_source(k) as nat) == k,
        in_left_half(k) ==> level(left_source(k) as nat) + 1 == level(k),
        !in_left_half(k) ==> level(right_source(k) as nat) + 1 == level(k),
{
    let e = level(k);
    lemma_level_bounds(k);
    if e == 0 {
        assert(two_pow(1) == 2);
    }
    let h = two_pow((e - 1) as nat);
    assert(two_pow(e) == 2 * h);
    let off = (k + 1 - two_pow(e)) as nat;
    if in_left_half(k) {
        lemma_level_of((e - 1) as nat, off);
        assert(left_source(k) == h - 1 + off);
    } else {
        lemma_level_of((e - 1) as nat, (off - h) as nat);
        assert(right_source(k) == h - 1 + (off - h));
    }
}

pub proof fn lemma_floor_log2_full(d: nat)
    ensures
        floor_log2((two_pow(d + 1) - 1) as nat) == d,
    decreases d,
{
    lemma_two_pow_pos(d);
    if d > 0 {
        lemma_floor_log2_full((d - 1) as nat);
        assert(((two_pow(d + 1) - 1) as nat) / 2 == (two_pow(d) - 1) as nat);
    }
}

pub proof fn lemma_floor_log2_le(n: nat)
    ensures
        floor_log2(n) <= n,
    decreases n,
{
    if n > 1 {
        lemma_floor_log2_le(n / 2);
    }
}

pub proof fn lemma_desc_ge(p: int, i: int)
    requires
        is_desc(p, i),
    ensures
        i >= p,
    decreases i,
{
    if i != p {
        lemma_desc_ge(p, (i - 1) / 2);
    }
}

/// Every index is in the subtree of the root.
pub proof fn lemma_desc_root(i: int)
    requires
        i >= 0,
    ensures
        is_desc(0, i),
    decreases i,
{
    if i > 0 {
        lemma_desc_root((i - 1) / 2);
    }
}

/// The subtree of a child lies within the subtree of its parent.
pub proof fn lemma_desc_child(p: int, i: int)
    requires
        p >= 0,
        is_desc(2 * p + 1, i) || is_desc(2 * p + 2, i),
    ensures
        is_desc(p, i),
        i != p,
    decreases i,
{
    if is_desc(2 * p + 1, i) {
        lemma_desc_ge(2 * p + 1, i);
    } else {
        lemma_desc_ge(2 * p + 2, i);
    }
    if i == 2 * p + 1 || i == 2 * p + 2 {
        assert((i - 1) / 2 == p);
        assert(is_desc(p, p));
    } else {
        lemma_desc_child(p, (i - 1) / 2);
    }
}

/// A proper descendant of `p` descends from one of the two children of `p`.
pub proof fn lemma_desc_split(p: int, i: int)
    requires
        p >= 0,
        is_desc(p, i),
        i != p,
    ensures
        is_desc(2 * p + 1, i) || is_desc(2 * p + 2, i),
    decreases i,
{
    let q = (i - 1) / 2;
    if q == p {
        assert(i == 2 * p + 1 || i == 2 * p + 2);
    } else {
        lemma_desc_split(p, q);
        if is_desc(2 * p + 1, q) {
            lemma_desc_ge(2 * p + 1, q);
        } else {
            lemma_desc_ge(2 * p + 2, q);
        }
    }
}

/// Two subtrees that share an index are nested.
pub proof fn lemma_desc_nested(a: int, b: int, i: int)
    requires
        is_desc(a, i),
        is_desc(b, i),
        a <= b,
    ensures
        is_desc(a, b),
    decreases i,
{
    if i != b {
        lemma_desc_ge(b, i);
        lemma_desc_nested(a, b, (i - 1) / 2);
    }
}

/// The subtrees of two siblings are disjoint.
pub proof fn lemma_desc_siblings(p: int, i: int)
    requires
        p >= 0,
    ensures
        !(is_desc(2 * p + 1, i) && is_desc(2 * p + 2, i)),
{
    if is_desc(2 * p + 1, i) && is_desc(2 * p + 2, i) {
        lemma_desc_nested(2 * p + 1, 2 * p + 2, i);
        assert((2 * p + 2 - 1) / 2 == p);
        lemma_desc_ge(2 * p + 1, p);
    }
}

} // verus!
