//! Packed binary-tree bitmap engine.
//!
//! A complete binary tree of depth 6 (63 nodes) is stored breadth-first in the
//! low 63 bits of a `u64`, root at bit 0, children of node `i` at `2i+1` and
//! `2i+2`.  A set bit means the node is not available as a whole block at its
//! size class.  `alloc_in_tree` claims the first free node of a level and
//! marks the node, its whole subtree and its ancestors; `release_in_tree`
//! clears a claimed subtree and coalesces freed buddies upward.

use vstd::prelude::*;

verus! {

/// True when bit `i` of `t` is set.
pub open spec fn bit64(t: u64, i: u64) -> bool {
    (t >> i) & 1 == 1
}

/// Parent of node `i` under breadth-first numbering with root 0.
pub open spec fn parent(i: u64) -> u64
    recommends
        0 < i,
{
    (((i - 1) / 2) as u64)
}

/// `a` lies on the path from the root down to `d`: it is `d` itself or one of
/// its ancestors; equivalently, `d` lies in the subtree rooted at `a`.
pub open spec fn in_path(a: u64, d: u64) -> bool
    decreases d,
{
    a == d || (d > 0 && in_path(a, parent(d)))
}

pub proof fn lemma_bit64_or(a: u64, b: u64, i: u64)
    by (bit_vector)
    requires
        i < 64,
    ensures
        bit64(a | b, i) == (bit64(a, i) || bit64(b, i)),
{
}

pub proof fn lemma_bit64_andnot(a: u64, b: u64, i: u64)
    by (bit_vector)
    requires
        i < 64,
    ensures
        bit64(a & !b, i) == (bit64(a, i) && !bit64(b, i)),
{
}

pub proof fn lemma_bit64_onehot(n: u64, i: u64)
    by (bit_vector)
    requires
        n < 64,
        i < 64,
    ensures
        bit64(1u64 << n, i) == (i == n),
{
}

pub proof fn lemma_bit64_and(a: u64, b: u64, i: u64)
    by (bit_vector)
    requires
        i < 64,
    ensures
        bit64(a & b, i) == (bit64(a, i) && bit64(b, i)),
{
}

pub proof fn lemma_bit64_zero(i: u64)
    by (bit_vector)
    requires
        i < 64,
    ensures
        !bit64(0u64, i),
{
}

/// The mask selecting the low `k` bits of a `u64`.
spec fn lowmask(k: u64) -> u64 {
    if k >= 64 {
        0xffff_ffff_ffff_ffffu64
    } else {
        (((1u64 << k) - 1) as u64)
    }
}

proof fn lemma_lowmask_step(a: u64, k: u64)
    by (bit_vector)
    requires
        k < 64,
    ensures
        a & lowmask((k + 1) as u64) == (a & lowmask(k)) | (a & (1u64 << k)),
{
}

proof fn lemma_bit64_select(a: u64, b: u64, k: u64)
    by (bit_vector)
    requires
        k < 64,
        bit64(a, k) == bit64(b, k),
    ensures
        a & (1u64 << k) == b & (1u64 << k),
{
}

proof fn lemma_bit64_ext_rec(a: u64, b: u64, k: u64)
    requires
        k <= 64,
        forall|i: u64| i < k ==> (#[trigger] bit64(a, i)) == bit64(b, i),
    ensures
        a & lowmask(k) == b & lowmask(k),
    decreases k,
{
    if k == 0 {
        assert(a & lowmask(0) == b & lowmask(0)) by (bit_vector);
    } else {
        let j = (k - 1) as u64;
        lemma_bit64_ext_rec(a, b, j);
        lemma_lowmask_step(a, j);
        lemma_lowmask_step(b, j);
        lemma_bit64_select(a, b, j);
    }
}

/// Two `u64` values with the same bits are equal.
pub proof fn lemma_bit64_ext(a: u64, b: u64)
    requires
        forall|i: u64| i < 64 ==> (#[trigger] bit64(a, i)) == bit64(b, i),
    ensures
        a == b,
{
    lemma_bit64_ext_rec(a, b, 64);
    assert(a & lowmask(64) == a) by (bit_vector);
    assert(b & lowmask(64) == b) by (bit_vector);
}

/// `a & b == 0` says the set bits of `a` and `b` are disjoint.
pub proof fn lemma_bit64_and_zero(a: u64, b: u64)
    ensures
        (a & b == 0) <==> (forall|i: u64| i < 64 ==> !((#[trigger] bit64(a, i)) && bit64(b, i))),
{
    if a & b == 0 {
        assert forall|i: u64| i < 64 implies !((#[trigger] bit64(a, i)) && bit64(b, i)) by {
            lemma_bit64_and(a, b, i);
            lemma_bit64_zero(i);
        }
    }
    if forall|i: u64| i < 64 ==> !((#[trigger] bit64(a, i)) && bit64(b, i)) {
        assert forall|i: u64| i < 64 implies (#[trigger] bit64(a & b, i)) == bit64(0u64, i) by {
            lemma_bit64_and(a, b, i);
            lemma_bit64_zero(i);
        }
        lemma_bit64_ext(a & b, 0);
    }
}

/// `a & b == b` says every set bit of `b` is set in `a`.
pub proof fn lemma_bit64_covers(a: u64, b: u64)
    ensures
        (a & b == b) <==> (forall|i: u64| i < 64 && bit64(b, i) ==> #[trigger] bit64(a, i)),
{
    if a & b == b {
        assert forall|i: u64| i < 64 && bit64(b, i) implies #[trigger] bit64(a, i) by {
            lemma_bit64_and(a, b, i);
        }
    }
    if forall|i: u64| i < 64 && bit64(b, i) ==> #[trigger] bit64(a, i) {
        assert forall|i: u64| i < 64 implies (#[trigger] bit64(a & b, i)) == bit64(b, i) by {
            lemma_bit64_and(a, b, i);
        }
        lemma_bit64_ext(a & b, b);
    }
}

/// A node on the path to `d` has an index no larger than `d`.
pub proof fn lemma_in_path_le(a: u64, d: u64)
    requires
        in_path(a, d),
    ensures
        a <= d,
    decreases d,
{
    if a != d {
        lemma_in_path_le(a, parent(d));
    }
}

pub proof fn lemma_in_path_trans(a: u64, b: u64, c: u64)
    requires
        in_path(a, b),
        in_path(b, c),
    ensures
        in_path(a, c),
    decreases c,
{
    if b != c {
        lemma_in_path_trans(a, b, parent(c));
    }
}

pub proof fn lemma_in_path_antisym(a: u64, b: u64)
    requires
        in_path(a, b),
        in_path(b, a),
    ensures
        a == b,
{
    lemma_in_path_le(a, b);
    lemma_in_path_le(b, a);
}

/// A strict descendant of `n` lies in the subtree of one of `n`'s children.
pub proof fn lemma_in_path_child(n: u64, d: u64)
    requires
        in_path(n, d),
        n != d,
    ensures
        in_path((2 * n + 1) as u64, d) || in_path((2 * n + 2) as u64, d),
    decreases d,
{
    if parent(d) == n {
        assert(d == 2 * n + 1 || d == 2 * n + 2);
    } else {
        lemma_in_path_child(n, parent(d));
    }
}

/// The subtree of a child is part of the subtree of its parent.
pub proof fn lemma_in_path_from_child(n: u64, c: u64, d: u64)
    requires
        c == 2 * n + 1 || c == 2 * n + 2,
        in_path(c, d),
    ensures
        in_path(n, d),
{
    assert(parent(c) == n);
    assert(in_path(n, n));
    assert(in_path(n, c));
    lemma_in_path_trans(n, c, d);
}

/// Bits of the whole subtree rooted at `n`: `n` itself and all descendants.
pub open spec fn subtree_mask(n: u64) -> u64
    decreases 62 - n,
    when n < 63
{
    if n >= 31 {
        1u64 << n
    } else {
        (1u64 << n) | subtree_mask((2 * n + 1) as u64) | subtree_mask((2 * n + 2) as u64)
    }
}

/// Bits of the strict ancestors of `n`.
pub open spec fn anc_mask(n: u64) -> u64
    decreases n,
{
    if n == 0 {
        0u64
    } else {
        (1u64 << parent(n)) | anc_mask(parent(n))
    }
}

/// All bits that claiming node `n` marks: the subtree of `n` and its
/// ancestors.
pub open spec fn claim_mask(n: u64) -> u64
    recommends
        n < 63,
{
    subtree_mask(n) | anc_mask(n)
}

/// Bit `i` of `subtree_mask(n)` is set exactly when `i` lies in the subtree
/// rooted at `n`.
pub proof fn lemma_subtree_mask_bits(n: u64, i: u64)
    requires
        n < 63,
        i < 64,
    ensures
        bit64(subtree_mask(n), i) == (i < 63 && in_path(n, i)),
    decreases 62 - n,
{
    if n >= 31 {
        lemma_bit64_onehot(n, i);
        if i < 63 && in_path(n, i) && i != n {
            lemma_in_path_child(n, i);
            if in_path((2 * n + 1) as u64, i) {
                lemma_in_path_le((2 * n + 1) as u64, i);
            } else {
                lemma_in_path_le((2 * n + 2) as u64, i);
            }
        }
    } else {
        let l = ((2 * n + 1) as u64);
        let r = ((2 * n + 2) as u64);
        lemma_bit64_or((1u64 << n) | subtree_mask(l), subtree_mask(r), i);
        lemma_bit64_or(1u64 << n, subtree_mask(l), i);
        lemma_bit64_onehot(n, i);
        lemma_subtree_mask_bits(l, i);
        lemma_subtree_mask_bits(r, i);
        if i < 63 && in_path(n, i) && i != n {
            lemma_in_path_child(n, i);
        }
        if in_path(l, i) {
            lemma_in_path_from_child(n, l, i);
        }
        if in_path(r, i) {
            lemma_in_path_from_child(n, r, i);
        }
    }
}

/// Bit `i` of `anc_mask(n)` is set exactly when `i` is a strict ancestor of
/// `n`.
pub proof fn lemma_anc_mask_bits(n: u64, i: u64)
    requires
        n < 63,
        i < 64,
    ensures
        bit64(anc_mask(n), i) == (i != n && in_path(i, n)),
    decreases n,
{
    if n == 0 {
        lemma_bit64_zero(i);
        if in_path(i, 0) {
            lemma_in_path_le(i, 0);
        }
    } else {
        let p = parent(n);
        lemma_bit64_or(1u64 << p, anc_mask(p), i);
        lemma_bit64_onehot(p, i);
        lemma_anc_mask_bits(p, i);
        if i != n && in_path(i, n) {
            lemma_in_path_le(i, n);
        }
        if i != p && in_path(i, p) {
            lemma_in_path_le(i, p);
            assert(in_path(i, n));
        }
        if i == p {
            assert(in_path(p, p));
            assert(in_path(p, n));
        }
    }
}

/// First node index of `level` in the packed layout; level 5 is the root,
/// level 0 holds the 32 leaves.
pub open spec fn level_first(level: u64) -> u64
    recommends
        level <= 5,
{
    (((32u64 >> level) - 1) as u64)
}

/// Number of nodes of `level`.
pub open spec fn level_count(level: u64) -> u64 {
    32u64 >> level
}

/// Node of `level` at position `j` within the level.
pub open spec fn level_node(level: u64, j: u64) -> u64
    recommends
        level <= 5,
        j < level_count(level),
{
    ((level_first(level) + j) as u64)
}

/// No node of `level` is free in `t`.
pub open spec fn level_full(t: u64, level: u64) -> bool
    recommends
        level <= 5,
{
    forall|j: u64| j < level_count(level) ==> bit64(t, #[trigger] level_node(level, j))
}

pub proof fn lemma_level_geometry(level: u64)
    by (bit_vector)
    requires
        level <= 5,
    ensures
        1 <= level_count(level) <= 32,
        level_first(level) == level_count(level) - 1,
        level_count(level) == 32u64 >> level,
{
}

/// Distinct nodes of one level are not related as ancestor and descendant.
pub proof fn lemma_same_level_incomparable(level: u64, j1: u64, j2: u64)
    requires
        level <= 5,
        j1 < level_count(level),
        j2 < level_count(level),
        j1 != j2,
    ensures
        !in_path(level_node(level, j1), level_node(level, j2)),
{
    lemma_level_geometry(level);
    let a = level_node(level, j1);
    let d = level_node(level, j2);
    if in_path(a, d) {
        assert(in_path(a, parent(d)));
        lemma_in_path_le(a, parent(d));
    }
}

/// Executable computation of `subtree_mask`.
pub fn sub_mask(n: usize) -> (r: u64)
    requires
        n < 63,
    ensures
        r == subtree_mask(n as u64),
    decreases 62 - n,
{
    if n >= 31 {
        1u64 << (n as u64)
    } else {
        (1u64 << (n as u64)) | sub_mask(2 * n + 1) | sub_mask(2 * n + 2)
    }
}

/// Executable computation of `anc_mask`.
pub fn ancestor_mask(n: usize) -> (r: u64)
    requires
        n < 63,
    ensures
        r == anc_mask(n as u64),
    decreases n,
{
    if n == 0 {
        0u64
    } else {
        let p = (n - 1) / 2;
        (1u64 << (p as u64)) | ancestor_mask(p)
    }
}

pub proof fn lemma_bit64_read(t: u64, i: u64)
    by (bit_vector)
    requires
        i < 64,
    ensures
        ((t >> i) & 1 == 0) == !bit64(t, i),
{
}

/// Position of the first free node of `level` in `t`, if any.
fn find_first_zero(t: u64, level: usize) -> (r: Option<usize>)
    requires
        level <= 5,
    ensures
        match r {
            None => level_full(t, level as u64),
            Some(j) => {
                &&& j < level_count(level as u64)
                &&& !bit64(t, level_node(level as u64, j as u64))
                &&& forall|k: u64| k < j ==> bit64(t, #[trigger] level_node(level as u64, k))
            },
        },
{
    proof {
        lemma_level_geometry(level as u64);
    }
    let count: usize = (32u64 >> (level as u64)) as usize;
    let first: usize = count - 1;
    let mut j: usize = 0;
    while j < count
        invariant
            level <= 5,
            count == level_count(level as u64),
            first == level_first(level as u64),
            1 <= count <= 32,
            first == count - 1,
            j <= count,
            forall|k: u64| k < j ==> bit64(t, #[trigger] level_node(level as u64, k)),
        decreases count - j,
    {
        let node: usize = first + j;
        proof {
            lemma_bit64_read(t, node as u64);
            assert(node as u64 == level_node(level as u64, j as u64));
        }
        if (t >> (node as u64)) & 1 == 0 {
            return Some(j);
        }
        j += 1;
    }
    None
}

/// Whether `level` still has a free node in `t`.
pub fn level_has_free(t: u64, level: usize) -> (r: bool)
    requires
        level <= 5,
    ensures
        r == !level_full(t, level as u64),
{
    match find_first_zero(t, level) {
        Some(j) => {
            proof {
                assert(!bit64(t, level_node(level as u64, j as u64)));
            }
            true
        },
        None => false,
    }
}

/// Claim the first free node of `level`: mark it, its whole subtree and its
/// ancestors, and report the claimed node with its position in the level.
/// Reports through `is_now_full` whether the level is exhausted afterwards.
pub fn alloc_in_tree(tree: &mut u64, level: usize, is_now_full: &mut bool) -> (r: Option<
    (usize, usize),
>)
    requires
        level <= 5,
    ensures
        match r {
            None => {
                &&& *final(tree) == *old(tree)
                &&& *final(is_now_full) == *old(is_now_full)
                &&& level_full(*old(tree), level as u64)
            },
            Some((idx, pos)) => {
                &&& pos < level_count(level as u64)
                &&& idx < 63
                &&& idx as u64 == level_node(level as u64, pos as u64)
                &&& !bit64(*old(tree), idx as u64)
                &&& forall|k: u64|
                    k < pos ==> bit64(*old(tree), #[trigger] level_node(level as u64, k))
                &&& *final(tree) == *old(tree) | claim_mask(idx as u64)
                &&& *final(is_now_full) == level_full(*final(tree), level as u64)
            },
        },
{
    proof {
        lemma_level_geometry(level as u64);
    }
    let t0: u64 = *tree;
    let count: usize = (32u64 >> (level as u64)) as usize;
    let first: usize = count - 1;
    let j = match find_first_zero(t0, level) {
        None => {
            return None;
        },
        Some(j) => j,
    };
    let idx: usize = first + j;
    let mask: u64 = sub_mask(idx) | ancestor_mask(idx);
    let t1: u64 = t0 | mask;
    *tree = t1;
    proof {
        assert(t0 | (subtree_mask(idx as u64) | anc_mask(idx as u64)) == t0 | claim_mask(
            idx as u64,
        ));
    }
    // The level is exhausted afterwards exactly when no later position was
    // still free before the claim: the claim touches no other node of the
    // level.
    let mut full: bool = true;
    let mut k: usize = j + 1;
    while k < count
        invariant
            level <= 5,
            count == level_count(level as u64),
            first == level_first(level as u64),
            1 <= count <= 32,
            first == count - 1,
            j < count,
            idx == first + j,
            j < k <= count,
            full == forall|q: u64|
                j < q < k ==> bit64(t0, #[trigger] level_node(level as u64, q)),
        decreases count - k,
    {
        let node: usize = first + k;
        proof {
            lemma_bit64_read(t0, node as u64);
            assert(node as u64 == level_node(level as u64, k as u64));
        }
        if (t0 >> (node as u64)) & 1 != 0 {
            proof {
                if full {
                    assert forall|q: u64|
                        j < q < k + 1 implies bit64(
                        t0,
                        #[trigger] level_node(level as u64, q),
                    ) by {
                        if q < k {
                            assert(bit64(t0, level_node(level as u64, q)));
                        }
                    }
                } else {
                    let q0 = choose|q: u64|
                        j < q < k && !bit64(t0, #[trigger] level_node(level as u64, q));
                    assert(j < q0 < k + 1 && !bit64(t0, level_node(level as u64, q0)));
                }
            }
        } else {
            full = false;
            proof {
                assert(!bit64(t0, level_node(level as u64, k as u64)));
            }
        }
        k += 1;
    }
    *is_now_full = full;
    proof {
        lemma_alloc_full_flag(t0, t1, level as u64, j as u64, full);
    }
    Some((idx, j))
}

/// After claiming position `j`, the level is full exactly when every other
/// position was already taken.
proof fn lemma_alloc_full_flag(t0: u64, t1: u64, level: u64, j: u64, full: bool)
    requires
        level <= 5,
        j < level_count(level),
        t1 == t0 | claim_mask(level_node(level, j)),
        forall|k: u64| k < j ==> bit64(t0, #[trigger] level_node(level, k)),
        full == forall|q: u64| j < q < level_count(level) ==> bit64(t0, #[trigger] level_node(level, q)),
    ensures
        full == level_full(t1, level),
{
    lemma_level_geometry(level);
    let n = level_node(level, j);
    assert forall|q: u64| q < level_count(level) implies (#[trigger] bit64(t1, level_node(level, q))
        == (q == j || bit64(t0, level_node(level, q)))) by {
        let node = level_node(level, q);
        lemma_bit64_or(t0, claim_mask(n), node);
        lemma_bit64_or(subtree_mask(n), anc_mask(n), node);
        lemma_subtree_mask_bits(n, node);
        lemma_anc_mask_bits(n, node);
        if q == j {
            assert(in_path(n, n));
        } else {
            lemma_same_level_incomparable(level, j, q);
            lemma_same_level_incomparable(level, q, j);
        }
    }
    if full {
        assert forall|q: u64| q < level_count(level) implies bit64(
            t1,
            #[trigger] level_node(level, q),
        ) by {
            assert(bit64(t1, level_node(level, q)) == (q == j || bit64(t0, level_node(level, q))));
        }
    } else {
        let q = choose|q: u64|
            j < q < level_count(level) && !bit64(t0, #[trigger] level_node(level, q));
        assert(!bit64(t1, level_node(level, q)));
    }
}

/// The buddy of node `c`: the other child of `c`'s parent.
pub open spec fn sibling(c: u64) -> u64
    recommends
        0 < c < 63,
{
    if c % 2 == 1 {
        ((c + 1) as u64)
    } else {
        ((c - 1) as u64)
    }
}

/// Walk from `c` toward the root, clearing each ancestor whose other child's
/// subtree is entirely free, and stopping at the first one that is not.
pub open spec fn coalesce_up(t: u64, c: u64) -> u64
    recommends
        c < 63,
    decreases c,
{
    if c == 0 {
        t
    } else {
        let p = parent(c);
        if t & subtree_mask(sibling(c)) == 0 {
            coalesce_up(t & !(1u64 << p), p)
        } else {
            t
        }
    }
}

/// The tree state after releasing the block claimed at node `n`: the whole
/// subtree of `n` is cleared, then freed buddies coalesce upward.
pub open spec fn release_spec(t: u64, n: u64) -> u64
    recommends
        n < 63,
{
    coalesce_up(t & !subtree_mask(n), n)
}

/// Release the block claimed at node `idx`.
pub fn release_in_tree(tree: &mut u64, idx: usize)
    requires
        idx < 63,
    ensures
        *final(tree) == release_spec(*old(tree), idx as u64),
{
    let ghost t_start: u64 = *tree;
    let mut t: u64 = *tree & !sub_mask(idx);
    let mut c: usize = idx;
    let mut walking: bool = true;
    while walking && c > 0
        invariant
            c < 63,
            walking ==> coalesce_up(t, c as u64) == release_spec(t_start, idx as u64),
            !walking ==> t == release_spec(t_start, idx as u64),
        decreases 2 * c + (if walking { 1int } else { 0int }),
    {
        let p: usize = (c - 1) / 2;
        let s: usize = if c % 2 == 1 {
            c + 1
        } else {
            c - 1
        };
        proof {
            assert(p as u64 == parent(c as u64));
            assert(s as u64 == sibling(c as u64));
        }
        if t & sub_mask(s) == 0 {
            t = t & !(1u64 << (p as u64));
            c = p;
        } else {
            walking = false;
        }
    }
    *tree = t;
}

/// Upward closure: every set bit has its parent set.
pub open spec fn tree_up(t: u64) -> bool {
    forall|i: u64| 0 < i < 63 && (#[trigger] bit64(t, i)) ==> bit64(t, parent(i))
}

/// Downward support: every set internal node has a set child.
pub open spec fn tree_down(t: u64) -> bool {
    forall|i: u64|
        i < 31 && (#[trigger] bit64(t, i)) ==> (bit64(t, ((2 * i + 1) as u64)) || bit64(
            t,
            ((2 * i + 2) as u64),
        ))
}

/// Well-formedness of a tree state: every set bit has its parent set, and
/// every set internal node has a set child.  Both hold of the zero tree and
/// are preserved by `alloc_in_tree` and `release_in_tree`.
pub open spec fn tree_wf(t: u64) -> bool {
    tree_up(t) && tree_down(t)
}

/// In an upward-closed tree a set bit propagates to every ancestor.
pub proof fn lemma_up_chain(t: u64, a: u64, j: u64)
    requires
        tree_up(t),
        j < 63,
        bit64(t, j),
        in_path(a, j),
    ensures
        bit64(t, a),
    decreases j,
{
    if a != j {
        lemma_up_chain(t, a, parent(j));
    }
}

/// In a well-formed tree a clear bit means its whole subtree is clear.
proof fn lemma_subtree_clear(t: u64, n: u64)
    requires
        tree_wf(t),
        n < 63,
        !bit64(t, n),
    ensures
        t & subtree_mask(n) == 0,
{
    lemma_bit64_and_zero(t, subtree_mask(n));
    assert forall|i: u64| i < 64 implies !((#[trigger] bit64(t, i)) && bit64(subtree_mask(n), i)) by {
        lemma_subtree_mask_bits(n, i);
        if i < 63 && in_path(n, i) && bit64(t, i) {
            lemma_up_chain(t, n, i);
        }
    }
}

/// Basic facts about a node's buddy: it is a node of the same parent and is
/// neither an ancestor nor a descendant of the node.
proof fn lemma_sibling_facts(c: u64)
    requires
        0 < c < 63,
    ensures
        0 < sibling(c) < 63,
        sibling(c) != c,
        parent(sibling(c)) == parent(c),
        !in_path(sibling(c), c),
        !in_path(c, sibling(c)),
{
    let s = sibling(c);
    let p = parent(c);
    if in_path(s, c) {
        assert(in_path(s, p));
        lemma_in_path_le(s, p);
    }
    if in_path(c, s) {
        assert(in_path(c, parent(s)));
        lemma_in_path_le(c, parent(s));
    }
}

/// The strict ancestors of `c` never reach into the subtree of `c`'s buddy.
proof fn lemma_anc_disjoint_sibling(t: u64, c: u64)
    requires
        0 < c < 63,
    ensures
        (t | anc_mask(c)) & subtree_mask(sibling(c)) == t & subtree_mask(sibling(c)),
{
    let s = sibling(c);
    lemma_sibling_facts(c);
    assert forall|i: u64|
        i < 64 implies (#[trigger] bit64((t | anc_mask(c)) & subtree_mask(s), i)) == bit64(
        t & subtree_mask(s),
        i,
    ) by {
        lemma_bit64_and(t | anc_mask(c), subtree_mask(s), i);
        lemma_bit64_and(t, subtree_mask(s), i);
        lemma_bit64_or(t, anc_mask(c), i);
        lemma_anc_mask_bits(c, i);
        lemma_subtree_mask_bits(s, i);
        if i != c && in_path(i, c) && i < 63 && in_path(s, i) {
            lemma_in_path_trans(s, i, c);
        }
    }
    lemma_bit64_ext((t | anc_mask(c)) & subtree_mask(s), t & subtree_mask(s));
}

/// Coalescing upward from `c` over a tree whose subtree at `c` is free and
/// whose ancestors of `c` are freshly marked restores the tree exactly.
proof fn lemma_coalesce_restores(t: u64, c: u64)
    requires
        tree_wf(t),
        c < 63,
        t & subtree_mask(c) == 0,
    ensures
        coalesce_up(t | anc_mask(c), c) == t,
    decreases c,
{
    if c == 0 {
        assert(t | anc_mask(0) == t) by (bit_vector);
    } else {
        let p = parent(c);
        let s = sibling(c);
        lemma_sibling_facts(c);
        let u = t | anc_mask(c);
        lemma_anc_disjoint_sibling(t, c);
        lemma_bit64_and_zero(t, subtree_mask(c));
        lemma_subtree_mask_bits(c, c);
        assert(!bit64(t, c));
        if t & subtree_mask(s) == 0 {
            lemma_bit64_and_zero(t, subtree_mask(s));
            lemma_subtree_mask_bits(s, s);
            assert(!bit64(t, s));
            // the two children of p are exactly c and its buddy, so p cannot
            // be set in a well-formed tree
            assert(c == 2 * p + 1 || c == 2 * p + 2);
            assert((c == 2 * p + 1 && s == 2 * p + 2) || (c == 2 * p + 2 && s == 2 * p + 1));
            assert(!bit64(t, p));
            // clearing p from the marked tree leaves t with the ancestors of
            // p marked
            assert forall|i: u64|
                i < 64 implies (#[trigger] bit64(u & !(1u64 << p), i)) == bit64(
                t | anc_mask(p),
                i,
            ) by {
                lemma_bit64_andnot(u, 1u64 << p, i);
                lemma_bit64_or(t, anc_mask(c), i);
                lemma_bit64_or(1u64 << p, anc_mask(p), i);
                lemma_bit64_or(t, anc_mask(p), i);
                lemma_bit64_onehot(p, i);
                lemma_anc_mask_bits(p, i);
            }
            lemma_bit64_ext(u & !(1u64 << p), t | anc_mask(p));
            lemma_subtree_clear(t, p);
            lemma_coalesce_restores(t, p);
        } else {
            // the walk stops at once; every strict ancestor of c was already
            // set, because a set bit below the buddy props up through it
            lemma_bit64_and_zero(t, subtree_mask(s));
            let j = choose|i: u64| i < 64 && (#[trigger] bit64(t, i)) && bit64(subtree_mask(s), i);
            lemma_subtree_mask_bits(s, j);
            assert forall|i: u64| i < 64 && bit64(anc_mask(c), i) implies #[trigger] bit64(
                t,
                i,
            ) by {
                lemma_anc_mask_bits(c, i);
                assert(in_path(i, parent(c)));
                assert(in_path(i, s));
                lemma_in_path_trans(i, s, j);
                lemma_up_chain(t, i, j);
            }
            assert forall|i: u64| i < 64 implies (#[trigger] bit64(u, i)) == bit64(t, i) by {
                lemma_bit64_or(t, anc_mask(c), i);
            }
            lemma_bit64_ext(u, t);
        }
    }
}

/// Round trip: claiming any free node of a well-formed tree and then
/// releasing it restores the tree bit for bit.
pub proof fn lemma_claim_release_round_trip(t: u64, n: u64)
    requires
        n < 63,
        tree_wf(t),
        !bit64(t, n),
    ensures
        release_spec(t | claim_mask(n), n) == t,
{
    lemma_subtree_clear(t, n);
    lemma_bit64_and_zero(t, subtree_mask(n));
    assert forall|i: u64|
        i < 64 implies (#[trigger] bit64((t | claim_mask(n)) & !subtree_mask(n), i)) == bit64(
        t | anc_mask(n),
        i,
    ) by {
        lemma_bit64_andnot(t | claim_mask(n), subtree_mask(n), i);
        lemma_bit64_or(t, claim_mask(n), i);
        lemma_bit64_or(subtree_mask(n), anc_mask(n), i);
        lemma_bit64_or(t, anc_mask(n), i);
        lemma_subtree_mask_bits(n, i);
        lemma_anc_mask_bits(n, i);
        if i != n && in_path(i, n) && i < 63 && in_path(n, i) {
            lemma_in_path_antisym(i, n);
        }
    }
    lemma_bit64_ext((t | claim_mask(n)) & !subtree_mask(n), t | anc_mask(n));
    lemma_coalesce_restores(t, n);
}

/// No double allocation: while the claim marks of node `n` all still stand
/// in the tree, any node a further claim can return is neither an ancestor
/// nor a descendant of `n`, so the two blocks share no memory.
pub proof fn lemma_no_double_allocation(t: u64, n: u64, m: u64)
    requires
        n < 63,
        m < 63,
        t & claim_mask(n) == claim_mask(n),
        !bit64(t, m),
    ensures
        !in_path(n, m),
        !in_path(m, n),
        spans_disjoint(n, m),
{
    lemma_bit64_covers(t, claim_mask(n));
    lemma_bit64_or(subtree_mask(n), anc_mask(n), m);
    lemma_subtree_mask_bits(n, m);
    lemma_anc_mask_bits(n, m);
    assert(in_path(n, n));
    lemma_unrelated_spans_disjoint(n, m);
}

/// The empty tree is well formed.
pub proof fn lemma_zero_wf()
    ensures
        tree_wf(0u64),
{
    assert forall|i: u64| i < 64 implies !(#[trigger] bit64(0u64, i)) by {
        lemma_bit64_zero(i);
    }
}

/// A fully marked tree is well formed.
pub proof fn lemma_full_wf()
    ensures
        tree_wf(0x7fff_ffff_ffff_ffffu64),
{
    assert forall|i: u64| i < 63 implies #[trigger] bit64(0x7fff_ffff_ffff_ffffu64, i) by {
        assert(i < 63 ==> bit64(0x7fff_ffff_ffff_ffffu64, i)) by (bit_vector);
    }
}

/// Bit `i` of a tree with node `n` claimed.
proof fn lemma_claim_bit(t: u64, n: u64, i: u64)
    requires
        n < 63,
        i < 64,
    ensures
        bit64(t | claim_mask(n), i) == (bit64(t, i) || (i < 63 && in_path(n, i)) || (i != n
            && in_path(i, n))),
{
    lemma_bit64_or(t, claim_mask(n), i);
    lemma_bit64_or(subtree_mask(n), anc_mask(n), i);
    lemma_subtree_mask_bits(n, i);
    lemma_anc_mask_bits(n, i);
}

/// Claiming a node keeps the tree well formed.
#[verifier::rlimit(60)]
pub proof fn lemma_claim_preserves_wf(t: u64, n: u64)
    requires
        tree_wf(t),
        n < 63,
    ensures
        tree_wf(t | claim_mask(n)),
{
    let r = t | claim_mask(n);
    assert forall|i: u64| 0 < i < 63 && (#[trigger] bit64(r, i)) implies bit64(r, parent(i)) by {
        lemma_claim_bit(t, n, i);
        lemma_claim_bit(t, n, parent(i));
        if bit64(t, i) {
            assert(bit64(t, parent(i)));
        } else if in_path(n, i) {
            if i == n {
                assert(in_path(parent(n), parent(n)));
                assert(in_path(parent(n), n));
            } else {
                assert(in_path(n, parent(i)));
            }
        } else {
            // i is a strict ancestor of n; so is its parent
            assert(in_path(parent(i), parent(i)));
            assert(in_path(parent(i), i));
            lemma_in_path_trans(parent(i), i, n);
            lemma_in_path_le(i, n);
            lemma_in_path_le(parent(i), i);
        }
    }
    assert forall|i: u64| i < 31 && (#[trigger] bit64(r, i)) implies (bit64(r, ((2 * i + 1) as u64))
        || bit64(r, ((2 * i + 2) as u64))) by {
        let l = ((2 * i + 1) as u64);
        let rr = ((2 * i + 2) as u64);
        lemma_claim_bit(t, n, i);
        lemma_claim_bit(t, n, l);
        lemma_claim_bit(t, n, rr);
        if bit64(t, i) {
            assert(bit64(t, l) || bit64(t, rr));
        } else if in_path(n, i) {
            // a marked subtree marks everything below i as well
            assert(parent(l) == i);
            assert(in_path(i, i));
            assert(in_path(i, l));
            lemma_in_path_trans(n, i, l);
        } else {
            // i is a strict ancestor of n: the child of i on the path to n
            // is marked too, either as n itself or as another ancestor
            lemma_in_path_child(i, n);
            if in_path(l, n) && l == n {
                assert(in_path(n, l));
            }
            if in_path(rr, n) && rr == n {
                assert(in_path(n, rr));
            }
        }
    }
}

/// Depth of node `i`: 0 for the root, 5 for the leaves.
pub open spec fn node_row(i: u64) -> nat
    decreases i,
{
    if i == 0 {
        0
    } else {
        node_row(parent(i)) + 1
    }
}

/// Position of node `i` within its row.
pub open spec fn node_pos(i: u64) -> int {
    i + 1 - vstd::arithmetic::power2::pow2(node_row(i))
}

/// First leaf slot covered by node `i`, counting the 32 leaves from 0.
pub open spec fn span_lo(i: u64) -> int {
    node_pos(i) * vstd::arithmetic::power2::pow2((5 - node_row(i)) as nat)
}

/// Number of leaf slots covered by node `i`.
pub open spec fn span_len(i: u64) -> int {
    vstd::arithmetic::power2::pow2((5 - node_row(i)) as nat) as int
}

/// The leaf ranges of `a` and `b` do not intersect.
pub open spec fn spans_disjoint(a: u64, b: u64) -> bool {
    span_lo(a) + span_len(a) <= span_lo(b) || span_lo(b) + span_len(b) <= span_lo(a)
}

/// Each node's index lies between the first index of its row and the first
/// index of the next; nodes of the packed tree sit in rows 0 to 5.
pub proof fn lemma_row_bounds(i: u64)
    requires
        i < 63,
    ensures
        node_row(i) <= 5,
        vstd::arithmetic::power2::pow2(node_row(i)) - 1 <= i,
        i < vstd::arithmetic::power2::pow2(node_row(i) + 1) - 1,
    decreases i,
{
    vstd::arithmetic::power2::lemma2_to64();
    if i == 0 {
    } else {
        let p = parent(i);
        lemma_row_bounds(p);
        let r = node_row(p);
        vstd::arithmetic::power2::lemma_pow2_unfold(r + 1);
        vstd::arithmetic::power2::lemma_pow2_unfold(r + 2);
        assert(i == 2 * p + 1 || i == 2 * p + 2);
        if node_row(i) > 5 {
            assert(node_row(i) >= 6);
            assert(vstd::arithmetic::power2::pow2(node_row(i)) >= vstd::arithmetic::power2::pow2(
                6,
            )) by {
                if node_row(i) > 6 {
                    vstd::arithmetic::power2::lemma_pow2_strictly_increases(6, node_row(i));
                }
            }
        }
    }
}

/// Rows grow strictly along a path.
pub proof fn lemma_row_on_path(a: u64, d: u64)
    requires
        in_path(a, d),
    ensures
        node_row(a) <= node_row(d),
        a != d ==> node_row(a) < node_row(d),
    decreases d,
{
    if a != d {
        lemma_row_on_path(a, parent(d));
    }
}

/// A child's leaf range lies inside its parent's.
proof fn lemma_child_span(c: u64)
    requires
        0 < c < 63,
    ensures
        span_lo(parent(c)) <= span_lo(c),
        span_lo(c) + span_len(c) <= span_lo(parent(c)) + span_len(parent(c)),
{
    let p = parent(c);
    lemma_row_bounds(c);
    lemma_row_bounds(p);
    let r = node_row(p);
    assert(node_row(c) == r + 1);
    let lc = vstd::arithmetic::power2::pow2((5 - node_row(c)) as nat) as int;
    let lp = vstd::arithmetic::power2::pow2((5 - r) as nat) as int;
    vstd::arithmetic::power2::lemma_pow2_unfold((5 - r) as nat);
    assert(lp == 2 * lc);
    vstd::arithmetic::power2::lemma_pow2_unfold(r + 1);
    let pp = node_pos(p);
    assert(c == 2 * p + 1 || c == 2 * p + 2);
    assert(node_pos(c) == 2 * pp || node_pos(c) == 2 * pp + 1);
    assert(vstd::arithmetic::power2::pow2(r) >= 1) by {
        vstd::arithmetic::power2::lemma_pow2_pos(r);
    }
    assert(lc >= 1) by {
        vstd::arithmetic::power2::lemma_pow2_pos((5 - node_row(c)) as nat);
    }
    assert(pp >= 0);
    assert(node_pos(c) * lc >= pp * lp && node_pos(c) * lc + lc <= pp * lp + lp)
        by (nonlinear_arith)
        requires
            lp == 2 * lc,
            lc >= 1,
            pp >= 0,
            node_pos(c) == 2 * pp || node_pos(c) == 2 * pp + 1,
    ;
}

/// A descendant's leaf range lies inside its ancestor's.
pub proof fn lemma_span_on_path(a: u64, d: u64)
    requires
        in_path(a, d),
        d < 63,
    ensures
        span_lo(a) <= span_lo(d),
        span_lo(d) + span_len(d) <= span_lo(a) + span_len(a),
    decreases d,
{
    if a != d {
        lemma_in_path_le(a, parent(d));
        lemma_span_on_path(a, parent(d));
        lemma_child_span(d);
    }
}

/// Distinct nodes of one row cover disjoint leaf ranges.
proof fn lemma_same_row_disjoint(a: u64, b: u64)
    requires
        a < 63,
        b < 63,
        a != b,
        node_row(a) == node_row(b),
    ensures
        spans_disjoint(a, b),
{
    lemma_row_bounds(a);
    lemma_row_bounds(b);
    let l = vstd::arithmetic::power2::pow2((5 - node_row(a)) as nat) as int;
    vstd::arithmetic::power2::lemma_pow2_pos((5 - node_row(a)) as nat);
    assert(node_pos(a) != node_pos(b));
    if node_pos(a) < node_pos(b) {
        assert(node_pos(a) * l + l <= node_pos(b) * l) by (nonlinear_arith)
            requires
                l >= 1,
                node_pos(a) < node_pos(b),
        ;
    } else {
        assert(node_pos(b) * l + l <= node_pos(a) * l) by (nonlinear_arith)
            requires
                l >= 1,
                node_pos(b) < node_pos(a),
        ;
    }
}

/// Two nodes neither of which contains the other cover disjoint leaf
/// ranges.
pub proof fn lemma_unrelated_spans_disjoint(a: u64, b: u64)
    requires
        a < 63,
        b < 63,
        !in_path(a, b),
        !in_path(b, a),
    ensures
        spans_disjoint(a, b),
    decreases node_row(a) + node_row(b),
{
    lemma_row_bounds(a);
    lemma_row_bounds(b);
    if node_row(a) == node_row(b) {
        lemma_same_row_disjoint(a, b);
    } else if node_row(a) < node_row(b) {
        let p = parent(b);
        assert(b != 0);
        if in_path(p, a) {
            lemma_row_on_path(p, a);
            assert(node_row(p) == node_row(a));
            lemma_row_on_path(p, a);
            assert(p == a) by {
                if p != a {
                    lemma_row_on_path(p, a);
                }
            }
            assert(in_path(a, b));
        }
        assert(!in_path(a, p)) by {
            if in_path(a, p) {
                assert(in_path(a, b));
            }
        }
        lemma_unrelated_spans_disjoint(a, p);
        assert(in_path(p, p));
        assert(in_path(p, b));
        lemma_span_on_path(p, b);
    } else {
        let p = parent(a);
        assert(a != 0);
        if in_path(p, b) {
            assert(p == b) by {
                if p != b {
                    lemma_row_on_path(p, b);
                }
            }
            assert(in_path(b, a));
        }
        assert(!in_path(b, p)) by {
            if in_path(b, p) {
                assert(in_path(b, a));
            }
        }
        lemma_unrelated_spans_disjoint(p, b);
        assert(in_path(p, p));
        assert(in_path(p, a));
        lemma_span_on_path(p, a);
    }
}

/// The node of position `j` in a level sits in row `5 - level` at position
/// `j`, so it covers leaves `j * 2^level` to `(j + 1) * 2^level`.
pub proof fn lemma_level_node_span(level: u64, j: u64)
    requires
        level <= 5,
        j < level_count(level),
    ensures
        node_row(level_node(level, j)) == 5 - level,
        node_pos(level_node(level, j)) == j,
        span_lo(level_node(level, j)) == j * vstd::arithmetic::power2::pow2(level as nat),
        span_len(level_node(level, j)) == vstd::arithmetic::power2::pow2(level as nat),
{
    vstd::arithmetic::power2::lemma2_to64();
    lemma_level_geometry(level);
    assert(level_count(level) == vstd::arithmetic::power2::pow2((5 - level) as nat)) by {
        assert(32u64 >> 0u64 == 32 && 32u64 >> 1u64 == 16 && 32u64 >> 2u64 == 8 && 32u64 >> 3u64
            == 4 && 32u64 >> 4u64 == 2 && 32u64 >> 5u64 == 1) by (bit_vector);
    }
    let i = level_node(level, j);
    let r = ((5 - level) as nat);
    assert(vstd::arithmetic::power2::pow2(r) - 1 <= i < vstd::arithmetic::power2::pow2(r + 1)
        - 1) by {
        vstd::arithmetic::power2::lemma_pow2_unfold(r + 1);
    }
    lemma_row_bounds(i);
    let r0 = node_row(i);
    if r0 < r {
        vstd::arithmetic::power2::lemma_pow2_strictly_increases(r0 + 1, r + 1);
        if r0 + 1 < r {
            vstd::arithmetic::power2::lemma_pow2_strictly_increases(r0 + 1, r);
        }
        assert(vstd::arithmetic::power2::pow2(r0 + 1) <= vstd::arithmetic::power2::pow2(r));
        assert(false);
    }
    if r0 > r {
        if r < r0 {
            vstd::arithmetic::power2::lemma_pow2_strictly_increases(r, r0);
        }
        assert(vstd::arithmetic::power2::pow2(r0) <= i + 1);
        vstd::arithmetic::power2::lemma_pow2_unfold(r + 1);
        assert(false);
    }
    assert(r0 == r);
    assert(node_pos(i) == j);
}

/// Mid-walk shape of the coalescing release: everything at or below the
/// walk position is clear, upward closure holds, and downward support can
/// fail only at the walk position's parent, the next node to be examined.
/// Under these conditions the finished walk is well formed.
proof fn lemma_coalesce_wf(u: u64, c: u64)
    requires
        c < 63,
        u & subtree_mask(c) == 0,
        tree_up(u),
        forall|i: u64|
            i < 31 && (#[trigger] bit64(u, i)) && !(c > 0 && i == parent(c)) ==> (bit64(
                u,
                ((2 * i + 1) as u64),
            ) || bit64(u, ((2 * i + 2) as u64))),
    ensures
        tree_wf(coalesce_up(u, c)),
    decreases c,
{
    lemma_bit64_and_zero(u, subtree_mask(c));
    if c == 0 {
        assert(tree_down(u));
    } else {
        let p = parent(c);
        let s = sibling(c);
        lemma_sibling_facts(c);
        if u & subtree_mask(s) == 0 {
            lemma_bit64_and_zero(u, subtree_mask(s));
            let u2 = u & !(1u64 << p);
            // everything at or below p is now clear
            lemma_bit64_and_zero(u2, subtree_mask(p));
            assert forall|i: u64|
                i < 64 implies !((#[trigger] bit64(u2, i)) && bit64(subtree_mask(p), i)) by {
                lemma_bit64_andnot(u, 1u64 << p, i);
                lemma_bit64_onehot(p, i);
                lemma_subtree_mask_bits(p, i);
                lemma_subtree_mask_bits(c, i);
                lemma_subtree_mask_bits(s, i);
                if i != p && i < 63 && in_path(p, i) {
                    lemma_in_path_child(p, i);
                    assert(c == 2 * p + 1 || c == 2 * p + 2);
                    assert((c == 2 * p + 1 && s == 2 * p + 2) || (c == 2 * p + 2 && s == 2 * p
                        + 1));
                }
            }
            // upward closure survives clearing p: p's children are clear
            assert forall|i: u64|
                0 < i < 63 && (#[trigger] bit64(u2, i)) implies bit64(u2, parent(i)) by {
                lemma_bit64_andnot(u, 1u64 << p, i);
                lemma_bit64_onehot(p, i);
                lemma_bit64_andnot(u, 1u64 << p, parent(i));
                lemma_bit64_onehot(p, parent(i));
                if parent(i) == p {
                    assert(i == 2 * p + 1 || i == 2 * p + 2);
                    assert(i == c || i == s);
                    lemma_subtree_mask_bits(c, i);
                    lemma_subtree_mask_bits(s, i);
                    assert(in_path(i, i));
                }
            }
            // downward support can now fail only at p's parent
            assert forall|i: u64|
                i < 31 && (#[trigger] bit64(u2, i)) && !(p > 0 && i == parent(p)) implies (bit64(
                u2,
                ((2 * i + 1) as u64),
            ) || bit64(u2, ((2 * i + 2) as u64))) by {
                lemma_bit64_andnot(u, 1u64 << p, i);
                lemma_bit64_onehot(p, i);
                assert(i != p) by {
                    lemma_subtree_mask_bits(p, p);
                    assert(in_path(p, p));
                }
                assert(i != parent(c));
                let l = ((2 * i + 1) as u64);
                let rr = ((2 * i + 2) as u64);
                assert(bit64(u, l) || bit64(u, rr));
                lemma_bit64_andnot(u, 1u64 << p, l);
                lemma_bit64_andnot(u, 1u64 << p, rr);
                lemma_bit64_onehot(p, l);
                lemma_bit64_onehot(p, rr);
                if l == p || rr == p {
                    assert(i == parent(p));
                }
            }
            lemma_coalesce_wf(u2, p);
        } else {
            // the walk stops: the sibling subtree holds a set bit, which
            // props up to the sibling itself, so p keeps downward support
            lemma_bit64_and_zero(u, subtree_mask(s));
            let j = choose|i: u64| i < 64 && (#[trigger] bit64(u, i)) && bit64(subtree_mask(s), i);
            lemma_subtree_mask_bits(s, j);
            lemma_up_chain(u, s, j);
            assert(tree_down(u)) by {
                assert forall|i: u64|
                    i < 31 && (#[trigger] bit64(u, i)) implies (bit64(u, ((2 * i + 1) as u64))
                    || bit64(u, ((2 * i + 2) as u64))) by {
                    if c > 0 && i == parent(c) {
                        assert(s == 2 * i + 1 || s == 2 * i + 2);
                    }
                }
            }
        }
    }
}

/// Clearing a subtree leaves no set bit inside it.
proof fn lemma_clear_subtree_empty(t: u64, n: u64)
    requires
        n < 63,
    ensures
        (t & !subtree_mask(n)) & subtree_mask(n) == 0,
{
    let u = t & !subtree_mask(n);
    lemma_bit64_and_zero(u, subtree_mask(n));
    assert forall|i: u64|
        i < 64 implies !((#[trigger] bit64(u, i)) && bit64(subtree_mask(n), i)) by {
        lemma_bit64_andnot(t, subtree_mask(n), i);
    }
}

/// Clearing a subtree keeps upward closure.
proof fn lemma_clear_subtree_up(t: u64, n: u64)
    requires
        n < 63,
        tree_up(t),
    ensures
        tree_up(t & !subtree_mask(n)),
{
    let u = t & !subtree_mask(n);
    assert forall|i: u64| 0 < i < 63 && (#[trigger] bit64(u, i)) implies bit64(u, parent(i)) by {
        lemma_bit64_andnot(t, subtree_mask(n), i);
        lemma_bit64_andnot(t, subtree_mask(n), parent(i));
        lemma_subtree_mask_bits(n, i);
        lemma_subtree_mask_bits(n, parent(i));
        if in_path(n, parent(i)) {
            assert(in_path(n, i));
        }
    }
}

/// Clearing a subtree keeps downward support everywhere but at the cleared
/// node's parent.
proof fn lemma_clear_subtree_down(t: u64, n: u64, i: u64)
    requires
        n < 63,
        tree_down(t),
        i < 31,
        bit64(t & !subtree_mask(n), i),
        !(n > 0 && i == parent(n)),
    ensures
        bit64(t & !subtree_mask(n), ((2 * i + 1) as u64)) || bit64(
            t & !subtree_mask(n),
            ((2 * i + 2) as u64),
        ),
{
    lemma_bit64_andnot(t, subtree_mask(n), i);
    lemma_subtree_mask_bits(n, i);
    let l = ((2 * i + 1) as u64);
    let rr = ((2 * i + 2) as u64);
    assert(bit64(t, l) || bit64(t, rr));
    lemma_bit64_andnot(t, subtree_mask(n), l);
    lemma_bit64_andnot(t, subtree_mask(n), rr);
    lemma_subtree_mask_bits(n, l);
    lemma_subtree_mask_bits(n, rr);
    // neither child of i lies in the released subtree: i would have to be
    // the released node's parent, or lie in the subtree itself
    if in_path(n, l) {
        if n == l {
            assert(i == parent(n));
        } else {
            assert(in_path(n, i));
        }
        assert(false);
    }
    if in_path(n, rr) {
        if n == rr {
            assert(i == parent(n));
        } else {
            assert(in_path(n, i));
        }
        assert(false);
    }
}

/// Releasing any node of a well-formed tree leaves it well formed.
pub proof fn lemma_release_preserves_wf(t: u64, n: u64)
    requires
        n < 63,
        tree_wf(t),
    ensures
        tree_wf(release_spec(t, n)),
{
    let u = t & !subtree_mask(n);
    lemma_clear_subtree_empty(t, n);
    lemma_clear_subtree_up(t, n);
    assert forall|i: u64|
        i < 31 && (#[trigger] bit64(u, i)) && !(n > 0 && i == parent(n)) implies (bit64(
        u,
        ((2 * i + 1) as u64),
    ) || bit64(u, ((2 * i + 2) as u64))) by {
        lemma_clear_subtree_down(t, n, i);
    }
    lemma_coalesce_wf(u, n);
}

/// The coalescing walk only ever clears bits.
pub proof fn lemma_coalesce_clears_only(u: u64, c: u64, i: u64)
    requires
        c < 63,
        i < 64,
        bit64(coalesce_up(u, c), i),
    ensures
        bit64(u, i),
    decreases c,
{
    if c != 0 {
        let p = parent(c);
        if u & subtree_mask(sibling(c)) == 0 {
            lemma_coalesce_clears_only(u & !(1u64 << p), p, i);
            lemma_bit64_andnot(u, 1u64 << p, i);
        }
    }
}

/// The coalescing walk touches only strict ancestors of its start.
pub proof fn lemma_coalesce_outside(u: u64, c: u64, i: u64)
    requires
        c < 63,
        i < 64,
        !(in_path(i, c) && i != c),
    ensures
        bit64(coalesce_up(u, c), i) == bit64(u, i),
    decreases c,
{
    if c != 0 {
        let p = parent(c);
        if u & subtree_mask(sibling(c)) == 0 {
            assert(in_path(p, p));
            assert(in_path(p, c));
            lemma_in_path_le(p, p);
            assert(i != p);
            if in_path(i, p) && i != p {
                assert(in_path(i, c));
                lemma_in_path_le(i, p);
            }
            lemma_coalesce_outside(u & !(1u64 << p), p, i);
            lemma_bit64_andnot(u, 1u64 << p, i);
            lemma_bit64_onehot(p, i);
        }
    }
}

/// A release changes no bit outside the released node's subtree and its
/// strict ancestors.
pub proof fn lemma_release_outside(t: u64, n: u64, i: u64)
    requires
        n < 63,
        i < 64,
        !(i < 63 && in_path(n, i)),
        !(in_path(i, n) && i != n),
    ensures
        bit64(release_spec(t, n), i) == bit64(t, i),
{
    lemma_coalesce_outside(t & !subtree_mask(n), n, i);
    lemma_bit64_andnot(t, subtree_mask(n), i);
    lemma_subtree_mask_bits(n, i);
}

/// A release only ever clears bits.
pub proof fn lemma_release_subset(t: u64, n: u64, i: u64)
    requires
        n < 63,
        i < 64,
        bit64(release_spec(t, n), i),
    ensures
        bit64(t, i),
{
    lemma_coalesce_clears_only(t & !subtree_mask(n), n, i);
    lemma_bit64_andnot(t, subtree_mask(n), i);
}

/// A release clears the released node's whole subtree.
pub proof fn lemma_release_clears_subtree(t: u64, n: u64, i: u64)
    requires
        n < 63,
        i < 63,
        in_path(n, i),
    ensures
        !bit64(release_spec(t, n), i),
{
    if in_path(i, n) && i != n {
        lemma_in_path_antisym(i, n);
    }
    lemma_coalesce_outside(t & !subtree_mask(n), n, i);
    lemma_bit64_andnot(t, subtree_mask(n), i);
    lemma_subtree_mask_bits(n, i);
}

/// Buddy coalescing: after releasing both leaves of a pair, in either
/// order, their shared parent is free again, so the pair can be handed out
/// as one block of the next order.
pub proof fn lemma_buddy_coalescing(t: u64, c: u64)
    requires
        31 <= c < 63,
    ensures
        !bit64(release_spec(release_spec(t, c), sibling(c)), parent(c)),
{
    let s = sibling(c);
    let p = parent(c);
    lemma_sibling_facts(c);
    assert(31 <= s < 63) by {
        if s < 31 {
            lemma_in_path_le(parent(s), s);
        }
    }
    let t1 = release_spec(t, c);
    assert(in_path(c, c));
    lemma_release_clears_subtree(t, c, c);
    let u = t1 & !subtree_mask(s);
    assert(sibling(s) == c);
    assert(u & subtree_mask(c) == 0) by {
        lemma_bit64_and_zero(u, subtree_mask(c));
        assert forall|i: u64|
            i < 64 implies !((#[trigger] bit64(u, i)) && bit64(subtree_mask(c), i)) by {
            lemma_subtree_mask_bits(c, i);
            lemma_bit64_andnot(t1, subtree_mask(s), i);
            if i < 63 && in_path(c, i) {
                lemma_in_path_le(c, i);
                if i != c {
                    lemma_in_path_le(c, parent(i));
                }
                assert(i == c);
            }
        }
    }
    assert(release_spec(t1, s) == coalesce_up(u & !(1u64 << parent(s)), parent(s)));
    if bit64(release_spec(t1, s), p) {
        lemma_coalesce_clears_only(u & !(1u64 << p), p, p);
        lemma_bit64_andnot(u, 1u64 << p, p);
        lemma_bit64_onehot(p, p);
    }
}

/// The coalescing walk never clears an ancestor of a set bit that is
/// itself off the walk's path: the set bit keeps every such ancestor
/// supported.
pub proof fn lemma_coalesce_keeps_ancestors(u: u64, c: u64, j: u64, a: u64)
    requires
        c < 63,
        j < 63,
        u & subtree_mask(c) == 0,
        bit64(u, j),
        !(in_path(j, c) && j != c),
        in_path(a, j),
    ensures
        bit64(coalesce_up(u, c), a) == bit64(u, a),
    decreases c,
{
    lemma_bit64_and_zero(u, subtree_mask(c));
    lemma_subtree_mask_bits(c, j);
    assert(!in_path(c, j));
    lemma_in_path_le(a, j);
    if c != 0 {
        let p = parent(c);
        let s = sibling(c);
        lemma_sibling_facts(c);
        if u & subtree_mask(s) == 0 {
            lemma_bit64_and_zero(u, subtree_mask(s));
            lemma_subtree_mask_bits(s, j);
            assert(!in_path(s, j));
            let u2 = u & !(1u64 << p);
            // p is not a weak ancestor of j: j lies in neither child
            // subtree of p and is not p itself
            assert(!in_path(p, j)) by {
                if in_path(p, j) && p != j {
                    lemma_in_path_child(p, j);
                    assert(c == 2 * p + 1 || c == 2 * p + 2);
                    assert((c == 2 * p + 1 && s == 2 * p + 2) || (c == 2 * p + 2 && s == 2 * p
                        + 1));
                }
                if p == j {
                    assert(in_path(j, j));
                    assert(in_path(j, c));
                }
            }
            assert(a != p) by {
                if a == p {
                    lemma_in_path_trans(p, a, j);
                }
            }
            lemma_bit64_andnot(u, 1u64 << p, j);
            lemma_bit64_onehot(p, j);
            lemma_bit64_andnot(u, 1u64 << p, a);
            lemma_bit64_onehot(p, a);
            // everything at or below p is clear in u2
            assert(u2 & subtree_mask(p) == 0) by {
                lemma_bit64_and_zero(u2, subtree_mask(p));
                assert forall|i: u64|
                    i < 64 implies !((#[trigger] bit64(u2, i)) && bit64(subtree_mask(p), i)) by {
                    lemma_bit64_andnot(u, 1u64 << p, i);
                    lemma_bit64_onehot(p, i);
                    lemma_subtree_mask_bits(p, i);
                    lemma_subtree_mask_bits(c, i);
                    lemma_subtree_mask_bits(s, i);
                    if i != p && i < 63 && in_path(p, i) {
                        lemma_in_path_child(p, i);
                        assert(c == 2 * p + 1 || c == 2 * p + 2);
                        assert((c == 2 * p + 1 && s == 2 * p + 2) || (c == 2 * p + 2 && s == 2 * p
                            + 1));
                    }
                }
            }
            assert(!(in_path(j, p) && j != p)) by {
                if in_path(j, p) && j != p {
                    assert(in_path(j, c));
                }
            }
            lemma_coalesce_keeps_ancestors(u2, p, j, a);
        }
    }
}

/// A release never clears an ancestor of a set bit that lies outside the
/// released subtree and off the released node's ancestor path.
pub proof fn lemma_release_keeps_ancestors(t: u64, n: u64, j: u64, a: u64)
    requires
        n < 63,
        j < 63,
        bit64(t, j),
        !in_path(n, j),
        !(in_path(j, n) && j != n),
        in_path(a, j),
    ensures
        bit64(release_spec(t, n), a) == bit64(t, a),
{
    let u = t & !subtree_mask(n);
    lemma_in_path_le(a, j);
    lemma_clear_subtree_empty(t, n);
    lemma_bit64_andnot(t, subtree_mask(n), j);
    lemma_subtree_mask_bits(n, j);
    assert(bit64(u, j));
    assert(j != n);
    lemma_bit64_andnot(t, subtree_mask(n), a);
    lemma_subtree_mask_bits(n, a);
    assert(!in_path(n, a)) by {
        if in_path(n, a) {
            lemma_in_path_trans(n, a, j);
        }
    }
    lemma_coalesce_keeps_ancestors(u, n, j, a);
}

/// Two nodes on one root path are comparable.
pub proof fn lemma_path_comparable(a: u64, b: u64, d: u64)
    requires
        in_path(a, d),
        in_path(b, d),
    ensures
        in_path(a, b) || in_path(b, a),
    decreases d,
{
    if a == d || b == d {
    } else {
        lemma_path_comparable(a, b, parent(d));
    }
}

/// A release keeps the whole claim of any unrelated node standing: the
/// released subtree misses it, and the coalescing walk stops below every
/// ancestor the unrelated node supports.
pub proof fn lemma_release_keeps_claim(t: u64, n0: u64, no: u64)
    requires
        n0 < 63,
        no < 63,
        t & claim_mask(no) == claim_mask(no),
        !in_path(n0, no),
        !in_path(no, n0),
    ensures
        release_spec(t, n0) & claim_mask(no) == claim_mask(no),
{
    lemma_bit64_covers(t, claim_mask(no));
    assert forall|x: u64|
        x < 64 && bit64(claim_mask(no), x) implies #[trigger] bit64(release_spec(t, n0), x) by {
        lemma_bit64_or(subtree_mask(no), anc_mask(no), x);
        lemma_subtree_mask_bits(no, x);
        lemma_anc_mask_bits(no, x);
        assert(bit64(t, x));
        assert(bit64(claim_mask(no), no)) by {
            lemma_bit64_or(subtree_mask(no), anc_mask(no), no);
            lemma_subtree_mask_bits(no, no);
            assert(in_path(no, no));
        }
        if x < 63 && in_path(no, x) {
            // x lies in the unrelated node's subtree, so outside both the
            // released subtree and the released node's ancestor path
            assert(!in_path(n0, x)) by {
                if in_path(n0, x) {
                    lemma_path_comparable(n0, no, x);
                }
            }
            assert(!(in_path(x, n0) && x != n0)) by {
                if in_path(x, n0) {
                    lemma_in_path_trans(no, x, n0);
                }
            }
            lemma_release_outside(t, n0, x);
        } else {
            // x is a strict ancestor of the unrelated node, which itself
            // survives and supports it
            assert(in_path(x, no));
            lemma_release_keeps_ancestors(t, n0, no, x);
        }
    }
    lemma_bit64_covers(release_spec(t, n0), claim_mask(no));
}

} // verus!
