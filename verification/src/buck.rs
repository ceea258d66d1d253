//! Physical memory buddy allocator.
//!
//! A `BuckShard` owns a disjoint slice of physical memory and hands out
//! power-of-two sized blocks from one base page (4 KiB) up to the full shard
//! (8 MiB).  The shard is carved into 64 lower trees of 32 pages each,
//! covering orders 0 to 5, and one upper tree covering orders 6 to 11 whose
//! leaves each span a pair of lower trees.  Allocation is meant to run only
//! on the owning CPU; other CPUs return blocks through the remote-free inbox,
//! which the owner drains at the start of its next allocation.

use vstd::pervasive::VecAdditionalExecFns;
use vstd::prelude::*;

use crate::addr::Phys;
use crate::tree;
use crate::tree::anc_mask;
use crate::tree::bit64;
use crate::tree::claim_mask;
use crate::tree::level_count;
use crate::tree::level_full;
use crate::tree::level_node;
use crate::tree::parent;
use crate::tree::release_spec;

verus! {

/// Largest order served, by the upper tree: an 8 MiB block.
pub const BUCK_UPPER_TREE_MAX_LEVEL: usize = 11;

/// Largest order served by a lower tree: a 128 KiB block.
pub const BUCK_LOWER_TREE_MAX_LEVEL: usize = 5;

pub const BASE_PAGE_ADDR_BITS: usize = 12;

pub const BASE_PAGE_SIZE: usize = 4096;

/// Bytes covered by one lower tree: 32 base pages.
pub const LOWER_TREE_BYTES: usize = 0x2_0000;

/// Bytes covered by one whole shard: 2048 base pages.
pub const SHARD_BYTES: usize = 0x80_0000;

/// Platform base page (as opposed to huge or giga pages).
pub struct BasePage([u64; 512]);

/// Identifier of the CPU that owns a shard.
#[derive(Clone, Copy, Debug, PartialEq, Eq, Structural)]
pub struct CpuUid(pub u64);

/// An allocated buck allocator physical memory block: the opaque handle a
/// caller presents back to free the block.
#[derive(Clone, Copy, Debug)]
pub struct BuckBlock {
    ptr: Phys<usize>,
    /// The real size of this buddy block in bytes (the actual block size,
    /// not the requested allocation size).
    real_size: u32,
    /// The buddy order of this block, starting at zero for the smallest
    /// block size.
    level: u32,
}

impl BuckBlock {
    /// The block's address, for contracts.
    pub closed spec fn addr(self) -> int {
        self.ptr.0 as int
    }

    /// The block's order, for contracts.
    pub closed spec fn lvl(self) -> int {
        self.level as int
    }

    /// The block's recorded byte size, for contracts.
    pub closed spec fn size(self) -> int {
        self.real_size as int
    }

    /// Physical address of the block's first byte.
    pub fn physical_address(&self) -> (r: usize)
        ensures
            r as int == self.addr(),
    {
        self.ptr.0
    }

    /// Buddy order of the block: its byte size is `BASE_PAGE_SIZE` shifted
    /// left by this order.
    pub fn order(&self) -> (r: u32)
        ensures
            r as int == self.lvl(),
    {
        self.level
    }
}

pub enum BuddyAllocErr {
    NoneAvailable,
}

/// Base pages covered by one block of `level`.
pub open spec fn block_pages(level: int) -> int {
    if level == 0 {
        1
    } else if level == 1 {
        2
    } else if level == 2 {
        4
    } else if level == 3 {
        8
    } else if level == 4 {
        16
    } else if level == 5 {
        32
    } else if level == 6 {
        64
    } else if level == 7 {
        128
    } else if level == 8 {
        256
    } else if level == 9 {
        512
    } else if level == 10 {
        1024
    } else {
        2048
    }
}

/// Bytes covered by one block of `level`.
pub open spec fn block_bytes(level: int) -> int {
    4096 * block_pages(level)
}

fn block_bytes_exec(level: usize) -> (r: usize)
    requires
        level <= 11,
    ensures
        r == block_bytes(level as int),
{
    if level == 0 {
        0x1000
    } else if level == 1 {
        0x2000
    } else if level == 2 {
        0x4000
    } else if level == 3 {
        0x8000
    } else if level == 4 {
        0x1_0000
    } else if level == 5 {
        0x2_0000
    } else if level == 6 {
        0x4_0000
    } else if level == 7 {
        0x8_0000
    } else if level == 8 {
        0x10_0000
    } else if level == 9 {
        0x20_0000
    } else if level == 10 {
        0x40_0000
    } else {
        0x80_0000
    }
}

/// The leaf of the upper tree that spans lower tree `k` (and its neighbour
/// `k ^ 1`): upper leaves are nodes 31 to 62.
pub open spec fn upper_leaf_of_tree(k: int) -> u64 {
    ((k / 2 + 31) as u64)
}

/// Write bit `k` of `w` to `b`.
pub open spec fn bit_update(w: u64, k: u64, b: bool) -> u64
    recommends
        k < 64,
{
    if b {
        w | (1u64 << k)
    } else {
        w & !(1u64 << k)
    }
}

proof fn lemma_bit_update(w: u64, k: u64, b: bool, i: u64)
    by (bit_vector)
    requires
        k < 64,
        i < 64,
    ensures
        bit64(bit_update(w, k, b), i) == (if i == k {
            b
        } else {
            bit64(w, i)
        }),
{
}

/// The allocator bit state of a shard, for contracts: the upper tree, the
/// claimed-by-upper flags, the per-order availability words and the lower
/// trees.
pub ghost struct ShardMaps {
    pub upper: u64,
    pub claimed: u64,
    pub avail: Seq<u64>,
    pub lowers: Seq<u64>,
}

/// A 2^11 page big buck allocator shard.
///
/// Allocation must only be done from this shard's owning CPU.  Freeing can
/// come from any CPU: a foreign CPU pushes the block into the remote-free
/// inbox, and the owner applies the queued frees at the start of its next
/// allocation.
pub struct BuckShard {
    /// A packed 6-high binary tree where each node is one bit; the tree root
    /// is bit zero.  Covers orders 6 to 11.
    upper_tree: u64,
    /// Each bit indicates whether the associated lower tree is allocated in
    /// full by a bigger allocation in the upper tree.
    lower_trees_alloced_by_upper: u64,
    /// Indexed by lower tree level; each bit indicates whether the
    /// associated lower tree still has at least one block available at that
    /// level.  Always six words.
    lower_levels_available: Vec<u64>,
    /// The 64 lower trees, each a packed 6-high binary tree covering orders
    /// 0 to 5 over 32 contiguous base pages.
    lower_trees: Vec<u64>,
    /// Physical address of the shard's first byte.
    base_addr: Phys<usize>,
    owning_cpu: CpuUid,
    /// Blocks freed by other CPUs, waiting to be applied by the owner.
    remote_free_inbox: Vec<BuckBlock>,
}

impl BuckShard {
    /// The shard's allocator bit state.
    pub closed spec fn maps(self) -> ShardMaps {
        ShardMaps {
            upper: self.upper_tree,
            claimed: self.lower_trees_alloced_by_upper,
            avail: self.lower_levels_available@,
            lowers: self.lower_trees@,
        }
    }

    pub closed spec fn base(self) -> int {
        self.base_addr.0 as int
    }

    pub closed spec fn cpu(self) -> CpuUid {
        self.owning_cpu
    }

    pub closed spec fn inbox(self) -> Seq<BuckBlock> {
        self.remote_free_inbox@
    }

    /// The handle describes a block geometry this shard could have handed
    /// out: order in range, address inside the shard, aligned to the block
    /// size, and the recorded size matching the order.
    pub closed spec fn block_fits(self, b: BuckBlock) -> bool {
        &&& b.level <= 11
        &&& b.addr() >= self.base()
        &&& b.addr() - self.base() < 0x80_0000
        &&& (b.addr() - self.base()) % block_bytes(b.level as int) == 0
        &&& b.real_size == block_bytes(b.level as int)
    }

    /// Lower tree holding a lower-order block.
    pub closed spec fn tree_of(self, b: BuckBlock) -> int {
        (b.addr() - self.base()) / 0x2_0000
    }

    /// Well-formedness: the vectors have their fixed lengths, the base is
    /// aligned to the shard size and the address range does not wrap, the
    /// availability words say exactly which trees have a free node at each
    /// level, and queued remote frees fit the shard and do not touch trees
    /// claimed whole by the upper tree.
    pub closed spec fn inv(self) -> bool {
        &&& self.lower_levels_available@.len() == 6
        &&& self.lower_trees@.len() == 64
        &&& self.base() % 0x80_0000 == 0
        &&& self.base() + 0x80_0000 <= usize::MAX
        &&& forall|o: int, k: u64|
            0 <= o < 6 && k < 64 ==> ((#[trigger] bit64(self.lower_levels_available@[o], k))
                == !level_full(self.lower_trees@[k as int], o as u64))
        &&& forall|i: int|
            0 <= i < self.inbox().len() ==> self.block_fits(#[trigger] self.inbox()[i])
        &&& forall|i: int|
            0 <= i < self.inbox().len() && (#[trigger] self.inbox()[i]).level <= 5 ==> !bit64(
                self.lower_trees_alloced_by_upper,
                self.tree_of(self.inbox()[i]) as u64,
            )
    }

    /// Re-derive the six availability bits of lower tree `k` from its
    /// current bit state.
    fn refresh_avail(&mut self, k: usize)
        requires
            old(self).lower_levels_available@.len() == 6,
            old(self).lower_trees@.len() == 64,
            k < 64,
        ensures
            final(self).lower_levels_available@.len() == 6,
            forall|o: int|
                0 <= o < 6 ==> final(self).lower_levels_available@[o] == bit_update(
                    old(self).lower_levels_available@[o],
                    k as u64,
                    !level_full(old(self).lower_trees@[k as int], o as u64),
                ),
            final(self).upper_tree == old(self).upper_tree,
            final(self).lower_trees_alloced_by_upper == old(self).lower_trees_alloced_by_upper,
            final(self).lower_trees == old(self).lower_trees,
            final(self).base_addr == old(self).base_addr,
            final(self).owning_cpu == old(self).owning_cpu,
            final(self).remote_free_inbox == old(self).remote_free_inbox,
    {
        let t: u64 = self.lower_trees[k];
        let mut o: usize = 0;
        while o < 6
            invariant
                o <= 6,
                k < 64,
                self.lower_levels_available@.len() == 6,
                self.lower_trees@.len() == 64,
                t == self.lower_trees@[k as int],
                forall|q: int|
                    0 <= q < o ==> self.lower_levels_available@[q] == bit_update(
                        old(self).lower_levels_available@[q],
                        k as u64,
                        !level_full(t, q as u64),
                    ),
                forall|q: int|
                    o <= q < 6 ==> self.lower_levels_available@[q] == old(
                        self,
                    ).lower_levels_available@[q],
                self.upper_tree == old(self).upper_tree,
                self.lower_trees_alloced_by_upper == old(self).lower_trees_alloced_by_upper,
                self.lower_trees == old(self).lower_trees,
                self.base_addr == old(self).base_addr,
                self.owning_cpu == old(self).owning_cpu,
                self.remote_free_inbox == old(self).remote_free_inbox,
            decreases 6 - o,
        {
            let has = tree::level_has_free(t, o);
            let w = self.lower_levels_available[o];
            let w2 = if has {
                w | (1u64 << (k as u64))
            } else {
                w & !(1u64 << (k as u64))
            };
            self.lower_levels_available.set(o, w2);
            o += 1;
        }
    }
}

/// Lower trees covered in full by upper-tree node `n`: each upper leaf spans
/// two lower trees.
pub open spec fn cover_mask(n: u64) -> u64
    decreases 62 - n,
    when n < 63
{
    if n >= 31 {
        3u64 << (2 * (n - 31))
    } else {
        cover_mask((2 * n + 1) as u64) | cover_mask((2 * n + 2) as u64)
    }
}

fn cover_mask_exec(n: usize) -> (r: u64)
    requires
        n < 63,
    ensures
        r == cover_mask(n as u64),
    decreases 62 - n,
{
    if n >= 31 {
        3u64 << ((2 * (n - 31)) as u64)
    } else {
        cover_mask_exec(2 * n + 1) | cover_mask_exec(2 * n + 2)
    }
}

/// Lower tree holding block `b` of a shard based at `base`.
pub open spec fn lower_tree_idx(base: int, b: BuckBlock) -> int {
    (b.addr() - base) / 0x2_0000
}

/// Position of a lower-order block within its tree's level.
pub open spec fn lower_pos(base: int, b: BuckBlock) -> int {
    ((b.addr() - base) % 0x2_0000) / block_bytes(b.lvl())
}

/// Node a lower-order block was claimed at, inside its lower tree.
pub open spec fn lower_node_of(base: int, b: BuckBlock) -> u64 {
    level_node(b.lvl() as u64, lower_pos(base, b) as u64)
}

/// Position of an upper-order block within its level of the upper tree.
pub open spec fn upper_pos(base: int, b: BuckBlock) -> int {
    (b.addr() - base) / block_bytes(b.lvl())
}

/// Node an upper-order block was claimed at, inside the upper tree.
pub open spec fn upper_node_of(base: int, b: BuckBlock) -> u64 {
    level_node((b.lvl() - 6) as u64, upper_pos(base, b) as u64)
}

/// The other lower tree under the same upper leaf.
pub open spec fn buddy_tree(k: int) -> int {
    if k % 2 == 0 {
        k + 1
    } else {
        k - 1
    }
}

/// State after a lower-order block of tree `k` at node `node` is freed: the
/// node's subtree is released with buddy coalescing, the tree's availability
/// bits are re-derived, and when the whole pair of trees under one upper
/// leaf is empty again the leaf is released in the upper tree as well.
pub open spec fn free_lower_maps(m: ShardMaps, k: int, node: u64) -> ShardMaps {
    let t1 = release_spec(m.lowers[k], node);
    let lowers1 = m.lowers.update(k, t1);
    let avail1 = Seq::new(
        6,
        |o: int| bit_update(m.avail[o], k as u64, !level_full(t1, o as u64)),
    );
    let upper1 = if t1 == 0 && m.lowers[buddy_tree(k)] == 0 {
        release_spec(m.upper, upper_leaf_of_tree(k))
    } else {
        m.upper
    };
    ShardMaps { upper: upper1, claimed: m.claimed, avail: avail1, lowers: lowers1 }
}

/// State after an upper-order block at node `node` is freed: the node's
/// subtree is released with buddy coalescing, and the lower trees it had
/// claimed whole become allocatable again.
pub open spec fn free_upper_maps(m: ShardMaps, node: u64) -> ShardMaps {
    ShardMaps {
        upper: release_spec(m.upper, node),
        claimed: m.claimed & !cover_mask(node),
        avail: m.avail,
        lowers: m.lowers,
    }
}

/// State after block `b` is freed locally.
pub open spec fn free_block_maps(m: ShardMaps, base: int, b: BuckBlock) -> ShardMaps {
    if b.lvl() <= 5 {
        free_lower_maps(m, lower_tree_idx(base, b), lower_node_of(base, b))
    } else {
        free_upper_maps(m, upper_node_of(base, b))
    }
}

/// State after every queued remote free has been applied, oldest first.
pub open spec fn drain_maps(m: ShardMaps, base: int, q: Seq<BuckBlock>) -> ShardMaps
    decreases q.len(),
{
    if q.len() == 0 {
        m
    } else {
        drain_maps(free_block_maps(m, base, q[0]), base, q.drop_first())
    }
}

proof fn lemma_level_count_values()
    by (bit_vector)
    ensures
        32u64 >> 0u64 == 32u64,
        32u64 >> 1u64 == 16u64,
        32u64 >> 2u64 == 8u64,
        32u64 >> 3u64 == 4u64,
        32u64 >> 4u64 == 2u64,
        32u64 >> 5u64 == 1u64,
{
}


/// Any in-range offset falls into one of the 64 lower trees.
proof fn lemma_tree_idx_range(off: int)
    requires
        0 <= off < 0x80_0000,
    ensures
        0 <= off / 0x2_0000 < 64,
{
    vstd::arithmetic::div_mod::lemma_fundamental_div_mod_converse(0x7f_ffff, 0x2_0000, 63, 0x1_ffff);
    vstd::arithmetic::div_mod::lemma_div_is_ordered(off, 0x7f_ffff, 0x2_0000);
    vstd::arithmetic::div_mod::lemma_div_pos_is_pos(off, 0x2_0000);
}

/// An aligned offset below an aligned total stays one block short of it.
proof fn lemma_aligned_bound(off: int, bb: int, total: int)
    requires
        bb > 0,
        off % bb == 0,
        total % bb == 0,
        0 <= off < total,
    ensures
        0 <= off / bb < total / bb,
        off == bb * (off / bb),
{
    vstd::arithmetic::div_mod::lemma_fundamental_div_mod(off, bb);
    vstd::arithmetic::div_mod::lemma_fundamental_div_mod(total, bb);
    let q = off / bb;
    let m = total / bb;
    assert(off == bb * q);
    assert(total == bb * m);
    assert(q >= 0) by (nonlinear_arith)
        requires
            bb > 0,
            off >= 0,
            off == bb * q,
    ;
    assert(q < m) by (nonlinear_arith)
        requires
            bb > 0,
            bb * q < bb * m,
    ;
}

/// `total` made of `cnt` whole blocks of `bb` bytes divides evenly.
proof fn lemma_total_split(total: int, bb: int, cnt: int)
    requires
        bb > 0,
        cnt >= 0,
        total == cnt * bb,
    ensures
        total % bb == 0,
        total / bb == cnt,
{
    vstd::arithmetic::div_mod::lemma_fundamental_div_mod_converse(total, bb, cnt, 0);
}

/// The block count of each level splits its covering range evenly.
proof fn lemma_range_split(level: int, total: int)
    requires
        0 <= level <= 5 && total == 0x2_0000 || 6 <= level <= 11 && total == 0x80_0000,
    ensures
        total % block_bytes(level) == 0,
        total / block_bytes(level) == (if level <= 5 {
            level_count(level as u64) as int
        } else {
            level_count((level - 6) as u64) as int
        }),
{
    lemma_level_count_values();
    let bb = block_bytes(level);
    if level == 0 {
        lemma_total_split(total, bb, 32);
    } else if level == 1 {
        lemma_total_split(total, bb, 16);
    } else if level == 2 {
        lemma_total_split(total, bb, 8);
    } else if level == 3 {
        lemma_total_split(total, bb, 4);
    } else if level == 4 {
        lemma_total_split(total, bb, 2);
    } else if level == 5 {
        lemma_total_split(total, bb, 1);
    } else if level == 6 {
        lemma_total_split(total, bb, 32);
    } else if level == 7 {
        lemma_total_split(total, bb, 16);
    } else if level == 8 {
        lemma_total_split(total, bb, 8);
    } else if level == 9 {
        lemma_total_split(total, bb, 4);
    } else if level == 10 {
        lemma_total_split(total, bb, 2);
    } else {
        lemma_total_split(total, bb, 1);
    }
}

/// Geometry of an in-range, aligned lower-order offset: which tree, which
/// position, and the exact decomposition of the offset.
proof fn lemma_lower_geometry(off: int, level: int)
    requires
        0 <= level <= 5,
        0 <= off < 0x80_0000,
        off % block_bytes(level) == 0,
    ensures
        0 <= off / 0x2_0000 < 64,
        0 <= (off % 0x2_0000) / block_bytes(level) < level_count(level as u64),
        off == (off / 0x2_0000) * 0x2_0000 + block_bytes(level) * ((off % 0x2_0000) / block_bytes(
            level,
        )),
        (off % 0x2_0000) % block_bytes(level) == 0,
{
    let bb = block_bytes(level);
    let k = off / 0x2_0000;
    let inner = off % 0x2_0000;
    lemma_range_split(level, 0x2_0000);
    let cnt = 0x2_0000int / bb;
    vstd::arithmetic::div_mod::lemma_fundamental_div_mod(0x2_0000, bb);
    assert(0x2_0000int == bb * cnt);
    vstd::arithmetic::div_mod::lemma_fundamental_div_mod(off, 0x2_0000);
    vstd::arithmetic::div_mod::lemma_fundamental_div_mod(inner, bb);
    assert(inner == off - k * 0x2_0000);
    assert((k * 0x2_0000) % bb == 0) by {
        assert(k * 0x2_0000 == (k * cnt) * bb) by (nonlinear_arith)
            requires
                0x2_0000 == bb * cnt,
        ;
        vstd::arithmetic::div_mod::lemma_mod_multiples_basic(k * cnt, bb);
    }
    assert(inner % bb == 0) by {
        vstd::arithmetic::div_mod::lemma_sub_mod_noop(off, k * 0x2_0000, bb);
        vstd::arithmetic::div_mod::lemma_small_mod(0, bb as nat);
    }
    lemma_aligned_bound(inner, bb, 0x2_0000);
}

/// Geometry of an in-range, aligned upper-order offset.
proof fn lemma_upper_geometry(off: int, level: int)
    requires
        6 <= level <= 11,
        0 <= off < 0x80_0000,
        off % block_bytes(level) == 0,
    ensures
        0 <= off / block_bytes(level) < level_count((level - 6) as u64),
        off == block_bytes(level) * (off / block_bytes(level)),
{
    let bb = block_bytes(level);
    lemma_range_split(level, 0x80_0000);
    vstd::arithmetic::div_mod::lemma_fundamental_div_mod(off, bb);
    lemma_aligned_bound(off, bb, 0x80_0000);
}

impl BuckShard {
    /// A fresh, fully free shard based at physical address zero and owned
    /// by CPU 0; `init_shards` rebases and reassigns it.
    pub fn new() -> (r: Self)
        ensures
            r.inv(),
            r.maps().upper == 0u64,
            r.maps().claimed == 0u64,
            forall|k: int| 0 <= k < 64 ==> #[trigger] r.maps().lowers[k] == 0u64,
            forall|o: int| 0 <= o < 6 ==> #[trigger] r.maps().avail[o] == 0xffff_ffff_ffff_ffffu64,
            r.base() == 0,
            r.cpu() == CpuUid(0),
            r.inbox().len() == 0,
    {
        let r = BuckShard {
            upper_tree: 0,
            lower_trees_alloced_by_upper: 0,
            lower_levels_available: vec![0xffff_ffff_ffff_ffffu64; 6],
            lower_trees: vec![0u64; 64],
            base_addr: Phys::new(0),
            owning_cpu: CpuUid(0),
            remote_free_inbox: Vec::new(),
        };
        proof {
            assert forall|o: int, k: u64|
                0 <= o < 6 && k < 64 implies (#[trigger] bit64(r.lower_levels_available@[o], k))
                == !level_full(r.lower_trees@[k as int], o as u64) by {
                assert(bit64(0xffff_ffff_ffff_ffffu64, k)) by (bit_vector)
                    requires
                        k < 64,
                ;
                tree::lemma_level_geometry(o as u64);
                tree::lemma_bit64_zero(level_node(o as u64, 0));
                assert(!level_full(0u64, o as u64));
            }
        }
        r
    }

    /// Apply a freed block to the local trees.  Only valid on the owning
    /// CPU, for a block this shard handed out that is freed exactly once;
    /// a lower-order block must not lie in a tree claimed whole by an
    /// upper-range allocation.
    pub fn free_local(&mut self, block: BuckBlock)
        requires
            old(self).inv(),
            old(self).block_fits(block),
            block.lvl() <= 5 ==> !bit64(
                old(self).maps().claimed,
                old(self).tree_of(block) as u64,
            ),
        ensures
            final(self).inv(),
            final(self).maps() == free_block_maps(old(self).maps(), old(self).base(), block),
            final(self).base() == old(self).base(),
            final(self).cpu() == old(self).cpu(),
            final(self).inbox() == old(self).inbox(),
    {
        let ghost m0 = old(self).maps();
        let ghost base0 = old(self).base();
        let level: usize = block.level as usize;
        let off: usize = block.ptr.0 - self.base_addr.0;
        if level <= 5 {
            proof {
                lemma_lower_geometry(off as int, level as int);
            }
            let k: usize = off / LOWER_TREE_BYTES;
            let inner: usize = off % LOWER_TREE_BYTES;
            let bb: usize = block_bytes_exec(level);
            let j: usize = inner / bb;
            proof {
                tree::lemma_level_geometry(level as u64);
                assert((32usize >> level) as u64 == level_count(level as u64)) by (bit_vector)
                    requires
                        level <= 5,
                ;
            }
            let node: usize = (32 >> level) - 1 + j;
            proof {
                assert(node as u64 == lower_node_of(base0, block));
                assert(k as int == lower_tree_idx(base0, block));
            }
            let mut t: u64 = self.lower_trees[k];
            tree::release_in_tree(&mut t, node);
            self.lower_trees.set(k, t);
            self.refresh_avail(k);
            if t == 0 {
                let buddy: usize = if k % 2 == 0 {
                    k + 1
                } else {
                    k - 1
                };
                if self.lower_trees[buddy] == 0 {
                    let leaf: usize = k / 2 + 31;
                    proof {
                        assert(leaf as u64 == upper_leaf_of_tree(k as int));
                    }
                    let mut u: u64 = self.upper_tree;
                    tree::release_in_tree(&mut u, leaf);
                    self.upper_tree = u;
                }
            }
            proof {
                let mm = free_lower_maps(m0, k as int, node as u64);
                assert(self.lower_trees@ =~= mm.lowers);
                assert(self.lower_levels_available@ =~= mm.avail);
                assert(self.maps() == mm);
                lemma_tree_update_inv(m0, self.maps(), k as int, release_spec(m0.lowers[k as int], node as u64));
            }
        } else {
            proof {
                lemma_upper_geometry(off as int, level as int);
            }
            let lu: usize = level - 6;
            let bb: usize = block_bytes_exec(level);
            let j: usize = off / bb;
            proof {
                tree::lemma_level_geometry(lu as u64);
                assert((32usize >> lu) as u64 == level_count(lu as u64)) by (bit_vector)
                    requires
                        lu <= 5,
                ;
            }
            let node: usize = (32 >> lu) - 1 + j;
            proof {
                assert(node as u64 == upper_node_of(base0, block));
            }
            let mut u: u64 = self.upper_tree;
            tree::release_in_tree(&mut u, node);
            self.upper_tree = u;
            let cm: u64 = cover_mask_exec(node);
            self.lower_trees_alloced_by_upper = self.lower_trees_alloced_by_upper & !cm;
            proof {
                assert(self.maps() == free_upper_maps(m0, node as u64));
                assert forall|i: int|
                    0 <= i < self.inbox().len() && (#[trigger] self.inbox()[i]).level <= 5
                    implies !bit64(
                    self.lower_trees_alloced_by_upper,
                    self.tree_of(self.inbox()[i]) as u64,
                ) by {
                    assert(self.inbox() == old(self).inbox());
                    assert(old(self).block_fits(old(self).inbox()[i]));
                    assert(old(self).inbox()[i].level <= 5 ==> !bit64(
                        m0.claimed,
                        old(self).tree_of(old(self).inbox()[i]) as u64,
                    ));
                    lemma_tree_idx_range(self.inbox()[i].addr() - self.base());
                    tree::lemma_bit64_andnot(
                        m0.claimed,
                        cm,
                        self.tree_of(self.inbox()[i]) as u64,
                    );
                }
            }
        }
    }

    /// Whether the shard, as currently recorded, still has a block of the
    /// given order.  Queued remote frees are not considered: they become
    /// visible only when the owner drains them on its next allocation.
    pub fn has_capacity(&self, level: usize) -> (r: bool)
        requires
            self.inv(),
        ensures
            level <= 5 ==> r == (self.maps().avail[level as int] & !self.maps().claimed != 0),
            5 < level <= 11 ==> r == !level_full(self.maps().upper, (level - 6) as u64),
            level > 11 ==> r == false,
    {
        if level > BUCK_UPPER_TREE_MAX_LEVEL {
            false
        } else if level > BUCK_LOWER_TREE_MAX_LEVEL {
            tree::level_has_free(self.upper_tree, level - 6)
        } else {
            self.lower_levels_available[level] & !self.lower_trees_alloced_by_upper != 0
        }
    }

    /// Queue a block for freeing from a CPU that does not own this shard.
    /// The free is not applied yet: it becomes visible to the owner when it
    /// drains the inbox at the start of its next allocation.
    pub fn free_remote(&mut self, block: BuckBlock)
        requires
            old(self).inv(),
            old(self).block_fits(block),
            block.lvl() <= 5 ==> !bit64(
                old(self).maps().claimed,
                old(self).tree_of(block) as u64,
            ),
        ensures
            final(self).inv(),
            final(self).maps() == old(self).maps(),
            final(self).base() == old(self).base(),
            final(self).cpu() == old(self).cpu(),
            final(self).inbox() == old(self).inbox().push(block),
    {
        self.remote_free_inbox.push(block);
        proof {
            assert forall|i: int|
                0 <= i < self.inbox().len() implies self.block_fits(
                #[trigger] self.inbox()[i],
            ) by {
                if i < old(self).inbox().len() {
                    assert(old(self).block_fits(old(self).inbox()[i]));
                }
            }
            assert forall|i: int|
                0 <= i < self.inbox().len() && (#[trigger] self.inbox()[i]).level <= 5
                implies !bit64(
                self.lower_trees_alloced_by_upper,
                self.tree_of(self.inbox()[i]) as u64,
            ) by {
                if i < old(self).inbox().len() {
                    assert(old(self).inbox()[i].level <= 5 ==> !bit64(
                        old(self).lower_trees_alloced_by_upper,
                        old(self).tree_of(old(self).inbox()[i]) as u64,
                    ));
                }
            }
        }
    }
}

/// Rewriting one lower tree and re-deriving its availability bits keeps
/// the availability words exact.
proof fn lemma_tree_update_inv(m0: ShardMaps, m1: ShardMaps, k: int, t1: u64)
    requires
        m0.avail.len() == 6,
        m0.lowers.len() == 64,
        0 <= k < 64,
        forall|o: int, kk: u64|
            0 <= o < 6 && kk < 64 ==> ((#[trigger] bit64(m0.avail[o], kk)) == !level_full(
                m0.lowers[kk as int],
                o as u64,
            )),
        m1.lowers == m0.lowers.update(k, t1),
        m1.avail == Seq::new(
            6,
            |o: int| bit_update(m0.avail[o], k as u64, !level_full(t1, o as u64)),
        ),
    ensures
        forall|o: int, kk: u64|
            0 <= o < 6 && kk < 64 ==> ((#[trigger] bit64(m1.avail[o], kk)) == !level_full(
                m1.lowers[kk as int],
                o as u64,
            )),
{
    assert forall|o: int, kk: u64|
        0 <= o < 6 && kk < 64 implies ((#[trigger] bit64(m1.avail[o], kk)) == !level_full(
        m1.lowers[kk as int],
        o as u64,
    )) by {
        lemma_bit_update(m0.avail[o], k as u64, !level_full(t1, o as u64), kk);
        if kk as int != k {
            assert(bit64(m0.avail[o], kk) == !level_full(m0.lowers[kk as int], o as u64));
        }
    }
}

/// The lowest set bit of a non-zero word.
fn lowest_set_bit(w: u64) -> (r: usize)
    requires
        w != 0,
    ensures
        r < 64,
        bit64(w, r as u64),
        forall|q: u64| q < r ==> !bit64(w, q),
{
    let mut i: usize = 0;
    while i < 64
        invariant
            i <= 64,
            forall|q: u64| q < i ==> !bit64(w, q),
        decreases 64 - i,
    {
        proof {
            tree::lemma_bit64_read(w, i as u64);
        }
        if (w >> (i as u64)) & 1 != 0 {
            return i;
        }
        i += 1;
    }
    proof {
        assert forall|q: u64| q < 64 implies (#[trigger] bit64(w, q)) == bit64(0u64, q) by {
            tree::lemma_bit64_zero(q);
        }
        tree::lemma_bit64_ext(w, 0);
        assert(false);
    }
    0
}

/// `k` is the lowest-indexed lower tree that still has a free node at
/// `level` and is not claimed whole by an upper-range allocation.
pub open spec fn lower_pick(m: ShardMaps, level: int, k: int) -> bool {
    let w = m.avail[level] & !m.claimed;
    &&& 0 <= k < 64
    &&& bit64(w, k as u64)
    &&& forall|q: u64| q < k ==> !(#[trigger] bit64(w, q))
}

/// A successful lower-order claim: position `j` of `level` in tree `k` was
/// the first free one, the claim marks it with its subtree and ancestors,
/// the tree's availability bits are re-derived, the covering upper leaf and
/// its ancestors are marked used, and the handle points at the claimed
/// block.
pub open spec fn lower_claim_at(
    m: ShardMaps,
    base: int,
    level: int,
    k: int,
    j: u64,
    s: ShardMaps,
    b: BuckBlock,
) -> bool {
    let t = m.lowers[k];
    let node = level_node(level as u64, j);
    let t1 = t | claim_mask(node);
    let leaf = upper_leaf_of_tree(k);
    &&& j < level_count(level as u64)
    &&& !bit64(t, node)
    &&& (forall|q: u64| q < j ==> bit64(t, #[trigger] level_node(level as u64, q)))
    &&& s.lowers == m.lowers.update(k, t1)
    &&& s.upper == m.upper | ((1u64 << leaf) | anc_mask(leaf))
    &&& s.claimed == m.claimed
    &&& s.avail == Seq::new(
        6,
        |o: int| bit_update(m.avail[o], k as u64, !level_full(t1, o as u64)),
    )
    &&& b.lvl() == level
    &&& b.addr() == base + k * 0x2_0000 + block_bytes(level) * j
    &&& b.size() == block_bytes(level)
}

/// A successful upper-order claim: position `j` of the matching upper level
/// was the first free one, the claim marks it with its subtree and
/// ancestors, and every lower tree under the claimed node is flagged as
/// claimed whole.
pub open spec fn upper_claim_at(
    m: ShardMaps,
    base: int,
    level: int,
    j: u64,
    s: ShardMaps,
    b: BuckBlock,
) -> bool {
    let lu = (level - 6) as u64;
    let node = level_node(lu, j);
    &&& j < level_count(lu)
    &&& !bit64(m.upper, node)
    &&& (forall|q: u64| q < j ==> bit64(m.upper, #[trigger] level_node(lu, q)))
    &&& s.upper == m.upper | claim_mask(node)
    &&& s.claimed == m.claimed | cover_mask(node)
    &&& s.avail == m.avail
    &&& s.lowers == m.lowers
    &&& b.lvl() == level
    &&& b.addr() == base + block_bytes(level) * j
    &&& b.size() == block_bytes(level)
}

/// A block offset built from a tree index and a level position is in range
/// and block-aligned.
proof fn lemma_lower_addr(k: int, j: int, level: int)
    requires
        0 <= level <= 5,
        0 <= k < 64,
        0 <= j < level_count(level as u64),
    ensures
        0 <= k * 0x2_0000 + block_bytes(level) * j,
        k * 0x2_0000 + block_bytes(level) * j + block_bytes(level) <= 0x80_0000,
        (k * 0x2_0000 + block_bytes(level) * j) % block_bytes(level) == 0,
        0 <= block_bytes(level) * j,
        block_bytes(level) * j + block_bytes(level) <= 0x2_0000,
{
    let bb = block_bytes(level);
    lemma_range_split(level, 0x2_0000);
    let cnt = 0x2_0000int / bb;
    vstd::arithmetic::div_mod::lemma_fundamental_div_mod(0x2_0000, bb);
    assert(0x2_0000int == bb * cnt);
    assert(bb * j >= 0) by (nonlinear_arith)
        requires
            bb > 0,
            j >= 0,
    ;
    assert(bb * j + bb <= 0x2_0000) by (nonlinear_arith)
        requires
            bb > 0,
            j < cnt,
            0x2_0000int == bb * cnt,
    ;
    assert(k * 0x2_0000 <= 63 * 0x2_0000) by (nonlinear_arith)
        requires
            k <= 63,
    ;
    assert((k * 0x2_0000 + bb * j) % bb == 0) by {
        assert(k * 0x2_0000 == bb * (k * cnt)) by (nonlinear_arith)
            requires
                0x2_0000int == bb * cnt,
        ;
        vstd::arithmetic::div_mod::lemma_mod_multiples_basic(k * cnt, bb);
        vstd::arithmetic::div_mod::lemma_mod_multiples_basic(j, bb);
        vstd::arithmetic::div_mod::lemma_add_mod_noop(bb * (k * cnt), bb * j, bb);
        assert(bb * (k * cnt) == k * cnt * bb) by (nonlinear_arith);
        assert(bb * j == j * bb) by (nonlinear_arith);
        vstd::arithmetic::div_mod::lemma_small_mod(0, bb as nat);
    }
}

/// An upper-order offset built from a level position is in range and
/// block-aligned.
proof fn lemma_upper_addr(j: int, level: int)
    requires
        6 <= level <= 11,
        0 <= j < level_count((level - 6) as u64),
    ensures
        0 <= block_bytes(level) * j,
        block_bytes(level) * j + block_bytes(level) <= 0x80_0000,
        (block_bytes(level) * j) % block_bytes(level) == 0,
{
    let bb = block_bytes(level);
    lemma_range_split(level, 0x80_0000);
    let cnt = 0x80_0000int / bb;
    vstd::arithmetic::div_mod::lemma_fundamental_div_mod(0x80_0000, bb);
    assert(0x80_0000int == bb * cnt);
    assert(bb * j >= 0) by (nonlinear_arith)
        requires
            bb > 0,
            j >= 0,
    ;
    assert(bb * j + bb <= 0x80_0000) by (nonlinear_arith)
        requires
            bb > 0,
            j < cnt,
            0x80_0000int == bb * cnt,
    ;
    vstd::arithmetic::div_mod::lemma_mod_multiples_basic(j, bb);
    assert(bb * j == j * bb) by (nonlinear_arith);
}

/// A shard base aligned to the shard size is aligned to every block size.
proof fn lemma_base_block_aligned(base: int, level: int)
    requires
        base % 0x80_0000 == 0,
        0 <= level <= 11,
    ensures
        base % block_bytes(level) == 0,
{
    let bb = block_bytes(level);
    if level == 0 {
        lemma_total_split(0x80_0000, bb, 2048);
    } else if level == 1 {
        lemma_total_split(0x80_0000, bb, 1024);
    } else if level == 2 {
        lemma_total_split(0x80_0000, bb, 512);
    } else if level == 3 {
        lemma_total_split(0x80_0000, bb, 256);
    } else if level == 4 {
        lemma_total_split(0x80_0000, bb, 128);
    } else if level == 5 {
        lemma_total_split(0x80_0000, bb, 64);
    } else if level == 6 {
        lemma_total_split(0x80_0000, bb, 32);
    } else if level == 7 {
        lemma_total_split(0x80_0000, bb, 16);
    } else if level == 8 {
        lemma_total_split(0x80_0000, bb, 8);
    } else if level == 9 {
        lemma_total_split(0x80_0000, bb, 4);
    } else if level == 10 {
        lemma_total_split(0x80_0000, bb, 2);
    } else {
        lemma_total_split(0x80_0000, bb, 1);
    }
    let f = 0x80_0000int / bb;
    let q = base / 0x80_0000;
    vstd::arithmetic::div_mod::lemma_fundamental_div_mod(base, 0x80_0000);
    vstd::arithmetic::div_mod::lemma_fundamental_div_mod(0x80_0000, bb);
    assert(base == 0x80_0000 * q);
    assert(0x80_0000int == bb * f);
    assert(base == bb * (f * q)) by (nonlinear_arith)
        requires
            base == 0x80_0000 * q,
            0x80_0000int == bb * f,
    ;
    vstd::arithmetic::div_mod::lemma_mod_multiples_basic(f * q, bb);
    assert(bb * (f * q) == f * q * bb) by (nonlinear_arith);
}

/// Result of an allocation at `level` from drained state `m`: failure means
/// the state is untouched and the order is genuinely exhausted; success
/// means the first free slot was claimed and the handle points at it.
pub open spec fn allocate_post(
    m: ShardMaps,
    base: int,
    level: int,
    s: ShardMaps,
    r: Option<BuckBlock>,
) -> bool {
    &&& (level <= 5 && r is None ==> s == m && m.avail[level] & !m.claimed == 0)
    &&& (level <= 5 && r is Some ==> exists|k: int, j: u64|
        lower_pick(m, level, k) && #[trigger] lower_claim_at(m, base, level, k, j, s, r.unwrap()))
    &&& (5 < level <= 11 && r is None ==> s == m && level_full(m.upper, (level - 6) as u64))
    &&& (5 < level <= 11 && r is Some ==> exists|j: u64|
        #[trigger] upper_claim_at(m, base, level, j, s, r.unwrap()))
}

impl BuckShard {
    /// Allocate a block of the given order.  Only valid on the owning CPU.
    ///
    /// Orders above `BUCK_UPPER_TREE_MAX_LEVEL` are rejected outright.
    /// Otherwise every queued remote free is applied first, so capacity
    /// freed by other CPUs becomes visible; the allocation then claims the
    /// first free slot of the requested order, in the lowest-indexed usable
    /// lower tree for lower orders or in the upper tree for upper orders.
    /// `None` afterwards means the drained shard really had no block of
    /// this order left.  A returned handle is always aligned to its block
    /// size and lies inside the shard.
    #[verifier::rlimit(100)]
    #[verifier::spinoff_prover]
    pub fn allocate(&mut self, level: usize) -> (r: Option<BuckBlock>)
        requires
            old(self).inv(),
        ensures
            final(self).inv(),
            final(self).base() == old(self).base(),
            final(self).cpu() == old(self).cpu(),
            level > 11 ==> r is None && final(self).maps() == old(self).maps()
                && final(self).inbox() == old(self).inbox(),
            level <= 11 ==> final(self).inbox() == Seq::<BuckBlock>::empty(),
            level <= 11 ==> allocate_post(
                drain_maps(old(self).maps(), old(self).base(), old(self).inbox()),
                old(self).base(),
                level as int,
                final(self).maps(),
                r,
            ),
            r matches Some(b) ==> final(self).block_fits(b) && b.addr() % block_bytes(b.lvl())
                == 0,
    {
        let ghost m_init = old(self).maps();
        let ghost q_init = old(self).inbox();
        let ghost base0 = old(self).base();
        proof {
            assert(BUCK_UPPER_TREE_MAX_LEVEL == 11);
            assert(BUCK_LOWER_TREE_MAX_LEVEL == 5);
        }
        // Check level upper bound
        if level > BUCK_UPPER_TREE_MAX_LEVEL {
            return None;
        }
        // Apply queued remote frees so freed capacity becomes visible
        while self.remote_free_inbox.len() > 0
            invariant
                self.inv(),
                self.base() == base0,
                self.cpu() == old(self).cpu(),
                drain_maps(m_init, base0, q_init) == drain_maps(self.maps(), base0, self.inbox()),
            decreases self.remote_free_inbox@.len(),
        {
            let ghost s0 = *self;
            let b = self.remote_free_inbox.remove(0);
            proof {
                assert(self.remote_free_inbox@ =~= s0.inbox().drop_first());
                assert(b == s0.inbox()[0]);
                assert(s0.block_fits(b));
                assert(b.level <= 5 ==> !bit64(
                    s0.maps().claimed,
                    s0.tree_of(b) as u64,
                ));
                assert forall|i: int|
                    0 <= i < self.inbox().len() implies self.block_fits(
                    #[trigger] self.inbox()[i],
                ) by {
                    assert(self.inbox()[i] == s0.inbox()[i + 1]);
                    assert(s0.block_fits(s0.inbox()[i + 1]));
                }
                assert forall|i: int|
                    0 <= i < self.inbox().len() && (#[trigger] self.inbox()[i]).level <= 5
                    implies !bit64(
                    self.lower_trees_alloced_by_upper,
                    self.tree_of(self.inbox()[i]) as u64,
                ) by {
                    assert(self.inbox()[i] == s0.inbox()[i + 1]);
                    assert(s0.inbox()[i + 1].level <= 5 ==> !bit64(
                        s0.lower_trees_alloced_by_upper,
                        s0.tree_of(s0.inbox()[i + 1]) as u64,
                    ));
                }
            }
            let ghost s1 = *self;
            self.free_local(b);
            proof {
                assert(drain_maps(s0.maps(), base0, s0.inbox()) == drain_maps(
                    free_block_maps(s0.maps(), base0, b),
                    base0,
                    s0.inbox().drop_first(),
                ));
                assert(self.maps() == free_block_maps(s0.maps(), base0, b));
            }
        }
        proof {
            assert(self.inbox().len() == 0);
            assert(drain_maps(self.maps(), base0, self.inbox()) == self.maps());
            assert(self.inbox() =~= Seq::<BuckBlock>::empty());
        }
        let ghost m = self.maps();
        // Allocate in upper tree
        if level > BUCK_LOWER_TREE_MAX_LEVEL {
            let lu: usize = level - 6;
            let mut u: u64 = self.upper_tree;
            let mut now_full: bool = false;
            match tree::alloc_in_tree(&mut u, lu, &mut now_full) {
                None => {
                    proof {
                        assert(allocate_post(m, base0, level as int, self.maps(), None::<BuckBlock>));
                    }
                    return None;
                },
                Some((node, j)) => {
                    self.upper_tree = u;
                    // Mark all lower trees under the claimed upper node as
                    // fully allocated
                    let cm: u64 = cover_mask_exec(node);
                    self.lower_trees_alloced_by_upper = self.lower_trees_alloced_by_upper | cm;
                    let bb: usize = block_bytes_exec(level);
                    proof {
                        lemma_upper_addr(j as int, level as int);
                        lemma_base_block_aligned(base0, level as int);
                        assert(bb * j == j * bb) by (nonlinear_arith);
                    }
                    let block_addr: usize = self.base_addr.0 + j * bb;
                    let blk = BuckBlock {
                        ptr: Phys::new(block_addr),
                        real_size: bb as u32,
                        level: level as u32,
                    };
                    proof {
                        assert(bb * j == j * bb) by (nonlinear_arith);
                        assert(upper_claim_at(m, base0, level as int, j as u64, self.maps(), blk));
                        assert(exists|j2: u64|
                            #[trigger] upper_claim_at(m, base0, level as int, j2, self.maps(), blk));
                        assert(Some(blk).unwrap() == blk);
                        assert(allocate_post(m, base0, level as int, self.maps(), Some(blk)));
                        vstd::arithmetic::div_mod::lemma_add_mod_noop(
                            base0,
                            bb as int * j as int,
                            bb as int,
                        );
                        vstd::arithmetic::div_mod::lemma_small_mod(0, bb as nat);
                    }
                    return Some(blk);
                },
            }
        }
        // Allocate in one of the lower trees: bitfield of lower trees that
        // have at least one block of the requested level available and are
        // not in use by an upper tree allocation
        let w: u64 = self.lower_levels_available[level] & !self.lower_trees_alloced_by_upper;
        if w == 0 {
            proof {
                assert(allocate_post(m, base0, level as int, self.maps(), None::<BuckBlock>));
            }
            return None;
        }
        // First suitable tree
        let k: usize = lowest_set_bit(w);
        let mut t: u64 = self.lower_trees[k];
        let mut now_full: bool = false;
        match tree::alloc_in_tree(&mut t, level, &mut now_full) {
            None => {
                proof {
                    tree::lemma_bit64_andnot(
                        m.avail[level as int],
                        m.claimed,
                        k as u64,
                    );
                    assert(bit64(m.avail[level as int], k as u64) == !level_full(
                        m.lowers[k as int],
                        level as u64,
                    ));
                    assert(false);
                }
                None
            },
            Some((node, j)) => {
                self.lower_trees.set(k, t);
                self.refresh_avail(k);
                // Mark upper tree leaf and its parents as used
                let leaf: usize = k / 2 + 31;
                let am: u64 = tree::ancestor_mask(leaf);
                self.upper_tree = self.upper_tree | ((1u64 << (leaf as u64)) | am);
                let bb: usize = block_bytes_exec(level);
                proof {
                    lemma_lower_addr(k as int, j as int, level as int);
                    lemma_base_block_aligned(base0, level as int);
                    assert(bb * j == j * bb) by (nonlinear_arith);
                }
                let block_addr: usize = self.base_addr.0 + k * LOWER_TREE_BYTES + j * bb;
                let blk = BuckBlock {
                    ptr: Phys::new(block_addr),
                    real_size: bb as u32,
                    level: level as u32,
                };
                proof {
                    assert(bb * j == j * bb) by (nonlinear_arith);
                    let t1 = m.lowers[k as int] | claim_mask(node as u64);
                    assert(self.lower_trees@ =~= m.lowers.update(k as int, t1));
                    assert(self.lower_levels_available@ =~= Seq::new(
                        6,
                        |o: int| bit_update(m.avail[o], k as u64, !level_full(t1, o as u64)),
                    ));
                    assert(lower_pick(m, level as int, k as int));
                    assert(lower_claim_at(
                        m,
                        base0,
                        level as int,
                        k as int,
                        j as u64,
                        self.maps(),
                        blk,
                    ));
                    assert(exists|k2: int, j2: u64|
                        lower_pick(m, level as int, k2) && #[trigger] lower_claim_at(
                            m,
                            base0,
                            level as int,
                            k2,
                            j2,
                            self.maps(),
                            blk,
                        ));
                    assert(Some(blk).unwrap() == blk);
                    assert(allocate_post(m, base0, level as int, self.maps(), Some(blk)));
                    lemma_tree_update_inv(m, self.maps(), k as int, t1);
                    vstd::arithmetic::div_mod::lemma_add_mod_noop(
                        base0,
                        k as int * 0x2_0000 + bb as int * j as int,
                        bb as int,
                    );
                    vstd::arithmetic::div_mod::lemma_small_mod(0, bb as nat);
                }
                Some(blk)
            },
        }
    }
}

/// The upper-tree marks that bar every lower tree from `from` upward from
/// being claimed whole: each such tree's covering leaf and the leaf's
/// ancestors.
pub open spec fn leaf_marks_from(from: int) -> u64
    decreases 64 - from,
    when 0 <= from <= 64
{
    if from >= 64 {
        0u64
    } else {
        ((1u64 << upper_leaf_of_tree(from)) | anc_mask(upper_leaf_of_tree(from))) | leaf_marks_from(
            from + 1,
        )
    }
}

impl BuckShard {
    /// A shard over `pages` usable base pages starting at `base`: the first
    /// `pages / 32` lower trees are fully free, the rest are marked used in
    /// full, and the upper tree refuses every region that touches them.
    /// The capacity must be a whole number of lower trees.
    pub fn with_capacity(base: usize, cpu: CpuUid, pages: usize) -> (r: Self)
        requires
            base as int % 0x80_0000 == 0,
            base as int + 0x80_0000 <= usize::MAX,
            pages % 32 == 0,
            pages <= 2048,
        ensures
            r.inv(),
            r.base() == base,
            r.cpu() == cpu,
            r.inbox().len() == 0,
            r.maps().claimed == 0u64,
            r.maps().upper == leaf_marks_from(pages as int / 32),
            forall|k: int|
                0 <= k < pages as int / 32 ==> #[trigger] r.maps().lowers[k] == 0u64,
            forall|k: int|
                pages as int / 32 <= k < 64 ==> #[trigger] r.maps().lowers[k]
                    == 0x7fff_ffff_ffff_ffffu64,
            forall|o: int, k: u64|
                0 <= o < 6 && k < 64 ==> ((#[trigger] bit64(r.maps().avail[o], k)) == (
                (k as int) < pages as int / 32)),
    {
        let n: usize = pages / 32;
        let mut r = BuckShard::new();
        r.base_addr = Phys::new(base);
        r.owning_cpu = cpu;
        proof {
            assert forall|kk: int| 0 <= kk < 64 implies #[trigger] r.lower_trees@[kk] == 0u64 by {
                assert(r.maps().lowers[kk] == 0u64);
            }
        }
        let mut k: usize = 64;
        while k > n
            invariant
                n <= 64,
                n <= k <= 64,
                r.lower_levels_available@.len() == 6,
                r.lower_trees@.len() == 64,
                r.lower_trees_alloced_by_upper == 0u64,
                r.base_addr.0 == base,
                r.owning_cpu == cpu,
                r.remote_free_inbox@.len() == 0,
                r.upper_tree == leaf_marks_from(k as int),
                forall|kk: int| 0 <= kk < k ==> #[trigger] r.lower_trees@[kk] == 0u64,
                forall|kk: int|
                    k <= kk < 64 ==> #[trigger] r.lower_trees@[kk] == 0x7fff_ffff_ffff_ffffu64,
                forall|o: int, kk: u64|
                    0 <= o < 6 && kk < 64 ==> ((#[trigger] bit64(r.lower_levels_available@[o], kk))
                        == !level_full(r.lower_trees@[kk as int], o as u64)),
            decreases k,
        {
            let kk = k - 1;
            let ghost pre_avail = r.lower_levels_available@;
            let ghost pre_trees = r.lower_trees@;
            r.lower_trees.set(kk, 0x7fff_ffff_ffff_ffff);
            r.refresh_avail(kk);
            let leaf: usize = kk / 2 + 31;
            let am: u64 = tree::ancestor_mask(leaf);
            r.upper_tree = ((1u64 << (leaf as u64)) | am) | r.upper_tree;
            k = kk;
            proof {
                assert(r.upper_tree == leaf_marks_from(k as int));
                assert forall|o: int, kk2: u64|
                    0 <= o < 6 && kk2 < 64 implies ((#[trigger] bit64(
                    r.lower_levels_available@[o],
                    kk2,
                )) == !level_full(r.lower_trees@[kk2 as int], o as u64)) by {
                    lemma_full_tree_level_full(o as u64);
                    assert(r.lower_levels_available@[o] == bit_update(
                        pre_avail[o],
                        kk as u64,
                        false,
                    ));
                    lemma_bit_update(pre_avail[o], kk as u64, false, kk2);
                    if kk2 as int != kk as int {
                        assert(bit64(pre_avail[o], kk2) == !level_full(
                            pre_trees[kk2 as int],
                            o as u64,
                        ));
                        assert(r.lower_trees@[kk2 as int] == pre_trees[kk2 as int]);
                    }
                }
            }
        }
        proof {
            assert forall|o: int, kk: u64|
                0 <= o < 6 && kk < 64 implies ((#[trigger] bit64(
                r.lower_levels_available@[o],
                kk,
            )) == ((kk as int) < n as int)) by {
                if (kk as int) < n as int {
                    tree::lemma_level_geometry(o as u64);
                    tree::lemma_bit64_zero(level_node(o as u64, 0));
                    assert(!level_full(0u64, o as u64));
                } else {
                    lemma_full_tree_level_full(o as u64);
                }
            }
        }
        r
    }
}

/// Every level of a fully marked tree is exhausted.
proof fn lemma_full_tree_level_full(level: u64)
    requires
        level <= 5,
    ensures
        level_full(0x7fff_ffff_ffff_ffffu64, level),
{
    tree::lemma_level_geometry(level);
    assert forall|j: u64|
        j < level_count(level) implies bit64(
        0x7fff_ffff_ffff_ffffu64,
        #[trigger] level_node(level, j),
    ) by {
        assert(level_node(level, j) < 63);
        assert(forall|i: u64| i < 63 ==> bit64(0x7fff_ffff_ffff_ffffu64, i)) by (bit_vector);
    }
}

/// A fully free shard: every availability bit set, nothing claimed.
pub open spec fn shard_fully_free(r: BuckShard) -> bool {
    &&& r.maps().upper == leaf_marks_from(64)
    &&& r.maps().claimed == 0u64
    &&& forall|k: int| 0 <= k < 64 ==> #[trigger] r.maps().lowers[k] == 0u64
    &&& forall|o: int, k: u64| 0 <= o < 6 && k < 64 ==> #[trigger] bit64(r.maps().avail[o], k)
}

/// Bytes from `base` up to the first shard-aligned address at or above it.
pub open spec fn region_pad(base: int) -> int {
    if base % 0x80_0000 == 0 {
        0
    } else {
        0x80_0000 - base % 0x80_0000
    }
}

/// Whole shard-aligned slices a region can host: none when its padding
/// exceeds its length or its end overflows the address space.
pub open spec fn region_slices(region: (usize, usize)) -> int {
    let base = region.0 as int;
    let len = region.1 as int;
    if region_pad(base) <= len && len <= usize::MAX - base {
        (len - region_pad(base)) / 0x80_0000
    } else {
        0
    }
}

/// The slice base addresses of one region, in address order.
pub open spec fn region_bases(region: (usize, usize)) -> Seq<int> {
    Seq::new(
        region_slices(region) as nat,
        |i: int| region.0 + region_pad(region.0 as int) + 0x80_0000 * i,
    )
}

/// The slice base addresses of a whole memory map, region by region.
pub open spec fn map_bases(regions: Seq<(usize, usize)>) -> Seq<int>
    decreases regions.len(),
{
    if regions.len() == 0 {
        Seq::empty()
    } else {
        map_bases(regions.drop_last()) + region_bases(regions.last())
    }
}

/// One more region appends its slice bases.
proof fn lemma_map_bases_step(regions: Seq<(usize, usize)>, g: int)
    requires
        0 <= g < regions.len(),
    ensures
        map_bases(regions.take(g + 1)) == map_bases(regions.take(g)) + region_bases(regions[g]),
{
    assert(regions.take(g + 1).drop_last() =~= regions.take(g));
    assert(regions.take(g + 1).last() == regions[g]);
}

/// Counting one further item steps the round-robin position.
proof fn lemma_mod_step(x: int, l: int)
    requires
        l > 0,
        x >= 0,
    ensures
        (x + 1) % l == (if x % l == l - 1 {
            0int
        } else {
            x % l + 1
        }),
{
    vstd::arithmetic::div_mod::lemma_fundamental_div_mod(x, l);
    let q = x / l;
    assert(x == l * q + x % l);
    if x % l == l - 1 {
        assert(x + 1 == (q + 1) * l + 0) by (nonlinear_arith)
            requires
                x == l * q + (l - 1),
        ;
        vstd::arithmetic::div_mod::lemma_fundamental_div_mod_converse(x + 1, l, q + 1, 0);
    } else {
        assert(x + 1 == q * l + (x % l + 1)) by (nonlinear_arith)
            requires
                x == l * q + x % l,
        ;
        vstd::arithmetic::div_mod::lemma_fundamental_div_mod_converse(x + 1, l, q, x % l + 1);
    }
}

/// Build one shard per whole, shard-aligned slice of the usable memory map,
/// assigning owners round-robin from the given CPU identifiers: the result
/// holds exactly one fully free shard for each base `map_bases` enumerates,
/// in that order.  Region bytes before the first aligned slice, after the
/// last one, or in a region too small to host a slice are left unused.
pub fn init_shards(memory_regions: &Vec<(usize, usize)>, cpu_ids: &Vec<u64>) -> (r: Vec<
    BuckShard,
>)
    requires
        cpu_ids@.len() > 0,
    ensures
        r@.len() == map_bases(memory_regions@).len(),
        forall|i: int|
            0 <= i < r@.len() ==> {
                let s = #[trigger] r@[i];
                &&& s.inv()
                &&& s.base() == map_bases(memory_regions@)[i]
                &&& s.base() % 0x80_0000 == 0
                &&& s.cpu() == CpuUid(cpu_ids@[i % cpu_ids@.len() as int])
                &&& s.inbox().len() == 0
                &&& shard_fully_free(s)
                &&& exists|g: int|
                    0 <= g < memory_regions@.len() && (#[trigger] memory_regions@[g]).0 <= s.base()
                        && s.base() + 0x80_0000 <= memory_regions@[g].0 + memory_regions@[g].1
            },
{
    let ghost regs = memory_regions@;
    let mut out: Vec<BuckShard> = Vec::new();
    let mut next_cpu: usize = 0;
    let mut gi: usize = 0;
    while gi < memory_regions.len()
        invariant
            regs == memory_regions@,
            cpu_ids@.len() > 0,
            gi <= regs.len(),
            next_cpu < cpu_ids@.len(),
            out@.len() == map_bases(regs.take(gi as int)).len(),
            next_cpu as int == out@.len() as int % cpu_ids@.len() as int,
            forall|i: int|
                0 <= i < out@.len() ==> {
                    let s = #[trigger] out@[i];
                    &&& s.inv()
                    &&& s.base() == map_bases(regs.take(gi as int))[i]
                    &&& s.base() % 0x80_0000 == 0
                    &&& s.cpu() == CpuUid(cpu_ids@[i % cpu_ids@.len() as int])
                    &&& s.inbox().len() == 0
                    &&& shard_fully_free(s)
                    &&& exists|g: int|
                        0 <= g < regs.len() && (#[trigger] regs[g]).0 <= s.base() && s.base()
                            + 0x80_0000 <= regs[g].0 + regs[g].1
                },
        decreases regs.len() - gi,
    {
        let ghost n1 = out@.len() as int;
        let (rbase, rlen) = *&memory_regions[gi];
        // first shard-aligned address inside the region
        let pad: usize = if rbase % SHARD_BYTES == 0 {
            0
        } else {
            SHARD_BYTES - rbase % SHARD_BYTES
        };
        proof {
            assert(pad == region_pad(rbase as int));
            lemma_map_bases_step(regs, gi as int);
        }
        if pad <= rlen && rlen <= usize::MAX - rbase {
            let mut cur: usize = rbase + pad;
            let mut left: usize = rlen - pad;
            let ghost slices = region_slices((rbase, rlen));
            let ghost done: int = 0;
            while left >= SHARD_BYTES
                invariant
                    regs == memory_regions@,
                    cpu_ids@.len() > 0,
                    gi < regs.len(),
                    regs[gi as int] == (rbase, rlen),
                    pad == region_pad(rbase as int),
                    pad <= rlen && rlen <= usize::MAX - rbase,
                    slices == region_slices((rbase, rlen)),
                    0 <= done,
                    cur == rbase + pad + 0x80_0000 * done,
                    left == rlen - pad - 0x80_0000 * done,
                    next_cpu < cpu_ids@.len(),
                    out@.len() == n1 + done,
                    n1 == map_bases(regs.take(gi as int)).len(),
                    next_cpu as int == out@.len() as int % cpu_ids@.len() as int,
                    forall|i: int|
                        0 <= i < out@.len() ==> {
                            let s = #[trigger] out@[i];
                            &&& s.inv()
                            &&& s.base() == (if i < n1 {
                                map_bases(regs.take(gi as int))[i]
                            } else {
                                rbase + pad + 0x80_0000 * (i - n1)
                            })
                            &&& s.base() % 0x80_0000 == 0
                            &&& s.cpu() == CpuUid(cpu_ids@[i % cpu_ids@.len() as int])
                            &&& s.inbox().len() == 0
                            &&& shard_fully_free(s)
                            &&& exists|g: int|
                                0 <= g < regs.len() && (#[trigger] regs[g]).0 <= s.base()
                                    && s.base() + 0x80_0000 <= regs[g].0 + regs[g].1
                        },
                decreases left,
            {
                let shard = BuckShard::with_capacity(cur, CpuUid(cpu_ids[next_cpu]), 2048);
                proof {
                    lemma_with_capacity_fully_free(shard);
                    lemma_mod_step(out@.len() as int, cpu_ids@.len() as int);
                }
                out.push(shard);
                next_cpu = if next_cpu >= cpu_ids.len() - 1 {
                    0
                } else {
                    next_cpu + 1
                };
                cur = cur + SHARD_BYTES;
                left = left - SHARD_BYTES;
                proof {
                    done = done + 1;
                }
            }
            proof {
                // the region is exhausted: exactly its slice count was carved
                vstd::arithmetic::div_mod::lemma_fundamental_div_mod_converse(
                    rlen - pad,
                    0x80_0000,
                    done,
                    rlen - pad - 0x80_0000 * done,
                );
                assert(done == slices);
                assert(map_bases(regs.take(gi as int + 1)) == map_bases(regs.take(gi as int))
                    + region_bases((rbase, rlen)));
                assert forall|i: int|
                    0 <= i < out@.len() implies #[trigger] out@[i].base() == map_bases(
                    regs.take(gi as int + 1),
                )[i] by {
                    if i >= n1 {
                        assert(region_bases((rbase, rlen))[i - n1] == rbase + pad + 0x80_0000 * (i
                            - n1));
                    }
                }
            }
        } else {
            proof {
                assert(region_slices((rbase, rlen)) == 0);
                assert(region_bases((rbase, rlen)) =~= Seq::<int>::empty());
                assert(map_bases(regs.take(gi as int + 1)) =~= map_bases(regs.take(gi as int)));
            }
        }
        gi = gi + 1;
    }
    proof {
        assert(regs.take(gi as int) =~= regs);
    }
    out
}

/// A full-capacity shard is fully free.
proof fn lemma_with_capacity_fully_free(r: BuckShard)
    requires
        r.maps().claimed == 0u64,
        r.maps().upper == leaf_marks_from(64),
        forall|k: int| 0 <= k < 64 ==> #[trigger] r.maps().lowers[k] == 0u64,
        forall|o: int, k: u64|
            0 <= o < 6 && k < 64 ==> ((#[trigger] bit64(r.maps().avail[o], k)) == ((k as int)
                < 64)),
    ensures
        shard_fully_free(r),
{
}

/// First tree of the pair that shares tree `k`'s upper leaf.
pub open spec fn pair_base(k: int) -> int {
    2 * (k / 2)
}

/// Well-formedness of a shard's bit state, beyond what `inv` tracks at
/// runtime: each tree is well formed, the availability words are exact, an
/// upper leaf is marked exactly when its pair of lower trees is in use or
/// claimed whole, and claimed flags come in whole pairs.  This holds of a
/// freshly built shard and is what the round-trip law assumes.
pub open spec fn shard_wf(m: ShardMaps) -> bool {
    &&& m.avail.len() == 6
    &&& m.lowers.len() == 64
    &&& tree::tree_wf(m.upper)
    &&& forall|k: int| 0 <= k < 64 ==> tree::tree_wf(#[trigger] m.lowers[k])
    &&& forall|o: int, k: u64|
        0 <= o < 6 && k < 64 ==> ((#[trigger] bit64(m.avail[o], k)) == !level_full(
            m.lowers[k as int],
            o as u64,
        ))
    &&& forall|k: int|
        0 <= k < 64 ==> ((#[trigger] bit64(m.upper, upper_leaf_of_tree(k))) == (m.lowers[pair_base(
            k,
        )] != 0 || m.lowers[pair_base(k) + 1] != 0 || bit64(m.claimed, pair_base(k) as u64)))
    &&& forall|k: int|
        0 <= k < 64 ==> ((#[trigger] bit64(m.claimed, k as u64)) == bit64(
            m.claimed,
            buddy_tree(k) as u64,
        ))
    &&& forall|k: int| 0 <= k < 64 && bit64(m.claimed, k as u64) ==> #[trigger] m.lowers[k] == 0u64
}

/// Setting a bit to the value it already has changes nothing.
proof fn lemma_bit_update_same(w: u64, k: u64)
    requires
        k < 64,
    ensures
        bit_update(w, k, bit64(w, k)) == w,
{
    assert forall|i: u64|
        i < 64 implies (#[trigger] bit64(bit_update(w, k, bit64(w, k)), i)) == bit64(w, i) by {
        lemma_bit_update(w, k, bit64(w, k), i);
    }
    tree::lemma_bit64_ext(bit_update(w, k, bit64(w, k)), w);
}

/// A second write to the same bit overrides the first.
proof fn lemma_bit_update_twice(w: u64, k: u64, x: bool, y: bool)
    requires
        k < 64,
    ensures
        bit_update(bit_update(w, k, x), k, y) == bit_update(w, k, y),
{
    assert forall|i: u64|
        i < 64 implies (#[trigger] bit64(bit_update(bit_update(w, k, x), k, y), i)) == bit64(
        bit_update(w, k, y),
        i,
    ) by {
        lemma_bit_update(w, k, x, i);
        lemma_bit_update(bit_update(w, k, x), k, y, i);
        lemma_bit_update(w, k, y, i);
    }
    tree::lemma_bit64_ext(bit_update(bit_update(w, k, x), k, y), bit_update(w, k, y));
}

/// For an upper leaf the claim marks are the leaf bit and its ancestors.
proof fn lemma_claim_mask_leaf(leaf: u64)
    requires
        31 <= leaf < 63,
    ensures
        claim_mask(leaf) == (1u64 << leaf) | anc_mask(leaf),
{
    assert(tree::subtree_mask(leaf) == 1u64 << leaf);
}

/// Bit `kk` of `cover_mask(n)` is set exactly when `n` lies on the path to
/// lower tree `kk`'s upper leaf.
proof fn lemma_cover_mask_bits(n: u64, kk: u64)
    requires
        n < 63,
        kk < 64,
    ensures
        bit64(cover_mask(n), kk) == tree::in_path(n, upper_leaf_of_tree(kk as int)),
    decreases 62 - n,
{
    let leaf = upper_leaf_of_tree(kk as int);
    assert(31 <= leaf < 63);
    if n >= 31 {
        let mm = ((2 * (n - 31)) as u64);
        assert(bit64(3u64 << mm, kk) == (kk == mm || kk == mm + 1)) by (bit_vector)
            requires
                mm <= 62,
                kk < 64,
        ;
        if tree::in_path(n, leaf) {
            tree::lemma_in_path_le(n, leaf);
            if n != leaf {
                assert(tree::in_path(n, parent(leaf)));
                tree::lemma_in_path_le(n, parent(leaf));
            }
        }
    } else {
        let l = ((2 * n + 1) as u64);
        let r = ((2 * n + 2) as u64);
        tree::lemma_bit64_or(cover_mask(l), cover_mask(r), kk);
        lemma_cover_mask_bits(l, kk);
        lemma_cover_mask_bits(r, kk);
        if tree::in_path(n, leaf) && n != leaf {
            tree::lemma_in_path_child(n, leaf);
        }
        if tree::in_path(l, leaf) {
            tree::lemma_in_path_from_child(n, l, leaf);
        }
        if tree::in_path(r, leaf) {
            tree::lemma_in_path_from_child(n, r, leaf);
        }
    }
}

/// Round trip for a lower-order claim: releasing the freshly claimed block
/// restores the shard state bit for bit.
#[verifier::rlimit(100)]
#[verifier::spinoff_prover]
proof fn lemma_round_trip_lower(
    m: ShardMaps,
    base: int,
    level: int,
    k: int,
    j: u64,
    s: ShardMaps,
    b: BuckBlock,
)
    requires
        shard_wf(m),
        0 <= level <= 5,
        0 <= base,
        base % 0x80_0000 == 0,
        lower_pick(m, level, k),
        lower_claim_at(m, base, level, k, j, s, b),
    ensures
        free_block_maps(s, base, b) == m,
{
    let t = m.lowers[k];
    let node = level_node(level as u64, j);
    let t1 = t | claim_mask(node);
    let leaf = upper_leaf_of_tree(k);
    let bb = block_bytes(level);
    tree::lemma_level_geometry(level as u64);
    assert(node < 63);
    lemma_lower_addr(k, j as int, level);
    let off = b.addr() - base;
    assert(off == k * 0x2_0000 + bb * (j as int));
    assert(0 <= bb * (j as int) && bb * (j as int) < 0x2_0000);
    vstd::arithmetic::div_mod::lemma_fundamental_div_mod_converse(
        off,
        0x2_0000,
        k,
        bb * (j as int),
    );
    assert(lower_tree_idx(base, b) == k);
    assert(bb * (j as int) == (j as int) * bb) by (nonlinear_arith);
    vstd::arithmetic::div_mod::lemma_fundamental_div_mod_converse(bb * (j as int), bb, j as int, 0);
    assert(lower_pos(base, b) == j as int);
    assert(lower_node_of(base, b) == node);
    tree::lemma_bit64_andnot(m.avail[level], m.claimed, k as u64);
    assert(!bit64(m.claimed, k as u64));
    tree::lemma_claim_release_round_trip(t, node);
    assert(release_spec(t1, node) == t);
    let fm = free_block_maps(s, base, b);
    assert(fm == free_lower_maps(s, k, node));
    assert(fm.lowers =~= m.lowers);
    assert forall|o: int| 0 <= o < 6 implies fm.avail[o] == m.avail[o] by {
        lemma_bit_update_twice(
            m.avail[o],
            k as u64,
            !level_full(t1, o as u64),
            !level_full(t, o as u64),
        );
        assert(bit64(m.avail[o], k as u64) == !level_full(t, o as u64));
        lemma_bit_update_same(m.avail[o], k as u64);
    }
    assert(fm.avail =~= m.avail);
    let buddy = buddy_tree(k);
    assert(31 <= leaf < 63);
    lemma_claim_mask_leaf(leaf);
    assert(s.lowers[buddy] == m.lowers[buddy]);
    assert(bit64(m.upper, upper_leaf_of_tree(k)) == (m.lowers[pair_base(k)] != 0 || m.lowers[
        pair_base(k) + 1] != 0 || bit64(m.claimed, pair_base(k) as u64)));
    assert(pair_base(k) == k || pair_base(k) == buddy);
    assert(bit64(m.claimed, k as u64) == bit64(m.claimed, buddy_tree(k) as u64));
    if t == 0 && m.lowers[buddy] == 0 {
        assert(!bit64(m.upper, leaf));
        tree::lemma_claim_release_round_trip(m.upper, leaf);
        assert(fm.upper == m.upper);
    } else {
        assert(bit64(m.upper, leaf));
        assert forall|i: u64|
            i < 64 implies (#[trigger] bit64(s.upper, i)) == bit64(m.upper, i) by {
            tree::lemma_bit64_or(m.upper, (1u64 << leaf) | anc_mask(leaf), i);
            tree::lemma_bit64_or(1u64 << leaf, anc_mask(leaf), i);
            tree::lemma_bit64_onehot(leaf, i);
            tree::lemma_anc_mask_bits(leaf, i);
            if i != leaf && tree::in_path(i, leaf) {
                tree::lemma_up_chain(m.upper, i, leaf);
            }
        }
        tree::lemma_bit64_ext(s.upper, m.upper);
        assert(fm.upper == m.upper);
    }
    assert(fm == m);
}

/// Round trip for an upper-order claim.
proof fn lemma_round_trip_upper(
    m: ShardMaps,
    base: int,
    level: int,
    j: u64,
    s: ShardMaps,
    b: BuckBlock,
)
    requires
        shard_wf(m),
        6 <= level <= 11,
        0 <= base,
        base % 0x80_0000 == 0,
        upper_claim_at(m, base, level, j, s, b),
    ensures
        free_block_maps(s, base, b) == m,
{
    let lu = ((level - 6) as u64);
    let node = level_node(lu, j);
    tree::lemma_level_geometry(lu);
    assert(node < 63);
    let bb = block_bytes(level);
    lemma_upper_addr(j as int, level);
    let off = b.addr() - base;
    assert(off == bb * (j as int));
    assert(bb * (j as int) == (j as int) * bb) by (nonlinear_arith);
    vstd::arithmetic::div_mod::lemma_fundamental_div_mod_converse(off, bb, j as int, 0);
    assert(upper_pos(base, b) == j as int);
    assert(upper_node_of(base, b) == node);
    tree::lemma_claim_release_round_trip(m.upper, node);
    let fm = free_block_maps(s, base, b);
    assert(fm == free_upper_maps(s, node));
    assert(fm.upper == m.upper);
    // no lower tree under the claimed node was claimed whole beforehand
    assert forall|i: u64|
        i < 64 implies !((#[trigger] bit64(m.claimed, i)) && bit64(cover_mask(node), i)) by {
        if bit64(cover_mask(node), i) {
            lemma_cover_mask_bits(node, i);
            let lf = upper_leaf_of_tree(i as int);
            if bit64(m.upper, lf) {
                tree::lemma_up_chain(m.upper, node, lf);
            }
            assert(!bit64(m.upper, lf));
            assert(bit64(m.upper, upper_leaf_of_tree(i as int)) == (m.lowers[pair_base(i as int)]
                != 0 || m.lowers[pair_base(i as int) + 1] != 0 || bit64(
                m.claimed,
                pair_base(i as int) as u64,
            )));
            assert(!bit64(m.claimed, pair_base(i as int) as u64));
            assert(bit64(m.claimed, pair_base(i as int) as u64) == bit64(
                m.claimed,
                buddy_tree(pair_base(i as int)) as u64,
            ));
            assert(i as int == pair_base(i as int) || i as int == buddy_tree(pair_base(i as int)));
        }
    }
    assert forall|i: u64|
        i < 64 implies (#[trigger] bit64(fm.claimed, i)) == bit64(m.claimed, i) by {
        tree::lemma_bit64_andnot(m.claimed | cover_mask(node), cover_mask(node), i);
        tree::lemma_bit64_or(m.claimed, cover_mask(node), i);
    }
    tree::lemma_bit64_ext(fm.claimed, m.claimed);
    assert(fm == m);
}

/// Round trip: a successful allocation of any order from a well-formed
/// shard state, immediately freed locally, restores the shard's bit state
/// exactly.
pub proof fn lemma_allocate_free_round_trip(
    m: ShardMaps,
    base: int,
    level: int,
    s: ShardMaps,
    b: BuckBlock,
)
    requires
        shard_wf(m),
        0 <= level <= 11,
        0 <= base,
        base % 0x80_0000 == 0,
        allocate_post(m, base, level, s, Some(b)),
    ensures
        free_block_maps(s, base, b) == m,
{
    if level <= 5 {
        let (k, j) = choose|k: int, j: u64|
            lower_pick(m, level, k) && #[trigger] lower_claim_at(m, base, level, k, j, s, b);
        lemma_round_trip_lower(m, base, level, k, j, s, b);
    } else {
        let j = choose|j: u64| #[trigger] upper_claim_at(m, base, level, j, s, b);
        lemma_round_trip_upper(m, base, level, j, s, b);
    }
}

/// A fully free shard state is well formed: this anchors the round-trip
/// law at the states `new`, `with_capacity` at full size, and `init_shards`
/// produce.
pub proof fn lemma_fully_free_shard_wf(m: ShardMaps)
    requires
        m.avail.len() == 6,
        m.lowers.len() == 64,
        m.upper == 0u64,
        m.claimed == 0u64,
        forall|k: int| 0 <= k < 64 ==> #[trigger] m.lowers[k] == 0u64,
        forall|o: int, k: u64| 0 <= o < 6 && k < 64 ==> #[trigger] bit64(m.avail[o], k),
    ensures
        shard_wf(m),
{
    tree::lemma_zero_wf();
    assert forall|o: int, k: u64|
        0 <= o < 6 && k < 64 implies ((#[trigger] bit64(m.avail[o], k)) == !level_full(
        m.lowers[k as int],
        o as u64,
    )) by {
        tree::lemma_level_geometry(o as u64);
        tree::lemma_bit64_zero(level_node(o as u64, 0));
    }
    assert forall|k: int|
        0 <= k < 64 implies ((#[trigger] bit64(m.upper, upper_leaf_of_tree(k))) == (m.lowers[
        pair_base(k)] != 0 || m.lowers[pair_base(k) + 1] != 0 || bit64(
        m.claimed,
        pair_base(k) as u64,
    ))) by {
        tree::lemma_bit64_zero(upper_leaf_of_tree(k));
        tree::lemma_bit64_zero(pair_base(k) as u64);
    }
    assert forall|k: int|
        0 <= k < 64 implies ((#[trigger] bit64(m.claimed, k as u64)) == bit64(
        m.claimed,
        buddy_tree(k) as u64,
    )) by {
        tree::lemma_bit64_zero(k as u64);
        tree::lemma_bit64_zero(buddy_tree(k) as u64);
    }
    assert forall|k: int|
        0 <= k < 64 && bit64(m.claimed, k as u64) implies #[trigger] m.lowers[k] == 0u64 by {
        tree::lemma_bit64_zero(k as u64);
    }
}

/// No double allocation, stated over byte offsets: while the claim marks of
/// an outstanding lower-order block still stand in its lower tree, any node
/// a further claim of that tree can return covers a disjoint byte range.
/// Blocks of different lower trees are disjoint by the address layout, and
/// a claimed-whole tree refuses lower-order claims outright.
pub proof fn lemma_no_double_allocation_bytes(
    t: u64,
    level1: int,
    j1: u64,
    level2: int,
    j2: u64,
)
    requires
        0 <= level1 <= 5,
        0 <= level2 <= 5,
        j1 < level_count(level1 as u64),
        j2 < level_count(level2 as u64),
        t & claim_mask(level_node(level1 as u64, j1)) == claim_mask(level_node(level1 as u64, j1)),
        !bit64(t, level_node(level2 as u64, j2)),
    ensures
        j1 * block_bytes(level1) + block_bytes(level1) <= j2 * block_bytes(level2) || j2
            * block_bytes(level2) + block_bytes(level2) <= j1 * block_bytes(level1),
{
    let n1 = level_node(level1 as u64, j1);
    let n2 = level_node(level2 as u64, j2);
    tree::lemma_level_geometry(level1 as u64);
    tree::lemma_level_geometry(level2 as u64);
    assert(n1 < 63 && n2 < 63);
    tree::lemma_no_double_allocation(t, n1, n2);
    tree::lemma_level_node_span(level1 as u64, j1);
    tree::lemma_level_node_span(level2 as u64, j2);
    let p1 = vstd::arithmetic::power2::pow2(level1 as nat) as int;
    let p2 = vstd::arithmetic::power2::pow2(level2 as nat) as int;
    assert(block_bytes(level1) == 4096 * p1 && block_bytes(level2) == 4096 * p2) by {
        vstd::arithmetic::power2::lemma2_to64();
    }
    assert(tree::span_lo(n1) == j1 * p1 && tree::span_len(n1) == p1);
    assert(tree::span_lo(n2) == j2 * p2 && tree::span_len(n2) == p2);
    if j1 * p1 + p1 <= j2 * p2 {
        assert(j1 * (4096 * p1) + 4096 * p1 <= j2 * (4096 * p2)) by (nonlinear_arith)
            requires
                j1 * p1 + p1 <= j2 * p2,
        ;
    } else {
        assert(j2 * p2 + p2 <= j1 * p1);
        assert(j2 * (4096 * p2) + 4096 * p2 <= j1 * (4096 * p1)) by (nonlinear_arith)
            requires
                j2 * p2 + p2 <= j1 * p1,
        ;
    }
}

/// A set bit makes a word non-zero.
proof fn lemma_bit_nonzero(t: u64, i: u64)
    requires
        i < 64,
        bit64(t, i),
    ensures
        t != 0u64,
{
    tree::lemma_bit64_zero(i);
}

/// Both lower trees of one pair share their upper leaf.
proof fn lemma_pair_leaf(k: int)
    requires
        0 <= k < 64,
    ensures
        upper_leaf_of_tree(pair_base(k)) == upper_leaf_of_tree(k),
        upper_leaf_of_tree(pair_base(k) + 1) == upper_leaf_of_tree(k),
        pair_base(k) == k || pair_base(k) + 1 == k,
{
}

/// An upper leaf is never a strict ancestor, and the only leaf a claim of
/// node `n` marks are the leaves of its own subtree.
proof fn lemma_claim_bit_at_leaf(n: u64, leaf: u64)
    requires
        n < 63,
        31 <= leaf < 63,
    ensures
        bit64(claim_mask(n), leaf) == tree::in_path(n, leaf),
{
    tree::lemma_bit64_or(tree::subtree_mask(n), anc_mask(n), leaf);
    tree::lemma_subtree_mask_bits(n, leaf);
    tree::lemma_anc_mask_bits(n, leaf);
    if leaf != n && tree::in_path(leaf, n) {
        tree::lemma_in_path_le(leaf, parent(n));
    }
}

/// A successful or failed allocation from a well-formed drained state
/// leaves the state well formed, so the round-trip law keeps applying as
/// blocks are handed out.
pub proof fn lemma_allocate_preserves_shard_wf(
    m: ShardMaps,
    base: int,
    level: int,
    s: ShardMaps,
    r: Option<BuckBlock>,
)
    requires
        shard_wf(m),
        0 <= level <= 11,
        allocate_post(m, base, level, s, r),
    ensures
        shard_wf(s),
{
    if r is None {
        assert(s == m);
    } else if level <= 5 {
        let b = r.unwrap();
        let (k, j) = choose|k: int, j: u64|
            lower_pick(m, level, k) && #[trigger] lower_claim_at(m, base, level, k, j, s, b);
        let t = m.lowers[k];
        let node = level_node(level as u64, j);
        let t1 = t | claim_mask(node);
        let leaf = upper_leaf_of_tree(k);
        tree::lemma_level_geometry(level as u64);
        assert(node < 63);
        assert(31 <= leaf < 63);
        lemma_claim_mask_leaf(leaf);
        tree::lemma_claim_preserves_wf(t, node);
        tree::lemma_claim_preserves_wf(m.upper, leaf);
        assert(s.upper == m.upper | claim_mask(leaf));
        assert forall|kk: int| 0 <= kk < 64 implies tree::tree_wf(#[trigger] s.lowers[kk]) by {
            if kk != k {
                assert(s.lowers[kk] == m.lowers[kk]);
            }
        }
        lemma_tree_update_inv(m, s, k, t1);
        // the claimed node's bit is set, so tree k is in use now
        tree::lemma_bit64_or(t, claim_mask(node), node);
        tree::lemma_bit64_or(tree::subtree_mask(node), anc_mask(node), node);
        tree::lemma_subtree_mask_bits(node, node);
        assert(tree::in_path(node, node));
        assert(bit64(t1, node));
        lemma_bit_nonzero(t1, node);
        assert forall|kk: int|
            0 <= kk < 64 implies ((#[trigger] bit64(s.upper, upper_leaf_of_tree(kk))) == (s.lowers[
            pair_base(kk)] != 0 || s.lowers[pair_base(kk) + 1] != 0 || bit64(
            s.claimed,
            pair_base(kk) as u64,
        ))) by {
            let lf = upper_leaf_of_tree(kk);
            assert(31 <= lf < 63);
            tree::lemma_bit64_or(m.upper, claim_mask(leaf), lf);
            lemma_claim_bit_at_leaf(leaf, lf);
            if tree::in_path(leaf, lf) {
                tree::lemma_in_path_le(leaf, lf);
                if leaf != lf {
                    tree::lemma_in_path_le(leaf, parent(lf));
                }
            }
            lemma_pair_leaf(kk);
            lemma_pair_leaf(k);
            assert(bit64(m.upper, lf) == (m.lowers[pair_base(kk)] != 0 || m.lowers[pair_base(kk)
                + 1] != 0 || bit64(m.claimed, pair_base(kk) as u64)));
            if lf == leaf {
                assert(pair_base(kk) == pair_base(k));
                assert(s.lowers[k] == t1);
                assert(pair_base(kk) == k || pair_base(kk) + 1 == k);
            } else {
                assert(pair_base(kk) != k && pair_base(kk) + 1 != k);
                assert(s.lowers[pair_base(kk)] == m.lowers[pair_base(kk)]);
                assert(s.lowers[pair_base(kk) + 1] == m.lowers[pair_base(kk) + 1]);
            }
        }
        // a tree the allocator picked was not claimed whole, so the frozen
        // trees keep their empty state
        tree::lemma_bit64_andnot(m.avail[level], m.claimed, k as u64);
        assert forall|kk: int|
            0 <= kk < 64 && bit64(s.claimed, kk as u64) implies #[trigger] s.lowers[kk]
            == 0u64 by {
            if kk != k {
                assert(m.lowers[kk] == 0u64);
            }
        }
    } else {
        let b = r.unwrap();
        let j = choose|j: u64| #[trigger] upper_claim_at(m, base, level, j, s, b);
        let lu = ((level - 6) as u64);
        let node = level_node(lu, j);
        tree::lemma_level_geometry(lu);
        assert(node < 63);
        tree::lemma_claim_preserves_wf(m.upper, node);
        assert forall|kk: int|
            0 <= kk < 64 implies ((#[trigger] bit64(s.upper, upper_leaf_of_tree(kk))) == (s.lowers[
            pair_base(kk)] != 0 || s.lowers[pair_base(kk) + 1] != 0 || bit64(
            s.claimed,
            pair_base(kk) as u64,
        ))) by {
            let lf = upper_leaf_of_tree(kk);
            assert(31 <= lf < 63);
            tree::lemma_bit64_or(m.upper, claim_mask(node), lf);
            tree::lemma_bit64_or(m.claimed, cover_mask(node), pair_base(kk) as u64);
            lemma_claim_bit_at_leaf(node, lf);
            lemma_cover_mask_bits(node, pair_base(kk) as u64);
            lemma_pair_leaf(kk);
            assert(bit64(m.upper, lf) == (m.lowers[pair_base(kk)] != 0 || m.lowers[pair_base(kk)
                + 1] != 0 || bit64(m.claimed, pair_base(kk) as u64)));
        }
        assert forall|kk: int|
            0 <= kk < 64 implies ((#[trigger] bit64(s.claimed, kk as u64)) == bit64(
            s.claimed,
            buddy_tree(kk) as u64,
        )) by {
            tree::lemma_bit64_or(m.claimed, cover_mask(node), kk as u64);
            tree::lemma_bit64_or(m.claimed, cover_mask(node), buddy_tree(kk) as u64);
            lemma_cover_mask_bits(node, kk as u64);
            lemma_cover_mask_bits(node, buddy_tree(kk) as u64);
            assert(upper_leaf_of_tree(buddy_tree(kk)) == upper_leaf_of_tree(kk));
            assert(bit64(m.claimed, kk as u64) == bit64(m.claimed, buddy_tree(kk) as u64));
        }
        // trees covered by the fresh upper claim were empty: their leaf was
        // clear, so nothing lived below it
        assert forall|kk: int|
            0 <= kk < 64 && bit64(s.claimed, kk as u64) implies #[trigger] s.lowers[kk]
            == 0u64 by {
            tree::lemma_bit64_or(m.claimed, cover_mask(node), kk as u64);
            if bit64(m.claimed, kk as u64) {
                assert(m.lowers[kk] == 0u64);
            } else {
                lemma_cover_mask_bits(node, kk as u64);
                let lf = upper_leaf_of_tree(kk);
                if bit64(m.upper, lf) {
                    tree::lemma_up_chain(m.upper, node, lf);
                }
                assert(!bit64(m.upper, lf));
                lemma_pair_leaf(kk);
                assert(bit64(m.upper, upper_leaf_of_tree(kk)) == (m.lowers[pair_base(kk)] != 0
                    || m.lowers[pair_base(kk) + 1] != 0 || bit64(
                    m.claimed,
                    pair_base(kk) as u64,
                )));
            }
        }
    }
}

/// An upper-range claim bars every lower tree it covers from lower-order
/// allocation until it is freed: no availability word can offer the tree
/// while its claimed flag stands.
pub proof fn lemma_upper_claim_bars_lower(
    m: ShardMaps,
    base: int,
    level: int,
    j: u64,
    s: ShardMaps,
    b: BuckBlock,
    kk: u64,
    o: int,
)
    requires
        6 <= level <= 11,
        upper_claim_at(m, base, level, j, s, b),
        kk < 64,
        j < level_count(((level - 6) as u64)),
        bit64(cover_mask(level_node(((level - 6) as u64), j)), kk),
        0 <= o < 6,
    ensures
        !bit64(s.avail[o] & !s.claimed, kk),
{
    let node = level_node(((level - 6) as u64), j);
    tree::lemma_bit64_or(m.claimed, cover_mask(node), kk);
    assert(bit64(s.claimed, kk));
    tree::lemma_bit64_andnot(s.avail[o], s.claimed, kk);
}

/// Bit `i` of the disabled-tree marks: `i` lies on the path to the leaf of
/// some tree from `from` upward.
proof fn lemma_leaf_marks_bits(from: int, i: u64)
    requires
        0 <= from <= 64,
        i < 64,
    ensures
        bit64(leaf_marks_from(from), i) == exists|k: int|
            from <= k < 64 && tree::in_path(i, #[trigger] upper_leaf_of_tree(k)),
    decreases 64 - from,
{
    if from >= 64 {
        tree::lemma_bit64_zero(i);
    } else {
        let leaf = upper_leaf_of_tree(from);
        assert(31 <= leaf < 63);
        lemma_claim_mask_leaf(leaf);
        tree::lemma_bit64_or((1u64 << leaf) | anc_mask(leaf), leaf_marks_from(from + 1), i);
        tree::lemma_bit64_or(1u64 << leaf, anc_mask(leaf), i);
        tree::lemma_bit64_onehot(leaf, i);
        tree::lemma_anc_mask_bits(leaf, i);
        lemma_leaf_marks_bits(from + 1, i);
        if i == leaf {
            assert(tree::in_path(i, upper_leaf_of_tree(from)));
        }
        if bit64(leaf_marks_from(from + 1), i) {
            let k = choose|k: int|
                from + 1 <= k < 64 && tree::in_path(i, #[trigger] upper_leaf_of_tree(k));
            assert(from <= k < 64 && tree::in_path(i, upper_leaf_of_tree(k)));
        }
        if exists|k: int| from <= k < 64 && tree::in_path(i, #[trigger] upper_leaf_of_tree(k)) {
            let k = choose|k: int|
                from <= k < 64 && tree::in_path(i, #[trigger] upper_leaf_of_tree(k));
            if k == from || upper_leaf_of_tree(k) == leaf {
            } else {
                assert(from + 1 <= k < 64 && tree::in_path(i, upper_leaf_of_tree(k)));
            }
        }
    }
}

/// The disabled-tree marks form a well-formed upper tree.
proof fn lemma_leaf_marks_wf(from: int)
    requires
        0 <= from <= 64,
    ensures
        tree::tree_wf(leaf_marks_from(from)),
{
    let t = leaf_marks_from(from);
    assert forall|i: u64| 0 < i < 63 && (#[trigger] bit64(t, i)) implies bit64(t, parent(i)) by {
        lemma_leaf_marks_bits(from, i);
        let k = choose|k: int| from <= k < 64 && tree::in_path(i, #[trigger] upper_leaf_of_tree(k));
        assert(tree::in_path(parent(i), parent(i)));
        assert(tree::in_path(parent(i), i));
        tree::lemma_in_path_trans(parent(i), i, upper_leaf_of_tree(k));
        lemma_leaf_marks_bits(from, parent(i));
    }
    assert forall|i: u64|
        i < 31 && (#[trigger] bit64(t, i)) implies (bit64(t, ((2 * i + 1) as u64)) || bit64(
        t,
        ((2 * i + 2) as u64),
    )) by {
        lemma_leaf_marks_bits(from, i);
        let k = choose|k: int| from <= k < 64 && tree::in_path(i, #[trigger] upper_leaf_of_tree(k));
        let lf = upper_leaf_of_tree(k);
        assert(i != lf);
        tree::lemma_in_path_child(i, lf);
        lemma_leaf_marks_bits(from, ((2 * i + 1) as u64));
        lemma_leaf_marks_bits(from, ((2 * i + 2) as u64));
    }
}

/// One upper leaf of a capacity-limited shard is marked exactly when one
/// of its pair of trees is disabled.
proof fn lemma_capacity_leaf(m: ShardMaps, n: int, k: int)
    requires
        0 <= n <= 64,
        m.lowers.len() == 64,
        m.claimed == 0u64,
        m.upper == leaf_marks_from(n),
        forall|q: int| 0 <= q < n ==> #[trigger] m.lowers[q] == 0u64,
        forall|q: int| n <= q < 64 ==> #[trigger] m.lowers[q] == 0x7fff_ffff_ffff_ffffu64,
        0 <= k < 64,
    ensures
        bit64(m.upper, upper_leaf_of_tree(k)) == (m.lowers[pair_base(k)] != 0 || m.lowers[
            pair_base(k) + 1] != 0 || bit64(m.claimed, pair_base(k) as u64)),
{
    let lf = upper_leaf_of_tree(k);
    lemma_leaf_marks_bits(n, lf);
    lemma_pair_leaf(k);
    tree::lemma_bit64_zero(pair_base(k) as u64);
    if bit64(m.upper, lf) {
        let kq = choose|kq: int|
            n <= kq < 64 && tree::in_path(lf, #[trigger] upper_leaf_of_tree(kq));
        tree::lemma_in_path_le(lf, upper_leaf_of_tree(kq));
        if lf != upper_leaf_of_tree(kq) {
            tree::lemma_in_path_le(lf, parent(upper_leaf_of_tree(kq)));
        }
        assert(lf == upper_leaf_of_tree(kq));
        assert(pair_base(kq) == pair_base(k));
        lemma_pair_leaf(kq);
        assert(m.lowers[kq] == 0x7fff_ffff_ffff_ffffu64);
        assert(kq == pair_base(k) || kq == pair_base(k) + 1);
    }
    if m.lowers[pair_base(k)] != 0 || m.lowers[pair_base(k) + 1] != 0 {
        let kq: int = if m.lowers[pair_base(k)] != 0 {
            pair_base(k)
        } else {
            pair_base(k) + 1
        };
        assert(kq >= n);
        assert(tree::in_path(lf, lf));
        assert(tree::in_path(lf, upper_leaf_of_tree(kq)));
        assert(bit64(m.upper, lf));
    }
}

/// A capacity-limited shard's state is well formed, so the round-trip law
/// applies to shards of any configured size from the start.
pub proof fn lemma_with_capacity_shard_wf(m: ShardMaps, n: int)
    requires
        0 <= n <= 64,
        m.avail.len() == 6,
        m.lowers.len() == 64,
        m.claimed == 0u64,
        m.upper == leaf_marks_from(n),
        forall|k: int| 0 <= k < n ==> #[trigger] m.lowers[k] == 0u64,
        forall|k: int| n <= k < 64 ==> #[trigger] m.lowers[k] == 0x7fff_ffff_ffff_ffffu64,
        forall|o: int, k: u64|
            0 <= o < 6 && k < 64 ==> ((#[trigger] bit64(m.avail[o], k)) == ((k as int) < n)),
    ensures
        shard_wf(m),
{
    lemma_leaf_marks_wf(n);
    tree::lemma_zero_wf();
    tree::lemma_full_wf();
    assert forall|k: int| 0 <= k < 64 implies tree::tree_wf(#[trigger] m.lowers[k]) by {}
    assert forall|o: int, k: u64|
        0 <= o < 6 && k < 64 implies ((#[trigger] bit64(m.avail[o], k)) == !level_full(
        m.lowers[k as int],
        o as u64,
    )) by {
        if (k as int) < n {
            tree::lemma_level_geometry(o as u64);
            tree::lemma_bit64_zero(level_node(o as u64, 0));
        } else {
            lemma_full_tree_level_full(o as u64);
        }
    }
    assert forall|k: int|
        0 <= k < 64 implies ((#[trigger] bit64(m.upper, upper_leaf_of_tree(k))) == (m.lowers[
        pair_base(k)] != 0 || m.lowers[pair_base(k) + 1] != 0 || bit64(
        m.claimed,
        pair_base(k) as u64,
    ))) by {
        lemma_capacity_leaf(m, n, k);
    }
    assert forall|k: int|
        0 <= k < 64 implies ((#[trigger] bit64(m.claimed, k as u64)) == bit64(
        m.claimed,
        buddy_tree(k) as u64,
    )) by {
        tree::lemma_bit64_zero(k as u64);
        tree::lemma_bit64_zero(buddy_tree(k) as u64);
    }
    assert forall|k: int|
        0 <= k < 64 && bit64(m.claimed, k as u64) implies #[trigger] m.lowers[k] == 0u64 by {
        tree::lemma_bit64_zero(k as u64);
    }
}

/// A word with a set bit is not zero; a released tree that is not zero
/// came from a tree that was not zero.
proof fn lemma_release_keeps_zero(t: u64, node: u64)
    requires
        node < 63,
        t == 0u64,
    ensures
        release_spec(t, node) == 0u64,
{
    let t1 = release_spec(t, node);
    assert forall|i: u64| i < 64 implies (#[trigger] bit64(t1, i)) == bit64(0u64, i) by {
        tree::lemma_bit64_zero(i);
        if bit64(t1, i) {
            tree::lemma_release_subset(t, node, i);
        }
    }
    tree::lemma_bit64_ext(t1, 0);
}

/// Two distinct upper leaves are unrelated.
proof fn lemma_leaves_unrelated(a: u64, b: u64)
    requires
        31 <= a < 63,
        31 <= b < 63,
        a != b,
    ensures
        !tree::in_path(a, b),
{
    if tree::in_path(a, b) {
        tree::lemma_in_path_le(a, parent(b));
    }
}

/// Freeing a lower-order block of an unclaimed tree keeps the shard state
/// well formed.
#[verifier::rlimit(100)]
#[verifier::spinoff_prover]
pub proof fn lemma_free_lower_preserves_wf(m: ShardMaps, k: int, node: u64)
    requires
        shard_wf(m),
        0 <= k < 64,
        node < 63,
        !bit64(m.claimed, k as u64),
    ensures
        shard_wf(free_lower_maps(m, k, node)),
{
    let s = free_lower_maps(m, k, node);
    let t = m.lowers[k];
    let t1 = release_spec(t, node);
    let buddy = buddy_tree(k);
    let leaf = upper_leaf_of_tree(k);
    assert(31 <= leaf < 63);
    tree::lemma_release_preserves_wf(t, node);
    assert forall|kk: int| 0 <= kk < 64 implies tree::tree_wf(#[trigger] s.lowers[kk]) by {
        if kk != k {
            assert(s.lowers[kk] == m.lowers[kk]);
        }
    }
    lemma_tree_update_inv(m, s, k, t1);
    lemma_pair_leaf(k);
    assert(bit64(m.claimed, k as u64) == bit64(m.claimed, buddy_tree(k) as u64));
    assert(bit64(m.claimed, pair_base(k) as u64) == bit64(
        m.claimed,
        buddy_tree(pair_base(k)) as u64,
    ));
    assert(!bit64(m.claimed, pair_base(k) as u64));
    if t1 == 0 && m.lowers[buddy] == 0 {
        tree::lemma_release_preserves_wf(m.upper, leaf);
        assert forall|kk: int|
            0 <= kk < 64 implies ((#[trigger] bit64(s.upper, upper_leaf_of_tree(kk))) == (s.lowers[
            pair_base(kk)] != 0 || s.lowers[pair_base(kk) + 1] != 0 || bit64(
            s.claimed,
            pair_base(kk) as u64,
        ))) by {
            let lf = upper_leaf_of_tree(kk);
            assert(31 <= lf < 63);
            lemma_pair_leaf(kk);
            if lf == leaf {
                assert(tree::in_path(leaf, leaf));
                tree::lemma_release_clears_subtree(m.upper, leaf, leaf);
                assert(pair_base(kk) == pair_base(k));
                assert(s.lowers[k] == t1);
                assert(s.lowers[buddy] == m.lowers[buddy]);
                assert(pair_base(k) == k || pair_base(k) == buddy);
            } else {
                lemma_leaves_unrelated(leaf, lf);
                lemma_leaves_unrelated(lf, leaf);
                tree::lemma_release_outside(m.upper, leaf, lf);
                assert(pair_base(kk) != k && pair_base(kk) + 1 != k);
                assert(s.lowers[pair_base(kk)] == m.lowers[pair_base(kk)]);
                assert(s.lowers[pair_base(kk) + 1] == m.lowers[pair_base(kk) + 1]);
                assert(bit64(m.upper, lf) == (m.lowers[pair_base(kk)] != 0 || m.lowers[pair_base(
                    kk,
                ) + 1] != 0 || bit64(m.claimed, pair_base(kk) as u64)));
            }
        }
    } else {
        assert(s.upper == m.upper);
        assert forall|kk: int|
            0 <= kk < 64 implies ((#[trigger] bit64(s.upper, upper_leaf_of_tree(kk))) == (s.lowers[
            pair_base(kk)] != 0 || s.lowers[pair_base(kk) + 1] != 0 || bit64(
            s.claimed,
            pair_base(kk) as u64,
        ))) by {
            let lf = upper_leaf_of_tree(kk);
            lemma_pair_leaf(kk);
            assert(bit64(m.upper, lf) == (m.lowers[pair_base(kk)] != 0 || m.lowers[pair_base(kk)
                + 1] != 0 || bit64(m.claimed, pair_base(kk) as u64)));
            if lf == leaf {
                assert(pair_base(kk) == pair_base(k));
                if t1 != 0 && t == 0 {
                    lemma_release_keeps_zero(t, node);
                }
                assert(t != 0 || m.lowers[buddy] != 0);
                assert(pair_base(k) == k || pair_base(k) == buddy);
                assert(m.lowers[pair_base(kk)] != 0 || m.lowers[pair_base(kk) + 1] != 0);
                assert(bit64(m.upper, lf));
                assert(s.lowers[k] == t1);
                assert(t1 != 0 || m.lowers[buddy] != 0);
            } else {
                assert(pair_base(kk) != k && pair_base(kk) + 1 != k);
                assert(s.lowers[pair_base(kk)] == m.lowers[pair_base(kk)]);
                assert(s.lowers[pair_base(kk) + 1] == m.lowers[pair_base(kk) + 1]);
            }
        }
    }
    assert forall|kk: int|
        0 <= kk < 64 && bit64(s.claimed, kk as u64) implies #[trigger] s.lowers[kk] == 0u64 by {
        if kk != k {
            assert(m.lowers[kk] == 0u64);
        }
    }
}

/// Freeing an upper-range block whose claim flags still stand keeps the
/// shard state well formed.
#[verifier::rlimit(100)]
#[verifier::spinoff_prover]
pub proof fn lemma_free_upper_preserves_wf(m: ShardMaps, node: u64)
    requires
        shard_wf(m),
        node < 63,
        forall|kk: u64| kk < 64 && bit64(cover_mask(node), kk) ==> #[trigger] bit64(m.claimed, kk),
    ensures
        shard_wf(free_upper_maps(m, node)),
{
    let s = free_upper_maps(m, node);
    tree::lemma_release_preserves_wf(m.upper, node);
    assert forall|kk: int|
        0 <= kk < 64 implies ((#[trigger] bit64(s.upper, upper_leaf_of_tree(kk))) == (s.lowers[
        pair_base(kk)] != 0 || s.lowers[pair_base(kk) + 1] != 0 || bit64(
        s.claimed,
        pair_base(kk) as u64,
    ))) by {
        let lf = upper_leaf_of_tree(kk);
        assert(31 <= lf < 63);
        lemma_pair_leaf(kk);
        tree::lemma_bit64_andnot(m.claimed, cover_mask(node), pair_base(kk) as u64);
        lemma_cover_mask_bits(node, pair_base(kk) as u64);
        lemma_cover_mask_bits(node, kk as u64);
        assert(upper_leaf_of_tree(pair_base(kk)) == lf);
        if tree::in_path(node, lf) {
            tree::lemma_release_clears_subtree(m.upper, node, lf);
            // both trees of the pair were claimed, so both are empty
            assert(bit64(cover_mask(node), pair_base(kk) as u64));
            lemma_cover_mask_bits(node, (pair_base(kk) + 1) as u64);
            assert(upper_leaf_of_tree(pair_base(kk) + 1) == lf);
            assert(bit64(cover_mask(node), (pair_base(kk) + 1) as u64));
            assert(bit64(m.claimed, pair_base(kk) as u64));
            assert(bit64(m.claimed, (pair_base(kk) + 1) as u64));
            assert(m.lowers[pair_base(kk)] == 0u64);
            assert(m.lowers[pair_base(kk) + 1] == 0u64);
        } else {
            if tree::in_path(lf, node) && lf != node {
                tree::lemma_in_path_le(lf, parent(node));
            }
            tree::lemma_release_outside(m.upper, node, lf);
            assert(bit64(m.upper, lf) == (m.lowers[pair_base(kk)] != 0 || m.lowers[pair_base(kk)
                + 1] != 0 || bit64(m.claimed, pair_base(kk) as u64)));
        }
    }
    assert forall|kk: int|
        0 <= kk < 64 implies ((#[trigger] bit64(s.claimed, kk as u64)) == bit64(
        s.claimed,
        buddy_tree(kk) as u64,
    )) by {
        tree::lemma_bit64_andnot(m.claimed, cover_mask(node), kk as u64);
        tree::lemma_bit64_andnot(m.claimed, cover_mask(node), buddy_tree(kk) as u64);
        lemma_cover_mask_bits(node, kk as u64);
        lemma_cover_mask_bits(node, buddy_tree(kk) as u64);
        assert(upper_leaf_of_tree(buddy_tree(kk)) == upper_leaf_of_tree(kk));
        assert(bit64(m.claimed, kk as u64) == bit64(m.claimed, buddy_tree(kk) as u64));
    }
    assert forall|kk: int|
        0 <= kk < 64 && bit64(s.claimed, kk as u64) implies #[trigger] s.lowers[kk] == 0u64 by {
        tree::lemma_bit64_andnot(m.claimed, cover_mask(node), kk as u64);
        assert(m.lowers[kk] == 0u64);
    }
}

/// Free order-0 slots among the first `j` leaves of one lower tree.
pub open spec fn free_leaves_upto(t: u64, j: int) -> int
    decreases j,
{
    if j <= 0 {
        0
    } else {
        free_leaves_upto(t, j - 1) + (if bit64(t, level_node(0, ((j - 1) as u64))) {
            0int
        } else {
            1int
        })
    }
}

/// Free order-0 slots of one lower tree.
pub open spec fn tree_free_pages(t: u64) -> int {
    free_leaves_upto(t, 32)
}

/// Free order-0 slots of the first `j` lower trees, counting only trees
/// not claimed whole by an upper-range allocation: a claimed tree's slots
/// are spoken for even though its own bits are clear.
pub open spec fn seq_free_pages(claimed: u64, ls: Seq<u64>, j: int) -> int
    decreases j,
{
    if j <= 0 {
        0
    } else {
        seq_free_pages(claimed, ls, j - 1) + (if bit64(claimed, ((j - 1) as u64)) {
            0int
        } else {
            tree_free_pages(ls[j - 1])
        })
    }
}

/// Free order-0 slots of a whole shard.
pub open spec fn shard_free_pages(m: ShardMaps) -> int {
    seq_free_pages(m.claimed, m.lowers, 64)
}

/// A tree with no free node at order 0 has no free leaf.
proof fn lemma_full_no_free_leaves(t: u64, j: int)
    requires
        level_full(t, 0),
        0 <= j <= 32,
    ensures
        free_leaves_upto(t, j) == 0,
    decreases j,
{
    lemma_level_count_values();
    if j > 0 {
        lemma_full_no_free_leaves(t, j - 1);
        assert(bit64(t, level_node(0, ((j - 1) as u64))));
    }
}

/// Claiming one leaf takes exactly one free slot.
proof fn lemma_claim_leaf_count(t: u64, j0: u64, j: int)
    requires
        j0 < 32,
        !bit64(t, level_node(0, j0)),
        0 <= j <= 32,
    ensures
        free_leaves_upto(t | claim_mask(level_node(0, j0)), j) == free_leaves_upto(t, j) - (
        if j0 < j {
            1int
        } else {
            0int
        }),
    decreases j,
{
    lemma_level_count_values();
    let node = level_node(0, j0);
    let t1 = t | claim_mask(node);
    if j > 0 {
        lemma_claim_leaf_count(t, j0, j - 1);
        let q = ((j - 1) as u64);
        let nq = level_node(0, q);
        assert(nq < 63 && node < 63);
        tree::lemma_bit64_or(t, claim_mask(node), nq);
        tree::lemma_bit64_or(tree::subtree_mask(node), anc_mask(node), nq);
        tree::lemma_subtree_mask_bits(node, nq);
        tree::lemma_anc_mask_bits(node, nq);
        if q == j0 {
            assert(tree::in_path(node, node));
        } else {
            tree::lemma_same_level_incomparable(0, j0, q);
            tree::lemma_same_level_incomparable(0, q, j0);
        }
    }
}

/// One unclaimed lower tree rewritten, all others kept: the shard count
/// moves by the tree's own difference.
proof fn lemma_seq_count_update(claimed: u64, ls: Seq<u64>, k: int, t1: u64, j: int)
    requires
        ls.len() == 64,
        0 <= k < 64,
        !bit64(claimed, k as u64),
        0 <= j <= 64,
    ensures
        seq_free_pages(claimed, ls.update(k, t1), j) == seq_free_pages(claimed, ls, j) + (
        if k < j {
            tree_free_pages(t1) - tree_free_pages(ls[k])
        } else {
            0int
        }),
    decreases j,
{
    if j > 0 {
        lemma_seq_count_update(claimed, ls, k, t1, j - 1);
        if j - 1 != k {
            assert(ls.update(k, t1)[j - 1] == ls[j - 1]);
        } else {
            assert(ls.update(k, t1)[j - 1] == t1);
        }
    }
}

/// A successful order-0 claim takes exactly one free page.
proof fn lemma_order0_success_count(m: ShardMaps, k: int, j: u64, s: ShardMaps)
    requires
        m.lowers.len() == 64,
        0 <= k < 64,
        j < 32,
        !bit64(m.claimed, k as u64),
        !bit64(m.lowers[k], level_node(0, j)),
        s.claimed == m.claimed,
        s.lowers == m.lowers.update(k, m.lowers[k] | claim_mask(level_node(0, j))),
    ensures
        shard_free_pages(m) > 0,
        shard_free_pages(s) == shard_free_pages(m) - 1,
{
    lemma_level_count_values();
    let t = m.lowers[k];
    let node = level_node(0, j);
    lemma_claim_leaf_count(t, j, 32);
    lemma_claim_leaf_count(t, j, (j + 1) as int);
    lemma_claim_leaf_count(t, j, j as int);
    assert(free_leaves_upto(t, (j + 1) as int) >= 1) by {
        lemma_tree_count_nonneg(t, j as int);
    }
    lemma_free_leaves_monotone(t, (j + 1) as int, 32);
    assert(tree_free_pages(t) >= 1);
    lemma_seq_count_update(m.claimed, m.lowers, k, t | claim_mask(node), 64);
    lemma_seq_count_split(m.claimed, m.lowers, k, 64);
}

/// An exhausted order has no free page left outside the claimed trees.
proof fn lemma_order0_none_count(m: ShardMaps)
    requires
        m.avail.len() == 6,
        m.lowers.len() == 64,
        forall|o: int, kq: u64|
            0 <= o < 6 && kq < 64 ==> ((#[trigger] bit64(m.avail[o], kq)) == !level_full(
                m.lowers[kq as int],
                o as u64,
            )),
        m.avail[0] & !m.claimed == 0u64,
    ensures
        shard_free_pages(m) == 0,
{
    assert forall|k: int|
        0 <= k < 64 && !bit64(m.claimed, k as u64) implies tree_free_pages(
        #[trigger] m.lowers[k],
    ) == 0 by {
        tree::lemma_bit64_andnot(m.avail[0], m.claimed, k as u64);
        tree::lemma_bit64_zero(k as u64);
        assert(!bit64(m.avail[0], k as u64));
        assert(bit64(m.avail[0], k as u64) == !level_full(m.lowers[k], 0));
        lemma_full_no_free_leaves(m.lowers[k], 32);
    }
    lemma_seq_count_zero(m.claimed, m.lowers, 64);
}

/// Exhaustion boundary, the inductive step: an order-0 allocation from a
/// well-formed state succeeds exactly when a free page is left outside the
/// claimed-whole trees, a success takes exactly one such page, and a
/// failure changes nothing.  Iterating this from a shard holding `K` free
/// pages gives `K` successes and then `None`.
pub proof fn lemma_order0_count(m: ShardMaps, base: int, s: ShardMaps, r: Option<BuckBlock>)
    requires
        shard_wf(m),
        allocate_post(m, base, 0, s, r),
    ensures
        r is None ==> shard_free_pages(m) == 0 && s == m,
        r is Some ==> shard_free_pages(m) > 0 && shard_free_pages(s) == shard_free_pages(m) - 1,
{
    if r is None {
        assert(m.avail[0] & !m.claimed == 0);
        lemma_order0_none_count(m);
    } else {
        let b = r.unwrap();
        let (k, j) = choose|k: int, j: u64|
            lower_pick(m, 0, k) && #[trigger] lower_claim_at(m, base, 0, k, j, s, b);
        lemma_level_count_values();
        tree::lemma_bit64_andnot(m.avail[0], m.claimed, k as u64);
        lemma_order0_success_count(m, k, j, s);
    }
}

/// The shard count of trees full everywhere outside the claimed set is
/// zero.
proof fn lemma_seq_count_zero(claimed: u64, ls: Seq<u64>, j: int)
    requires
        ls.len() == 64,
        0 <= j <= 64,
        forall|k: int|
            0 <= k < 64 && !bit64(claimed, k as u64) ==> tree_free_pages(#[trigger] ls[k]) == 0,
    ensures
        seq_free_pages(claimed, ls, j) == 0,
    decreases j,
{
    if j > 0 {
        lemma_seq_count_zero(claimed, ls, j - 1);
    }
}

/// Leaf counts grow with the prefix length.
proof fn lemma_free_leaves_monotone(t: u64, j1: int, j2: int)
    requires
        0 <= j1 <= j2 <= 32,
    ensures
        free_leaves_upto(t, j1) <= free_leaves_upto(t, j2),
    decreases j2,
{
    if j1 < j2 {
        lemma_free_leaves_monotone(t, j1, j2 - 1);
    }
}

/// Tree counts are never negative.
proof fn lemma_tree_count_nonneg(t: u64, j: int)
    requires
        0 <= j <= 32,
    ensures
        free_leaves_upto(t, j) >= 0,
    decreases j,
{
    if j > 0 {
        lemma_tree_count_nonneg(t, j - 1);
    }
}

/// Shard counts are never negative.
proof fn lemma_seq_count_nonneg(claimed: u64, ls: Seq<u64>, j: int)
    requires
        ls.len() == 64,
        0 <= j <= 64,
    ensures
        seq_free_pages(claimed, ls, j) >= 0,
    decreases j,
{
    if j > 0 {
        lemma_seq_count_nonneg(claimed, ls, j - 1);
        lemma_tree_count_nonneg(ls[j - 1], 32);
    }
}

/// One unclaimed tree's count is bounded by the shard count.
proof fn lemma_seq_count_split(claimed: u64, ls: Seq<u64>, k: int, j: int)
    requires
        ls.len() == 64,
        0 <= k < j <= 64,
        !bit64(claimed, k as u64),
    ensures
        tree_free_pages(ls[k]) <= seq_free_pages(claimed, ls, j),
    decreases j,
{
    lemma_tree_count_nonneg(ls[j - 1], 32);
    if k < j - 1 {
        lemma_seq_count_split(claimed, ls, k, j - 1);
    } else {
        lemma_seq_count_nonneg(claimed, ls, j - 1);
    }
}

/// Blocks of different lower trees never overlap: each lower-order block
/// lies inside its own tree's 128 KiB window.
pub proof fn lemma_lower_trees_disjoint(
    k1: int,
    j1: u64,
    level1: int,
    k2: int,
    j2: u64,
    level2: int,
)
    requires
        0 <= level1 <= 5,
        0 <= level2 <= 5,
        0 <= k1 < 64,
        0 <= k2 < 64,
        k1 != k2,
        j1 < level_count(level1 as u64),
        j2 < level_count(level2 as u64),
    ensures
        k1 * 0x2_0000 + block_bytes(level1) * j1 + block_bytes(level1) <= k2 * 0x2_0000
            + block_bytes(level2) * j2 || k2 * 0x2_0000 + block_bytes(level2) * j2 + block_bytes(
            level2,
        ) <= k1 * 0x2_0000 + block_bytes(level1) * j1,
{
    lemma_lower_addr(k1, j1 as int, level1);
    lemma_lower_addr(k2, j2 as int, level2);
    if k1 < k2 {
        assert(k1 * 0x2_0000 + 0x2_0000 <= k2 * 0x2_0000) by (nonlinear_arith)
            requires
                k1 < k2,
        ;
    } else {
        assert(k2 * 0x2_0000 + 0x2_0000 <= k1 * 0x2_0000) by (nonlinear_arith)
            requires
                k2 < k1,
        ;
    }
}

/// No double allocation among upper-range blocks: while the claim marks of
/// an outstanding upper-order block still stand in the upper tree, any node
/// a further upper claim can return covers a disjoint byte range.
pub proof fn lemma_no_double_allocation_upper_bytes(
    u: u64,
    level1: int,
    j1: u64,
    level2: int,
    j2: u64,
)
    requires
        6 <= level1 <= 11,
        6 <= level2 <= 11,
        j1 < level_count((level1 - 6) as u64),
        j2 < level_count((level2 - 6) as u64),
        u & claim_mask(level_node((level1 - 6) as u64, j1)) == claim_mask(
            level_node((level1 - 6) as u64, j1),
        ),
        !bit64(u, level_node((level2 - 6) as u64, j2)),
    ensures
        j1 * block_bytes(level1) + block_bytes(level1) <= j2 * block_bytes(level2) || j2
            * block_bytes(level2) + block_bytes(level2) <= j1 * block_bytes(level1),
{
    let lu1 = ((level1 - 6) as u64);
    let lu2 = ((level2 - 6) as u64);
    let n1 = level_node(lu1, j1);
    let n2 = level_node(lu2, j2);
    tree::lemma_level_geometry(lu1);
    tree::lemma_level_geometry(lu2);
    assert(n1 < 63 && n2 < 63);
    tree::lemma_no_double_allocation(u, n1, n2);
    tree::lemma_level_node_span(lu1, j1);
    tree::lemma_level_node_span(lu2, j2);
    let p1 = vstd::arithmetic::power2::pow2(lu1 as nat) as int;
    let p2 = vstd::arithmetic::power2::pow2(lu2 as nat) as int;
    assert(block_bytes(level1) == 0x4_0000 * p1 && block_bytes(level2) == 0x4_0000 * p2) by {
        vstd::arithmetic::power2::lemma2_to64();
    }
    if j1 * p1 + p1 <= j2 * p2 {
        assert(j1 * (0x4_0000 * p1) + 0x4_0000 * p1 <= j2 * (0x4_0000 * p2)) by (nonlinear_arith)
            requires
                j1 * p1 + p1 <= j2 * p2,
        ;
    } else {
        assert(j2 * p2 + p2 <= j1 * p1);
        assert(j2 * (0x4_0000 * p2) + 0x4_0000 * p2 <= j1 * (0x4_0000 * p1)) by (nonlinear_arith)
            requires
                j2 * p2 + p2 <= j1 * p1,
        ;
    }
}

/// No double allocation across the ranges: while a lower-order block is
/// outstanding its tree's upper leaf is marked, so any node an upper-range
/// claim can return covers a disjoint byte range.
#[verifier::rlimit(50)]
pub proof fn lemma_no_double_allocation_cross_bytes(
    u: u64,
    k: int,
    level1: int,
    j1: u64,
    level2: int,
    j2: u64,
)
    requires
        tree::tree_up(u),
        0 <= k < 64,
        0 <= level1 <= 5,
        j1 < level_count(level1 as u64),
        bit64(u, upper_leaf_of_tree(k)),
        6 <= level2 <= 11,
        j2 < level_count((level2 - 6) as u64),
        !bit64(u, level_node((level2 - 6) as u64, j2)),
    ensures
        k * 0x2_0000 + block_bytes(level1) * j1 + block_bytes(level1) <= block_bytes(level2) * j2
            || block_bytes(level2) * j2 + block_bytes(level2) <= k * 0x2_0000,
{
    let lu2 = ((level2 - 6) as u64);
    let lf = upper_leaf_of_tree(k);
    let m = level_node(lu2, j2);
    lemma_level_count_values();
    tree::lemma_level_geometry(lu2);
    assert(lf == level_node(0, (k / 2) as u64));
    assert(31 <= lf < 63 && m < 63);
    if tree::in_path(m, lf) {
        tree::lemma_up_chain(u, m, lf);
    }
    if tree::in_path(lf, m) {
        if lf != m {
            tree::lemma_in_path_le(lf, parent(m));
        }
        assert(lf == m);
    }
    tree::lemma_unrelated_spans_disjoint(lf, m);
    tree::lemma_level_node_span(0, (k / 2) as u64);
    tree::lemma_level_node_span(lu2, j2);
    vstd::arithmetic::power2::lemma2_to64();
    let p2 = vstd::arithmetic::power2::pow2(lu2 as nat) as int;
    assert(block_bytes(level2) == 0x4_0000 * p2);
    assert(tree::span_lo(lf) == k / 2 && tree::span_len(lf) == 1);
    assert(tree::span_lo(m) == j2 * p2 && tree::span_len(m) == p2);
    lemma_lower_addr(k, j1 as int, level1);
    let half = k / 2;
    assert(2 * half <= k <= 2 * half + 1);
    if j2 * p2 + p2 <= half {
        assert(0x4_0000 * p2 * j2 + 0x4_0000 * p2 <= 0x4_0000 * half) by (nonlinear_arith)
            requires
                j2 * p2 + p2 <= half,
        ;
        assert(0x4_0000 * half <= k * 0x2_0000) by (nonlinear_arith)
            requires
                2 * half <= k,
        ;
        assert(0x4_0000 * p2 * j2 == block_bytes(level2) * j2) by (nonlinear_arith)
            requires
                block_bytes(level2) == 0x4_0000 * p2,
        ;
    } else {
        assert(half + 1 <= j2 * p2);
        assert(0x4_0000 * half + 0x4_0000 <= 0x4_0000 * p2 * j2) by (nonlinear_arith)
            requires
                half + 1 <= j2 * p2,
        ;
        assert(k * 0x2_0000 + 0x2_0000 <= 0x4_0000 * half + 0x4_0000) by (nonlinear_arith)
            requires
                k <= 2 * half + 1,
        ;
        assert(0x4_0000 * p2 * j2 == block_bytes(level2) * j2) by (nonlinear_arith)
            requires
                block_bytes(level2) == 0x4_0000 * p2,
        ;
    }
}

/// What the closed shard geometry says, over the open functions: the
/// bridge an outside verified caller needs to discharge `free_local`'s and
/// `free_remote`'s preconditions against a shard it holds.
pub proof fn lemma_shard_geometry(s: BuckShard, b: BuckBlock)
    requires
        s.inv(),
    ensures
        s.maps().avail.len() == 6,
        s.maps().lowers.len() == 64,
        s.base() % 0x80_0000 == 0,
        s.base() + 0x80_0000 <= usize::MAX,
        s.tree_of(b) == lower_tree_idx(s.base(), b),
        s.block_fits(b) == (b.lvl() <= 11 && b.addr() >= s.base() && b.addr() - s.base()
            < 0x80_0000 && (b.addr() - s.base()) % block_bytes(b.lvl()) == 0 && b.size()
            == block_bytes(b.lvl())),
{
}

/// A block a successful allocation just returned may be freed: it fits the
/// shard, and for a lower order the tree its address names is the picked
/// tree, still not claimed whole in the new state.
pub proof fn lemma_allocate_result_freeable(
    m: ShardMaps,
    base: int,
    level: int,
    s: ShardMaps,
    b: BuckBlock,
)
    requires
        0 <= level <= 11,
        0 <= base,
        base % 0x80_0000 == 0,
        allocate_post(m, base, level, s, Some(b)),
    ensures
        b.lvl() == level,
        b.size() == block_bytes(level),
        level <= 5 ==> !bit64(s.claimed, lower_tree_idx(base, b) as u64),
{
    if level <= 5 {
        let (k, j) = choose|k: int, j: u64|
            lower_pick(m, level, k) && #[trigger] lower_claim_at(m, base, level, k, j, s, b);
        let bb = block_bytes(level);
        lemma_lower_addr(k, j as int, level);
        let off = b.addr() - base;
        assert(off == k * 0x2_0000 + bb * (j as int));
        vstd::arithmetic::div_mod::lemma_fundamental_div_mod_converse(
            off,
            0x2_0000,
            k,
            bb * (j as int),
        );
        assert(lower_tree_idx(base, b) == k);
        tree::lemma_bit64_andnot(m.avail[level], m.claimed, k as u64);
    } else {
        let j = choose|j: u64| #[trigger] upper_claim_at(m, base, level, j, s, b);
    }
}

/// Ored-in marks are covered by the result.
proof fn lemma_or_covers(a: u64, b: u64)
    ensures
        (a | b) & b == b,
{
    assert forall|i: u64| i < 64 implies (#[trigger] bit64((a | b) & b, i)) == bit64(b, i) by {
        tree::lemma_bit64_and(a | b, b, i);
        tree::lemma_bit64_or(a, b, i);
    }
    tree::lemma_bit64_ext((a | b) & b, b);
}

/// Covered marks stay covered when more bits are ored in.
proof fn lemma_covers_mono(a: u64, x: u64, c: u64)
    requires
        a & c == c,
    ensures
        (a | x) & c == c,
{
    tree::lemma_bit64_covers(a, c);
    assert forall|i: u64| i < 64 && bit64(c, i) implies #[trigger] bit64(a | x, i) by {
        tree::lemma_bit64_or(a, x, i);
    }
    tree::lemma_bit64_covers(a | x, c);
}

/// A lower-order block in a tree not covered by an upper-range node lies in
/// a disjoint byte range from that node's block.
pub proof fn lemma_no_double_allocation_cross2_bytes(
    k: int,
    level1: int,
    j1: u64,
    level2: int,
    j2: u64,
)
    requires
        0 <= k < 64,
        0 <= level1 <= 5,
        j1 < level_count(level1 as u64),
        6 <= level2 <= 11,
        j2 < level_count((level2 - 6) as u64),
        !bit64(cover_mask(level_node((level2 - 6) as u64, j2)), k as u64),
    ensures
        k * 0x2_0000 + block_bytes(level1) * j1 + block_bytes(level1) <= block_bytes(level2) * j2
            || block_bytes(level2) * j2 + block_bytes(level2) <= k * 0x2_0000,
{
    let lu2 = ((level2 - 6) as u64);
    let lf = upper_leaf_of_tree(k);
    let m = level_node(lu2, j2);
    lemma_level_count_values();
    tree::lemma_level_geometry(lu2);
    assert(lf == level_node(0, (k / 2) as u64));
    assert(31 <= lf < 63 && m < 63);
    lemma_cover_mask_bits(m, k as u64);
    assert(!tree::in_path(m, lf));
    if tree::in_path(lf, m) {
        if lf != m {
            tree::lemma_in_path_le(lf, parent(m));
        }
        assert(tree::in_path(m, lf));
    }
    tree::lemma_unrelated_spans_disjoint(lf, m);
    tree::lemma_level_node_span(0, (k / 2) as u64);
    tree::lemma_level_node_span(lu2, j2);
    vstd::arithmetic::power2::lemma2_to64();
    let p2 = vstd::arithmetic::power2::pow2(lu2 as nat) as int;
    assert(block_bytes(level2) == 0x4_0000 * p2);
    assert(tree::span_lo(lf) == k / 2 && tree::span_len(lf) == 1);
    assert(tree::span_lo(m) == j2 * p2 && tree::span_len(m) == p2);
    lemma_lower_addr(k, j1 as int, level1);
    let half = k / 2;
    assert(2 * half <= k <= 2 * half + 1);
    if j2 * p2 + p2 <= half {
        assert(0x4_0000 * p2 * j2 + 0x4_0000 * p2 <= 0x4_0000 * half) by (nonlinear_arith)
            requires
                j2 * p2 + p2 <= half,
        ;
        assert(0x4_0000 * half <= k * 0x2_0000) by (nonlinear_arith)
            requires
                2 * half <= k,
        ;
        assert(0x4_0000 * p2 * j2 == block_bytes(level2) * j2) by (nonlinear_arith)
            requires
                block_bytes(level2) == 0x4_0000 * p2,
        ;
    } else {
        assert(half + 1 <= j2 * p2);
        assert(0x4_0000 * half + 0x4_0000 <= 0x4_0000 * p2 * j2) by (nonlinear_arith)
            requires
                half + 1 <= j2 * p2,
        ;
        assert(k * 0x2_0000 + 0x2_0000 <= 0x4_0000 * half + 0x4_0000) by (nonlinear_arith)
            requires
                k <= 2 * half + 1,
        ;
        assert(0x4_0000 * p2 * j2 == block_bytes(level2) * j2) by (nonlinear_arith)
            requires
                block_bytes(level2) == 0x4_0000 * p2,
        ;
    }
}

/// Geometric validity of a handle relative to a shard base: order in
/// range, inside the shard, aligned, size matching the order.
pub open spec fn block_geom(base: int, b: BuckBlock) -> bool {
    &&& 0 <= b.lvl() <= 11
    &&& b.addr() >= base
    &&& b.addr() - base < 0x80_0000
    &&& (b.addr() - base) % block_bytes(b.lvl()) == 0
    &&& b.size() == block_bytes(b.lvl())
}

/// The claim marks of an outstanding handle all stand in the state: its
/// node's subtree and ancestors in its tree, the covering upper-leaf path
/// for a lower-order block (whose tree is then not claimed whole), and the
/// claimed flags of every covered tree for an upper-order block.
pub open spec fn block_marked(m: ShardMaps, base: int, b: BuckBlock) -> bool {
    if b.lvl() <= 5 {
        let k = lower_tree_idx(base, b);
        let node = lower_node_of(base, b);
        let leaf = upper_leaf_of_tree(k);
        &&& m.lowers[k] & claim_mask(node) == claim_mask(node)
        &&& m.upper & ((1u64 << leaf) | anc_mask(leaf)) == ((1u64 << leaf) | anc_mask(leaf))
        &&& !bit64(m.claimed, k as u64)
    } else {
        let node = upper_node_of(base, b);
        &&& m.upper & claim_mask(node) == claim_mask(node)
        &&& (forall|kk: u64|
            kk < 64 && bit64(cover_mask(node), kk) ==> #[trigger] bit64(m.claimed, kk))
    }
}

/// The byte ranges of two handles do not intersect.
pub open spec fn blocks_disjoint(b1: BuckBlock, b2: BuckBlock) -> bool {
    b1.addr() + block_bytes(b1.lvl()) <= b2.addr() || b2.addr() + block_bytes(b2.lvl()) <= b1.addr()
}

/// The running invariant of a shard with a set of outstanding handles:
/// the state is well formed, every handle fits the shard and has its claim
/// marks standing, and the handles are pairwise disjoint.
pub open spec fn outstanding_ok(m: ShardMaps, base: int, hs: Seq<BuckBlock>) -> bool {
    &&& shard_wf(m)
    &&& 0 <= base
    &&& base % 0x80_0000 == 0
    &&& forall|i: int|
        0 <= i < hs.len() ==> block_geom(base, #[trigger] hs[i]) && block_marked(m, base, hs[i])
    &&& forall|i: int, j: int|
        0 <= i < hs.len() && 0 <= j < hs.len() && i != j ==> blocks_disjoint(
            #[trigger] hs[i],
            #[trigger] hs[j],
        )
}

/// A fresh shard has no outstanding handles.
pub proof fn lemma_fresh_outstanding_ok(m: ShardMaps, base: int)
    requires
        shard_wf(m),
        0 <= base,
        base % 0x80_0000 == 0,
    ensures
        outstanding_ok(m, base, Seq::<BuckBlock>::empty()),
{
}

/// A handle whose marks stand and the handle a fresh claim returns occupy
/// disjoint byte ranges, whatever the two orders.
proof fn lemma_marked_fresh_disjoint(
    m: ShardMaps,
    base: int,
    level: int,
    s: ShardMaps,
    b: BuckBlock,
    o: BuckBlock,
)
    requires
        shard_wf(m),
        0 <= base,
        base % 0x80_0000 == 0,
        0 <= level <= 11,
        allocate_post(m, base, level, s, Some(b)),
        block_geom(base, o),
        block_marked(m, base, o),
    ensures
        blocks_disjoint(o, b),
{
    let off_o = o.addr() - base;
    if o.lvl() <= 5 {
        lemma_lower_geometry(off_o, o.lvl());
        let ko = lower_tree_idx(base, o);
        let jo = lower_pos(base, o);
        let node_o = lower_node_of(base, o);
        let bbo = block_bytes(o.lvl());
        assert(off_o == ko * 0x2_0000 + bbo * jo);
        if level <= 5 {
            let (k, j) = choose|k: int, j: u64|
                lower_pick(m, level, k) && #[trigger] lower_claim_at(m, base, level, k, j, s, b);
            let node_b = level_node(level as u64, j);
            if ko == k {
                lemma_no_double_allocation_bytes(m.lowers[k], o.lvl(), jo as u64, level, j);
            } else {
                lemma_lower_trees_disjoint(ko, jo as u64, o.lvl(), k, j, level);
            }
        } else {
            let j = choose|j: u64| #[trigger] upper_claim_at(m, base, level, j, s, b);
            let leaf = upper_leaf_of_tree(ko);
            assert(31 <= leaf < 63);
            tree::lemma_bit64_covers(m.upper, (1u64 << leaf) | anc_mask(leaf));
            assert(bit64(m.upper, leaf)) by {
                tree::lemma_bit64_or(1u64 << leaf, anc_mask(leaf), leaf);
                tree::lemma_bit64_onehot(leaf, leaf);
            }
            lemma_no_double_allocation_cross_bytes(m.upper, ko, o.lvl(), jo as u64, level, j);
            lemma_lower_addr(ko, jo, o.lvl());
        }
    } else {
        lemma_upper_geometry(off_o, o.lvl());
        let jo = upper_pos(base, o);
        let node_o = upper_node_of(base, o);
        let bbo = block_bytes(o.lvl());
        assert(off_o == bbo * jo);
        tree::lemma_level_geometry(((o.lvl() - 6) as u64));
        if level <= 5 {
            let (k, j) = choose|k: int, j: u64|
                lower_pick(m, level, k) && #[trigger] lower_claim_at(m, base, level, k, j, s, b);
            tree::lemma_bit64_andnot(m.avail[level], m.claimed, k as u64);
            assert(!bit64(m.claimed, k as u64));
            assert(!bit64(cover_mask(node_o), k as u64));
            lemma_no_double_allocation_cross2_bytes(k, level, j, o.lvl(), jo as u64);
            lemma_lower_addr(k, j as int, level);
        } else {
            let j = choose|j: u64| #[trigger] upper_claim_at(m, base, level, j, s, b);
            tree::lemma_bit64_covers(m.upper, claim_mask(node_o));
            lemma_no_double_allocation_upper_bytes(m.upper, o.lvl(), jo as u64, level, j);
        }
    }
}

/// A newly returned handle fits the shard and carries standing marks.
proof fn lemma_fresh_block_ok(m: ShardMaps, base: int, level: int, s: ShardMaps, b: BuckBlock)
    requires
        shard_wf(m),
        0 <= base,
        base % 0x80_0000 == 0,
        0 <= level <= 11,
        allocate_post(m, base, level, s, Some(b)),
    ensures
        block_geom(base, b),
        block_marked(s, base, b),
{
    if level <= 5 {
        let (k, j) = choose|k: int, j: u64|
            lower_pick(m, level, k) && #[trigger] lower_claim_at(m, base, level, k, j, s, b);
        let t = m.lowers[k];
        let node = level_node(level as u64, j);
        let bb = block_bytes(level);
        let leaf = upper_leaf_of_tree(k);
        lemma_lower_addr(k, j as int, level);
        lemma_base_block_aligned(base, level);
        vstd::arithmetic::div_mod::lemma_fundamental_div_mod_converse(
            b.addr() - base,
            0x2_0000,
            k,
            bb * (j as int),
        );
        assert(lower_tree_idx(base, b) == k);
        assert(bb * (j as int) == (j as int) * bb) by (nonlinear_arith);
        vstd::arithmetic::div_mod::lemma_fundamental_div_mod_converse(
            bb * (j as int),
            bb,
            j as int,
            0,
        );
        assert(lower_pos(base, b) == j as int);
        assert(lower_node_of(base, b) == node);
        assert((b.addr() - base) % bb == 0) by {
            vstd::arithmetic::div_mod::lemma_mod_multiples_basic(j as int, bb);
            assert(k * 0x2_0000 % bb == 0) by {
                lemma_range_split(level, 0x2_0000);
                let cnt = 0x2_0000int / bb;
                vstd::arithmetic::div_mod::lemma_fundamental_div_mod(0x2_0000, bb);
                assert(k * 0x2_0000 == bb * (k * cnt)) by (nonlinear_arith)
                    requires
                        0x2_0000int == bb * cnt,
                ;
                vstd::arithmetic::div_mod::lemma_mod_multiples_basic(k * cnt, bb);
                assert(bb * (k * cnt) == k * cnt * bb) by (nonlinear_arith);
            }
            vstd::arithmetic::div_mod::lemma_add_mod_noop(k * 0x2_0000, (j as int) * bb, bb);
            vstd::arithmetic::div_mod::lemma_small_mod(0, bb as nat);
        }
        lemma_or_covers(t, claim_mask(node));
        lemma_or_covers(m.upper, (1u64 << leaf) | anc_mask(leaf));
        tree::lemma_bit64_andnot(m.avail[level], m.claimed, k as u64);
    } else {
        let j = choose|j: u64| #[trigger] upper_claim_at(m, base, level, j, s, b);
        let node = level_node(((level - 6) as u64), j);
        let bb = block_bytes(level);
        lemma_upper_addr(j as int, level);
        lemma_base_block_aligned(base, level);
        assert(bb * (j as int) == (j as int) * bb) by (nonlinear_arith);
        vstd::arithmetic::div_mod::lemma_fundamental_div_mod_converse(
            b.addr() - base,
            bb,
            j as int,
            0,
        );
        assert(upper_pos(base, b) == j as int);
        assert(upper_node_of(base, b) == node);
        lemma_or_covers(m.upper, claim_mask(node));
        assert forall|kk: u64|
            kk < 64 && bit64(cover_mask(node), kk) implies #[trigger] bit64(s.claimed, kk) by {
            tree::lemma_bit64_or(m.claimed, cover_mask(node), kk);
        }
    }
}

/// An allocation keeps the marks of every outstanding handle standing.
proof fn lemma_allocate_keeps_marks(
    m: ShardMaps,
    base: int,
    level: int,
    s: ShardMaps,
    b: BuckBlock,
    o: BuckBlock,
)
    requires
        shard_wf(m),
        0 <= base,
        base % 0x80_0000 == 0,
        0 <= level <= 11,
        allocate_post(m, base, level, s, Some(b)),
        block_geom(base, o),
        block_marked(m, base, o),
    ensures
        block_marked(s, base, o),
{
    if level <= 5 {
        let (k, j) = choose|k: int, j: u64|
            lower_pick(m, level, k) && #[trigger] lower_claim_at(m, base, level, k, j, s, b);
        let node = level_node(level as u64, j);
        let leaf = upper_leaf_of_tree(k);
        if o.lvl() <= 5 {
            let ko = lower_tree_idx(base, o);
            lemma_lower_geometry(o.addr() - base, o.lvl());
            if ko == k {
                lemma_covers_mono(
                    m.lowers[k],
                    claim_mask(node),
                    claim_mask(lower_node_of(base, o)),
                );
            } else {
                assert(s.lowers[ko] == m.lowers[ko]);
            }
            let lfo = upper_leaf_of_tree(ko);
            lemma_covers_mono(
                m.upper,
                (1u64 << leaf) | anc_mask(leaf),
                (1u64 << lfo) | anc_mask(lfo),
            );
        } else {
            let node_o = upper_node_of(base, o);
            lemma_covers_mono(m.upper, (1u64 << leaf) | anc_mask(leaf), claim_mask(node_o));
        }
    } else {
        let j = choose|j: u64| #[trigger] upper_claim_at(m, base, level, j, s, b);
        let node = level_node(((level - 6) as u64), j);
        tree::lemma_level_geometry(((level - 6) as u64));
        assert(node < 63);
        if o.lvl() <= 5 {
            let ko = lower_tree_idx(base, o);
            lemma_lower_geometry(o.addr() - base, o.lvl());
            let lfo = upper_leaf_of_tree(ko);
            assert(31 <= lfo < 63);
            lemma_covers_mono(m.upper, claim_mask(node), (1u64 << lfo) | anc_mask(lfo));
            // the fresh upper claim covers no tree holding an outstanding
            // lower block: that tree's leaf is marked, the claimed node was
            // free, and a covered leaf's bit would prop up to the node
            assert(!bit64(s.claimed, ko as u64)) by {
                tree::lemma_bit64_or(m.claimed, cover_mask(node), ko as u64);
                lemma_cover_mask_bits(node, ko as u64);
                if tree::in_path(node, lfo) {
                    tree::lemma_bit64_covers(m.upper, (1u64 << lfo) | anc_mask(lfo));
                    assert(bit64(m.upper, lfo)) by {
                        tree::lemma_bit64_or(1u64 << lfo, anc_mask(lfo), lfo);
                        tree::lemma_bit64_onehot(lfo, lfo);
                    }
                    tree::lemma_up_chain(m.upper, node, lfo);
                }
            }
        } else {
            let node_o = upper_node_of(base, o);
            lemma_covers_mono(m.upper, claim_mask(node), claim_mask(node_o));
            assert forall|kk: u64|
                kk < 64 && bit64(cover_mask(node_o), kk) implies #[trigger] bit64(
                s.claimed,
                kk,
            ) by {
                tree::lemma_bit64_or(m.claimed, cover_mask(node), kk);
            }
        }
    }
}

/// No double allocation, as one statement over whole allocation sequences:
/// from a shard whose outstanding handles are marked and pairwise
/// disjoint, any allocation keeps them so, and a newly returned handle is
/// disjoint from every one of them.  Anchored at the empty handle set by
/// `lemma_fresh_outstanding_ok`, every run of allocations therefore yields
/// pairwise disjoint outstanding handles.
pub proof fn lemma_allocate_no_overlap(
    m: ShardMaps,
    base: int,
    level: int,
    s: ShardMaps,
    r: Option<BuckBlock>,
    hs: Seq<BuckBlock>,
)
    requires
        outstanding_ok(m, base, hs),
        0 <= level <= 11,
        allocate_post(m, base, level, s, r),
    ensures
        r is None ==> outstanding_ok(s, base, hs),
        r is Some ==> outstanding_ok(s, base, hs.push(r.unwrap())) && (forall|i: int|
            0 <= i < hs.len() ==> blocks_disjoint(#[trigger] hs[i], r.unwrap())),
{
    lemma_allocate_preserves_shard_wf(m, base, level, s, r);
    if r is None {
        assert(s == m);
    } else {
        let b = r.unwrap();
        lemma_fresh_block_ok(m, base, level, s, b);
        assert forall|i: int|
            0 <= i < hs.len() implies blocks_disjoint(#[trigger] hs[i], b) by {
            lemma_marked_fresh_disjoint(m, base, level, s, b, hs[i]);
        }
        assert forall|i: int|
            0 <= i < hs.len() implies block_marked(s, base, #[trigger] hs[i]) by {
            lemma_allocate_keeps_marks(m, base, level, s, b, hs[i]);
        }
        let hs2 = hs.push(b);
        assert forall|i: int|
            0 <= i < hs2.len() implies block_geom(base, #[trigger] hs2[i]) && block_marked(
            s,
            base,
            hs2[i],
        ) by {
            if i < hs.len() {
                assert(hs2[i] == hs[i]);
            } else {
                assert(hs2[i] == b);
            }
        }
        assert forall|i: int, j: int|
            0 <= i < hs2.len() && 0 <= j < hs2.len() && i != j implies blocks_disjoint(
            #[trigger] hs2[i],
            #[trigger] hs2[j],
        ) by {
            if i < hs.len() && j < hs.len() {
                assert(hs2[i] == hs[i] && hs2[j] == hs[j]);
            } else if i < hs.len() {
                assert(hs2[i] == hs[i] && hs2[j] == b);
            } else {
                assert(hs2[i] == b && hs2[j] == hs[j]);
            }
        }
    }
}

/// Nested leaf spans stay nested when scaled to bytes.
proof fn lemma_span_scale_nested(j1: int, p1: int, j2: int, p2: int, x: int)
    requires
        x > 0,
        p1 >= 1,
        p2 >= 1,
        j1 * p1 <= j2 * p2,
        j2 * p2 + p2 <= j1 * p1 + p1,
    ensures
        j1 * (x * p1) <= j2 * (x * p2),
        j2 * (x * p2) + x * p2 <= j1 * (x * p1) + x * p1,
{
    assert(j1 * (x * p1) == x * (j1 * p1)) by (nonlinear_arith);
    assert(j2 * (x * p2) == x * (j2 * p2)) by (nonlinear_arith);
    assert(x * (j1 * p1) <= x * (j2 * p2)) by (nonlinear_arith)
        requires
            x > 0,
            j1 * p1 <= j2 * p2,
    ;
    assert(x * (j2 * p2) + x * p2 <= x * (j1 * p1) + x * p1) by (nonlinear_arith)
        requires
            x > 0,
            j2 * p2 + p2 <= j1 * p1 + p1,
    ;
}

/// Byte-disjoint blocks of one lower tree sit at unrelated nodes.
proof fn lemma_bytes_unrelated_lower(level1: int, j1: u64, level2: int, j2: u64)
    requires
        0 <= level1 <= 5,
        0 <= level2 <= 5,
        j1 < level_count(level1 as u64),
        j2 < level_count(level2 as u64),
        j1 * block_bytes(level1) + block_bytes(level1) <= j2 * block_bytes(level2) || j2
            * block_bytes(level2) + block_bytes(level2) <= j1 * block_bytes(level1),
    ensures
        !tree::in_path(level_node(level1 as u64, j1), level_node(level2 as u64, j2)),
        !tree::in_path(level_node(level2 as u64, j2), level_node(level1 as u64, j1)),
{
    let n1 = level_node(level1 as u64, j1);
    let n2 = level_node(level2 as u64, j2);
    tree::lemma_level_geometry(level1 as u64);
    tree::lemma_level_geometry(level2 as u64);
    tree::lemma_level_node_span(level1 as u64, j1);
    tree::lemma_level_node_span(level2 as u64, j2);
    vstd::arithmetic::power2::lemma2_to64();
    let p1 = vstd::arithmetic::power2::pow2(level1 as nat) as int;
    let p2 = vstd::arithmetic::power2::pow2(level2 as nat) as int;
    assert(block_bytes(level1) == 4096 * p1 && block_bytes(level2) == 4096 * p2);
    assert(p1 >= 1 && p2 >= 1);
    if tree::in_path(n1, n2) {
        tree::lemma_span_on_path(n1, n2);
        lemma_span_scale_nested(j1 as int, p1, j2 as int, p2, 4096);
    }
    if tree::in_path(n2, n1) {
        tree::lemma_span_on_path(n2, n1);
        lemma_span_scale_nested(j2 as int, p2, j1 as int, p1, 4096);
    }
}

/// Byte-disjoint upper-range blocks sit at unrelated nodes.
proof fn lemma_bytes_unrelated_upper(level1: int, j1: u64, level2: int, j2: u64)
    requires
        6 <= level1 <= 11,
        6 <= level2 <= 11,
        j1 < level_count((level1 - 6) as u64),
        j2 < level_count((level2 - 6) as u64),
        j1 * block_bytes(level1) + block_bytes(level1) <= j2 * block_bytes(level2) || j2
            * block_bytes(level2) + block_bytes(level2) <= j1 * block_bytes(level1),
    ensures
        !tree::in_path(
            level_node((level1 - 6) as u64, j1),
            level_node((level2 - 6) as u64, j2),
        ),
        !tree::in_path(
            level_node((level2 - 6) as u64, j2),
            level_node((level1 - 6) as u64, j1),
        ),
{
    let lu1 = ((level1 - 6) as u64);
    let lu2 = ((level2 - 6) as u64);
    let n1 = level_node(lu1, j1);
    let n2 = level_node(lu2, j2);
    tree::lemma_level_geometry(lu1);
    tree::lemma_level_geometry(lu2);
    tree::lemma_level_node_span(lu1, j1);
    tree::lemma_level_node_span(lu2, j2);
    vstd::arithmetic::power2::lemma2_to64();
    let p1 = vstd::arithmetic::power2::pow2(lu1 as nat) as int;
    let p2 = vstd::arithmetic::power2::pow2(lu2 as nat) as int;
    assert(block_bytes(level1) == 0x4_0000 * p1 && block_bytes(level2) == 0x4_0000 * p2);
    assert(p1 >= 1 && p2 >= 1);
    if tree::in_path(n1, n2) {
        tree::lemma_span_on_path(n1, n2);
        lemma_span_scale_nested(j1 as int, p1, j2 as int, p2, 0x4_0000);
    }
    if tree::in_path(n2, n1) {
        tree::lemma_span_on_path(n2, n1);
        lemma_span_scale_nested(j2 as int, p2, j1 as int, p1, 0x4_0000);
    }
}

/// Freeing one outstanding handle keeps the marks of every other,
/// byte-disjoint outstanding handle standing.
#[verifier::rlimit(100)]
#[verifier::spinoff_prover]
proof fn lemma_free_keeps_marks(m: ShardMaps, base: int, b0: BuckBlock, o: BuckBlock)
    requires
        shard_wf(m),
        0 <= base,
        base % 0x80_0000 == 0,
        block_geom(base, b0),
        block_marked(m, base, b0),
        block_geom(base, o),
        block_marked(m, base, o),
        blocks_disjoint(b0, o),
    ensures
        block_marked(free_block_maps(m, base, b0), base, o),
{
    let s = free_block_maps(m, base, b0);
    if b0.lvl() <= 5 {
        lemma_lower_geometry(b0.addr() - base, b0.lvl());
        let k0 = lower_tree_idx(base, b0);
        let j0 = lower_pos(base, b0);
        let node0 = lower_node_of(base, b0);
        let bb0 = block_bytes(b0.lvl());
        let leaf0 = upper_leaf_of_tree(k0);
        let buddy0 = buddy_tree(k0);
        let t1 = release_spec(m.lowers[k0], node0);
        tree::lemma_level_geometry(b0.lvl() as u64);
        assert(node0 < 63 && 31 <= leaf0 < 63);
        assert(s == free_lower_maps(m, k0, node0));
        if o.lvl() <= 5 {
            lemma_lower_geometry(o.addr() - base, o.lvl());
            let ko = lower_tree_idx(base, o);
            let jo = lower_pos(base, o);
            let node_o = lower_node_of(base, o);
            let bbo = block_bytes(o.lvl());
            let leaf_o = upper_leaf_of_tree(ko);
            tree::lemma_level_geometry(o.lvl() as u64);
            assert(node_o < 63 && 31 <= leaf_o < 63);
            assert(bit64(claim_mask(node_o), node_o)) by {
                tree::lemma_bit64_or(tree::subtree_mask(node_o), anc_mask(node_o), node_o);
                tree::lemma_subtree_mask_bits(node_o, node_o);
                assert(tree::in_path(node_o, node_o));
            }
            // the other handle's tree word keeps its claim
            if ko == k0 {
                assert(jo * bbo + bbo <= j0 * bb0 || j0 * bb0 + bb0 <= jo * bbo) by {
                    assert(bbo * jo == jo * bbo) by (nonlinear_arith);
                    assert(bb0 * j0 == j0 * bb0) by (nonlinear_arith);
                }
                lemma_bytes_unrelated_lower(o.lvl(), jo as u64, b0.lvl(), j0 as u64);
                tree::lemma_release_keeps_claim(m.lowers[k0], node0, node_o);
                tree::lemma_bit64_covers(t1, claim_mask(node_o));
                lemma_bit_nonzero(t1, node_o);
            } else {
                assert(s.lowers[ko] == m.lowers[ko]);
            }
            // the covering upper-leaf path keeps its claim
            lemma_claim_mask_leaf(leaf_o);
            if t1 == 0 && m.lowers[buddy0] == 0 {
                // the pair emptied, so the other handle lives elsewhere
                assert(ko != k0);
                assert(ko != buddy0) by {
                    if ko == buddy0 {
                        tree::lemma_bit64_covers(m.lowers[ko], claim_mask(node_o));
                        lemma_bit_nonzero(m.lowers[ko], node_o);
                    }
                }
                assert(leaf_o != leaf0);
                lemma_leaves_unrelated(leaf0, leaf_o);
                lemma_leaves_unrelated(leaf_o, leaf0);
                tree::lemma_release_keeps_claim(m.upper, leaf0, leaf_o);
            } else {
                assert(s.upper == m.upper);
            }
        } else {
            lemma_upper_geometry(o.addr() - base, o.lvl());
            let node_o = upper_node_of(base, o);
            tree::lemma_level_geometry(((o.lvl() - 6) as u64));
            assert(node_o < 63);
            if t1 == 0 && m.lowers[buddy0] == 0 {
                assert(!tree::in_path(node_o, leaf0)) by {
                    lemma_cover_mask_bits(node_o, k0 as u64);
                    assert(upper_leaf_of_tree(k0) == leaf0);
                }
                assert(!tree::in_path(leaf0, node_o)) by {
                    if tree::in_path(leaf0, node_o) && leaf0 != node_o {
                        tree::lemma_in_path_le(leaf0, parent(node_o));
                    }
                    if leaf0 == node_o {
                        assert(tree::in_path(node_o, leaf0));
                    }
                }
                tree::lemma_release_keeps_claim(m.upper, leaf0, node_o);
            } else {
                assert(s.upper == m.upper);
            }
        }
    } else {
        lemma_upper_geometry(b0.addr() - base, b0.lvl());
        let node0 = upper_node_of(base, b0);
        let j0 = upper_pos(base, b0);
        let bb0 = block_bytes(b0.lvl());
        tree::lemma_level_geometry(((b0.lvl() - 6) as u64));
        assert(node0 < 63);
        assert(s == free_upper_maps(m, node0));
        if o.lvl() <= 5 {
            lemma_lower_geometry(o.addr() - base, o.lvl());
            let ko = lower_tree_idx(base, o);
            let leaf_o = upper_leaf_of_tree(ko);
            assert(31 <= leaf_o < 63);
            assert(s.lowers[ko] == m.lowers[ko]);
            assert(!bit64(s.claimed, ko as u64)) by {
                tree::lemma_bit64_andnot(m.claimed, cover_mask(node0), ko as u64);
            }
            lemma_claim_mask_leaf(leaf_o);
            assert(!tree::in_path(node0, leaf_o)) by {
                lemma_cover_mask_bits(node0, ko as u64);
            }
            assert(!tree::in_path(leaf_o, node0)) by {
                if tree::in_path(leaf_o, node0) && leaf_o != node0 {
                    tree::lemma_in_path_le(leaf_o, parent(node0));
                }
                if leaf_o == node0 {
                    assert(tree::in_path(node0, leaf_o));
                }
            }
            tree::lemma_release_keeps_claim(m.upper, node0, leaf_o);
        } else {
            lemma_upper_geometry(o.addr() - base, o.lvl());
            let node_o = upper_node_of(base, o);
            let jo = upper_pos(base, o);
            let bbo = block_bytes(o.lvl());
            tree::lemma_level_geometry(((o.lvl() - 6) as u64));
            assert(node_o < 63);
            assert(jo * bbo + bbo <= j0 * bb0 || j0 * bb0 + bb0 <= jo * bbo) by {
                assert(bbo * jo == jo * bbo) by (nonlinear_arith);
                assert(bb0 * j0 == j0 * bb0) by (nonlinear_arith);
            }
            lemma_bytes_unrelated_upper(o.lvl(), jo as u64, b0.lvl(), j0 as u64);
            tree::lemma_release_keeps_claim(m.upper, node0, node_o);
            assert forall|kk: u64|
                kk < 64 && bit64(cover_mask(node_o), kk) implies #[trigger] bit64(
                s.claimed,
                kk,
            ) by {
                tree::lemma_bit64_andnot(m.claimed, cover_mask(node0), kk);
                lemma_cover_mask_bits(node_o, kk);
                lemma_cover_mask_bits(node0, kk);
                if tree::in_path(node0, upper_leaf_of_tree(kk as int)) {
                    tree::lemma_path_comparable(node0, node_o, upper_leaf_of_tree(kk as int));
                }
            }
        }
    }
}

/// Freeing any one outstanding handle keeps the remaining handles'
/// invariant.  Together with `lemma_allocate_no_overlap` and
/// `lemma_fresh_outstanding_ok` this closes the loop: over any
/// interleaving of allocations and frees, local or drained from the remote
/// inbox, the outstanding handles stay marked and pairwise disjoint — no
/// two ever overlap.
pub proof fn lemma_free_no_overlap(m: ShardMaps, base: int, hs: Seq<BuckBlock>, i0: int)
    requires
        outstanding_ok(m, base, hs),
        0 <= i0 < hs.len(),
    ensures
        outstanding_ok(free_block_maps(m, base, hs[i0]), base, hs.remove(i0)),
{
    let b0 = hs[i0];
    let s = free_block_maps(m, base, b0);
    if b0.lvl() <= 5 {
        lemma_lower_geometry(b0.addr() - base, b0.lvl());
        tree::lemma_level_geometry(b0.lvl() as u64);
        assert(lower_node_of(base, b0) < 63);
        lemma_free_lower_preserves_wf(m, lower_tree_idx(base, b0), lower_node_of(base, b0));
    } else {
        lemma_upper_geometry(b0.addr() - base, b0.lvl());
        tree::lemma_level_geometry(((b0.lvl() - 6) as u64));
        assert(upper_node_of(base, b0) < 63);
        lemma_free_upper_preserves_wf(m, upper_node_of(base, b0));
    }
    let hs2 = hs.remove(i0);
    assert forall|i: int|
        0 <= i < hs2.len() implies block_geom(base, #[trigger] hs2[i]) && block_marked(
        s,
        base,
        hs2[i],
    ) by {
        let orig = if i < i0 {
            i
        } else {
            i + 1
        };
        assert(hs2[i] == hs[orig]);
        assert(blocks_disjoint(hs[i0], hs[orig]));
        lemma_free_keeps_marks(m, base, b0, hs[orig]);
    }
    assert forall|i: int, j: int|
        0 <= i < hs2.len() && 0 <= j < hs2.len() && i != j implies blocks_disjoint(
        #[trigger] hs2[i],
        #[trigger] hs2[j],
    ) by {
        let oi = if i < i0 {
            i
        } else {
            i + 1
        };
        let oj = if j < i0 {
            j
        } else {
            j + 1
        };
        assert(hs2[i] == hs[oi] && hs2[j] == hs[oj]);
        assert(blocks_disjoint(hs[oi], hs[oj]));
    }
}

/// While an upper-range handle is outstanding, every lower tree it covers
/// is barred from lower-order allocation: in any state of the
/// `outstanding_ok` induction, no availability word offers a covered tree,
/// so `lower_pick` can never select it until the handle is freed.
pub proof fn lemma_outstanding_upper_bars_lower(
    m: ShardMaps,
    base: int,
    hs: Seq<BuckBlock>,
    i0: int,
    kk: u64,
    o: int,
)
    requires
        outstanding_ok(m, base, hs),
        0 <= i0 < hs.len(),
        hs[i0].lvl() > 5,
        kk < 64,
        bit64(cover_mask(upper_node_of(base, hs[i0])), kk),
        0 <= o < 6,
    ensures
        !bit64(m.avail[o] & !m.claimed, kk),
        forall|k: int| lower_pick(m, o, k) ==> k != kk as int,
{
    assert(bit64(m.claimed, kk));
    tree::lemma_bit64_andnot(m.avail[o], m.claimed, kk);
}

} // verus!
