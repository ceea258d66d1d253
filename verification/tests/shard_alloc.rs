//! Behavioral tests of the buddy allocator shard: allocation order,
//! alignment, exhaustion, coalescing, upper/lower interaction and the
//! remote-free inbox.

use buckmem::buck::BuckShard;
use buckmem::buck::CpuUid;
use buckmem::buck::BASE_PAGE_SIZE;

const SHARD: usize = 0x80_0000;

#[test]
fn example_scenario_two_trees() {
    // A shard of exactly 64 order-0 pages: 64 allocations succeed with
    // distinct, page-aligned, non-overlapping addresses; the 65th fails;
    // after freeing everything one allocation of the trees' own root size
    // succeeds at the base address.
    let mut s = BuckShard::with_capacity(SHARD, CpuUid(1), 64);
    let mut got = Vec::new();
    for i in 0..64 {
        let b = s.allocate(0).expect("in-capacity allocation failed");
        assert_eq!(b.order(), 0);
        assert_eq!(b.physical_address() % BASE_PAGE_SIZE, 0);
        assert_eq!(b.physical_address(), SHARD + i * BASE_PAGE_SIZE);
        got.push(b);
    }
    assert!(s.allocate(0).is_none());
    for b in got {
        s.free_local(b);
    }
    let big = s.allocate(5).expect("root-size allocation after full free failed");
    assert_eq!(big.physical_address(), SHARD);
    assert_eq!(big.order(), 5);
}

#[test]
fn exhaustion_boundary_ninety_six_pages() {
    let mut s = BuckShard::with_capacity(0, CpuUid(0), 96);
    for _ in 0..96 {
        assert!(s.allocate(0).is_some());
    }
    assert!(s.allocate(0).is_none());
}

#[test]
fn orders_align_and_stay_inside_the_shard() {
    let mut s = BuckShard::with_capacity(SHARD, CpuUid(0), 2048);
    for order in 0..12 {
        let b = s.allocate(order).expect("fresh shard exhausted");
        let size = BASE_PAGE_SIZE << order;
        assert_eq!(b.physical_address() % size, 0);
        assert!(b.physical_address() >= SHARD);
        assert!(b.physical_address() + size <= SHARD + SHARD);
        s.free_local(b);
    }
    assert!(s.allocate(12).is_none());
}

#[test]
fn outstanding_blocks_never_overlap() {
    let mut s = BuckShard::with_capacity(0, CpuUid(0), 2048);
    let orders = [0usize, 3, 0, 6, 1, 5, 0, 9, 2, 4, 0, 7];
    let mut ranges: Vec<(usize, usize)> = Vec::new();
    for &o in orders.iter() {
        let b = s.allocate(o).expect("mixed allocation failed");
        let lo = b.physical_address();
        let hi = lo + (BASE_PAGE_SIZE << o);
        for &(alo, ahi) in ranges.iter() {
            assert!(hi <= alo || ahi <= lo, "blocks overlap");
        }
        ranges.push((lo, hi));
    }
}

#[test]
fn round_trip_restores_behavior() {
    // Allocate and immediately free at several orders; afterwards the
    // shard behaves exactly like a fresh one: the full order-0 sequence
    // comes out at the same addresses.
    let mut s = BuckShard::with_capacity(0, CpuUid(0), 128);
    for o in [0usize, 1, 5, 2, 0, 6] {
        let b = s.allocate(o).expect("allocation failed");
        s.free_local(b);
    }
    let mut fresh = BuckShard::with_capacity(0, CpuUid(0), 128);
    for _ in 0..128 {
        let a = s.allocate(0).expect("round-tripped shard lost capacity");
        let f = fresh.allocate(0).expect("fresh shard exhausted");
        assert_eq!(a.physical_address(), f.physical_address());
    }
    assert!(s.allocate(0).is_none());
    assert!(fresh.allocate(0).is_none());
}

#[test]
fn buddies_coalesce_into_their_parent() {
    // Fill a 64-page shard, free two order-0 buddies, and ask for their
    // parent: the order-1 allocation must succeed and cover exactly the
    // freed pair.
    let mut s = BuckShard::with_capacity(0, CpuUid(0), 64);
    let mut blocks = Vec::new();
    for _ in 0..64 {
        blocks.push(s.allocate(0).unwrap());
    }
    assert!(s.allocate(1).is_none());
    let a = blocks[6].clone();
    let b = blocks[7].clone();
    assert_eq!(a.physical_address(), 6 * BASE_PAGE_SIZE);
    assert_eq!(b.physical_address(), 7 * BASE_PAGE_SIZE);
    s.free_local(a);
    s.free_local(b);
    let pair = s.allocate(1).expect("coalesced pair not allocatable");
    assert_eq!(pair.physical_address(), 6 * BASE_PAGE_SIZE);
    assert_eq!(pair.order(), 1);
    assert!(s.allocate(0).is_none());
}

#[test]
fn upper_block_claims_and_releases_lower_trees() {
    // One upper-range block over a two-tree shard bars every lower-order
    // allocation; freeing it opens them all again.
    let mut s = BuckShard::with_capacity(0, CpuUid(0), 64);
    let big = s.allocate(6).expect("upper allocation failed");
    assert_eq!(big.physical_address(), 0);
    for o in 0..6 {
        assert!(s.allocate(o).is_none(), "claimed tree handed out a block");
    }
    s.free_local(big);
    for o in 0..6 {
        let b = s.allocate(o).expect("freed tree still barred");
        s.free_local(b);
    }
}

#[test]
fn remote_free_becomes_visible_at_next_allocation() {
    let mut s = BuckShard::with_capacity(0, CpuUid(0), 64);
    let mut blocks = Vec::new();
    for _ in 0..64 {
        blocks.push(s.allocate(0).unwrap());
    }
    // A foreign CPU frees page 0: the recorded availability does not move
    // until the owner's next allocation, which then sees the page.
    assert!(!s.has_capacity(0));
    let first = blocks.remove(0);
    s.free_remote(first);
    assert!(!s.has_capacity(0));
    let again = s.allocate(0).expect("queued remote free not applied");
    assert_eq!(again.physical_address(), 0);
    assert!(s.allocate(0).is_none());
}

#[test]
fn remote_free_of_buddies_coalesces_on_drain() {
    let mut s = BuckShard::with_capacity(0, CpuUid(0), 64);
    let mut blocks = Vec::new();
    for _ in 0..64 {
        blocks.push(s.allocate(0).unwrap());
    }
    let b1 = blocks.remove(1);
    let b0 = blocks.remove(0);
    s.free_remote(b0);
    s.free_remote(b1);
    let pair = s.allocate(1).expect("drained buddies did not coalesce");
    assert_eq!(pair.physical_address(), 0);
}

#[test]
fn rejects_orders_beyond_the_largest() {
    let mut s = BuckShard::with_capacity(0, CpuUid(0), 2048);
    assert!(s.allocate(12).is_none());
    assert!(s.allocate(usize::MAX).is_none());
    // the rejection touched nothing: the whole shard is still allocatable
    assert!(s.allocate(11).is_some());
}

#[test]
fn whole_shard_round_trip_at_top_order() {
    let mut s = BuckShard::with_capacity(SHARD, CpuUid(3), 2048);
    let all = s.allocate(11).expect("whole-shard allocation failed");
    assert_eq!(all.physical_address(), SHARD);
    assert!(s.allocate(0).is_none());
    s.free_local(all);
    let again = s.allocate(11).expect("freed shard not reusable");
    assert_eq!(again.physical_address(), SHARD);
}

#[test]
fn init_shards_carves_aligned_slices() {
    let regions = vec![(0x12_3000usize, 0x200_0000usize), (0usize, 0x50_0000usize)];
    let cpus = vec![1u64, 2u64];
    let shards = buckmem::buck::init_shards(&regions, &cpus);
    assert_eq!(shards.len(), 3);
    let mut s0 = shards;
    assert_eq!(s0[0].allocate(0).unwrap().physical_address(), 0x80_0000);
    assert_eq!(s0[1].allocate(0).unwrap().physical_address(), 0x100_0000);
    assert_eq!(s0[2].allocate(0).unwrap().physical_address(), 0x180_0000);
}

#[test]
fn fresh_default_shard_serves_page_zero() {
    let mut s = BuckShard::new();
    let b = s.allocate(0).expect("fresh shard exhausted");
    assert_eq!(b.physical_address(), 0);
    assert_eq!(b.order(), 0);
}
