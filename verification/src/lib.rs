//! Core data structures of a small x86-64 kernel, with verified contracts.
//!
//! The heart of the crate is a per-CPU buddy allocator for physical memory
//! (`buck`), built on a packed binary-tree bitmap engine (`tree`).  Around it
//! stand the bit-exact constructors for the processor's descriptor tables
//! (`desctable`), I/O APIC redirection-table values (`ioapic`), model-specific
//! register numbers (`msr`), syscall register layouts (`syscall`), physical
//! address wrappers (`addr`), and a few small utilities (`numfmt`, `guid`).
//!
//! Besides the contracts on the executable functions, the allocator's central
//! guarantees are stated as public proof functions.  No two outstanding
//! handles ever overlap, over arbitrary interleavings of allocations and
//! frees: `buck::outstanding_ok` is the invariant, anchored empty by
//! `buck::lemma_fresh_outstanding_ok` and preserved by
//! `buck::lemma_allocate_no_overlap` and `buck::lemma_free_no_overlap`, with
//! the per-claim disjointness behind it in `tree::lemma_no_double_allocation`
//! and the byte-range lemmas (`buck::lemma_no_double_allocation_bytes`,
//! `_upper_bytes`, `_cross_bytes`, `_cross2_bytes`,
//! `buck::lemma_lower_trees_disjoint`).  An allocation followed by a local
//! free restores the shard bit for bit
//! (`buck::lemma_allocate_free_round_trip`); freed buddies coalesce into
//! their parent (`tree::lemma_buddy_coalescing`); an upper-range claim bars
//! its lower trees until it is freed (`buck::lemma_upper_claim_bars_lower`);
//! each order-0 allocation consumes exactly one free page of the unclaimed
//! trees until none is left (`buck::lemma_order0_count`); `init_shards`
//! returns exactly one fully free shard per aligned slice the memory map
//! holds (`buck::map_bases`); and well-formedness of the shard state is
//! established by every constructor and preserved by every operation
//! (`buck::lemma_with_capacity_shard_wf`,
//! `buck::lemma_allocate_preserves_shard_wf`,
//! `buck::lemma_free_lower_preserves_wf`, `buck::lemma_free_upper_preserves_wf`).
//! `buck::lemma_shard_geometry` and `buck::lemma_allocate_result_freeable`
//! bridge the shard's sealed state to the open geometry functions, so outside
//! verified callers can discharge the free functions' preconditions.

pub mod addr;
pub mod buck;
pub mod desctable;
pub mod guid;
pub mod ioapic;
pub mod msr;
pub mod numfmt;
pub mod syscall;
pub mod tree;
