//! Wrappers that keep physical and virtual addresses apart in signatures.
//!
//! The kernel runs with the physical map no longer identity-mapped, so a raw
//! address is easy to misuse.  `Phys` tags a value as a physical address; the
//! allocator deals exclusively in `Phys` values.

use vstd::prelude::*;

verus! {

/// Plain machine representations an address wrapper may carry.
pub trait Addr {

}

impl Addr for usize {

}

impl Addr for u64 {

}

impl Addr for u32 {

}

/// A virtual address.
pub struct Virt<A: Addr>(pub A);

/// A physical address.  Dereferencing it directly would read the wrong
/// memory once paging is configured, so it only carries the value.
#[derive(Clone, Copy, Debug)]
pub struct Phys<A: Addr>(pub A);

impl<A: Addr> Phys<A> {
    pub fn new(raw: A) -> (r: Self)
        ensures
            r.0 == raw,
    {
        Self(raw)
    }

    pub fn ptr(self) -> (r: A)
        ensures
            r == self.0,
    {
        self.0
    }
}

} // verus!
