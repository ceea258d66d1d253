//! Model-specific register handles: a typed MSR number plus the raw
//! encoding of the data it stores.  The `rdmsr`/`wrmsr` instructions
//! themselves are privileged machine accesses and live outside this crate.

use core::marker::PhantomData;
use vstd::prelude::*;

verus! {

/// A model-specific register holding a value of type `T`.
pub struct Msr<T: MsrData>(u32, PhantomData<T>);

impl<T: MsrData> Msr<T> {
    /// The register number, for contracts.
    pub closed spec fn number(self) -> u32 {
        self.0
    }

    pub fn from_nr(nr: u32) -> (r: Self)
        ensures
            r.number() == nr,
    {
        Self(nr, PhantomData)
    }

    pub fn nr(&self) -> (r: u32)
        ensures
            r == self.number(),
    {
        self.0
    }
}

/// Some 8-byte piece of data stored in a specified MSR.
pub trait MsrData: Copy {
    fn to_raw(self) -> u64;

    fn from_raw(raw: u64) -> Self;
}

impl MsrData for u64 {
    fn to_raw(self) -> u64 {
        self
    }

    fn from_raw(raw: u64) -> u64 {
        raw
    }
}

} // verus!
