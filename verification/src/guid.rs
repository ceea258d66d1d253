//! Raw UEFI GUID value, laid out as the firmware expects it.

use vstd::prelude::*;

verus! {

/// A UEFI GUID in its on-table layout: one 32-bit, two 16-bit and eight
/// 8-bit groups.
#[derive(Copy, Clone, Eq, PartialEq, Debug)]
pub struct RawUefiGuid {
    a: u32,
    b: u16,
    c: u16,
    d: [u8; 8],
}

impl RawUefiGuid {
    /// The four groups, for contracts.
    pub closed spec fn groups(self) -> (u32, u16, u16, [u8; 8]) {
        (self.a, self.b, self.c, self.d)
    }

    pub fn new(a: u32, b: u16, c: u16, d: [u8; 8]) -> (r: Self)
        ensures
            r.groups() == (a, b, c, d),
    {
        Self { a, b, c, d }
    }
}

} // verus!
