//! Long-mode descriptor-table entries: segment descriptors for the GDT,
//! gate descriptors for the IDT, segment selectors, and the pseudo
//! descriptor handed to the processor's load instructions.  Every
//! constructor states the exact bit layout it produces.

use vstd::prelude::*;

verus! {

/// Long mode system-segment descriptor types.
#[derive(Copy, Clone, Eq, PartialEq, Structural, Debug)]
#[non_exhaustive]
pub enum LongSegmentDescType {
    Ldt64,
    AvailableTss64,
    BusyTss64,
    CallGate64,
    InterruptGate64,
    TrapGate64,
}

/// The four-bit type field encoding of a system-segment descriptor type.
pub open spec fn desc_type_bits(t: LongSegmentDescType) -> u32 {
    match t {
        LongSegmentDescType::Ldt64 => 0x2,
        LongSegmentDescType::AvailableTss64 => 0x9,
        LongSegmentDescType::BusyTss64 => 0xb,
        LongSegmentDescType::CallGate64 => 0xc,
        LongSegmentDescType::InterruptGate64 => 0xe,
        LongSegmentDescType::TrapGate64 => 0xf,
    }
}

impl LongSegmentDescType {
    /// The descriptor's four-bit type field value.
    pub fn bits(self) -> (r: u32)
        ensures
            r == desc_type_bits(self),
    {
        match self {
            LongSegmentDescType::Ldt64 => 0x2,
            LongSegmentDescType::AvailableTss64 => 0x9,
            LongSegmentDescType::BusyTss64 => 0xb,
            LongSegmentDescType::CallGate64 => 0xc,
            LongSegmentDescType::InterruptGate64 => 0xe,
            LongSegmentDescType::TrapGate64 => 0xf,
        }
    }
}

/// Which descriptor table a selector refers to.
#[derive(Copy, Clone, Eq, PartialEq, Structural, Debug)]
pub enum SegmentSelTI {
    GDT,
    IDT,
}

/// The selector's table-indicator bit.
pub open spec fn ti_bits(ti: SegmentSelTI) -> u16 {
    match ti {
        SegmentSelTI::GDT => 0,
        SegmentSelTI::IDT => 1,
    }
}

impl SegmentSelTI {
    /// The table-indicator bit value.
    pub fn bits(self) -> (r: u16)
        ensures
            r == ti_bits(self),
    {
        match self {
            SegmentSelTI::GDT => 0,
            SegmentSelTI::IDT => 1,
        }
    }
}

/// A segment selector: requested privilege level, table indicator and
/// descriptor index packed into sixteen bits.
#[derive(Copy, Clone, Debug)]
pub struct SegmentSel(u16);

impl SegmentSel {
    /// The packed selector value, for contracts.
    pub closed spec fn raw(self) -> u16 {
        self.0
    }

    pub fn new(rpl: u8, ti: SegmentSelTI, idx: u16) -> (r: Self)
        ensures
            r.raw() == (((idx & 0x1fff) << 3) | (ti_bits(ti) << 2) | ((rpl as u16) & 0x3)),
    {
        let cooked_idx = (idx & 0x1fff) << 3u16;
        let cooked_ti = ti.bits() << 2u16;
        let cooked_rpl = (rpl as u16) & 0x3;
        Self(cooked_idx | cooked_ti | cooked_rpl)
    }

    /// Constructs a new null segment selector.
    pub fn new_null(rpl: u8) -> (r: Self)
        ensures
            r.raw() == ((rpl as u16) & 0x3),
    {
        Self((rpl as u16) & 0x3)
    }

    pub fn to_raw(self) -> (r: u16)
        ensures
            r == self.raw(),
    {
        self.0
    }
}

/// The operand of the LIDT and LGDT instructions: a table limit followed by
/// its base address.
#[derive(Copy, Clone, Debug)]
pub struct PseudoDesc {
    pub limit: u16,
    pub base: u64,
}

/// Long mode code or data segment descriptor.
#[derive(Clone, Debug)]
pub struct LongCodeDataSegmentDesc([u32; 2]);

impl LongCodeDataSegmentDesc {
    /// One 32-bit half of the descriptor, for contracts.
    pub closed spec fn word(self, i: int) -> u32 {
        self.0[i]
    }

    /// A long mode code segment descriptor with the given default-size,
    /// long, present, privilege-level and conforming fields.
    pub fn new_code(d: u8, l: u8, p: u8, dpl: u8, c: u8) -> (r: Self)
        ensures
            r.word(0) == 0u32,
            r.word(1) == ((1u32 << 23) | (((d as u32) & 0x1) << 22) | (((l as u32) & 0x1) << 21) | (
            ((p as u32) & 0x1) << 15) | (((dpl as u32) & 0x3) << 13) | (0x3u32 << 11) | (((
            c as u32) & 0x1) << 10) | (0x2u32 << 8)),
    {
        Self(
            [
                0x0000_0000,
                (1u32 << 23) | (((d as u32) & 0x1) << 22) | (((l as u32) & 0x1) << 21) | (((
                p as u32) & 0x1) << 15) | (((dpl as u32) & 0x3) << 13) | (0x3u32 << 11) | (((
                c as u32) & 0x1) << 10) | (0x2u32 << 8),
            ],
        )
    }

    /// The descriptor's raw words, low half first.
    pub fn as_raw(&self) -> (r: &[u32; 2])
        ensures
            forall|i: int| 0 <= i < 2 ==> #[trigger] r[i] == self.word(i),
    {
        &self.0
    }

    /// A long mode data segment descriptor.  The privilege level is ignored
    /// in long mode but set anyway; compatibility mode does require it.
    pub fn new_data(p: u8, dpl: u8) -> (r: Self)
        ensures
            r.word(0) == 0u32,
            r.word(1) == ((0xcu32 << 20) | (((p as u32) & 0x1) << 15) | (((dpl as u32) & 0x3)
                << 13) | (0x2u32 << 11) | (0x2u32 << 8)),
    {
        Self(
            [
                0x0000_0000,
                (0xcu32 << 20) | (((p as u32) & 0x1) << 15) | (((dpl as u32) & 0x3) << 13) | (
                0x2u32 << 11) | (0x2u32 << 8),
            ],
        )
    }
}

/// The mandatory all-zero first GDT entry.
#[derive(Clone, Debug)]
pub struct LongNullSegmentDesc([u32; 2]);

impl LongNullSegmentDesc {
    /// One 32-bit half of the descriptor, for contracts.
    pub closed spec fn word(self, i: int) -> u32 {
        self.0[i]
    }

    pub fn new() -> (r: Self)
        ensures
            r.word(0) == 0u32,
            r.word(1) == 0u32,
    {
        Self([0x0000_0000, 0x0000_0000])
    }

    /// The descriptor's raw words.
    pub fn as_raw(&self) -> (r: &[u32; 2])
        ensures
            forall|i: int| 0 <= i < 2 ==> #[trigger] r[i] == self.word(i),
    {
        &self.0
    }
}

/// Long mode system segment descriptor (LDT, TSS or gate).
#[derive(Clone, Debug)]
pub struct LongSystemSegmentDesc([u32; 4]);

impl LongSystemSegmentDesc {
    /// One 32-bit quarter of the descriptor, for contracts.
    pub closed spec fn word(self, i: int) -> u32 {
        self.0[i]
    }

    /// A system segment descriptor for the given base address, limit,
    /// granularity, available, present, privilege-level and type fields.
    /// The base address must be in canonical form.
    pub fn new(base_addr: u64, limit: u32, g: u8, avl: u8, p: u8, dpl: u8, desc_type: u8) -> (r:
        Self)
        ensures
            r.word(0) == ((((base_addr & 0xffff) as u32) << 16) | (limit & 0xffff)),
            r.word(1) == (((base_addr & 0xff00_0000) as u32) | (((g as u32) & 0x1) << 23) | (((
            avl as u32) & 0x1) << 20) | (limit & 0x000f_0000) | (((p as u32) & 0x1) << 15) | (((
            dpl as u32) & 0x3) << 13) | (((desc_type as u32) & 0xf) << 8) | (((base_addr
                >> 8) as u32) & 0xffff)),
            r.word(2) == ((base_addr >> 32) as u32),
            r.word(3) == 0u32,
    {
        Self(
            [
                (((base_addr & 0xffff) as u32) << 16) | (limit & 0xffff),
                ((base_addr & 0xff00_0000) as u32) | (((g as u32) & 0x1) << 23) | (((avl as u32)
                    & 0x1) << 20) | (limit & 0x000f_0000) | (((p as u32) & 0x1) << 15) | (((
                dpl as u32) & 0x3) << 13) | (((desc_type as u32) & 0xf) << 8) | (((base_addr
                    >> 8) as u32) & 0xffff),
                (base_addr >> 32) as u32,
                0x0000_0000,
            ],
        )
    }

    /// The descriptor's raw words, lowest first.
    pub fn as_raw(&self) -> (r: &[u32; 4])
        ensures
            forall|i: int| 0 <= i < 4 ==> #[trigger] r[i] == self.word(i),
    {
        &self.0
    }
}

/// Long mode interrupt/trap gate descriptor.
#[derive(Copy, Clone, Debug)]
pub struct LongIdtDesc([u32; 4]);

impl LongIdtDesc {
    /// One 32-bit quarter of the descriptor, for contracts.
    pub closed spec fn word(self, i: int) -> u32 {
        self.0[i]
    }

    /// A long mode interrupt/trap gate descriptor for the given handler
    /// offset, code segment selector, interrupt stack table slot, gate type,
    /// privilege level and present flag.
    pub fn new(
        offset: u64,
        selector: SegmentSel,
        ist: u8,
        desc_type: LongSegmentDescType,
        dpl: u8,
        present: bool,
    ) -> (r: Self)
        ensures
            r.word(0) == (((selector.raw() as u32) << 16) | ((offset as u32) & 0xffff)),
            r.word(1) == (((offset as u32) & 0xffff_0000) | ((if present {
                1u32
            } else {
                0u32
            }) << 15) | (((dpl as u32) & 0x3) << 13) | ((desc_type_bits(desc_type) & 0xf) << 8) | ((
            ist as u32) & 0x7)),
            r.word(2) == ((offset >> 32) as u32),
            r.word(3) == 0u32,
    {
        let present_bit: u32 = if present {
            1
        } else {
            0
        };
        Self(
            [
                ((selector.to_raw() as u32) << 16) | ((offset as u32) & 0xffff),
                ((offset as u32) & 0xffff_0000) | (present_bit << 15) | (((dpl as u32) & 0x3)
                    << 13) | ((desc_type.bits() & 0xf) << 8) | ((ist as u32) & 0x7),
                (offset >> 32) as u32,
                0,
            ],
        )
    }

    /// The all-zero, not-present gate.
    pub fn null() -> (r: Self)
        ensures
            forall|i: int| 0 <= i < 4 ==> #[trigger] r.word(i) == 0u32,
    {
        Self([0, 0, 0, 0])
    }

    pub fn as_raw(&self) -> (r: &[u32; 4])
        ensures
            forall|i: int| 0 <= i < 4 ==> #[trigger] r[i] == self.word(i),
    {
        &self.0
    }
}

} // verus!
