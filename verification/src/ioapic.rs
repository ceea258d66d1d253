//! I/O APIC register model: typed register handles and the bit layout of
//! the redirection-table entries.  The volatile register accesses
//! themselves are memory-mapped I/O and live outside this crate; here are
//! the pure value computations with their exact bit contracts.

use core::marker::PhantomData;
use vstd::prelude::*;

use crate::addr::Phys;

verus! {

/// One I/O APIC, as described by the MADT.
pub struct IoApicDesc {
    /// The order of this I/O APIC (0 = first, 1 = second, ...), derived
    /// from the order the I/O APIC descriptions appear in the MADT.  The
    /// first one is the one with the legacy ISA IRQs mapped to it.
    pub order: u32,
    /// This I/O APIC's APIC id.
    pub id: u8,
    /// This I/O APIC's physical register window address.  Must be 16-byte
    /// aligned and lie in `0xfec0_0000..0xfec1_0000`.
    pub regs: Phys<usize>,
    /// The number of the base Global System Interrupt mapped to this I/O
    /// APIC's first interrupt input.
    pub base_gsi: u32,
}

/// A value that can live in a 32-bit I/O APIC register.
pub trait IoRegVal: Sized {
    fn from_raw(raw: u32) -> Self;

    fn into_raw(self) -> u32;
}

impl IoRegVal for u32 {
    fn from_raw(raw: u32) -> u32 {
        raw
    }

    fn into_raw(self) -> u32 {
        self
    }
}

pub trait IoAccess {

}

pub trait IoReadable: IoAccess {

}

pub trait IoWritable: IoAccess {

}

/// Read-only register access.
pub struct R {}

impl IoAccess for R {

}

impl IoReadable for R {

}

/// Write-only register access.
pub struct W {}

impl IoAccess for W {

}

impl IoWritable for W {

}

/// Read-write register access.
pub struct RW {}

impl IoAccess for RW {

}

impl IoReadable for RW {

}

impl IoWritable for RW {

}

/// A typed I/O APIC register: its selector offset plus the value type and
/// access mode it carries.
pub struct IoReg<V: IoRegVal, A: IoAccess> {
    offset: u8,
    _ph: PhantomData<(V, A)>,
}

impl<V: IoRegVal, A: IoAccess> IoReg<V, A> {
    /// The register's selector offset, for contracts.
    pub closed spec fn off(self) -> u8 {
        self.offset
    }

    pub fn from_raw(offset: u8) -> (r: Self)
        ensures
            r.off() == offset,
    {
        Self { offset, _ph: PhantomData }
    }

    pub fn offset(self) -> (r: u8)
        ensures
            r == self.off(),
    {
        self.offset
    }
}

pub type IoApicRedTblHiVal = u32;

pub type IoApicRedTblLoVal = u32;

/// The high redirection-table register of entry `idx`.
#[allow(non_snake_case)]
pub fn IOREDTBL_HI(idx: u8) -> (r: IoReg<IoApicRedTblHiVal, RW>)
    requires
        idx <= 0x77,
    ensures
        r.off() == 0x11 + 2 * idx,
{
    IoReg::from_raw(0x11 + 2 * idx)
}

/// The low redirection-table register of entry `idx`.
#[allow(non_snake_case)]
pub fn IOREDTBL_LO(idx: u8) -> (r: IoReg<IoApicRedTblLoVal, RW>)
    requires
        idx <= 0x77,
    ensures
        r.off() == 0x10 + 2 * idx,
{
    IoReg::from_raw(0x10 + 2 * idx)
}

#[derive(Copy, Clone, Debug)]
pub enum TriggerMode {
    LevelSensitive,
    EdgeSensitive,
}

/// Bit encoding of a trigger mode.
pub open spec fn trigger_mode_bits(m: TriggerMode) -> u64 {
    match m {
        TriggerMode::EdgeSensitive => 0,
        TriggerMode::LevelSensitive => 1,
    }
}

impl TriggerMode {
    pub fn to_bits(self) -> (r: u64)
        ensures
            r == trigger_mode_bits(self),
    {
        match self {
            TriggerMode::EdgeSensitive => 0,
            TriggerMode::LevelSensitive => 1,
        }
    }

    pub fn from_bits(v: u64) -> (r: Self)
        ensures
            trigger_mode_bits(r) == (if v == 0 {
                0u64
            } else {
                1u64
            }),
    {
        if v == 0 {
            TriggerMode::EdgeSensitive
        } else {
            TriggerMode::LevelSensitive
        }
    }
}

#[derive(Copy, Clone, Debug)]
pub enum IrqPolarity {
    ActiveHigh,
    ActiveLow,
}

/// Bit encoding of an interrupt polarity.
pub open spec fn polarity_bits(p: IrqPolarity) -> u64 {
    match p {
        IrqPolarity::ActiveHigh => 0,
        IrqPolarity::ActiveLow => 1,
    }
}

impl IrqPolarity {
    pub fn to_bits(self) -> (r: u64)
        ensures
            r == polarity_bits(self),
    {
        match self {
            IrqPolarity::ActiveHigh => 0,
            IrqPolarity::ActiveLow => 1,
        }
    }

    pub fn from_bits(v: u64) -> (r: Self)
        ensures
            polarity_bits(r) == (if v == 0 {
                0u64
            } else {
                1u64
            }),
    {
        if v == 0 {
            IrqPolarity::ActiveHigh
        } else {
            IrqPolarity::ActiveLow
        }
    }
}

#[derive(Copy, Clone, Debug)]
pub enum DeliveryStatus {
    Idle,
    SendPending,
}

/// Bit encoding of a delivery status.
pub open spec fn delivery_status_bits(d: DeliveryStatus) -> u64 {
    match d {
        DeliveryStatus::Idle => 0,
        DeliveryStatus::SendPending => 1,
    }
}

impl DeliveryStatus {
    pub fn to_bits(self) -> (r: u64)
        ensures
            r == delivery_status_bits(self),
    {
        match self {
            DeliveryStatus::Idle => 0,
            DeliveryStatus::SendPending => 1,
        }
    }

    pub fn from_bits(v: u64) -> (r: Self)
        ensures
            delivery_status_bits(r) == (if v == 0 {
                0u64
            } else {
                1u64
            }),
    {
        if v == 0 {
            DeliveryStatus::Idle
        } else {
            DeliveryStatus::SendPending
        }
    }
}

#[derive(Copy, Clone, Debug)]
pub enum DestinationMode {
    Physical,
    Logical,
}

/// Bit encoding of a destination mode.
pub open spec fn dest_mode_bits(d: DestinationMode) -> u64 {
    match d {
        DestinationMode::Physical => 0,
        DestinationMode::Logical => 1,
    }
}

impl DestinationMode {
    pub fn to_bits(self) -> (r: u64)
        ensures
            r == dest_mode_bits(self),
    {
        match self {
            DestinationMode::Physical => 0,
            DestinationMode::Logical => 1,
        }
    }

    pub fn from_bits(v: u64) -> (r: Self)
        ensures
            dest_mode_bits(r) == (if v == 0 {
                0u64
            } else {
                1u64
            }),
    {
        if v == 0 {
            DestinationMode::Physical
        } else {
            DestinationMode::Logical
        }
    }
}

#[derive(Copy, Clone, Debug)]
pub enum DeliveryMode {
    Fixed,
    LowestPriority,
    Smi,
    Reserved1,
    Nmi,
    Init,
    Reserved2,
    ExtInt,
}

/// Bit encoding of a delivery mode.
pub open spec fn delivery_mode_bits(d: DeliveryMode) -> u64 {
    match d {
        DeliveryMode::Fixed => 0,
        DeliveryMode::LowestPriority => 1,
        DeliveryMode::Smi => 2,
        DeliveryMode::Reserved1 => 3,
        DeliveryMode::Nmi => 4,
        DeliveryMode::Init => 5,
        DeliveryMode::Reserved2 => 6,
        DeliveryMode::ExtInt => 7,
    }
}

impl DeliveryMode {
    pub fn to_bits(self) -> (r: u64)
        ensures
            r == delivery_mode_bits(self),
    {
        match self {
            DeliveryMode::Fixed => 0,
            DeliveryMode::LowestPriority => 1,
            DeliveryMode::Smi => 2,
            DeliveryMode::Reserved1 => 3,
            DeliveryMode::Nmi => 4,
            DeliveryMode::Init => 5,
            DeliveryMode::Reserved2 => 6,
            DeliveryMode::ExtInt => 7,
        }
    }

    /// Decode a three-bit delivery mode field.
    pub fn from_bits(v: u64) -> (r: Self)
        requires
            v <= 7,
        ensures
            delivery_mode_bits(r) == v,
    {
        if v == 0 {
            DeliveryMode::Fixed
        } else if v == 1 {
            DeliveryMode::LowestPriority
        } else if v == 2 {
            DeliveryMode::Smi
        } else if v == 3 {
            DeliveryMode::Reserved1
        } else if v == 4 {
            DeliveryMode::Nmi
        } else if v == 5 {
            DeliveryMode::Init
        } else if v == 6 {
            DeliveryMode::Reserved2
        } else {
            DeliveryMode::ExtInt
        }
    }
}

/// One 64-bit redirection-table entry, split across a pair of registers.
#[derive(Copy, Clone, Debug)]
pub struct IoApicRedTblVal(pub u64);

impl IoApicRedTblVal {
    /// Combine the two 32-bit redirection-table registers into one value.
    pub fn from_raw_regs(lo: IoApicRedTblLoVal, hi: IoApicRedTblHiVal) -> (r: Self)
        ensures
            r.0 == ((lo as u64) | ((hi as u64) << 32)),
    {
        Self((lo as u64) | ((hi as u64) << 32))
    }

    /// Split the entry into its low and high registers.
    pub fn into_raw_regs(self) -> (r: (IoApicRedTblLoVal, IoApicRedTblHiVal))
        ensures
            r.0 == (self.0 as u32),
            r.1 == ((self.0 >> 32) as u32),
    {
        (self.0 as u32, (self.0 >> 32) as u32)
    }

    /// Destination field, bits 63 to 56.
    pub fn dest_field(self) -> (r: u64)
        ensures
            r == (self.0 >> 56) & 0xff,
    {
        (self.0 >> 56u64) & 0xff
    }

    pub fn set_dest_field(&mut self, v: u64)
        ensures
            final(self).0 == ((old(self).0 & !(0xffu64 << 56)) | ((v & 0xff) << 56)),
    {
        self.0 = (self.0 & !(0xffu64 << 56u64)) | ((v & 0xff) << 56u64);
    }

    /// Address every processor: a destination field of all ones.
    pub fn set_full_dest(&mut self)
        ensures
            final(self).0 == ((old(self).0 & !(0xffu64 << 56)) | (0xffu64 << 56)),
    {
        self.0 = (self.0 & !(0xffu64 << 56u64)) | (0xffu64 << 56u64);
    }

    /// Interrupt mask, bit 16.
    pub fn interrupt_mask(self) -> (r: bool)
        ensures
            r == ((self.0 >> 16) & 1 == 1),
    {
        (self.0 >> 16u64) & 1 == 1
    }

    pub fn set_interrupt_mask(&mut self, v: bool)
        ensures
            final(self).0 == ((old(self).0 & !(1u64 << 16)) | ((if v {
                1u64
            } else {
                0u64
            }) << 16)),
    {
        let bit: u64 = if v {
            1
        } else {
            0
        };
        self.0 = (self.0 & !(1u64 << 16u64)) | (bit << 16u64);
    }

    /// Trigger mode, bit 15.
    pub fn trigger_mode(self) -> (r: TriggerMode)
        ensures
            trigger_mode_bits(r) == (if (self.0 >> 15) & 1 == 0 {
                0u64
            } else {
                1u64
            }),
    {
        TriggerMode::from_bits((self.0 >> 15u64) & 1)
    }

    pub fn set_trigger_mode(&mut self, v: TriggerMode)
        ensures
            final(self).0 == ((old(self).0 & !(1u64 << 15)) | ((trigger_mode_bits(v) & 1) << 15)),
    {
        self.0 = (self.0 & !(1u64 << 15u64)) | ((v.to_bits() & 1) << 15u64);
    }

    /// Remote IRR, bit 14.
    pub fn remote_irr(self) -> (r: bool)
        ensures
            r == ((self.0 >> 14) & 1 == 1),
    {
        (self.0 >> 14u64) & 1 == 1
    }

    /// Polarity, bit 13.
    pub fn polarity(self) -> (r: IrqPolarity)
        ensures
            polarity_bits(r) == (if (self.0 >> 13) & 1 == 0 {
                0u64
            } else {
                1u64
            }),
    {
        IrqPolarity::from_bits((self.0 >> 13u64) & 1)
    }

    pub fn set_polarity(&mut self, v: IrqPolarity)
        ensures
            final(self).0 == ((old(self).0 & !(1u64 << 13)) | ((polarity_bits(v) & 1) << 13)),
    {
        self.0 = (self.0 & !(1u64 << 13u64)) | ((v.to_bits() & 1) << 13u64);
    }

    /// Delivery status, bit 12.
    pub fn delv_status(self) -> (r: DeliveryStatus)
        ensures
            delivery_status_bits(r) == (if (self.0 >> 12) & 1 == 0 {
                0u64
            } else {
                1u64
            }),
    {
        DeliveryStatus::from_bits((self.0 >> 12u64) & 1)
    }

    /// Destination mode, bit 11.
    pub fn dest_mode(self) -> (r: DestinationMode)
        ensures
            dest_mode_bits(r) == (if (self.0 >> 11) & 1 == 0 {
                0u64
            } else {
                1u64
            }),
    {
        DestinationMode::from_bits((self.0 >> 11u64) & 1)
    }

    pub fn set_dest_mode(&mut self, v: DestinationMode)
        ensures
            final(self).0 == ((old(self).0 & !(1u64 << 11)) | ((dest_mode_bits(v) & 1) << 11)),
    {
        self.0 = (self.0 & !(1u64 << 11u64)) | ((v.to_bits() & 1) << 11u64);
    }

    /// Delivery mode, bits 10 to 8.
    pub fn delv_mode(self) -> (r: DeliveryMode)
        ensures
            delivery_mode_bits(r) == (self.0 >> 8) & 7,
    {
        proof {
            let raw = self.0;
            assert((raw >> 8u64) & 7 <= 7) by (bit_vector);
        }
        DeliveryMode::from_bits((self.0 >> 8u64) & 7)
    }

    pub fn set_delv_mode(&mut self, v: DeliveryMode)
        ensures
            final(self).0 == ((old(self).0 & !(7u64 << 8)) | ((delivery_mode_bits(v) & 7) << 8)),
    {
        self.0 = (self.0 & !(7u64 << 8u64)) | ((v.to_bits() & 7) << 8u64);
    }

    /// Interrupt vector, bits 7 to 0.
    pub fn irq_vector(self) -> (r: u64)
        ensures
            r == self.0 & 0xff,
    {
        self.0 & 0xff
    }

    pub fn set_irq_vector(&mut self, v: u64)
        ensures
            final(self).0 == ((old(self).0 & !0xffu64) | (v & 0xff)),
    {
        self.0 = (self.0 & !0xffu64) | (v & 0xff);
    }
}

} // verus!
