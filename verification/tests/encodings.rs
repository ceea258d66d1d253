//! Exact-value tests of the bit-level constructors: packed-tree claims and
//! releases, descriptor-table entries, segment selectors, I/O APIC
//! redirection entries, MSR numbers, digit formatting, and the address and
//! GUID wrappers.

use buckmem::addr::Phys;
use buckmem::desctable::LongCodeDataSegmentDesc;
use buckmem::desctable::LongIdtDesc;
use buckmem::desctable::LongNullSegmentDesc;
use buckmem::desctable::LongSegmentDescType;
use buckmem::desctable::LongSystemSegmentDesc;
use buckmem::desctable::PseudoDesc;
use buckmem::desctable::SegmentSel;
use buckmem::desctable::SegmentSelTI;
use buckmem::guid::RawUefiGuid;
use buckmem::ioapic::DeliveryMode;
use buckmem::ioapic::DestinationMode;
use buckmem::ioapic::IoApicRedTblVal;
use buckmem::ioapic::IrqPolarity;
use buckmem::ioapic::TriggerMode;
use buckmem::ioapic::IOREDTBL_HI;
use buckmem::ioapic::IOREDTBL_LO;
use buckmem::msr::Msr;
use buckmem::numfmt::format_unsigned;
use buckmem::tree::alloc_in_tree;
use buckmem::tree::release_in_tree;

#[test]
fn tree_claim_marks_self_and_ancestors() {
    // Claiming the first leaf of an empty tree sets the leaf (bit 31) and
    // the whole ancestor chain (bits 15, 7, 3, 1, 0).
    let mut t: u64 = 0;
    let mut full = false;
    let got = alloc_in_tree(&mut t, 0, &mut full);
    assert_eq!(got, Some((31, 0)));
    assert_eq!(t, 0x8000_808b);
    assert!(!full);
    release_in_tree(&mut t, 31);
    assert_eq!(t, 0);
}

#[test]
fn tree_root_claim_fills_everything() {
    let mut t: u64 = 0;
    let mut full = false;
    let got = alloc_in_tree(&mut t, 5, &mut full);
    assert_eq!(got, Some((0, 0)));
    assert_eq!(t, 0x7fff_ffff_ffff_ffff);
    assert!(full);
    // every level is exhausted now
    for level in 0..6 {
        let mut f2 = false;
        assert_eq!(alloc_in_tree(&mut t, level, &mut f2), None);
    }
    release_in_tree(&mut t, 0);
    assert_eq!(t, 0);
}

#[test]
fn tree_first_fit_walks_the_level() {
    let mut t: u64 = 0;
    let mut full = false;
    assert_eq!(alloc_in_tree(&mut t, 0, &mut full), Some((31, 0)));
    assert_eq!(alloc_in_tree(&mut t, 0, &mut full), Some((32, 1)));
    assert_eq!(alloc_in_tree(&mut t, 1, &mut full), Some((16, 1)));
    // releasing both leaves coalesces their parent back open
    release_in_tree(&mut t, 31);
    release_in_tree(&mut t, 32);
    assert_eq!(alloc_in_tree(&mut t, 1, &mut full), Some((15, 0)));
}

#[test]
fn code_and_data_segment_descriptors() {
    let code = LongCodeDataSegmentDesc::new_code(0, 1, 1, 0x0, 0);
    assert_eq!(code.as_raw()[0], 0);
    assert_eq!(code.as_raw()[1], 0x00a0_9a00);
    let data = LongCodeDataSegmentDesc::new_data(1, 0x0);
    assert_eq!(data.as_raw()[0], 0);
    assert_eq!(data.as_raw()[1], 0x00c0_9200);
    let null = LongNullSegmentDesc::new();
    assert_eq!(null.as_raw(), &[0, 0]);
}

#[test]
fn system_segment_descriptor_splits_the_base() {
    let d = LongSystemSegmentDesc::new(0x0000_7654_3210_fedc, 0x43, 0, 0, 1, 0, 0xb);
    assert_eq!(d.as_raw()[0], 0xfedc_0043);
    assert_eq!(d.as_raw()[1], 0x3200_9bfe);
    assert_eq!(d.as_raw()[2], 0x0000_7654);
    assert_eq!(d.as_raw()[3], 0);
}

#[test]
fn interrupt_gate_descriptor() {
    let sel = SegmentSel::new(0, SegmentSelTI::GDT, 1);
    assert_eq!(sel.to_raw(), 8);
    let gate = LongIdtDesc::new(
        0x1234_5678_9abc_def0,
        sel,
        0,
        LongSegmentDescType::InterruptGate64,
        0x0,
        true,
    );
    assert_eq!(gate.as_raw()[0], 0x0008_def0);
    assert_eq!(gate.as_raw()[1], 0x9abc_8e00);
    assert_eq!(gate.as_raw()[2], 0x1234_5678);
    assert_eq!(gate.as_raw()[3], 0);
    let empty = LongIdtDesc::null();
    assert_eq!(empty.as_raw(), &[0, 0, 0, 0]);
}

#[test]
fn segment_selectors_pack_their_fields() {
    assert_eq!(SegmentSel::new(3, SegmentSelTI::IDT, 2).to_raw(), (2 << 3) | (1 << 2) | 3);
    assert_eq!(SegmentSel::new_null(3).to_raw(), 3);
    assert_eq!(SegmentSel::new_null(0).to_raw(), 0);
    let pd = PseudoDesc { limit: 0x7f, base: 0x1000 };
    assert_eq!(pd.limit, 0x7f);
    assert_eq!(pd.base, 0x1000);
}

#[test]
fn redirection_entry_for_the_serial_line() {
    // The entry the kernel programs for its serial console interrupt.
    let mut e = IoApicRedTblVal(0);
    e.set_dest_field(0);
    e.set_interrupt_mask(false);
    e.set_trigger_mode(TriggerMode::EdgeSensitive);
    e.set_polarity(IrqPolarity::ActiveHigh);
    e.set_dest_mode(DestinationMode::Physical);
    e.set_delv_mode(DeliveryMode::Fixed);
    e.set_irq_vector(0x42);
    assert_eq!(e.0, 0x42);
    assert_eq!(e.irq_vector(), 0x42);
    assert!(!e.interrupt_mask());
    let (lo, hi) = e.into_raw_regs();
    assert_eq!((lo, hi), (0x42, 0));
    let back = IoApicRedTblVal::from_raw_regs(lo, hi);
    assert_eq!(back.0, 0x42);
}

#[test]
fn redirection_entry_field_isolation() {
    let mut e = IoApicRedTblVal(0);
    e.set_full_dest();
    assert_eq!(e.0, 0xff00_0000_0000_0000);
    assert_eq!(e.dest_field(), 0xff);
    e.set_dest_field(0x3c);
    assert_eq!(e.dest_field(), 0x3c);
    e.set_trigger_mode(TriggerMode::LevelSensitive);
    assert_eq!(e.0 & (1 << 15), 1 << 15);
    e.set_interrupt_mask(true);
    assert!(e.interrupt_mask());
    e.set_delv_mode(DeliveryMode::Nmi);
    assert_eq!((e.0 >> 8) & 7, 4);
    assert_eq!(e.irq_vector(), 0);
}

#[test]
fn redirection_register_offsets() {
    assert_eq!(IOREDTBL_LO(0).offset(), 0x10);
    assert_eq!(IOREDTBL_HI(0).offset(), 0x11);
    assert_eq!(IOREDTBL_LO(4).offset(), 0x18);
    assert_eq!(IOREDTBL_HI(4).offset(), 0x19);
}

#[test]
fn msr_number_round_trip() {
    let efer: Msr<u64> = Msr::from_nr(0xc000_0080);
    assert_eq!(efer.nr(), 0xc000_0080);
}

#[test]
fn format_unsigned_digit_strings() {
    assert_eq!(format_unsigned(255, 16), b"FF".to_vec());
    assert_eq!(format_unsigned(0, 10), b"0".to_vec());
    assert_eq!(format_unsigned(1234, 10), b"1234".to_vec());
    assert_eq!(format_unsigned(5, 2), b"101".to_vec());
    assert_eq!(format_unsigned(0xdead, 16), b"DEAD".to_vec());
    assert_eq!(format_unsigned(7, 8), b"7".to_vec());
}

#[test]
fn phys_wrapper_hands_back_its_address() {
    let p: Phys<usize> = Phys::new(0x1000);
    assert_eq!(p.ptr(), 0x1000);
}

#[test]
fn guid_groups_compare_by_value() {
    let a = RawUefiGuid::new(0x8868e871, 0xe4f1, 0x11d3, [0xbc, 0x22, 0x00, 0x80, 0xc7, 0x3c, 0x88, 0x81]);
    let b = RawUefiGuid::new(0x8868e871, 0xe4f1, 0x11d3, [0xbc, 0x22, 0x00, 0x80, 0xc7, 0x3c, 0x88, 0x81]);
    let c = RawUefiGuid::new(1, 2, 3, [0; 8]);
    assert_eq!(a, b);
    assert_ne!(a, c);
}
