use memscan::address::{apply_rip_offset, AddressLocator, IdaSignature, Offset};
use memscan::memory::{Memory, MemoryError};
use memscan::reader::SnapshotReader;

const ELF_MAGIC: [u8; 4] = [0x7F, 0x45, 0x4C, 0x46];

fn empty_reader() -> SnapshotReader {
    SnapshotReader { base: 0, data: Vec::new() }
}

#[test]
fn absolute_inside_a_region_resolves_to_itself() {
    let m = Memory::new(1, "1000-2000 rw-p 0 0 0 /a\n").unwrap();
    let locator = AddressLocator::Absolute(0x1234);
    assert_eq!(locator.resolve(&m, &empty_reader()).unwrap(), 0x1234);
}

#[test]
fn absolute_at_the_inclusive_end_resolves() {
    let m = Memory::new(1, "1000-2000 rw-p 0 0 0 /a\n").unwrap();
    let locator = AddressLocator::Absolute(0x2000);
    assert_eq!(locator.resolve(&m, &empty_reader()).unwrap(), 0x2000);
}

#[test]
fn absolute_outside_every_region_is_an_invalid_pointer() {
    let m = Memory::new(1, "1000-2000 rw-p 0 0 0 /a\n").unwrap();
    let locator = AddressLocator::Absolute(0x5000);
    let e = locator.resolve(&m, &empty_reader()).unwrap_err();
    assert!(matches!(e, MemoryError::InvalidPointer(0x5000)));
}

#[test]
fn unmatched_pattern_is_signature_not_found() {
    let m = Memory::new(1, "1000-1008 r-xp 0 0 0 /img\n").unwrap();
    let mut data = vec![0u8; 8];
    data[..4].copy_from_slice(&ELF_MAGIC);
    let reader = SnapshotReader { base: 0x1000, data };
    let sig = IdaSignature::new(vec![Some(0x99)], None);
    let e = AddressLocator::Pattern(sig).resolve(&m, &reader).unwrap_err();
    assert!(matches!(e, MemoryError::SignatureNotFound));
}

// A chain [0x8, 0x10, 0x4]: a pointer is read at base+0x8 and must be
// valid; a pointer is read at its target +0x10 and must be valid; the
// final 0x4 is added without dereference or validation.
#[test]
fn pointer_chain_follows_hops_and_adds_the_last_offset() {
    let m = Memory::new(1, "1000-1100 r-xp 0 0 0 /img\n").unwrap();
    let mut data = vec![0u8; 0x100];
    data[..4].copy_from_slice(&ELF_MAGIC);
    // signature match at 0x1000 (the magic itself is the pattern)
    let sig = IdaSignature::new(
        vec![Some(0x7F), Some(0x45), Some(0x4C), Some(0x46)],
        None,
    );
    // pointer at 0x1000+0x8 -> 0x1040
    data[0x8..0x10].copy_from_slice(&(0x1040u64).to_le_bytes());
    // pointer at 0x1040+0x10 -> 0x1080
    data[0x50..0x58].copy_from_slice(&(0x1080u64).to_le_bytes());
    let reader = SnapshotReader { base: 0x1000, data };
    let locator = AddressLocator::PointerChain(sig, vec![0x8, 0x10, 0x4]);
    // final address: 0x1080 + 0x4, itself unvalidated
    assert_eq!(locator.resolve(&m, &reader).unwrap(), 0x1084);
}

#[test]
fn pointer_chain_rejects_a_hop_outside_every_region() {
    let m = Memory::new(1, "1000-1100 r-xp 0 0 0 /img\n").unwrap();
    let mut data = vec![0u8; 0x100];
    data[..4].copy_from_slice(&ELF_MAGIC);
    let sig = IdaSignature::new(
        vec![Some(0x7F), Some(0x45), Some(0x4C), Some(0x46)],
        None,
    );
    data[0x8..0x10].copy_from_slice(&(0xDEAD0000u64).to_le_bytes());
    let reader = SnapshotReader { base: 0x1000, data };
    let locator = AddressLocator::PointerChain(sig, vec![0x8, 0x10]);
    let e = locator.resolve(&m, &reader).unwrap_err();
    assert!(matches!(e, MemoryError::InvalidPointer(0xDEAD0000)));
}

#[test]
fn empty_pointer_chain_yields_the_base_address() {
    let m = Memory::new(1, "1000-1100 r-xp 0 0 0 /img\n").unwrap();
    let mut data = vec![0u8; 0x100];
    data[..4].copy_from_slice(&ELF_MAGIC);
    let sig = IdaSignature::new(
        vec![Some(0x7F), Some(0x45), Some(0x4C), Some(0x46)],
        None,
    );
    let reader = SnapshotReader { base: 0x1000, data };
    let locator = AddressLocator::PointerChain(sig, vec![]);
    assert_eq!(locator.resolve(&m, &reader).unwrap(), 0x1000);
}

// Base match at 0x2000, displacement -16 read at 0x2003, instruction
// size 7: the result is 0x2000 - 16 + 7 = 0x1FF7.
#[test]
fn rip_relative_resolution_applies_displacement_and_size() {
    let m = Memory::new(1, "1f00-2100 r-xp 0 0 0 /img\n").unwrap();
    let mut data = vec![0u8; 0x200];
    data[..4].copy_from_slice(&ELF_MAGIC);
    // pattern AA BB CC at file offset 0x100 -> match address 0x2000
    data[0x100] = 0xAA;
    data[0x101] = 0xBB;
    data[0x102] = 0xCC;
    // 4-byte signed displacement -16 at 0x2003
    data[0x103..0x107].copy_from_slice(&(-16i32).to_le_bytes());
    let reader = SnapshotReader { base: 0x1F00, data };
    let sig = IdaSignature::new(
        vec![Some(0xAA), Some(0xBB), Some(0xCC)],
        Some(Offset { offset: 3, instruction_size: 7 }),
    );
    let locator = AddressLocator::Pattern(sig);
    assert_eq!(locator.resolve(&m, &reader).unwrap(), 0x1FF7);
}

#[test]
fn rip_arithmetic_is_exact() {
    assert_eq!(apply_rip_offset(0x2000, -16, 7), 0x1FF7);
    assert_eq!(apply_rip_offset(0x2000, 16, 7), 0x2017);
    assert_eq!(apply_rip_offset(0, -1, 0), usize::MAX);
    assert_eq!(apply_rip_offset(usize::MAX, 1, 0), 0);
}

// A single-offset chain adds its only offset to the base without
// dereferencing or validating the sum.
#[test]
fn single_offset_chain_adds_to_the_base() {
    let m = Memory::new(1, "1000-1100 r-xp 0 0 0 /img\n").unwrap();
    let mut data = vec![0u8; 0x100];
    data[..4].copy_from_slice(&ELF_MAGIC);
    let sig = IdaSignature::new(
        vec![Some(0x7F), Some(0x45), Some(0x4C), Some(0x46)],
        None,
    );
    let reader = SnapshotReader { base: 0x1000, data };
    let locator = AddressLocator::PointerChain(sig, vec![0x7000]);
    // the sum lies outside every region and is still returned unchecked
    assert_eq!(locator.resolve(&m, &reader).unwrap(), 0x8000);
}
