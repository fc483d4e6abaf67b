use memscan::address::IdaSignature;
use memscan::memory::{scan_pattern_in_buffer, Memory};
use memscan::reader::SnapshotReader;

const ELF_MAGIC: [u8; 4] = [0x7F, 0x45, 0x4C, 0x46];

fn image(len: usize) -> Vec<u8> {
    let mut data = vec![0u8; len];
    data[..4].copy_from_slice(&ELF_MAGIC);
    data
}

#[test]
fn buffer_scan_finds_wildcard_match() {
    let data = [0x00, 0x11, 0x22, 0x33, 0x44, 0xAA, 0xBB, 0xCC];
    let pattern = [Some(0xAA), None, Some(0xCC)];
    assert_eq!(scan_pattern_in_buffer(&data, &pattern), Some(5));
}

#[test]
fn buffer_scan_rejects_literal_mismatch() {
    let data = [0x00, 0x11, 0x22, 0x33, 0x44, 0xAA, 0xBB, 0xDD];
    let pattern = [Some(0xAA), None, Some(0xCC)];
    assert_eq!(scan_pattern_in_buffer(&data, &pattern), None);
}

#[test]
fn buffer_scan_returns_the_lowest_offset() {
    let data = [0xAA, 0x01, 0xCC, 0xAA, 0x02, 0xCC];
    let pattern = [Some(0xAA), None, Some(0xCC)];
    assert_eq!(scan_pattern_in_buffer(&data, &pattern), Some(0));
}

#[test]
fn buffer_scan_with_long_pattern_matches_nowhere() {
    let data = [0xAA, 0xBB];
    let pattern = [Some(0xAA), Some(0xBB), Some(0xCC)];
    assert_eq!(scan_pattern_in_buffer(&data, &pattern), None);
}

#[test]
fn scan_finds_pattern_in_a_mapped_image() {
    let maps = "1000-1008 r-xp 0 0 0 /img\n";
    let m = Memory::new(1, maps).unwrap();
    let mut data = image(8);
    data[5] = 0xAA;
    data[6] = 0xBB;
    data[7] = 0xCC;
    let reader = SnapshotReader { base: 0x1000, data };
    let sig = IdaSignature::new(vec![Some(0xAA), None, Some(0xCC)], None);
    assert_eq!(m.scan_signature(&reader, &sig).unwrap(), Some(0x1005));
}

#[test]
fn scan_reports_no_match_on_mismatch() {
    let maps = "1000-1008 r-xp 0 0 0 /img\n";
    let m = Memory::new(1, maps).unwrap();
    let mut data = image(8);
    data[5] = 0xAA;
    data[6] = 0xBB;
    data[7] = 0xDD;
    let reader = SnapshotReader { base: 0x1000, data };
    let sig = IdaSignature::new(vec![Some(0xAA), None, Some(0xCC)], None);
    assert_eq!(m.scan_signature(&reader, &sig).unwrap(), None);
}

// Pseudo and device mappings never take part in scanning.
#[test]
fn bracketed_and_dev_mappings_are_not_scanned() {
    let maps = "1000-1008 rw-p 0 0 0 [heap]\n2000-2008 rw-p 0 0 0 /dev/mem\n";
    let m = Memory::new(1, maps).unwrap();
    let mut data = vec![0u8; 0x1008];
    // both regions hold a valid magic and the pattern; neither is scannable
    for base in [0usize, 0x1000] {
        data[base..base + 4].copy_from_slice(&ELF_MAGIC);
        data[base + 5] = 0xAA;
    }
    let reader = SnapshotReader { base: 0x1000, data };
    let sig = IdaSignature::new(vec![Some(0xAA)], None);
    assert_eq!(m.scan_signature(&reader, &sig).unwrap(), None);
}

// A scannable region without the image magic is skipped, and later
// regions are still scanned.
#[test]
fn region_without_magic_is_skipped_not_fatal() {
    let maps = "1000-1008 r-xp 0 0 0 /a\n2000-2008 r-xp 0 0 0 /b\n";
    let m = Memory::new(1, maps).unwrap();
    let mut data = vec![0u8; 0x1008];
    // first region: no magic; second region: magic and the pattern
    data[0x1000..0x1004].copy_from_slice(&ELF_MAGIC);
    data[0x1005] = 0xEE;
    let reader = SnapshotReader { base: 0x1000, data };
    let sig = IdaSignature::new(vec![Some(0xEE)], None);
    assert_eq!(m.scan_signature(&reader, &sig).unwrap(), Some(0x2005));
}

#[test]
fn scan_without_any_valid_image_finds_nothing() {
    let maps = "1000-1008 r-xp 0 0 0 /a\n";
    let m = Memory::new(1, maps).unwrap();
    let reader = SnapshotReader { base: 0x1000, data: vec![0u8; 8] };
    let sig = IdaSignature::new(vec![Some(0xEE)], None);
    assert_eq!(m.scan_signature(&reader, &sig).unwrap(), None);
}

// An unreadable region surfaces as an I/O failure of the whole scan.
#[test]
fn unreadable_region_fails_the_scan() {
    let maps = "8000-9000 r-xp 0 0 0 /a\n";
    let m = Memory::new(1, maps).unwrap();
    let reader = SnapshotReader { base: 0x1000, data: vec![0u8; 8] };
    let sig = IdaSignature::new(vec![Some(0xEE)], None);
    assert!(m.scan_signature(&reader, &sig).is_err());
}
