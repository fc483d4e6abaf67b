use memscan::memory::{Memory, MemoryError};

fn region_fields(m: &Memory) -> Vec<(usize, usize, Vec<u8>)> {
    m.memory_regions()
        .iter()
        .map(|r| (r.start, r.end, r.pathname.clone()))
        .collect()
}

#[test]
fn parses_one_line_with_pathname() {
    let maps = "00400000-00452000 r-xp 00000000 08:02 173521 /usr/bin/foo\n";
    let m = Memory::new(1, maps).unwrap();
    assert_eq!(
        region_fields(&m),
        vec![(0x0040_0000, 0x0045_2000, b"/usr/bin/foo".to_vec())]
    );
}

#[test]
fn missing_pathname_becomes_anonymous_tag() {
    let maps = "1000-2000 rw-p 00000000 00:00 0\n";
    let m = Memory::new(1, maps).unwrap();
    assert_eq!(region_fields(&m), vec![(0x1000, 0x2000, b"[anonymous]".to_vec())]);
}

#[test]
fn pathname_is_trimmed_of_padding() {
    let maps = "1000-2000 rw-p 00000000 00:00 0      /lib/x.so\n";
    let m = Memory::new(1, maps).unwrap();
    assert_eq!(region_fields(&m), vec![(0x1000, 0x2000, b"/lib/x.so".to_vec())]);
}

#[test]
fn touching_ranges_of_one_path_merge() {
    let maps = "1000-2000 r-xp 0 0 0 /a\n2000-3000 rw-p 0 0 0 /a\n";
    let m = Memory::new(1, maps).unwrap();
    assert_eq!(region_fields(&m), vec![(0x1000, 0x3000, b"/a".to_vec())]);
}

#[test]
fn overlapping_ranges_keep_the_larger_end() {
    let maps = "1000-5000 r-xp 0 0 0 /a\n2000-3000 rw-p 0 0 0 /a\n";
    let m = Memory::new(1, maps).unwrap();
    assert_eq!(region_fields(&m), vec![(0x1000, 0x5000, b"/a".to_vec())]);
}

#[test]
fn ranges_of_different_paths_do_not_merge() {
    let maps = "1000-2000 r-xp 0 0 0 /a\n2000-3000 rw-p 0 0 0 /b\n";
    let m = Memory::new(1, maps).unwrap();
    assert_eq!(
        region_fields(&m),
        vec![(0x1000, 0x2000, b"/a".to_vec()), (0x2000, 0x3000, b"/b".to_vec())]
    );
}

#[test]
fn regions_come_out_sorted_by_start() {
    let maps = "5000-6000 r-xp 0 0 0 /z\n1000-2000 r-xp 0 0 0 /a\n3000-4000 r-xp 0 0 0 /m\n";
    let m = Memory::new(1, maps).unwrap();
    let starts: Vec<usize> = m.memory_regions().iter().map(|r| r.start).collect();
    assert_eq!(starts, vec![0x1000, 0x3000, 0x5000]);
}

#[test]
fn short_lines_are_skipped() {
    let maps = "garbage\n\n1000-2000 rw-p 0 0 0 /a\nnodash here\n";
    let m = Memory::new(1, maps).unwrap();
    assert_eq!(region_fields(&m), vec![(0x1000, 0x2000, b"/a".to_vec())]);
}

#[test]
fn unparsable_hex_is_an_error() {
    let maps = "10zz-2000 rw-p 0 0 0 /a\n";
    let e = Memory::new(1, maps).unwrap_err();
    assert!(matches!(e, MemoryError::InvalidAddress));
}

#[test]
fn empty_listing_gives_empty_table() {
    let m = Memory::new(1, "").unwrap();
    assert!(m.memory_regions().is_empty());
}

// The inclusive upper bound: the byte exactly at `end` counts as valid.
#[test]
fn pointer_validity_is_end_inclusive() {
    let maps = "1000-2000 rw-p 0 0 0 /a\n";
    let m = Memory::new(1, maps).unwrap();
    assert!(m.is_pointer_valid(0x1000));
    assert!(m.is_pointer_valid(0x17ff));
    assert!(m.is_pointer_valid(0x2000));
    assert!(!m.is_pointer_valid(0x2001));
    assert!(!m.is_pointer_valid(0x0fff));
}

#[test]
fn find_containing_region_returns_the_first_hit() {
    let maps = "1000-2000 rw-p 0 0 0 /a\n3000-4000 rw-p 0 0 0 /b\n";
    let m = Memory::new(1, maps).unwrap();
    let r = m.find_containing_region(0x3500).unwrap();
    assert_eq!(r.pathname, b"/b".to_vec());
    assert!(m.find_containing_region(0x2500).is_none());
}

// Determinism: the same listing yields the identical region table.
#[test]
fn rebuilding_from_the_same_listing_is_identical() {
    let maps = "5000-6000 r-xp 0 0 0 /z\n1000-2000 r-xp 0 0 0 /a\n1800-2400 rw-p 0 0 0 /a\n";
    let m1 = Memory::new(7, maps).unwrap();
    let m2 = Memory::new(7, maps).unwrap();
    assert_eq!(region_fields(&m1), region_fields(&m2));
}

// Idempotence: feeding the merged table back in yields the same table.
#[test]
fn merging_an_already_merged_listing_changes_nothing() {
    let maps = "1000-2000 r-xp 0 0 0 /a\n1800-2400 rw-p 0 0 0 /a\n2400-3000 rw-p 0 0 0 /a\n5000-6000 r-xp 0 0 0 /b\n";
    let m1 = Memory::new(1, maps).unwrap();
    let mut remade = String::new();
    for r in m1.memory_regions() {
        remade.push_str(&format!(
            "{:x}-{:x} rw-p 0 0 0 {}\n",
            r.start,
            r.end,
            String::from_utf8(r.pathname.clone()).unwrap()
        ));
    }
    let m2 = Memory::new(1, &remade).unwrap();
    assert_eq!(region_fields(&m1), region_fields(&m2));
}

// Disjoint input mappings come out pairwise non-overlapping.
#[test]
fn disjoint_mappings_stay_disjoint() {
    let maps = "1000-2000 r-xp 0 0 0 /a\n2000-3000 r-xp 0 0 0 /b\n4000-5000 rw-p 0 0 0 /a\n6000-7000 rw-p 0 0 0 /c\n";
    let m = Memory::new(1, maps).unwrap();
    let rs = m.memory_regions();
    for i in 0..rs.len() {
        for j in 0..rs.len() {
            if i != j {
                let disjoint = rs[i].end <= rs[j].start || rs[j].end <= rs[i].start;
                assert!(disjoint, "regions {} and {} overlap", i, j);
            }
        }
    }
}
