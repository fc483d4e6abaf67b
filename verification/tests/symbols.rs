use memscan::memory::{Memory, MemoryError};
use memscan::symbols::{
    find_function_in_image, find_function_in_images, is_exported_function, DynSym,
};

fn push_u16(v: &mut Vec<u8>, x: u16) {
    v.extend_from_slice(&x.to_le_bytes());
}

fn push_u32(v: &mut Vec<u8>, x: u32) {
    v.extend_from_slice(&x.to_le_bytes());
}

fn push_u64(v: &mut Vec<u8>, x: u64) {
    v.extend_from_slice(&x.to_le_bytes());
}

fn push_symbol(v: &mut Vec<u8>, name: u32, info: u8, shndx: u16, value: u64) {
    push_u32(v, name);
    v.push(info);
    v.push(0); // st_other
    push_u16(v, shndx);
    push_u64(v, value);
    push_u64(v, 0); // st_size
}

fn push_shdr(
    v: &mut Vec<u8>,
    sh_type: u32,
    offset: u64,
    size: u64,
    link: u32,
    entsize: u64,
) {
    push_u32(v, 0); // sh_name
    push_u32(v, sh_type);
    push_u64(v, 0); // sh_flags
    push_u64(v, 0); // sh_addr
    push_u64(v, offset);
    push_u64(v, size);
    push_u32(v, link);
    push_u32(v, 0); // sh_info
    push_u64(v, 0); // sh_addralign
    push_u64(v, entsize);
}

/// A minimal 64-bit little-endian ELF with a dynamic symbol table of
/// five entries and the string table "\0probe_fn\0other\0".
fn minimal_elf() -> Vec<u8> {
    let mut v: Vec<u8> = Vec::new();
    // e_ident
    v.extend_from_slice(&[0x7F, 0x45, 0x4C, 0x46, 2, 1, 1, 0]);
    v.extend_from_slice(&[0u8; 8]);
    push_u16(&mut v, 3); // e_type: shared object
    push_u16(&mut v, 62); // e_machine: x86-64
    push_u32(&mut v, 1); // e_version
    push_u64(&mut v, 0); // e_entry
    push_u64(&mut v, 0); // e_phoff
    push_u64(&mut v, 64); // e_shoff
    push_u32(&mut v, 0); // e_flags
    push_u16(&mut v, 64); // e_ehsize
    push_u16(&mut v, 0); // e_phentsize
    push_u16(&mut v, 0); // e_phnum
    push_u16(&mut v, 64); // e_shentsize
    push_u16(&mut v, 3); // e_shnum
    push_u16(&mut v, 0); // e_shstrndx
    assert_eq!(v.len(), 64);
    // section headers at 64: null, dynsym, dynstr
    push_shdr(&mut v, 0, 0, 0, 0, 0);
    let dynsym_off = 64 + 3 * 64;
    push_shdr(&mut v, 11, dynsym_off as u64, 5 * 24, 2, 24); // SHT_DYNSYM
    let dynstr_off = dynsym_off + 5 * 24;
    push_shdr(&mut v, 3, dynstr_off as u64, 16, 0, 0); // SHT_STRTAB
    assert_eq!(v.len(), dynsym_off);
    // the null symbol
    push_symbol(&mut v, 0, 0, 0, 0);
    // a defined global function named probe_fn at 0x1234
    push_symbol(&mut v, 1, 0x12, 1, 0x1234);
    // an undefined global function of the same name: excluded
    push_symbol(&mut v, 1, 0x12, 0, 0x5555);
    // a local function of the same name: excluded
    push_symbol(&mut v, 1, 0x02, 1, 0x6666);
    // a defined weak function named other at 0x9abc
    push_symbol(&mut v, 10, 0x22, 1, 0x9ABC);
    assert_eq!(v.len(), dynstr_off);
    v.extend_from_slice(b"\0probe_fn\0other\0");
    v
}

#[test]
fn exported_function_filter_follows_the_elf_rules() {
    let base = DynSym { st_name: 1, st_shndx: 1, st_info: 0x12, st_value: 0x1000 };
    assert!(is_exported_function(&base)); // global function, defined, named
    assert!(is_exported_function(&DynSym { st_info: 0x22, ..base })); // weak
    assert!(!is_exported_function(&DynSym { st_info: 0x02, ..base })); // local
    assert!(!is_exported_function(&DynSym { st_info: 0x11, ..base })); // object
    assert!(!is_exported_function(&DynSym { st_shndx: 0, ..base })); // undefined
    assert!(!is_exported_function(&DynSym { st_name: 0, ..base })); // unnamed
}

#[test]
fn search_returns_matching_exported_symbols_only() {
    let data = minimal_elf();
    let locs = find_function_in_image(b"/lib/fake.so", &data, b"probe_fn").unwrap();
    assert_eq!(locs.len(), 1);
    assert_eq!(locs[0].pathname, b"/lib/fake.so".to_vec());
    assert_eq!(locs[0].address, 0x1234);
}

#[test]
fn search_finds_weak_symbols_too() {
    let data = minimal_elf();
    let locs = find_function_in_image(b"/lib/fake.so", &data, b"other").unwrap();
    assert_eq!(locs.len(), 1);
    assert_eq!(locs[0].address, 0x9ABC);
}

#[test]
fn search_for_an_absent_name_returns_nothing() {
    let data = minimal_elf();
    let locs = find_function_in_image(b"/lib/fake.so", &data, b"missing").unwrap();
    assert!(locs.is_empty());
}

#[test]
fn garbage_bytes_are_an_invalid_image() {
    let e = find_function_in_image(b"/x", &[0u8; 32], b"f").unwrap_err();
    assert!(matches!(e, MemoryError::InvalidElfData));
}

#[test]
fn image_paths_lists_file_backed_mappings_in_order() {
    let maps = "1000-2000 r-xp 0 0 0 /lib/a.so\n3000-4000 rw-p 0 0 0 [heap]\n5000-6000 r-xp 0 0 0 /lib/b.so\n7000-8000 rw-p 0 0 0\n";
    let m = Memory::new(1, maps).unwrap();
    assert_eq!(
        m.image_paths(),
        vec![b"/lib/a.so".to_vec(), b"/lib/b.so".to_vec()]
    );
}

#[test]
fn searching_several_images_concatenates_their_matches() {
    let data = minimal_elf();
    let images = vec![
        (b"/lib/one.so".to_vec(), data.clone()),
        (b"/lib/two.so".to_vec(), data.clone()),
    ];
    let locs = find_function_in_images(&images, b"probe_fn").unwrap();
    assert_eq!(locs.len(), 2);
    assert_eq!(locs[0].pathname, b"/lib/one.so".to_vec());
    assert_eq!(locs[1].pathname, b"/lib/two.so".to_vec());
    assert_eq!(locs[0].address, 0x1234);
    assert_eq!(locs[1].address, 0x1234);
}

#[test]
fn one_bad_image_fails_the_whole_search() {
    let images = vec![
        (b"/lib/one.so".to_vec(), minimal_elf()),
        (b"/lib/bad.so".to_vec(), vec![0u8; 16]),
    ];
    let e = find_function_in_images(&images, b"probe_fn").unwrap_err();
    assert!(matches!(e, MemoryError::InvalidElfData));
}

#[test]
fn searching_no_images_finds_nothing() {
    let locs = find_function_in_images(&Vec::new(), b"probe_fn").unwrap();
    assert!(locs.is_empty());
}
