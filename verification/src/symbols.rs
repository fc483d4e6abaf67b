//! Exported-symbol lookup: the on-disk ELF image of a file-backed
//! mapping is parsed, and its dynamic symbol table searched for
//! exported, defined function symbols of a given name.

use vstd::prelude::*;

use crate::bytestr::bytes_eq;
use crate::bytestr::spec_starts_with;
use crate::bytestr::starts_with;
use crate::memory::copy_range;
use crate::memory::Memory;
use crate::memory::MemoryError;
use crate::memory::RegionView;
use elf::endian::AnyEndian;
use elf::parse::ParseError;
use elf::string_table::StringTable;
use elf::symbol::SymbolTable;
use elf::ElfBytes;

verus! {

#[verifier::external_type_specification]
#[verifier::external_body]
pub struct ExParseError(ParseError);

#[verifier::external_type_specification]
#[verifier::external_body]
pub struct ExStringTable<'data>(StringTable<'data>);

/// A parsed ELF image; Verus refuses `ElfBytes`'s own declaration (its
/// type parameter carries an outside trait bound), so the handle is
/// held opaquely.
#[verifier::external_body]
pub struct ElfImage<'data> {
    inner: ElfBytes<'data, AnyEndian>,
}

/// A dynamic symbol table; held opaquely for the same reason.
#[verifier::external_body]
pub struct SymTable<'data> {
    inner: SymbolTable<'data, AnyEndian>,
}

/// The plain fields of one dynamic symbol table entry, named as the
/// ELF specification names them.
#[derive(Debug, Clone, Copy, PartialEq, Eq, Structural)]
pub struct DynSym {
    /// Index of the symbol's name in the string table; zero for none.
    pub st_name: u32,
    /// Section header index; zero is the undefined sentinel.
    pub st_shndx: u16,
    /// Type in the low four bits, binding in the high four.
    pub st_info: u8,
    /// The symbol's value: an address, within the image's own space.
    pub st_value: u64,
}

/// The bytes an ELF handle was parsed from.
pub uninterp spec fn elf_image(e: ElfImage) -> Seq<u8>;

/// The entries of a symbol table, in table order.
pub uninterp spec fn symtab_entries(t: SymTable) -> Seq<DynSym>;

/// The strings of a string table: each valid byte offset maps to the
/// NUL-terminated UTF-8 string starting there.
pub uninterp spec fn strtab_strings(t: StringTable) -> Map<usize, Seq<u8>>;

/// What the dynamic symbol section of an ELF image holds: its symbol
/// entries and its string table, or `None` when the image has no
/// dynamic symbols.
pub uninterp spec fn image_dynsyms(data: Seq<u8>) -> Option<(Seq<DynSym>, Map<usize, Seq<u8>>)>;

/// Whether the bytes parse as an ELF image at all.
pub uninterp spec fn elf_parses(data: Seq<u8>) -> bool;

/// Whether the image's section tables parse far enough to tell its
/// dynamic symbols apart from their absence.
pub uninterp spec fn elf_symbols_parse(data: Seq<u8>) -> bool;

/// Relies on elf::ElfBytes::minimal_parse: parses the ELF file header
/// and locates the table headers of the image held in the bytes; a
/// deterministic function of the bytes, so it succeeds exactly when
/// the bytes parse.
#[verifier::external_body]
fn elf_parse<'d>(data: &'d [u8]) -> (r: Result<ElfImage<'d>, ParseError>)
    ensures
        r matches Ok(e) ==> elf_image(e) == data@,
        r is Ok <==> elf_parses(data@),
{
    match ElfBytes::minimal_parse(data) {
        Ok(inner) => Ok(ElfImage { inner }),
        Err(err) => Err(err),
    }
}

/// Relies on elf::ElfBytes::find_common_data: locates the dynamic
/// symbol table and its string table, when the image carries them; a
/// deterministic function of the image bytes.
#[verifier::external_body]
fn elf_dynamic_symbols<'d>(e: &ElfImage<'d>) -> (r: Result<
    Option<(SymTable<'d>, StringTable<'d>)>,
    ParseError,
>)
    ensures
        r matches Ok(Some(tabs)) ==> image_dynsyms(elf_image(*e)) matches Some(ds)
            && symtab_entries(tabs.0) == ds.0 && strtab_strings(tabs.1) == ds.1,
        r matches Ok(None) ==> image_dynsyms(elf_image(*e)) is None,
        r is Ok <==> elf_symbols_parse(elf_image(*e)),
{
    match e.inner.find_common_data() {
        Ok(common) => match (common.dynsyms, common.dynsyms_strs) {
            (Some(inner), Some(strs)) => Ok(Some((SymTable { inner }, strs))),
            _ => Ok(None),
        },
        Err(err) => Err(err),
    }
}

/// Relies on elf::parse::ParsingTable::len: the number of entries.
#[verifier::external_body]
fn symtab_len(t: &SymTable) -> (r: usize)
    ensures
        r == symtab_entries(*t).len(),
{
    t.inner.len()
}

/// Relies on elf::parse::ParsingTable::get: parses the entry at the
/// index; every index below the table's length parses successfully.
#[verifier::external_body]
fn symtab_get(t: &SymTable, i: usize) -> (r: Result<DynSym, ParseError>)
    ensures
        match r {
            Ok(s) => i < symtab_entries(*t).len() ==> s == symtab_entries(*t)[i as int],
            Err(_) => i >= symtab_entries(*t).len(),
        },
{
    match t.inner.get(i) {
        Ok(sym) => Ok(
            DynSym {
                st_name: sym.st_name,
                st_shndx: sym.st_shndx,
                st_info: sym.st_info,
                st_value: sym.st_value,
            },
        ),
        Err(err) => Err(err),
    }
}

/// Relies on elf::string_table::StringTable::get: the NUL-terminated
/// string at a valid offset, as bytes.
#[verifier::external_body]
fn strtab_get<'d>(t: &StringTable<'d>, offset: usize) -> (r: Result<&'d [u8], ParseError>)
    ensures
        r matches Ok(b) ==> strtab_strings(*t).contains_key(offset) && strtab_strings(*t)[offset]
            == b@,
        r is Err ==> !strtab_strings(*t).contains_key(offset),
{
    match t.get(offset) {
        Ok(s) => Ok(s.as_bytes()),
        Err(err) => Err(err),
    }
}

/// An exported function symbol: type `function` (low bits of `st_info`
/// are 2), binding global or weak (high bits 1 or 2), defined (section
/// index is not the undefined sentinel 0), and named.
pub open spec fn spec_exported_function(s: DynSym) -> bool {
    &&& s.st_info & 0x0f == 2
    &&& (s.st_info >> 4 == 1 || s.st_info >> 4 == 2)
    &&& s.st_shndx != 0
    &&& s.st_name != 0
}

/// Tests whether a symbol is an exported, defined function.
pub fn is_exported_function(s: &DynSym) -> (r: bool)
    ensures
        r == spec_exported_function(*s),
{
    let symtype = s.st_info & 0x0f;
    let bind = s.st_info >> 4;
    symtype == 2 && (bind == 1 || bind == 2) && s.st_shndx != 0 && s.st_name != 0
}

/// One match of a name-based export search: the owning mapping's
/// pathname, and the symbol's address within its own image.
#[derive(Debug)]
pub struct FunctionLocation {
    pub pathname: Vec<u8>,
    pub address: usize,
}

/// The pair a location denotes: pathname bytes and address.
pub open spec fn loc_view(l: FunctionLocation) -> (Seq<u8>, usize) {
    (l.pathname@, l.address)
}

/// The pairs a vector of locations denotes.
pub open spec fn locs_view(ls: Seq<FunctionLocation>) -> Seq<(Seq<u8>, usize)> {
    ls.map_values(|l: FunctionLocation| loc_view(l))
}

/// The locations of every exported, defined function symbol whose name
/// is exactly the one sought, in table order, each address the
/// symbol's own `st_value`.
pub open spec fn spec_export_matches(
    entries: Seq<DynSym>,
    strs: Map<usize, Seq<u8>>,
    name: Seq<u8>,
    pathname: Seq<u8>,
) -> Seq<(Seq<u8>, usize)>
    decreases entries.len(),
{
    if entries.len() == 0 {
        Seq::empty()
    } else {
        let s = entries[0];
        let rest = spec_export_matches(entries.skip(1), strs, name, pathname);
        if spec_exported_function(s) && strs.contains_key(s.st_name as usize) && strs[s.st_name
            as usize] == name {
            seq![(pathname, s.st_value as usize)] + rest
        } else {
            rest
        }
    }
}

/// Searches one on-disk image for exported, defined function symbols
/// named `function_name`. An image without dynamic symbols yields no
/// locations; an image that cannot be parsed is an error; an image
/// that parses, with every exported symbol's name offset present in
/// the string table, is searched successfully.
pub fn find_function_in_image(pathname: &[u8], data: &[u8], function_name: &[u8]) -> (r: Result<
    Vec<FunctionLocation>,
    MemoryError,
>)
    ensures
        r matches Ok(locs) ==> match image_dynsyms(data@) {
            Some(ds) => locs_view(locs@) == spec_export_matches(
                ds.0,
                ds.1,
                function_name@,
                pathname@,
            ),
            None => locs@.len() == 0,
        },
        r matches Err(e) ==> e is InvalidElfData,
        elf_parses(data@) ==> (elf_symbols_parse(data@) ==> (image_dynsyms(data@) is None ==> r
            is Ok)),
        elf_parses(data@) ==> (elf_symbols_parse(data@) ==> (image_dynsyms(data@) matches Some(ds)
            ==> ((forall|k: int|
            0 <= k < ds.0.len() ==> (spec_exported_function(#[trigger] ds.0[k])
                ==> ds.1.contains_key(ds.0[k].st_name as usize))) ==> r is Ok))),
{
    let elf_file = match elf_parse(data) {
        Ok(e) => e,
        Err(_) => {
            return Err(MemoryError::InvalidElfData);
        },
    };
    let tables = match elf_dynamic_symbols(&elf_file) {
        Ok(Some(tabs)) => tabs,
        Ok(None) => {
            return Ok(Vec::new());
        },
        Err(_) => {
            return Err(MemoryError::InvalidElfData);
        },
    };
    let (syms, strs) = tables;
    let ghost entries = symtab_entries(syms);
    let ghost smap = strtab_strings(strs);
    let n = symtab_len(&syms);
    let mut out: Vec<FunctionLocation> = Vec::new();
    let mut i: usize = 0;
    proof {
        assert(entries.skip(0) =~= entries);
        assert(image_dynsyms(data@) == Some((entries, smap)));
        assert(locs_view(out@) =~= Seq::<(Seq<u8>, usize)>::empty());
        assert(locs_view(out@) + spec_export_matches(entries, smap, function_name@, pathname@)
            =~= spec_export_matches(entries, smap, function_name@, pathname@));
    }
    while i < n
        invariant
            0 <= i <= n,
            n == entries.len(),
            entries == symtab_entries(syms),
            smap == strtab_strings(strs),
            image_dynsyms(data@) == Some((entries, smap)),
            spec_export_matches(entries, smap, function_name@, pathname@) == locs_view(out@)
                + spec_export_matches(entries.skip(i as int), smap, function_name@, pathname@),
        decreases n - i,
    {
        let ghost rest0 = entries.skip(i as int);
        proof {
            assert(rest0.len() > 0);
            assert(rest0[0] == entries[i as int]);
            assert(rest0.skip(1) =~= entries.skip(i as int + 1));
        }
        let sym = match symtab_get(&syms, i) {
            Ok(s) => s,
            Err(_) => {
                // the wrapper owes success below the table's length
                proof {
                    assert(false);
                }
                return Err(MemoryError::InvalidElfData);
            },
        };
        if is_exported_function(&sym) {
            let name = match strtab_get(&strs, sym.st_name as usize) {
                Ok(b) => b,
                Err(_) => {
                    // this exported symbol's name offset is missing, so
                    // the success condition's hypothesis fails here
                    proof {
                        assert(spec_exported_function(entries[i as int]));
                        assert(!smap.contains_key(entries[i as int].st_name as usize));
                        match image_dynsyms(data@) {
                            Some(ds) => {
                                assert(ds.0 == entries && ds.1 == smap);
                                assert(ds.0[i as int] == entries[i as int]);
                                assert(!(spec_exported_function(ds.0[i as int])
                                    ==> ds.1.contains_key(ds.0[i as int].st_name as usize)));
                            },
                            None => {
                                assert(false);
                            },
                        }
                    }
                    return Err(MemoryError::InvalidElfData);
                },
            };
            if bytes_eq(name, function_name) {
                let path_copy = copy_range(pathname, 0, pathname.len());
                let ghost out0 = locs_view(out@);
                proof {
                    assert(path_copy@ =~= pathname@);
                }
                out.push(
                    FunctionLocation {
                        pathname: path_copy,
                        #[verifier::truncate]
                        address: sym.st_value as usize,
                    },
                );
                proof {
                    assert(locs_view(out@) =~= out0 + seq![(pathname@, sym.st_value as usize)]);
                    assert(out0 + (seq![(pathname@, sym.st_value as usize)] + spec_export_matches(
                        rest0.skip(1),
                        smap,
                        function_name@,
                        pathname@,
                    )) =~= locs_view(out@) + spec_export_matches(
                        rest0.skip(1),
                        smap,
                        function_name@,
                        pathname@,
                    ));
                }
            }
        }
        i = i + 1;
    }
    proof {
        assert(entries.skip(n as int) =~= Seq::<DynSym>::empty());
        assert(locs_view(out@) + Seq::<(Seq<u8>, usize)>::empty() =~= locs_view(out@));
    }
    Ok(out)
}


/// The matches one image contributes: its exported symbols of the
/// sought name, or nothing when it has no dynamic symbols.
pub open spec fn spec_image_matches(path: Seq<u8>, data: Seq<u8>, name: Seq<u8>) -> Seq<
    (Seq<u8>, usize),
> {
    match image_dynsyms(data) {
        Some(ds) => spec_export_matches(ds.0, ds.1, name, path),
        None => Seq::empty(),
    }
}

/// The pathname-and-bytes pairs a vector of loaded files denotes.
pub open spec fn images_view(images: Seq<(Vec<u8>, Vec<u8>)>) -> Seq<(Seq<u8>, Seq<u8>)> {
    images.map_values(|img: (Vec<u8>, Vec<u8>)| (img.0@, img.1@))
}

/// The concatenation of every image's matches, image order kept.
pub open spec fn spec_images_matches(images: Seq<(Seq<u8>, Seq<u8>)>, name: Seq<u8>) -> Seq<
    (Seq<u8>, usize),
>
    decreases images.len(),
{
    if images.len() == 0 {
        Seq::empty()
    } else {
        spec_image_matches(images[0].0, images[0].1, name) + spec_images_matches(
            images.skip(1),
            name,
        )
    }
}

/// Searches several on-disk images, given as pathname-and-bytes pairs,
/// and concatenates their matches in image order; the first image that
/// cannot be parsed fails the whole search, as reading region by
/// region does.
pub fn find_function_in_images(images: &Vec<(Vec<u8>, Vec<u8>)>, function_name: &[u8]) -> (r:
    Result<Vec<FunctionLocation>, MemoryError>)
    ensures
        r matches Ok(locs) ==> locs_view(locs@) == spec_images_matches(
            images_view(images@),
            function_name@,
        ),
        r matches Err(e) ==> e is InvalidElfData,
{
    let ghost iv = images_view(images@);
    let n = images.len();
    let mut out: Vec<FunctionLocation> = Vec::new();
    let mut i: usize = 0;
    proof {
        assert(iv.skip(0) =~= iv);
        assert(locs_view(out@) =~= Seq::<(Seq<u8>, usize)>::empty());
        assert(locs_view(out@) + spec_images_matches(iv, function_name@) =~= spec_images_matches(
            iv,
            function_name@,
        ));
    }
    while i < n
        invariant
            0 <= i <= n,
            n == images@.len(),
            iv == images_view(images@),
            spec_images_matches(iv, function_name@) == locs_view(out@) + spec_images_matches(
                iv.skip(i as int),
                function_name@,
            ),
        decreases n - i,
    {
        let ghost rest0 = iv.skip(i as int);
        proof {
            assert(rest0.len() > 0);
            assert(iv[i as int] == (images@[i as int].0@, images@[i as int].1@));
            assert(rest0[0] == iv[i as int]);
            assert(rest0.skip(1) =~= iv.skip(i as int + 1));
        }
        let mut found = match find_function_in_image(
            images[i].0.as_slice(),
            images[i].1.as_slice(),
            function_name,
        ) {
            Ok(locs) => locs,
            Err(e) => {
                return Err(e);
            },
        };
        let ghost out0 = locs_view(out@);
        let ghost found0 = locs_view(found@);
        proof {
            assert(found0 =~= spec_image_matches(rest0[0].0, rest0[0].1, function_name@));
        }
        out.append(&mut found);
        proof {
            assert(locs_view(out@) =~= out0 + found0);
            assert(out0 + (found0 + spec_images_matches(rest0.skip(1), function_name@)) =~= (out0
                + found0) + spec_images_matches(rest0.skip(1), function_name@));
        }
        i = i + 1;
    }
    proof {
        assert(iv.skip(n as int) =~= Seq::<(Seq<u8>, Seq<u8>)>::empty());
        assert(locs_view(out@) + Seq::<(Seq<u8>, usize)>::empty() =~= locs_view(out@));
    }
    Ok(out)
}

/// The pathnames of the file-backed mappings: those whose pathname is
/// an absolute filesystem path, one per region, in region order.
pub open spec fn spec_image_paths(rs: Seq<RegionView>) -> Seq<Seq<u8>>
    decreases rs.len(),
{
    if rs.len() == 0 {
        Seq::empty()
    } else {
        let rest = spec_image_paths(rs.skip(1));
        if spec_starts_with(rs[0].pathname, seq![0x2fu8]) {
            seq![rs[0].pathname] + rest
        } else {
            rest
        }
    }
}

impl Memory {
    /// The pathnames of the file-backed mappings, whose on-disk images
    /// take part in the exported-symbol search.
    pub fn image_paths(&self) -> (r: Vec<Vec<u8>>)
        ensures
            r@.map_values(|p: Vec<u8>| p@) == spec_image_paths(self@.regions),
    {
        let regions = self.memory_regions();
        let n = regions.len();
        let mut out: Vec<Vec<u8>> = Vec::new();
        let mut i: usize = 0;
        proof {
            assert(self@.regions.skip(0) =~= self@.regions);
            assert(out@.map_values(|p: Vec<u8>| p@) =~= Seq::<Seq<u8>>::empty());
            assert(out@.map_values(|p: Vec<u8>| p@) + spec_image_paths(self@.regions)
                =~= spec_image_paths(self@.regions));
        }
        while i < n
            invariant
                0 <= i <= n,
                n == regions@.len(),
                crate::memory::mem_regions_view(regions@) == self@.regions,
                n == self@.regions.len(),
                spec_image_paths(self@.regions) == out@.map_values(|p: Vec<u8>| p@)
                    + spec_image_paths(self@.regions.skip(i as int)),
            decreases n - i,
        {
            let ghost rest0 = self@.regions.skip(i as int);
            proof {
                assert(rest0.len() > 0);
                assert(rest0[0] == self@.regions[i as int]);
                assert(self@.regions[i as int] == regions@[i as int]@);
                assert(rest0.skip(1) =~= self@.regions.skip(i as int + 1));
            }
            let mut slash: Vec<u8> = Vec::new();
            slash.push(0x2fu8);
            proof {
                assert(slash@ =~= seq![0x2fu8]);
            }
            if starts_with(regions[i].pathname.as_slice(), slash.as_slice()) {
                let ghost out0 = out@.map_values(|p: Vec<u8>| p@);
                let path_copy = copy_range(regions[i].pathname.as_slice(), 0, regions[i].pathname.len());
                proof {
                    assert(path_copy@ =~= regions@[i as int].pathname@);
                }
                out.push(path_copy);
                proof {
                    assert(out@.map_values(|p: Vec<u8>| p@) =~= out0 + seq![rest0[0].pathname]);
                    assert(out0 + (seq![rest0[0].pathname] + spec_image_paths(rest0.skip(1))) =~= (
                    out0 + seq![rest0[0].pathname]) + spec_image_paths(rest0.skip(1)));
                }
            }
            i = i + 1;
        }
        proof {
            assert(self@.regions.skip(n as int) =~= Seq::<RegionView>::empty());
            assert(out@.map_values(|p: Vec<u8>| p@) + Seq::<Seq<u8>>::empty() =~= out@.map_values(
                |p: Vec<u8>| p@,
            ));
        }
        out
    }
}

} // verus!
