//! The process memory model: a table of mapped memory regions and the
//! queries the locator-resolution engine asks of it.

use vstd::prelude::*;

use crate::bytestr::bytes_eq;
use crate::bytestr::find_from;
use crate::bytestr::lex_lt;
use crate::bytestr::parse_hex_usize;
use crate::bytestr::spec_find_idx;
use crate::bytestr::spec_hex_usize;
use crate::bytestr::spec_lex_lt;
use crate::bytestr::spec_split;
use crate::bytestr::spec_splitn;
use crate::bytestr::spec_trim;
use crate::bytestr::split_all;
use crate::bytestr::split_n;
use crate::bytestr::trim_spaces;
use crate::address::IdaSignature;
use crate::bytestr::spec_starts_with;
use crate::bytestr::starts_with;
use crate::reader::ProcessRead;
use vstd::string::StringSliceAdditionalSpecFns;

verus! {

/// One contiguous mapped range of the target process's address space,
/// tagged by its backing path (`[anonymous]`, a bracketed pseudo-path,
/// or a filesystem path), stored as raw bytes of the map listing.
#[derive(Debug)]
pub struct MemoryRegion {
    pub start: usize,
    pub end: usize,
    pub pathname: Vec<u8>,
}

/// Failures of region-table construction, memory reads and scans.
#[derive(Debug)]
pub enum MemoryError {
    /// A pattern scan exhausted every scannable region without a match.
    SignatureNotFound,
    /// A scannable region's leading bytes are not an ELF magic; the
    /// payload is the 32-bit value that was read.
    InvalidElf(u32),
    /// The on-disk image could not be parsed as a valid ELF file.
    InvalidElfData,
    /// A hex field of the memory-map listing could not be parsed.
    InvalidAddress,
    /// An absolute or dereferenced address falls outside every region.
    InvalidPointer(usize),
    /// A read transferred fewer bytes than requested: (got, expected).
    PartialRead(isize, usize),
    /// The OS-level read failed; the payload is the OS error code.
    Io(i32),
}

/// Mathematical view of one region: start, inclusive end, pathname bytes.
pub struct RegionView {
    pub start: int,
    pub end: int,
    pub pathname: Seq<u8>,
}

impl View for MemoryRegion {
    type V = RegionView;

    open spec fn view(&self) -> RegionView {
        RegionView { start: self.start as int, end: self.end as int, pathname: self.pathname@ }
    }
}

/// An address is inside a region when `start <= a <= end`; the upper bound
/// is inclusive by design (a documented quirk kept for compatibility).
pub open spec fn region_contains(r: RegionView, a: int) -> bool {
    r.start <= a <= r.end
}

/// Some region of the table contains the address.
pub open spec fn valid_pointer(rs: Seq<RegionView>, a: int) -> bool {
    exists|i: int| 0 <= i < rs.len() && region_contains(rs[i], a)
}

/// The first region (lowest index) that contains the address.
pub open spec fn first_containing(rs: Seq<RegionView>, a: int) -> Option<RegionView>
    decreases rs.len(),
{
    if rs.len() == 0 {
        None
    } else if region_contains(rs[0], a) {
        Some(rs[0])
    } else {
        first_containing(rs.skip(1), a)
    }
}

/// The memory model of one target process: its identifier and the merged,
/// start-sorted table of mapped regions.
#[derive(Debug)]
pub struct Memory {
    pid: i32,
    memory_regions: Vec<MemoryRegion>,
}

/// Mathematical view of `Memory`.
pub struct MemoryView {
    pub pid: int,
    pub regions: Seq<RegionView>,
}

impl View for Memory {
    type V = MemoryView;

    closed spec fn view(&self) -> MemoryView {
        MemoryView {
            pid: self.pid as int,
            regions: Seq::new(self.memory_regions@.len(), |i: int| self.memory_regions@[i]@),
        }
    }
}

impl Memory {
    /// True iff some region's inclusive `[start, end]` range contains the
    /// pointer.
    pub fn is_pointer_valid(&self, pointer: usize) -> (r: bool)
        ensures
            r == valid_pointer(self@.regions, pointer as int),
    {
        let n = self.memory_regions.len();
        let mut i: usize = 0;
        while i < n
            invariant
                0 <= i <= n,
                n == self.memory_regions.len(),
                forall|j: int| 0 <= j < i ==> !region_contains(self@.regions[j], pointer as int),
            decreases n - i,
        {
            let region = &self.memory_regions[i];
            if pointer >= region.start && pointer <= region.end {
                assert(region_contains(self@.regions[i as int], pointer as int));
                return true;
            }
            i = i + 1;
        }
        false
    }
}

/// The pathname recorded for a mapping whose map line has none.
pub open spec fn anonymous_tag() -> Seq<u8> {
    seq![0x5bu8, 0x61u8, 0x6eu8, 0x6fu8, 0x6eu8, 0x79u8, 0x6du8, 0x6fu8, 0x75u8, 0x73u8, 0x5du8]
}

/// Builds the literal tag `[anonymous]`.
fn anonymous_tag_exec() -> (r: Vec<u8>)
    ensures
        r@ == anonymous_tag(),
{
    let mut v: Vec<u8> = Vec::new();
    v.push(0x5bu8);
    v.push(0x61u8);
    v.push(0x6eu8);
    v.push(0x6fu8);
    v.push(0x6eu8);
    v.push(0x79u8);
    v.push(0x6du8);
    v.push(0x6fu8);
    v.push(0x75u8);
    v.push(0x73u8);
    v.push(0x5du8);
    proof {
        assert(v@ =~= anonymous_tag());
    }
    v
}

/// One parsed record of the map listing: pathname, start, end.
pub type MapRecord = (Seq<u8>, usize, usize);

/// What one line of the map listing yields: `Err` when a hex field of an
/// address range is unparsable, `Ok(None)` when the line has no
/// `start-end` shape and is skipped, `Ok(Some(..))` for a record. A
/// missing or empty pathname field becomes the tag `[anonymous]`; a
/// present one is trimmed of surrounding whitespace.
pub open spec fn spec_record(line: Seq<u8>) -> Result<Option<MapRecord>, ()> {
    let parts = spec_splitn(line, 0x20u8, 6);
    if parts.len() < 2 {
        Ok(None)
    } else {
        let rparts = spec_split(parts[0], 0x2du8);
        if rparts.len() != 2 {
            Ok(None)
        } else {
            match (spec_hex_usize(rparts[0]), spec_hex_usize(rparts[1])) {
                (Some(start), Some(end)) => {
                    let pathname = if parts.len() >= 6 && parts[5].len() > 0 {
                        spec_trim(parts[5])
                    } else {
                        anonymous_tag()
                    };
                    Ok(Some((pathname, start, end)))
                },
                _ => Err(()),
            }
        }
    }
}

/// The line that ends at index `i` of `s`: bytes up to `i`, with one
/// trailing carriage return removed, as `str::lines` does.
pub open spec fn spec_line_of(s: Seq<u8>, i: int) -> Seq<u8> {
    let raw = s.take(i);
    if raw.len() > 0 && raw.last() == 0x0du8 {
        raw.drop_last()
    } else {
        raw
    }
}

/// All records of the map listing, line by line, first line first;
/// `Err` as soon as a line has an unparsable address field.
pub open spec fn spec_records(s: Seq<u8>) -> Result<Seq<MapRecord>, ()>
    decreases s.len(),
{
    if s.len() == 0 {
        Ok(Seq::empty())
    } else {
        let i = spec_find_idx(s, 0x0au8);
        if 0 <= i < s.len() {
            match spec_record(spec_line_of(s, i)) {
                Err(()) => Err(()),
                Ok(None) => spec_records(s.skip(i + 1)),
                Ok(Some(r)) => match spec_records(s.skip(i + 1)) {
                    Err(()) => Err(()),
                    Ok(rest) => Ok(seq![r] + rest),
                },
            }
        } else {
            match spec_record(spec_line_of(s, s.len() as int)) {
                Err(()) => Err(()),
                Ok(None) => Ok(Seq::empty()),
                Ok(Some(r)) => Ok(seq![r]),
            }
        }
    }
}

/// Parses one line of the map listing.
fn parse_one_record(line: &[u8]) -> (r: Result<Option<(Vec<u8>, usize, usize)>, MemoryError>)
    ensures
        match r {
            Ok(Some(rec)) => spec_record(line@) == Ok::<Option<MapRecord>, ()>(
                Some((rec.0@, rec.1, rec.2)),
            ),
            Ok(None) => spec_record(line@) == Ok::<Option<MapRecord>, ()>(None),
            Err(e) => spec_record(line@) == Err::<Option<MapRecord>, ()>(())
                && e == MemoryError::InvalidAddress,
        },
{
    let parts = split_n(line, 0x20u8, 6);
    assert(parts@.map_values(|p: Vec<u8>| p@) == spec_splitn(line@, 0x20u8, 6));
    if parts.len() < 2 {
        return Ok(None);
    }
    let rparts = split_all(parts[0].as_slice(), 0x2du8);
    assert(parts@.map_values(|p: Vec<u8>| p@)[0] == parts@[0]@);
    assert(rparts@.map_values(|p: Vec<u8>| p@) == spec_split(
        spec_splitn(line@, 0x20u8, 6)[0],
        0x2du8,
    ));
    if rparts.len() != 2 {
        return Ok(None);
    }
    assert(rparts@.map_values(|p: Vec<u8>| p@)[0] == rparts@[0]@);
    assert(rparts@.map_values(|p: Vec<u8>| p@)[1] == rparts@[1]@);
    let start: usize = match parse_hex_usize(rparts[0].as_slice()) {
        Some(v) => v,
        None => {
            return Err(MemoryError::InvalidAddress);
        },
    };
    let end: usize = match parse_hex_usize(rparts[1].as_slice()) {
        Some(v) => v,
        None => {
            return Err(MemoryError::InvalidAddress);
        },
    };
    let pathname: Vec<u8> = if parts.len() >= 6 && parts[5].len() > 0 {
        assert(parts@.map_values(|p: Vec<u8>| p@)[5] == parts@[5]@);
        trim_spaces(parts[5].as_slice())
    } else {
        assert(parts@.len() >= 6 ==> parts@.map_values(|p: Vec<u8>| p@)[5] == parts@[5]@);
        anonymous_tag_exec()
    };
    Ok(Some((pathname, start, end)))
}

/// Combining a parsed prefix with what the remaining lines yield.
pub open spec fn spec_records_join(
    acc: Seq<MapRecord>,
    rest: Result<Seq<MapRecord>, ()>,
) -> Result<Seq<MapRecord>, ()> {
    match rest {
        Err(()) => Err(()),
        Ok(t) => Ok(acc + t),
    }
}

/// The record denoted by one exec-level record value.
pub open spec fn rec_view(rec: (Vec<u8>, usize, usize)) -> MapRecord {
    (rec.0@, rec.1, rec.2)
}

/// The records denoted by a vector of exec-level record values.
pub open spec fn recs_view(recs: Seq<(Vec<u8>, usize, usize)>) -> Seq<MapRecord> {
    recs.map_values(|rec: (Vec<u8>, usize, usize)| rec_view(rec))
}

/// Copies `s[lo..hi]` into a fresh vector.
pub(crate) fn copy_range(s: &[u8], lo: usize, hi: usize) -> (r: Vec<u8>)
    requires
        lo <= hi <= s@.len(),
    ensures
        r@ == s@.subrange(lo as int, hi as int),
{
    let mut out: Vec<u8> = Vec::new();
    let mut i: usize = lo;
    while i < hi
        invariant
            lo <= i <= hi <= s@.len(),
            out@ =~= s@.subrange(lo as int, i as int),
        decreases hi - i,
    {
        out.push(s[i]);
        i = i + 1;
    }
    proof {
        assert(out@ =~= s@.subrange(lo as int, hi as int));
    }
    out
}

/// Parses every line of the map listing into records.
#[verifier::rlimit(50)]
fn parse_records(s: &[u8]) -> (r: Result<Vec<(Vec<u8>, usize, usize)>, MemoryError>)
    ensures
        match r {
            Ok(recs) => spec_records(s@) == Ok::<Seq<MapRecord>, ()>(recs_view(recs@)),
            Err(e) => spec_records(s@) == Err::<Seq<MapRecord>, ()>(())
                && e == MemoryError::InvalidAddress,
        },
{
    let n = s.len();
    let mut recs: Vec<(Vec<u8>, usize, usize)> = Vec::new();
    let mut pos: usize = 0;
    proof {
        assert(s@.skip(0) =~= s@);
        assert(recs_view(recs@) =~= Seq::<MapRecord>::empty());
        match spec_records(s@) {
            Ok(t) => {
                assert(recs_view(recs@) + t =~= t);
                assert(spec_records_join(recs_view(recs@), spec_records(s@.skip(0)))
                    == Ok::<Seq<MapRecord>, ()>(recs_view(recs@) + t));
                assert(spec_records(s@) =~~= spec_records_join(
                    recs_view(recs@),
                    spec_records(s@.skip(0)),
                ));
            },
            Err(e_) => {

                assert(spec_records(s@) =~~= spec_records_join(
                    recs_view(recs@),
                    spec_records(s@.skip(0)),
                ));
            },
        }
    }
    while pos < n
        invariant
            0 <= pos <= n,
            n == s@.len(),
            spec_records(s@) == spec_records_join(
                recs_view(recs@),
                spec_records(s@.skip(pos as int)),
            ),
        decreases n - pos,
    {
        let ghost rest0 = s@.skip(pos as int);
        let ghost acc0 = recs_view(recs@);
        let k = find_from(s, pos, 0x0au8);
        proof {
            assert(rest0.len() > 0);
            assert(spec_find_idx(rest0, 0x0au8) == k - pos);
        }
        // copy the line, stripping one trailing carriage return
        let line_end: usize = if k > pos && s[k - 1] == 0x0du8 {
            k - 1
        } else {
            k
        };
        let line = copy_range(s, pos, line_end);
        let ghost lim: int = if k < n {
            k - pos
        } else {
            rest0.len() as int
        };
        proof {
            assert(rest0.take(lim) =~= s@.subrange(pos as int, k as int));
            if k > pos && s@[k as int - 1] == 0x0du8 {
                assert(rest0.take(lim).drop_last() =~= s@.subrange(pos as int, k as int - 1));
            }
            assert(line@ =~= spec_line_of(rest0, lim));
        }
        let parsed = parse_one_record(line.as_slice());
        let next_pos: usize = if k == n {
            n
        } else {
            k + 1
        };
        let ghost restn = s@.skip(next_pos as int);
        proof {
            if k < n {
                assert(rest0.skip(k - pos + 1) =~= restn);
            } else {
                assert(restn =~= Seq::<u8>::empty());
                assert(spec_records(restn) == Ok::<Seq<MapRecord>, ()>(Seq::empty()));
            }
        }
        match parsed {
            Err(e) => {
                proof {
                    assert(spec_record(line@) == Err::<Option<MapRecord>, ()>(()));
                    assert(spec_records(rest0) == Err::<Seq<MapRecord>, ()>(()));
                }
                return Err(e);
            },
            Ok(Some(rec)) => {
                let ghost r_v: MapRecord = rec_view(rec);
                recs.push(rec);
                proof {
                    let acc1 = recs_view(recs@);
                    assert(acc1 =~= acc0 + seq![r_v]);
                    match spec_records(restn) {
                        Ok(t) => {
                            if k == n {
                                assert(t =~= Seq::<MapRecord>::empty());
                                assert(seq![r_v] =~= seq![r_v] + t);
                            }
                            assert(spec_records(rest0) == Ok::<Seq<MapRecord>, ()>(seq![r_v] + t));
                            assert(acc0 + (seq![r_v] + t) =~= acc1 + t);
                        },
                        Err(e_) => {

                            assert(k < n);
                            assert(spec_records(rest0) == Err::<Seq<MapRecord>, ()>(()));
                        },
                    }
                }
            },
            Ok(None) => {
                proof {
                    match spec_records(restn) {
                        Ok(t) => {
                            if k == n {
                                assert(t =~= Seq::<MapRecord>::empty());
                            }
                            assert(spec_records(rest0) == Ok::<Seq<MapRecord>, ()>(t));
                        },
                        Err(e_) => {

                            assert(k < n);
                            assert(spec_records(rest0) == Err::<Seq<MapRecord>, ()>(()));
                        },
                    }
                }
            },
        }
        pos = next_pos;
    }
    proof {
        assert(s@.skip(pos as int) =~= Seq::<u8>::empty());
        assert(spec_records(s@.skip(pos as int)) == Ok::<Seq<MapRecord>, ()>(Seq::empty()));
        assert(recs_view(recs@) + Seq::<MapRecord>::empty() =~= recs_view(recs@));
    }
    Ok(recs)
}

/// One group of the map listing: a pathname and its ranges, in record
/// order.
pub type RangeGroup = (Seq<u8>, Seq<(usize, usize)>);

/// The groups denoted by a vector of exec-level groups.
pub open spec fn groups_view(gs: Seq<(Vec<u8>, Vec<(usize, usize)>)>) -> Seq<RangeGroup> {
    gs.map_values(|g: (Vec<u8>, Vec<(usize, usize)>)| (g.0@, g.1@))
}

/// Files one record into the groups, which are kept sorted by pathname
/// in lexicographic byte order; a record of a known pathname appends its
/// range to that group, a new pathname opens a new group.
pub open spec fn spec_group_insert(groups: Seq<RangeGroup>, r: MapRecord) -> Seq<RangeGroup>
    decreases groups.len(),
{
    if groups.len() == 0 {
        seq![(r.0, seq![(r.1, r.2)])]
    } else if groups[0].0 == r.0 {
        seq![(groups[0].0, groups[0].1.push((r.1, r.2)))] + groups.skip(1)
    } else if spec_lex_lt(r.0, groups[0].0) {
        seq![(r.0, seq![(r.1, r.2)])] + groups
    } else {
        seq![groups[0]] + spec_group_insert(groups.skip(1), r)
    }
}

/// The records grouped by pathname, in lexicographic pathname order.
pub open spec fn spec_group_records(recs: Seq<MapRecord>) -> Seq<RangeGroup>
    decreases recs.len(),
{
    if recs.len() == 0 {
        Seq::empty()
    } else {
        spec_group_insert(spec_group_records(recs.drop_last()), recs.last())
    }
}

/// Filing a record passes over every group whose pathname neither
/// matches nor follows the record's.
proof fn lemma_group_insert_skip(groups: Seq<RangeGroup>, r: MapRecord, j: int)
    requires
        0 <= j <= groups.len(),
        forall|i: int| 0 <= i < j ==> groups[i].0 != r.0 && !spec_lex_lt(r.0, groups[i].0),
    ensures
        spec_group_insert(groups, r) == groups.take(j) + spec_group_insert(groups.skip(j), r),
    decreases j,
{
    if j == 0 {
        assert(groups.skip(0) =~= groups);
        assert(groups.take(0) + spec_group_insert(groups, r) =~= spec_group_insert(groups, r));
    } else {
        let t = groups.skip(1);
        assert forall|i: int| 0 <= i < j - 1 implies t[i].0 != r.0 && !spec_lex_lt(r.0, t[i].0) by {
            assert(t[i] == groups[i + 1]);
        }
        lemma_group_insert_skip(t, r, j - 1);
        assert(t.take(j - 1) =~= groups.subrange(1, j));
        assert(t.skip(j - 1) =~= groups.skip(j));
        assert(seq![groups[0]] + (groups.subrange(1, j) + spec_group_insert(groups.skip(j), r))
            =~= groups.take(j) + spec_group_insert(groups.skip(j), r));
    }
}

/// Files one record into the exec-level groups.
fn group_insert(groups: &mut Vec<(Vec<u8>, Vec<(usize, usize)>)>, rec: (Vec<u8>, usize, usize))
    ensures
        groups_view(final(groups)@) == spec_group_insert(groups_view(old(groups)@), rec_view(rec)),
{
    let ghost r_v: MapRecord = rec_view(rec);
    let ghost gv0 = groups_view(old(groups)@);
    let (path, start, end) = rec;
    proof {
        assert(r_v == (path@, start, end));
        assert(gv0 == groups_view(groups@));
    }
    let n = groups.len();
    let mut j: usize = 0;
    while j < n
        invariant
            0 <= j <= n,
            n == groups@.len(),
            groups_view(groups@) == gv0,
            gv0 == groups_view(old(groups)@),
            r_v == rec_view(rec),
            r_v == (path@, start, end),
            forall|i: int| 0 <= i < j ==> gv0[i].0 != r_v.0 && !spec_lex_lt(r_v.0, gv0[i].0),
        decreases n - j,
    {
        proof {
            assert(gv0[j as int] == (groups@[j as int].0@, groups@[j as int].1@));
        }
        if bytes_eq(groups[j].0.as_slice(), path.as_slice()) {
            let mut g = groups.remove(j);
            g.1.push((start, end));
            groups.insert(j, g);
            proof {
                lemma_group_insert_skip(gv0, r_v, j as int);
                assert(gv0.skip(j as int).len() > 0);
                assert(gv0.skip(j as int)[0] == gv0[j as int]);
                assert(spec_group_insert(gv0.skip(j as int), r_v) == seq![
                    (gv0[j as int].0, gv0[j as int].1.push((start, end))),
                ] + gv0.skip(j as int).skip(1));
                assert(gv0.skip(j as int).skip(1) =~= gv0.skip(j as int + 1));
                assert(groups_view(groups@) =~= gv0.take(j as int) + seq![
                    (gv0[j as int].0, gv0[j as int].1.push((start, end))),
                ] + gv0.skip(j as int + 1));
                assert(gv0.take(j as int) + (seq![
                    (gv0[j as int].0, gv0[j as int].1.push((start, end))),
                ] + gv0.skip(j as int + 1)) =~= gv0.take(j as int) + seq![
                    (gv0[j as int].0, gv0[j as int].1.push((start, end))),
                ] + gv0.skip(j as int + 1));
            }
            return ;
        }
        if lex_lt(path.as_slice(), groups[j].0.as_slice()) {
            let mut ranges: Vec<(usize, usize)> = Vec::new();
            ranges.push((start, end));
            groups.insert(j, (path, ranges));
            proof {
                lemma_group_insert_skip(gv0, r_v, j as int);
                assert(spec_group_insert(gv0.skip(j as int), r_v) == seq![(r_v.0, seq![(start, end)])]
                    + gv0.skip(j as int));
                assert(groups_view(groups@) =~= gv0.take(j as int) + seq![
                    (r_v.0, seq![(start, end)]),
                ] + gv0.skip(j as int));
                assert(gv0.take(j as int) + (seq![(r_v.0, seq![(start, end)])] + gv0.skip(
                    j as int,
                )) =~= gv0.take(j as int) + seq![(r_v.0, seq![(start, end)])] + gv0.skip(j as int));
            }
            return ;
        }
        j = j + 1;
    }
    let mut ranges: Vec<(usize, usize)> = Vec::new();
    ranges.push((start, end));
    groups.push((path, ranges));
    proof {
        lemma_group_insert_skip(gv0, r_v, n as int);
        assert(gv0.skip(n as int) =~= Seq::<RangeGroup>::empty());
        assert(spec_group_insert(Seq::<RangeGroup>::empty(), r_v) == seq![
            (r_v.0, seq![(start, end)]),
        ]);
        assert(groups_view(groups@) =~= gv0.take(n as int) + seq![(r_v.0, seq![(start, end)])]);
    }
}

/// Inserts a range into a start-sorted list, after any equal starts.
pub open spec fn spec_insert_range(rs: Seq<(usize, usize)>, r: (usize, usize)) -> Seq<
    (usize, usize),
>
    decreases rs.len(),
{
    if rs.len() == 0 {
        seq![r]
    } else if r.0 < rs[0].0 {
        seq![r] + rs
    } else {
        seq![rs[0]] + spec_insert_range(rs.skip(1), r)
    }
}

/// The ranges sorted by start, equal starts keeping their order.
pub open spec fn spec_sort_ranges(rs: Seq<(usize, usize)>) -> Seq<(usize, usize)>
    decreases rs.len(),
{
    if rs.len() == 0 {
        Seq::empty()
    } else {
        spec_insert_range(spec_sort_ranges(rs.drop_last()), rs.last())
    }
}

proof fn lemma_insert_range_skip(rs: Seq<(usize, usize)>, r: (usize, usize), j: int)
    requires
        0 <= j <= rs.len(),
        forall|i: int| 0 <= i < j ==> !(r.0 < rs[i].0),
    ensures
        spec_insert_range(rs, r) == rs.take(j) + spec_insert_range(rs.skip(j), r),
    decreases j,
{
    if j == 0 {
        assert(rs.skip(0) =~= rs);
        assert(rs.take(0) + spec_insert_range(rs, r) =~= spec_insert_range(rs, r));
    } else {
        let t = rs.skip(1);
        assert forall|i: int| 0 <= i < j - 1 implies !(r.0 < t[i].0) by {
            assert(t[i] == rs[i + 1]);
        }
        lemma_insert_range_skip(t, r, j - 1);
        assert(t.take(j - 1) =~= rs.subrange(1, j));
        assert(t.skip(j - 1) =~= rs.skip(j));
        assert(seq![rs[0]] + (rs.subrange(1, j) + spec_insert_range(rs.skip(j), r)) =~= rs.take(j)
            + spec_insert_range(rs.skip(j), r));
    }
}

/// Sorts the ranges of one group by start, keeping equal starts in
/// their original order.
fn sort_ranges(rs: &Vec<(usize, usize)>) -> (out: Vec<(usize, usize)>)
    ensures
        out@ == spec_sort_ranges(rs@),
{
    let n = rs.len();
    let mut out: Vec<(usize, usize)> = Vec::new();
    let mut i: usize = 0;
    proof {
        assert(rs@.take(0) =~= Seq::<(usize, usize)>::empty());
    }
    while i < n
        invariant
            0 <= i <= n,
            n == rs@.len(),
            out@ == spec_sort_ranges(rs@.take(i as int)),
        decreases n - i,
    {
        let r = rs[i];
        let ghost out0 = out@;
        // find the first place whose start exceeds the new range's
        let m = out.len();
        let mut j: usize = 0;
        while j < m && out[j].0 <= r.0
            invariant
                0 <= j <= m,
                m == out@.len(),
                out@ == out0,
                forall|i2: int| 0 <= i2 < j ==> !(r.0 < out0[i2].0),
            decreases m - j,
        {
            j = j + 1;
        }
        out.insert(j, r);
        proof {
            lemma_insert_range_skip(out0, r, j as int);
            if j < m {
                assert(spec_insert_range(out0.skip(j as int), r) == seq![r] + out0.skip(j as int));
            } else {
                assert(out0.skip(j as int) =~= Seq::<(usize, usize)>::empty());
                assert(spec_insert_range(out0.skip(j as int), r) == seq![r]);
            }
            assert(out@ =~= out0.take(j as int) + seq![r] + out0.skip(j as int));
            assert(out@ =~= out0.take(j as int) + spec_insert_range(out0.skip(j as int), r));
            assert(rs@.take(i as int + 1).drop_last() =~= rs@.take(i as int));
            assert(rs@.take(i as int + 1).last() == rs@[i as int]);
        }
        i = i + 1;
    }
    proof {
        assert(rs@.take(n as int) =~= rs@);
    }
    out
}

/// Merging a start-sorted range list: a range whose start does not
/// exceed the open range's end extends it to the larger end; any other
/// range closes it and opens a new one.
pub open spec fn spec_merge_from(rest: Seq<(usize, usize)>, cur: (usize, usize)) -> Seq<
    (usize, usize),
>
    decreases rest.len(),
{
    if rest.len() == 0 {
        seq![cur]
    } else if rest[0].0 <= cur.1 {
        spec_merge_from(
            rest.skip(1),
            (
                cur.0,
                if rest[0].1 > cur.1 {
                    rest[0].1
                } else {
                    cur.1
                },
            ),
        )
    } else {
        seq![cur] + spec_merge_from(rest.skip(1), rest[0])
    }
}

/// The merged ranges of one group; empty input merges to nothing.
pub open spec fn spec_merge(rs: Seq<(usize, usize)>) -> Seq<(usize, usize)> {
    if rs.len() == 0 {
        Seq::empty()
    } else {
        spec_merge_from(rs.skip(1), rs[0])
    }
}

/// Merges a start-sorted range list, joining touching or overlapping
/// ranges.
fn merge_ranges(rs: &Vec<(usize, usize)>) -> (out: Vec<(usize, usize)>)
    ensures
        out@ == spec_merge(rs@),
{
    let n = rs.len();
    let mut out: Vec<(usize, usize)> = Vec::new();
    if n == 0 {
        proof {
            assert(out@ =~= spec_merge(rs@));
        }
        return out;
    }
    let mut cur: (usize, usize) = rs[0];
    let mut i: usize = 1;
    proof {
        assert(rs@.skip(1).skip(0) =~= rs@.skip(1));
        assert(out@ + spec_merge_from(rs@.skip(1), cur) =~= spec_merge_from(rs@.skip(1), cur));
    }
    while i < n
        invariant
            1 <= i <= n,
            n == rs@.len(),
            spec_merge(rs@) == out@ + spec_merge_from(rs@.skip(i as int), cur),
        decreases n - i,
    {
        let ghost rest0 = rs@.skip(i as int);
        proof {
            assert(rest0.len() > 0);
            assert(rest0[0] == rs@[i as int]);
            assert(rest0.skip(1) =~= rs@.skip(i as int + 1));
        }
        let (s, e) = rs[i];
        if s <= cur.1 {
            cur = (cur.0, if e > cur.1 {
                e
            } else {
                cur.1
            });
        } else {
            let ghost out0 = out@;
            let ghost cur0 = cur;
            out.push(cur);
            cur = (s, e);
            proof {
                assert(out@ =~= out0 + seq![cur0]);
                assert(spec_merge_from(rest0, cur0) == seq![cur0] + spec_merge_from(
                    rest0.skip(1),
                    rest0[0],
                ));
                assert(out0 + (seq![cur0] + spec_merge_from(rest0.skip(1), rest0[0])) =~= out@
                    + spec_merge_from(rest0.skip(1), rest0[0]));
                assert(cur == rest0[0]);
            }
        }
        i = i + 1;
    }
    proof {
        assert(rs@.skip(n as int) =~= Seq::<(usize, usize)>::empty());
    }
    out.push(cur);
    out
}

/// The regions one merged group yields, tagged with its pathname.
pub open spec fn ranges_to_regions(rs: Seq<(usize, usize)>, path: Seq<u8>) -> Seq<RegionView> {
    Seq::new(rs.len(), |i: int| RegionView { start: rs[i].0 as int, end: rs[i].1 as int, pathname: path })
}

/// Every group's ranges sorted, merged and tagged, group by group.
pub open spec fn spec_all_regions(groups: Seq<RangeGroup>) -> Seq<RegionView>
    decreases groups.len(),
{
    if groups.len() == 0 {
        Seq::empty()
    } else {
        ranges_to_regions(spec_merge(spec_sort_ranges(groups[0].1)), groups[0].0)
            + spec_all_regions(groups.skip(1))
    }
}

/// Inserts a region into a start-sorted list, after any equal starts.
pub open spec fn spec_insert_region(rs: Seq<RegionView>, r: RegionView) -> Seq<RegionView>
    decreases rs.len(),
{
    if rs.len() == 0 {
        seq![r]
    } else if r.start < rs[0].start {
        seq![r] + rs
    } else {
        seq![rs[0]] + spec_insert_region(rs.skip(1), r)
    }
}

/// The regions sorted by start, equal starts keeping their order.
pub open spec fn spec_sort_regions(rs: Seq<RegionView>) -> Seq<RegionView>
    decreases rs.len(),
{
    if rs.len() == 0 {
        Seq::empty()
    } else {
        spec_insert_region(spec_sort_regions(rs.drop_last()), rs.last())
    }
}

proof fn lemma_insert_region_skip(rs: Seq<RegionView>, r: RegionView, j: int)
    requires
        0 <= j <= rs.len(),
        forall|i: int| 0 <= i < j ==> !(r.start < rs[i].start),
    ensures
        spec_insert_region(rs, r) == rs.take(j) + spec_insert_region(rs.skip(j), r),
    decreases j,
{
    if j == 0 {
        assert(rs.skip(0) =~= rs);
        assert(rs.take(0) + spec_insert_region(rs, r) =~= spec_insert_region(rs, r));
    } else {
        let t = rs.skip(1);
        assert forall|i: int| 0 <= i < j - 1 implies !(r.start < t[i].start) by {
            assert(t[i] == rs[i + 1]);
        }
        lemma_insert_region_skip(t, r, j - 1);
        assert(t.take(j - 1) =~= rs.subrange(1, j));
        assert(t.skip(j - 1) =~= rs.skip(j));
        assert(seq![rs[0]] + (rs.subrange(1, j) + spec_insert_region(rs.skip(j), r)) =~= rs.take(j)
            + spec_insert_region(rs.skip(j), r));
    }
}

/// The regions denoted by a vector of regions.
pub open spec fn mem_regions_view(rs: Seq<MemoryRegion>) -> Seq<RegionView> {
    rs.map_values(|r: MemoryRegion| r@)
}

/// The region table that a map listing yields: records grouped by
/// pathname, each group's ranges sorted and merged, and the resulting
/// regions sorted by start; `None` when a hex field is unparsable.
pub open spec fn spec_region_table(s: Seq<u8>) -> Option<Seq<RegionView>> {
    match spec_records(s) {
        Err(()) => None,
        Ok(recs) => Some(spec_sort_regions(spec_all_regions(spec_group_records(recs)))),
    }
}

/// A region takes part in pattern scanning unless its pathname marks an
/// anonymous or pseudo mapping (leading `[`) or a device mapping
/// (leading `/dev`): those cannot hold a stable binary image.
pub open spec fn spec_scannable(r: RegionView) -> bool {
    &&& !(r.pathname.len() > 0 && r.pathname[0] == 0x5bu8)
    &&& !spec_starts_with(r.pathname, seq![0x2fu8, 0x64u8, 0x65u8, 0x76u8])
}

/// Tests whether a region takes part in pattern scanning.
pub fn is_scannable(region: &MemoryRegion) -> (r: bool)
    ensures
        r == spec_scannable(region@),
{
    let mut dev: Vec<u8> = Vec::new();
    dev.push(0x2fu8);
    dev.push(0x64u8);
    dev.push(0x65u8);
    dev.push(0x76u8);
    proof {
        assert(dev@ =~= seq![0x2fu8, 0x64u8, 0x65u8, 0x76u8]);
    }
    let bracket = region.pathname.len() > 0 && region.pathname[0] == 0x5bu8;
    let is_dev = starts_with(region.pathname.as_slice(), dev.as_slice());
    !bracket && !is_dev
}

/// A scan hit: the address lies in a scannable region, with the whole
/// pattern inside the region's inclusive range.
pub open spec fn scan_hit(rs: Seq<RegionView>, a: usize, plen: int) -> bool {
    exists|i: int|
        0 <= i < rs.len() && spec_scannable(rs[i]) && rs[i].start <= a && a + plen <= rs[i].end
}

/// The pattern matches the buffer at offset `i`: every literal slot
/// equals the byte under it; wildcard slots match any byte.
pub open spec fn pattern_matches_at(data: Seq<u8>, pat: Seq<Option<u8>>, i: int) -> bool {
    &&& 0 <= i
    &&& i + pat.len() <= data.len()
    &&& forall|j: int| 0 <= j < pat.len() ==> (#[trigger] pat[j] matches Some(b) ==> data[i + j] == b)
}

/// Finds the least offset at which the pattern matches the buffer. A
/// pattern longer than the buffer matches nowhere; an empty pattern
/// matches at offset zero.
pub fn scan_pattern_in_buffer(data: &[u8], pattern: &[Option<u8>]) -> (r: Option<usize>)
    ensures
        match r {
            Some(i) => pattern_matches_at(data@, pattern@, i as int) && forall|i2: int|
                0 <= i2 < i ==> !pattern_matches_at(data@, pattern@, i2),
            None => forall|i2: int| !pattern_matches_at(data@, pattern@, i2),
        },
{
    let dlen = data.len();
    let plen = pattern.len();
    if plen > dlen {
        return None;
    }
    let mut i: usize = 0;
    while i <= dlen - plen
        invariant
            0 <= i <= dlen - plen + 1,
            plen <= dlen,
            dlen == data@.len(),
            plen == pattern@.len(),
            forall|i2: int| 0 <= i2 < i ==> !pattern_matches_at(data@, pattern@, i2),
        decreases dlen - plen - i + 1,
    {
        if pattern_matches_here(data, pattern, i) {
            return Some(i);
        }
        i = i + 1;
    }
    proof {
        assert forall|i2: int| !pattern_matches_at(data@, pattern@, i2) by {
            if 0 <= i2 <= dlen - plen {
                assert(!pattern_matches_at(data@, pattern@, i2));
            }
        }
    }
    None
}

/// Compares the pattern against the buffer at one offset.
fn pattern_matches_here(data: &[u8], pattern: &[Option<u8>], i: usize) -> (r: bool)
    requires
        i + pattern@.len() <= data@.len(),
    ensures
        r == pattern_matches_at(data@, pattern@, i as int),
{
    let plen = pattern.len();
    let dn = data.len();
    let mut j: usize = 0;
    while j < plen
        invariant
            0 <= j <= plen,
            plen == pattern@.len(),
            dn == data@.len(),
            i + plen <= dn,
            forall|j2: int| 0 <= j2 < j ==> (#[trigger] pattern@[j2] matches Some(b) ==> data@[i + j2] == b),
        decreases plen - j,
    {
        match pattern[j] {
            Some(b) => {
                if data[i + j] != b {
                    assert(!pattern_matches_at(data@, pattern@, i as int));
                    return false;
                }
            },
            None => {
            },
        }
        j = j + 1;
    }
    true
}

/// Groups the records by pathname.
fn group_records(recs: Vec<(Vec<u8>, usize, usize)>) -> (out: Vec<(Vec<u8>, Vec<(usize, usize)>)>)
    ensures
        groups_view(out@) == spec_group_records(recs_view(recs@)),
{
    let ghost rv = recs_view(recs@);
    let n = recs.len();
    let mut out: Vec<(Vec<u8>, Vec<(usize, usize)>)> = Vec::new();
    let mut i: usize = 0;
    let mut recs = recs;
    proof {
        assert(groups_view(out@) =~= Seq::<RangeGroup>::empty());
        assert(rv.take(0) =~= Seq::<MapRecord>::empty());
    }
    while i < n
        invariant
            0 <= i <= n,
            n == rv.len(),
            recs@.len() == n - i,
            recs_view(recs@) =~= rv.skip(i as int),
            groups_view(out@) == spec_group_records(rv.take(i as int)),
        decreases n - i,
    {
        let ghost recs0 = recs@;
        let rec = recs.remove(0);
        proof {
            assert(rec_view(rec) == recs_view(recs0)[0]);
            assert(rec_view(rec) == rv[i as int]);
            assert(recs_view(recs@) =~= recs_view(recs0).skip(1));
            assert(recs_view(recs@) =~= rv.skip(i as int + 1));
            assert(rv.take(i as int + 1).drop_last() =~= rv.take(i as int));
            assert(rv.take(i as int + 1).last() == rv[i as int]);
        }
        group_insert(&mut out, rec);
        i = i + 1;
    }
    proof {
        assert(rv.take(n as int) =~= rv);
    }
    out
}

/// The merged regions of every group, in group order.
fn regions_of_groups(groups: &Vec<(Vec<u8>, Vec<(usize, usize)>)>) -> (out: Vec<MemoryRegion>)
    ensures
        mem_regions_view(out@) == spec_all_regions(groups_view(groups@)),
{
    let n = groups.len();
    let mut out: Vec<MemoryRegion> = Vec::new();
    let mut i: usize = 0;
    proof {
        assert(mem_regions_view(out@) =~= Seq::<RegionView>::empty());
        assert(groups_view(groups@).skip(0) =~= groups_view(groups@));
        assert(mem_regions_view(out@) + spec_all_regions(groups_view(groups@)) =~= spec_all_regions(
            groups_view(groups@),
        ));
    }
    while i < n
        invariant
            0 <= i <= n,
            n == groups@.len(),
            spec_all_regions(groups_view(groups@)) == mem_regions_view(out@) + spec_all_regions(
                groups_view(groups@).skip(i as int),
            ),
        decreases n - i,
    {
        let ghost gv = groups_view(groups@);
        let ghost out0 = mem_regions_view(out@);
        let sorted = sort_ranges(&groups[i].1);
        let merged = merge_ranges(&sorted);
        proof {
            assert(gv.skip(i as int).len() > 0);
            assert(gv.skip(i as int)[0] == gv[i as int]);
            assert(gv[i as int] == (groups@[i as int].0@, groups@[i as int].1@));
            assert(merged@ == spec_merge(spec_sort_ranges(gv[i as int].1)));
            assert(gv.skip(i as int).skip(1) =~= gv.skip(i as int + 1));
        }
        let m = merged.len();
        let mut k: usize = 0;
        while k < m
            invariant
                0 <= k <= m,
                m == merged@.len(),
                i < n,
                n == groups@.len(),
                mem_regions_view(out@) =~= out0 + ranges_to_regions(
                    merged@,
                    groups@[i as int].0@,
                ).take(k as int),
            decreases m - k,
        {
            let (s, e) = merged[k];
            let pathname = copy_range(groups[i].0.as_slice(), 0, groups[i].0.len());
            proof {
                assert(pathname@ =~= groups@[i as int].0@);
            }
            let reg = MemoryRegion { start: s, end: e, pathname };
            let ghost prev = mem_regions_view(out@);
            proof {
                let seg = ranges_to_regions(merged@, groups@[i as int].0@);
                assert(seg[k as int] == RegionView {
                    start: merged@[k as int].0 as int,
                    end: merged@[k as int].1 as int,
                    pathname: groups@[i as int].0@,
                });
                assert(reg@ == seg[k as int]);
            }
            out.push(reg);
            proof {
                let seg = ranges_to_regions(merged@, groups@[i as int].0@);
                assert(mem_regions_view(out@) =~= prev.push(reg@));
                assert(seg.take(k as int + 1) =~= seg.take(k as int).push(seg[k as int]));
                assert(mem_regions_view(out@) =~= out0 + seg.take(k as int + 1));
            }
            k = k + 1;
        }
        proof {
            let seg = ranges_to_regions(merged@, groups@[i as int].0@);
            assert(seg.take(m as int) =~= seg);
            assert(mem_regions_view(out@) =~= out0 + seg);
            assert(out0 + (seg + spec_all_regions(groups_view(groups@).skip(i as int + 1))) =~= (
            out0 + seg) + spec_all_regions(groups_view(groups@).skip(i as int + 1)));
        }
        i = i + 1;
    }
    proof {
        assert(groups_view(groups@).skip(n as int) =~= Seq::<RangeGroup>::empty());
        assert(mem_regions_view(out@) + Seq::<RegionView>::empty() =~= mem_regions_view(out@));
    }
    out
}

/// Sorts the regions by start, equal starts keeping their order.
fn sort_regions(regions: Vec<MemoryRegion>) -> (out: Vec<MemoryRegion>)
    ensures
        mem_regions_view(out@) == spec_sort_regions(mem_regions_view(regions@)),
{
    let ghost rv = mem_regions_view(regions@);
    let n = regions.len();
    let mut out: Vec<MemoryRegion> = Vec::new();
    let mut i: usize = 0;
    let mut regions = regions;
    proof {
        assert(mem_regions_view(out@) =~= Seq::<RegionView>::empty());
        assert(rv.take(0) =~= Seq::<RegionView>::empty());
    }
    while i < n
        invariant
            0 <= i <= n,
            n == rv.len(),
            regions@.len() == n - i,
            mem_regions_view(regions@) =~= rv.skip(i as int),
            mem_regions_view(out@) == spec_sort_regions(rv.take(i as int)),
        decreases n - i,
    {
        let ghost regions0 = regions@;
        let ghost ov = mem_regions_view(out@);
        let r = regions.remove(0);
        proof {
            assert(r@ == mem_regions_view(regions0)[0]);
            assert(r@ == rv[i as int]);
            assert(mem_regions_view(regions@) =~= mem_regions_view(regions0).skip(1));
            assert(mem_regions_view(regions@) =~= rv.skip(i as int + 1));
        }
        // find the first place whose start exceeds the new region's
        let m = out.len();
        let mut j: usize = 0;
        while j < m && out[j].start <= r.start
            invariant
                0 <= j <= m,
                m == out@.len(),
                mem_regions_view(out@) == ov,
                forall|i2: int| 0 <= i2 < j ==> !(r@.start < ov[i2].start),
            decreases m - j,
        {
            proof {
                assert(ov[j as int] == out@[j as int]@);
            }
            j = j + 1;
        }
        proof {
            assert(j < m ==> ov[j as int] == out@[j as int]@);
        }
        out.insert(j, r);
        proof {
            lemma_insert_region_skip(ov, r@, j as int);
            if j < m {
                assert(spec_insert_region(ov.skip(j as int), r@) == seq![r@] + ov.skip(j as int));
            } else {
                assert(ov.skip(j as int) =~= Seq::<RegionView>::empty());
                assert(spec_insert_region(ov.skip(j as int), r@) == seq![r@]);
            }
            assert(mem_regions_view(out@) =~= ov.take(j as int) + seq![r@] + ov.skip(j as int));
            assert(ov.take(j as int) + (seq![r@] + ov.skip(j as int)) =~= ov.take(j as int)
                + seq![r@] + ov.skip(j as int));
            assert(rv.take(i as int + 1).drop_last() =~= rv.take(i as int));
            assert(rv.take(i as int + 1).last() == rv[i as int]);
        }
        i = i + 1;
    }
    proof {
        assert(rv.take(n as int) =~= rv);
    }
    out
}

impl Memory {
    /// Builds the region table of the process `pid` from the text of its
    /// memory-map listing, one mapping per line. Records are grouped by
    /// pathname; within a group, ranges sorted by start are merged when
    /// one starts at or before the open range's end; the merged regions
    /// come out sorted by start. The only failure is an unparsable hex
    /// field in an address range.
    pub fn new(pid: i32, maps: &str) -> (r: Result<Memory, MemoryError>)
        ensures
            match r {
                Ok(m) => m@.pid == pid as int && spec_region_table(maps.spec_bytes()) == Some(
                    m@.regions,
                ),
                Err(e) => spec_region_table(maps.spec_bytes()) is None && e
                    == MemoryError::InvalidAddress,
            },
    {
        let bytes = maps.as_bytes();
        let recs = match parse_records(bytes) {
            Ok(recs) => recs,
            Err(e) => {
                return Err(e);
            },
        };
        let groups = group_records(recs);
        let flat = regions_of_groups(&groups);
        let memory_regions = sort_regions(flat);
        let m = Memory { pid, memory_regions };
        proof {
            assert(m@.regions =~= mem_regions_view(m.memory_regions@));
        }
        Ok(m)
    }

    /// The regions of the table, ascending by start.
    pub fn memory_regions(&self) -> (r: &Vec<MemoryRegion>)
        ensures
            mem_regions_view(r@) == self@.regions,
    {
        proof {
            assert(mem_regions_view(self.memory_regions@) =~= self@.regions);
        }
        &self.memory_regions
    }

    /// Scans the scannable regions in ascending start order for the
    /// signature's pattern; the first match wins, lowest region first,
    /// lowest offset within it. A scannable region that does not begin
    /// with an ELF magic is skipped, and the later regions are still
    /// scanned, so the scan never fails with `InvalidElf`; read
    /// failures end it.
    pub fn scan_signature<R: ProcessRead>(&self, reader: &R, signature: &IdaSignature) -> (r:
        Result<Option<usize>, MemoryError>)
        ensures
            r matches Ok(Some(a)) ==> scan_hit(
                self@.regions,
                a,
                signature.spec_pattern().len() as int,
            ),
            r matches Err(e) ==> e is Io || e is PartialRead,
    {
        let n = self.memory_regions.len();
        let mut i: usize = 0;
        while i < n
            invariant
                0 <= i <= n,
                n == self.memory_regions@.len(),
                n == self@.regions.len(),
            decreases n - i,
        {
            let region = &self.memory_regions[i];
            proof {
                assert(self@.regions[i as int] == region@);
            }
            if is_scannable(region) {
                match self.scan_signature_in_region(reader, signature, region) {
                    Ok(Some(address)) => {
                        return Ok(Some(address));
                    },
                    Ok(None) => {
                    },
                    // a region without an image header is skipped; the
                    // other regions are still scanned
                    Err(MemoryError::InvalidElf(_)) => {
                    },
                    Err(e) => {
                        return Err(e);
                    },
                }
            }
            i = i + 1;
        }
        Ok(None)
    }

    /// Scans one region: its leading bytes must be an ELF magic, then
    /// its whole content is searched for the pattern.
    fn scan_signature_in_region<R: ProcessRead>(
        &self,
        reader: &R,
        signature: &IdaSignature,
        region: &MemoryRegion,
    ) -> (r: Result<Option<usize>, MemoryError>)
        ensures
            r matches Ok(Some(a)) ==> region@.start <= a && a + signature.spec_pattern().len()
                <= region@.end,
            r matches Err(e) ==> e is Io || e is PartialRead || (e matches MemoryError::InvalidElf(
                m,
            ) && m != 0x7F454C46 && m != 0x464C457F),
    {
        let data = match self.dump_elf(reader, region) {
            Ok(Some(data)) => data,
            Ok(None) => {
                return Ok(None);
            },
            Err(e) => {
                return Err(e);
            },
        };
        let pattern = signature.pattern();
        match scan_pattern_in_buffer(data.as_slice(), pattern.as_slice()) {
            Some(i) => {
                assert(i + pattern@.len() <= data@.len());
                Ok(Some(region.start + i))
            },
            None => Ok(None),
        }
    }

    /// Reads a region's content for scanning: the first four bytes must
    /// hold an ELF magic, in either byte order; a region whose end
    /// precedes its start holds no image and yields nothing.
    fn dump_elf<R: ProcessRead>(&self, reader: &R, region: &MemoryRegion) -> (r: Result<
        Option<Vec<u8>>,
        MemoryError,
    >)
        ensures
            r matches Ok(Some(d)) ==> region@.start <= region@.end && d@.len() == region@.end
                - region@.start,
            r matches Ok(o) ==> (o is None ==> region@.end < region@.start),
            r matches Err(e) ==> e is Io || e is PartialRead || (e matches MemoryError::InvalidElf(
                m,
            ) && m != 0x7F454C46 && m != 0x464C457F),
    {
        let magic_bytes = match reader.read_bytes(region.start, 4) {
            Ok(b) => b,
            Err(e) => {
                return Err(e);
            },
        };
        let magic = vstd::bytes::u32_from_le_bytes(magic_bytes.as_slice());
        if magic != 0x7F454C46 && magic != 0x464C457F {
            return Err(MemoryError::InvalidElf(magic));
        }
        if region.end < region.start {
            return Ok(None);
        }
        match reader.read_bytes(region.start, region.end - region.start) {
            Ok(d) => Ok(Some(d)),
            Err(e) => Err(e),
        }
    }

    /// The first region whose inclusive `[start, end]` range contains
    /// the address, if any.
    pub fn find_containing_region(&self, address: usize) -> (r: Option<&MemoryRegion>)
        ensures
            match r {
                Some(region) => first_containing(self@.regions, address as int) == Some(region@),
                None => first_containing(self@.regions, address as int) is None,
            },
    {
        let n = self.memory_regions.len();
        let mut i: usize = 0;
        proof {
            assert(self@.regions.skip(0) =~= self@.regions);
        }
        while i < n
            invariant
                0 <= i <= n,
                n == self.memory_regions@.len(),
                n == self@.regions.len(),
                first_containing(self@.regions, address as int) == first_containing(
                    self@.regions.skip(i as int),
                    address as int,
                ),
            decreases n - i,
        {
            let region = &self.memory_regions[i];
            proof {
                assert(self@.regions.skip(i as int)[0] == self@.regions[i as int]);
                assert(self@.regions[i as int] == region@);
                assert(self@.regions.skip(i as int).skip(1) =~= self@.regions.skip(i as int + 1));
            }
            if address >= region.start && address <= region.end {
                return Some(region);
            }
            i = i + 1;
        }
        proof {
            assert(self@.regions.skip(n as int) =~= Seq::<RegionView>::empty());
        }
        None
    }
}

} // verus!
