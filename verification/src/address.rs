//! Address locators and their resolution: an absolute address checked
//! against the region table, a wildcarded byte-pattern signature, or a
//! signature followed by a chain of pointer dereferences.

use vstd::prelude::*;

use crate::memory::scan_hit;
use crate::memory::RegionView;
use crate::memory::valid_pointer;
use crate::memory::Memory;
use crate::memory::MemoryError;
use crate::reader::read_displacement;
use crate::reader::read_pointer;
use crate::reader::ProcessRead;
use vstd::wrapping::usize_specs;

verus! {

/// Where, relative to a pattern match, a 4-byte little-endian signed
/// displacement lives, and how many trailing instruction bytes follow
/// it: the shape of RIP-relative addressing.
#[derive(Debug, Clone, Copy)]
pub struct Offset {
    pub offset: usize,
    pub instruction_size: usize,
}

/// A wildcard-capable byte pattern, with an optional RIP-relative
/// correction applied to its match address.
#[derive(Debug, Clone)]
pub struct IdaSignature {
    signature: Vec<Option<u8>>,
    offset: Option<Offset>,
}

impl IdaSignature {
    /// The pattern: literal bytes and wildcard slots, in order.
    pub closed spec fn spec_pattern(&self) -> Seq<Option<u8>> {
        self.signature@
    }

    /// The RIP-relative correction, if the signature carries one.
    pub closed spec fn spec_offset(&self) -> Option<Offset> {
        self.offset
    }

    /// Builds a signature from its pattern and optional correction.
    pub fn new(signature: Vec<Option<u8>>, offset: Option<Offset>) -> (r: Self)
        ensures
            r.spec_pattern() == signature@,
            r.spec_offset() == offset,
    {
        Self { signature, offset }
    }

    /// The pattern slots.
    pub fn pattern(&self) -> (r: &Vec<Option<u8>>)
        ensures
            r@ == self.spec_pattern(),
    {
        &self.signature
    }
}

/// A symbolic description of an address in the target process.
#[derive(Debug, Clone)]
pub enum AddressLocator {
    /// A literal address, valid only inside some known region.
    Absolute(usize),
    /// The address where a byte signature matches.
    Pattern(IdaSignature),
    /// A signature match followed by pointer dereference hops; the last
    /// offset is added without being dereferenced or validated.
    PointerChain(IdaSignature, Vec<usize>),
}

/// Addition that wraps around the address space, as pointer arithmetic
/// in a flat address space does.
pub open spec fn wrap_add(a: usize, b: usize) -> usize {
    usize_specs::wrapping_add(a, b)
}

/// What resolving a signature can yield: a scan hit itself when the
/// signature carries no RIP correction, and otherwise a scan hit moved
/// by some 4-byte signed displacement plus the instruction size, with
/// wraparound.
pub open spec fn resolved_signature_value(rs: Seq<RegionView>, sig: IdaSignature, v: usize) -> bool {
    match sig.spec_offset() {
        None => scan_hit(rs, v, sig.spec_pattern().len() as int),
        Some(o) => exists|b: usize, d: i32|
            scan_hit(rs, b, sig.spec_pattern().len() as int) && v == usize_specs::wrapping_add(
                #[trigger] usize_specs::wrapping_add_signed(b, d as isize),
                o.instruction_size,
            ),
    }
}

impl AddressLocator {
    /// Resolves the locator to a concrete address.
    ///
    /// An absolute address resolves to itself exactly when some region
    /// contains it, and fails as an invalid pointer otherwise. A pattern
    /// resolves to a scan hit, RIP-corrected when the signature says so;
    /// an empty pointer chain yields that base unchanged; a chain of one
    /// offset adds it to the base; a longer chain yields the sum of a
    /// validated pointer and the final offset, which is itself neither
    /// dereferenced nor validated. An `InvalidPointer` failure always
    /// names an address outside every region: no address that needed
    /// validation skips it.
    pub fn resolve<R: ProcessRead>(&self, memory: &Memory, reader: &R) -> (r: Result<
        usize,
        MemoryError,
    >)
        ensures
            self matches AddressLocator::Absolute(a) ==> (match r {
                Ok(v) => v == a && valid_pointer(memory@.regions, a as int),
                Err(e) => e == MemoryError::InvalidPointer(*a) && !valid_pointer(
                    memory@.regions,
                    a as int,
                ),
            }),
            self matches AddressLocator::Pattern(sig) ==> (r matches Ok(v)
                ==> resolved_signature_value(memory@.regions, *sig, v)),
            self matches AddressLocator::PointerChain(sig, offsets) ==> (offsets@.len() == 0 ==> (r
            matches Ok(v) ==> resolved_signature_value(memory@.regions, *sig, v))),
            self matches AddressLocator::PointerChain(sig, offsets) ==> (offsets@.len() == 1 ==> (r
            matches Ok(v) ==> exists|b: usize|
                resolved_signature_value(memory@.regions, *sig, b) && v == wrap_add(
                    b,
                    offsets@[0],
                ))),
            self matches AddressLocator::PointerChain(sig, offsets) ==> (offsets@.len() >= 2 ==> (r
            matches Ok(v) ==> exists|p: usize|
                valid_pointer(memory@.regions, p as int) && v == wrap_add(p, offsets@.last()))),
            r matches Err(e) ==> (e matches MemoryError::InvalidPointer(x) ==> !valid_pointer(
                memory@.regions,
                x as int,
            )),
    {
        match self {
            AddressLocator::Absolute(address) => {
                if memory.is_pointer_valid(*address) {
                    Ok(*address)
                } else {
                    Err(MemoryError::InvalidPointer(*address))
                }
            },
            AddressLocator::Pattern(signature) => self.resolve_signature(memory, reader, signature),
            AddressLocator::PointerChain(signature, offsets) => {
                let base_address = match self.resolve_signature(memory, reader, signature) {
                    Ok(v) => v,
                    Err(e) => {
                        return Err(e);
                    },
                };
                let num = offsets.len();
                if num == 0 {
                    return Ok(base_address);
                }
                let mut address = base_address;
                let mut idx: usize = 0;
                while idx < num - 1
                    invariant
                        *self == AddressLocator::PointerChain(*signature, *offsets),
                        0 <= idx <= num - 1,
                        num == offsets@.len(),
                        resolved_signature_value(memory@.regions, *signature, base_address),
                        idx == 0 ==> address == base_address,
                        idx > 0 ==> valid_pointer(memory@.regions, address as int),
                    decreases num - idx,
                {
                    let hop = address.wrapping_add(offsets[idx]);
                    let new_address = match read_pointer(reader, hop) {
                        Ok(v) => v,
                        Err(e) => {
                            return Err(e);
                        },
                    };
                    if !memory.is_pointer_valid(new_address) {
                        return Err(MemoryError::InvalidPointer(new_address));
                    }
                    address = new_address;
                    idx = idx + 1;
                }
                Ok(address.wrapping_add(offsets[num - 1]))
            },
        }
    }

    /// Resolves a signature: the scan's match address, corrected by the
    /// signature's RIP-relative offset when it carries one. Every
    /// success is a scan hit, moved by a read displacement and the
    /// instruction size when the signature has a RIP correction; a
    /// failure is the exhausted scan or a failed read, never an invalid
    /// pointer.
    fn resolve_signature<R: ProcessRead>(
        &self,
        memory: &Memory,
        reader: &R,
        signature: &IdaSignature,
    ) -> (r: Result<usize, MemoryError>)
        ensures
            r matches Ok(v) ==> resolved_signature_value(memory@.regions, *signature, v),
            r matches Err(e) ==> e is SignatureNotFound || e is Io || e is PartialRead,
    {
        let base_address = match memory.scan_signature(reader, signature) {
            Ok(Some(v)) => v,
            Ok(None) => {
                return Err(MemoryError::SignatureNotFound);
            },
            Err(e) => {
                return Err(e);
            },
        };
        match signature.rip_offset() {
            Some(offset) => {
                let displacement = match read_displacement(
                    reader,
                    base_address.wrapping_add(offset.offset),
                ) {
                    Ok(v) => v,
                    Err(e) => {
                        return Err(e);
                    },
                };
                Ok(apply_rip_offset(base_address, displacement, offset.instruction_size))
            },
            None => Ok(base_address),
        }
    }
}

impl IdaSignature {
    /// The RIP-relative correction, if the signature carries one.
    pub fn rip_offset(&self) -> (r: Option<Offset>)
        ensures
            r == self.spec_offset(),
    {
        self.offset
    }
}

/// The RIP-relative correction: the signed displacement and the
/// trailing instruction size are added to the match address with
/// wraparound, `base + displacement + instruction_size` modulo the
/// address space.
pub fn apply_rip_offset(base: usize, displacement: i32, instruction_size: usize) -> (r: usize)
    ensures
        r == usize_specs::wrapping_add(
            usize_specs::wrapping_add_signed(base, displacement as isize),
            instruction_size,
        ),
{
    base.wrapping_add_signed(displacement as isize).wrapping_add(instruction_size)
}

} // verus!
