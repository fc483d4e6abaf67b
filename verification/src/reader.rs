//! The out-of-process read interface. Resolution and scanning are
//! written against this one narrow trait, so another read mechanism
//! (a debugger API, a snapshot) can stand in for the OS primitive
//! without touching the resolution logic.

use vstd::prelude::*;

use crate::memory::MemoryError;

verus! {

/// A source of raw bytes of the target process's address space.
///
/// A successful read hands back exactly the requested number of bytes;
/// nothing more is promised of their values, which belong to another
/// process and may change between calls. Every address the resolution
/// logic derives from read bytes is therefore validated against the
/// region table before it is trusted.
pub trait ProcessRead {
    /// Reads `count` bytes at `address`. A failed read reports an OS
    /// error or a short transfer, never any other kind of failure.
    fn read_bytes(&self, address: usize, count: usize) -> (r: Result<Vec<u8>, MemoryError>)
        ensures
            r matches Ok(b) ==> b@.len() == count,
            r matches Err(e) ==> e is Io || e is PartialRead,
    ;
}

/// An owned snapshot of one contiguous stretch of an address space,
/// starting at `base`: reads inside it succeed with its bytes, reads
/// outside it fail as the OS read would on an unmapped address.
pub struct SnapshotReader {
    pub base: usize,
    pub data: Vec<u8>,
}

impl ProcessRead for SnapshotReader {
    fn read_bytes(&self, address: usize, count: usize) -> (r: Result<Vec<u8>, MemoryError>)
        ensures
            r matches Ok(b) ==> {
                &&& b@.len() == count
                &&& self.base <= address
                &&& address - self.base + count <= self.data@.len()
                &&& b@ == self.data@.subrange(
                    address - self.base,
                    address - self.base + count,
                )
            },
            r is Err ==> !(self.base <= address && address - self.base + count
                <= self.data@.len()),
    {
        if address < self.base {
            return Err(MemoryError::Io(14));
        }
        let off = address - self.base;
        if off > self.data.len() || count > self.data.len() - off {
            return Err(MemoryError::Io(14));
        }
        let dn = self.data.len();
        let mut out: Vec<u8> = Vec::new();
        let mut i: usize = 0;
        while i < count
            invariant
                0 <= i <= count,
                self.base <= address,
                off == address - self.base,
                dn == self.data@.len(),
                off + count <= dn,
                out@ =~= self.data@.subrange(off as int, off + i),
            decreases count - i,
        {
            assert(off + i < self.data@.len());
            let b = self.data[off + i];
            out.push(b);
            i = i + 1;
        }
        Ok(out)
    }
}

/// Reads one pointer-sized little-endian value at `address`.
pub fn read_pointer<R: ProcessRead>(reader: &R, address: usize) -> (r: Result<
    usize,
    MemoryError,
>)
    ensures
        r matches Err(e) ==> e is Io || e is PartialRead,
{
    let n: usize = if usize::BITS == 32 {
        4
    } else {
        8
    };
    let bytes = match reader.read_bytes(address, n) {
        Ok(b) => b,
        Err(e) => {
            return Err(e);
        },
    };
    if n == 4 {
        let v = vstd::bytes::u32_from_le_bytes(bytes.as_slice());
        Ok(v as usize)
    } else {
        let v = vstd::bytes::u64_from_le_bytes(bytes.as_slice());
        assert(usize::BITS == 64);
        Ok(v as usize)
    }
}

/// Reads a 4-byte little-endian signed displacement at `address`.
pub fn read_displacement<R: ProcessRead>(reader: &R, address: usize) -> (r: Result<
    i32,
    MemoryError,
>)
    ensures
        r matches Err(e) ==> e is Io || e is PartialRead,
{
    let bytes = match reader.read_bytes(address, 4) {
        Ok(b) => b,
        Err(e) => {
            return Err(e);
        },
    };
    let u = vstd::bytes::u32_from_le_bytes(bytes.as_slice());
    Ok(i32_from_u32(u))
}

/// Reinterprets an unsigned 32-bit value as signed, two's complement.
pub fn i32_from_u32(u: u32) -> (r: i32)
    ensures
        r as int == (if u < 0x8000_0000 {
            u as int
        } else {
            u - 0x1_0000_0000
        }),
{
    if u < 0x8000_0000 {
        u as i32
    } else {
        let low: u32 = u - 0x8000_0000;
        let v: i32 = low as i32;
        (v - 0x4000_0000) - 0x4000_0000
    }
}

} // verus!
