//! The textual locator grammar: a `0x`-prefixed hex literal is an
//! absolute address; a space-separated sequence of two-digit hex bytes
//! and `?`/`??` wildcards, optionally suffixed `@<offset>/<size>`, is a
//! pattern; `-> <hex>` segments after it are pointer-chain hops.

use vstd::prelude::*;

use crate::address::AddressLocator;
use crate::address::IdaSignature;
use crate::address::Offset;
use crate::bytestr::eq_str;
use crate::bytestr::find_from;
use crate::bytestr::find_space_from;
use crate::bytestr::is_space;
use crate::bytestr::parse_dec_u64;
use crate::bytestr::parse_hex_usize;
use crate::bytestr::spec_dec_usize;
use crate::bytestr::spec_dec_value;
use crate::bytestr::spec_hex_usize;
use crate::bytestr::spec_find_idx;
use crate::bytestr::spec_find_space_idx;
use crate::bytestr::spec_hex_value;
use crate::bytestr::spec_split_pair;
use crate::bytestr::spec_starts_with;
use crate::bytestr::spec_trim;
use crate::bytestr::split_pair;
use crate::bytestr::starts_with;
use crate::bytestr::trim_spaces;
use crate::data_type::DataType;
use crate::memory::copy_range;
use vstd::string::StringSliceAdditionalSpecFns;

verus! {

/// Failures of the locator grammar and its companions.
#[derive(Debug, Clone, Copy, PartialEq, Eq, Structural)]
pub enum ArgError {
    /// A `0x`-prefixed address whose digits are not valid hex.
    InvalidHexAddress,
    /// A pattern slot that is neither a hex byte nor a wildcard.
    InvalidHexByte,
    /// A missing or unparsable `@<offset>` field.
    InvalidOffset,
    /// An unparsable `/<instruction size>` field.
    InvalidInstructionSize,
    /// An unparsable pointer-chain hop.
    InvalidPointer,
    /// A duration without a recognized unit or with unparsable digits.
    InvalidDuration,
    /// A name outside the closed set of data types.
    UnknownDataType,
}

/// One pattern slot: `?` or `??` is a wildcard, anything else must be
/// a hex byte value; `None` marks an invalid slot.
pub open spec fn spec_slot(tok: Seq<u8>) -> Option<Option<u8>> {
    if tok == seq![0x3fu8] || tok == seq![0x3fu8, 0x3fu8] {
        Some(None)
    } else {
        match spec_hex_value(tok) {
            Some(v) => if v <= 255 {
                Some(Some(v as u8))
            } else {
                None
            },
            None => None,
        }
    }
}

/// The whitespace-separated tokens of a signature string.
pub open spec fn spec_sig_tokens(s: Seq<u8>) -> Seq<Seq<u8>>
    decreases s.len(),
{
    if s.len() == 0 {
        Seq::empty()
    } else if is_space(s[0]) {
        spec_sig_tokens(s.skip(1))
    } else {
        let i = spec_find_space_idx(s);
        if 1 <= i <= s.len() {
            seq![s.take(i)] + spec_sig_tokens(s.skip(i))
        } else {
            seq![s]
        }
    }
}

/// The pattern denoted by a token list; `None` if any slot is invalid.
pub open spec fn spec_slots(toks: Seq<Seq<u8>>) -> Option<Seq<Option<u8>>>
    decreases toks.len(),
{
    if toks.len() == 0 {
        Some(Seq::empty())
    } else {
        match (spec_slot(toks[0]), spec_slots(toks.skip(1))) {
            (Some(slot), Some(rest)) => Some(seq![slot] + rest),
            _ => None,
        }
    }
}

/// The pattern a signature string denotes.
pub open spec fn spec_parse_signature(s: Seq<u8>) -> Result<Seq<Option<u8>>, ArgError> {
    match spec_slots(spec_sig_tokens(s)) {
        Some(p) => Ok(p),
        None => Err(ArgError::InvalidHexByte),
    }
}

/// Parses one pattern slot.
fn parse_slot(tok: &[u8]) -> (r: Option<Option<u8>>)
    ensures
        r == spec_slot(tok@),
{
    if tok.len() == 1 && tok[0] == 0x3fu8 {
        proof {
            assert(tok@ =~= seq![0x3fu8]);
        }
        return Some(None);
    }
    if tok.len() == 2 && tok[0] == 0x3fu8 && tok[1] == 0x3fu8 {
        proof {
            assert(tok@ =~= seq![0x3fu8, 0x3fu8]);
        }
        return Some(None);
    }
    proof {
        assert(tok@ != seq![0x3fu8]);
        assert(tok@ != seq![0x3fu8, 0x3fu8]);
    }
    match parse_hex_usize(tok) {
        Some(v) => {
            if v <= 255 {
                Some(Some(v as u8))
            } else {
                None
            }
        },
        None => None,
    }
}

/// Parses a signature string into its pattern.
pub fn parse_ida_signature(s: &str) -> (r: Result<Vec<Option<u8>>, ArgError>)
    ensures
        match r {
            Ok(p) => spec_parse_signature(s.spec_bytes()) == Ok::<Seq<Option<u8>>, ArgError>(p@),
            Err(e) => spec_parse_signature(s.spec_bytes()) == Err::<Seq<Option<u8>>, ArgError>(e),
        },
{
    parse_signature_bytes(s.as_bytes())
}

/// Parses the bytes of a signature string into its pattern.
fn parse_signature_bytes(s: &[u8]) -> (r: Result<Vec<Option<u8>>, ArgError>)
    ensures
        match r {
            Ok(p) => spec_parse_signature(s@) == Ok::<Seq<Option<u8>>, ArgError>(p@),
            Err(e) => spec_parse_signature(s@) == Err::<Seq<Option<u8>>, ArgError>(e),
        },
{
    let n = s.len();
    let mut out: Vec<Option<u8>> = Vec::new();
    let mut pos: usize = 0;
    proof {
        assert(s@.skip(0) =~= s@);
        match spec_slots(spec_sig_tokens(s@)) {
            Some(p) => {
                assert(out@ + p =~= p);
            },
            None => {
            },
        }
    }
    while pos < n
        invariant
            0 <= pos <= n,
            n == s@.len(),
            spec_slots(spec_sig_tokens(s@)) == (match spec_slots(spec_sig_tokens(s@.skip(pos as int))) {
                Some(rest) => Some(out@ + rest),
                None => None::<Seq<Option<u8>>>,
            }),
        decreases n - pos,
    {
        let ghost rest0 = s@.skip(pos as int);
        if is_space_byte(s[pos]) {
            proof {
                assert(rest0.skip(1) =~= s@.skip(pos as int + 1));
            }
            pos = pos + 1;
        } else {
            let k = find_space_from(s, pos, );
            proof {
                assert(spec_find_space_idx(rest0) == k - pos);
                assert(k > pos);
                assert(rest0.take(k - pos) =~= s@.subrange(pos as int, k as int));
                assert(rest0.skip(k - pos) =~= s@.skip(k as int));
                assert(spec_sig_tokens(rest0) == seq![rest0.take(k - pos)] + spec_sig_tokens(
                    s@.skip(k as int),
                )) by {
                    if k - pos < rest0.len() {
                    } else {
                        assert(rest0.take(k - pos) =~= rest0);
                        assert(s@.skip(k as int) =~= Seq::<u8>::empty());
                        assert(seq![rest0] + spec_sig_tokens(Seq::<u8>::empty()) =~= seq![rest0]);
                    }
                }
            }
            let tok = copy_range(s, pos, k);
            let ghost out0 = out@;
            match parse_slot(tok.as_slice()) {
                Some(slot) => {
                    out.push(slot);
                    proof {
                        let toks = spec_sig_tokens(rest0);
                        assert(toks[0] == tok@);
                        assert(toks.skip(1) =~= spec_sig_tokens(s@.skip(k as int)));
                        match spec_slots(spec_sig_tokens(s@.skip(k as int))) {
                            Some(rest) => {
                                assert(out@ =~= out0 + seq![slot]);
                                assert(out0 + (seq![slot] + rest) =~= out@ + rest);
                            },
                            None => {
                            },
                        }
                    }
                },
                None => {
                    proof {
                        let toks = spec_sig_tokens(rest0);
                        assert(toks[0] == tok@);
                        assert(spec_slots(toks) is None);
                    }
                    return Err(ArgError::InvalidHexByte);
                },
            }
            pos = k;
        }
    }
    proof {
        assert(s@.skip(pos as int) =~= Seq::<u8>::empty());
        assert(out@ + Seq::<Option<u8>>::empty() =~= out@);
    }
    Ok(out)
}

/// Tests one byte for ASCII whitespace.
fn is_space_byte(c: u8) -> (r: bool)
    ensures
        r == is_space(c),
{
    c == 0x20u8 || c == 0x09u8 || c == 0x0au8 || c == 0x0du8 || c == 0x0bu8 || c == 0x0cu8
}

/// What a signature string with an optional `@<offset>/<size>` suffix
/// denotes: the pattern and the optional RIP-relative correction.
pub open spec fn spec_parse_sig_with_offset(s: Seq<u8>) -> Result<
    (Seq<Option<u8>>, Option<Offset>),
    ArgError,
> {
    let i = spec_find_idx(s, 0x40u8);
    if 0 <= i < s.len() {
        let sig_part = s.take(i);
        let off_part = s.skip(i + 1);
        let j = spec_find_idx(off_part, 0x2fu8);
        if 0 <= j < off_part.len() {
            match spec_dec_usize(off_part.take(j)) {
                Some(off) => match spec_dec_usize(off_part.skip(j + 1)) {
                    Some(isz) => match spec_parse_signature(sig_part) {
                        Ok(p) => Ok((p, Some(Offset { offset: off, instruction_size: isz }))),
                        Err(e) => Err(e),
                    },
                    None => Err(ArgError::InvalidInstructionSize),
                },
                None => Err(ArgError::InvalidOffset),
            }
        } else {
            Err(ArgError::InvalidOffset)
        }
    } else {
        match spec_parse_signature(s) {
            Ok(p) => Ok((p, None)),
            Err(e) => Err(e),
        }
    }
}

/// Parses a signature with an optional `@<offset>/<size>` suffix.
pub fn parse_ida_signature_with_offset(s: &str) -> (r: Result<IdaSignature, ArgError>)
    ensures
        match r {
            Ok(sig) => spec_parse_sig_with_offset(s.spec_bytes()) == Ok::<
                (Seq<Option<u8>>, Option<Offset>),
                ArgError,
            >((sig.spec_pattern(), sig.spec_offset())),
            Err(e) => spec_parse_sig_with_offset(s.spec_bytes()) == Err::<
                (Seq<Option<u8>>, Option<Offset>),
                ArgError,
            >(e),
        },
{
    parse_sig_with_offset_bytes(s.as_bytes())
}

/// Parses the bytes of a signature with an optional offset suffix.
fn parse_sig_with_offset_bytes(s: &[u8]) -> (r: Result<IdaSignature, ArgError>)
    ensures
        match r {
            Ok(sig) => spec_parse_sig_with_offset(s@) == Ok::<
                (Seq<Option<u8>>, Option<Offset>),
                ArgError,
            >((sig.spec_pattern(), sig.spec_offset())),
            Err(e) => spec_parse_sig_with_offset(s@) == Err::<
                (Seq<Option<u8>>, Option<Offset>),
                ArgError,
            >(e),
        },
{
    let n = s.len();
    let at = find_from(s, 0, 0x40u8);
    proof {
        assert(s@.skip(0) =~= s@);
        assert(spec_find_idx(s@, 0x40u8) == at as int);
    }
    if at == n {
        let pattern = match parse_signature_bytes(s) {
            Ok(p) => p,
            Err(e) => {
                return Err(e);
            },
        };
        return Ok(IdaSignature::new(pattern, None));
    }
    let ghost off_part = s@.skip(at as int + 1);
    let slash = find_from(s, at + 1, 0x2fu8);
    proof {
        assert(spec_find_idx(off_part, 0x2fu8) == slash - (at + 1));
    }
    if slash == n {
        return Err(ArgError::InvalidOffset);
    }
    let off_tok = copy_range(s, at + 1, slash);
    proof {
        assert(off_tok@ =~= off_part.take(slash - (at + 1)));
    }
    let offset: usize = match parse_dec_usize_tok(off_tok.as_slice()) {
        Some(v) => v,
        None => {
            return Err(ArgError::InvalidOffset);
        },
    };
    let isz_tok = copy_range(s, slash + 1, n);
    proof {
        assert(isz_tok@ =~= off_part.skip(slash - (at + 1) + 1));
    }
    let instruction_size: usize = match parse_dec_usize_tok(isz_tok.as_slice()) {
        Some(v) => v,
        None => {
            return Err(ArgError::InvalidInstructionSize);
        },
    };
    let sig_part = copy_range(s, 0, at);
    proof {
        assert(sig_part@ =~= s@.take(at as int));
    }
    let pattern = match parse_signature_bytes(sig_part.as_slice()) {
        Ok(p) => p,
        Err(e) => {
            return Err(e);
        },
    };
    Ok(IdaSignature::new(pattern, Some(Offset { offset, instruction_size })))
}

/// Parses a whole byte string as a decimal `usize`.
fn parse_dec_usize_tok(s: &[u8]) -> (r: Option<usize>)
    ensures
        r == spec_dec_usize(s@),
{
    match parse_dec_u64(s) {
        Some(v) => {
            if v <= usize::MAX as u64 {
                Some(v as usize)
            } else {
                None
            }
        },
        None => {
            proof {
                match spec_dec_value(s@) {
                    Some(w) => {
                        assert(w > u64::MAX);
                    },
                    None => {
                    },
                }
            }
            None
        },
    }
}

/// What a pointer-chain hop denotes: a hex value, with an optional
/// `0x`/`0X` prefix.
pub open spec fn spec_parse_pointer(s: Seq<u8>) -> Option<usize> {
    let body = if spec_starts_with(s, seq![0x30u8, 0x78u8]) || spec_starts_with(
        s,
        seq![0x30u8, 0x58u8],
    ) {
        s.skip(2)
    } else {
        s
    };
    spec_hex_usize(body)
}

/// Parses one pointer-chain hop.
pub fn parse_pointer(s: &str) -> (r: Result<usize, ArgError>)
    ensures
        match r {
            Ok(v) => spec_parse_pointer(s.spec_bytes()) == Some(v),
            Err(e) => spec_parse_pointer(s.spec_bytes()) is None && e == ArgError::InvalidPointer,
        },
{
    match parse_pointer_bytes(s.as_bytes()) {
        Some(v) => Ok(v),
        None => Err(ArgError::InvalidPointer),
    }
}

/// Parses the bytes of one pointer-chain hop.
fn parse_pointer_bytes(s: &[u8]) -> (r: Option<usize>)
    ensures
        r == spec_parse_pointer(s@),
{
    let prefixed = s.len() >= 2 && s[0] == 0x30u8 && (s[1] == 0x78u8 || s[1] == 0x58u8);
    proof {
        if s@.len() >= 2 {
            assert(s@.take(2) =~= seq![s@[0], s@[1]]);
        }
        assert(prefixed == (spec_starts_with(s@, seq![0x30u8, 0x78u8]) || spec_starts_with(
            s@,
            seq![0x30u8, 0x58u8],
        )));
    }
    if prefixed {
        let body = copy_range(s, 2, s.len());
        proof {
            assert(body@ =~= s@.skip(2));
        }
        parse_hex_usize_checked(body.as_slice())
    } else {
        parse_hex_usize_checked(s)
    }
}

/// Parses a whole byte string as a hex `usize`.
fn parse_hex_usize_checked(s: &[u8]) -> (r: Option<usize>)
    ensures
        r == spec_hex_usize(s@),
{
    parse_hex_usize(s)
}

/// The locator a command-line string denotes.
pub enum LocatorShape {
    Absolute(usize),
    Pattern(Seq<Option<u8>>, Option<Offset>),
    PointerChain(Seq<Option<u8>>, Option<Offset>, Seq<usize>),
}

/// The shape an `AddressLocator` value denotes.
pub open spec fn locator_shape(l: AddressLocator) -> LocatorShape {
    match l {
        AddressLocator::Absolute(a) => LocatorShape::Absolute(a),
        AddressLocator::Pattern(sig) => LocatorShape::Pattern(sig.spec_pattern(), sig.spec_offset()),
        AddressLocator::PointerChain(sig, offsets) => LocatorShape::PointerChain(
            sig.spec_pattern(),
            sig.spec_offset(),
            offsets@,
        ),
    }
}

/// The hops a chain-part list denotes; `None` if any hop is invalid.
pub open spec fn spec_pointers(parts: Seq<Seq<u8>>) -> Option<Seq<usize>>
    decreases parts.len(),
{
    if parts.len() == 0 {
        Some(Seq::empty())
    } else {
        match (spec_parse_pointer(spec_trim(parts[0])), spec_pointers(parts.skip(1))) {
            (Some(v), Some(rest)) => Some(seq![v] + rest),
            _ => None,
        }
    }
}

/// What a locator string denotes. A `0x`/`0X` prefix makes it an
/// absolute hex address; otherwise the string splits at `->` into a
/// signature part and pointer-chain hops, each part trimmed.
pub open spec fn spec_parse_locator(s: Seq<u8>) -> Result<LocatorShape, ArgError> {
    if spec_starts_with(s, seq![0x30u8, 0x78u8]) || spec_starts_with(s, seq![0x30u8, 0x58u8]) {
        match spec_hex_usize(s.skip(2)) {
            Some(v) => Ok(LocatorShape::Absolute(v)),
            None => Err(ArgError::InvalidHexAddress),
        }
    } else {
        let parts = spec_split_pair(s, 0x2du8, 0x3eu8);
        match spec_parse_sig_with_offset(spec_trim(parts[0])) {
            Err(e) => Err(e),
            Ok((pat, off)) => if parts.len() > 1 {
                match spec_pointers(parts.skip(1)) {
                    Some(ps) => Ok(LocatorShape::PointerChain(pat, off, ps)),
                    None => Err(ArgError::InvalidPointer),
                }
            } else {
                Ok(LocatorShape::Pattern(pat, off))
            },
        }
    }
}

/// Parses a locator string.
pub fn parse_address_locator(s: &str) -> (r: Result<AddressLocator, ArgError>)
    ensures
        match r {
            Ok(l) => spec_parse_locator(s.spec_bytes()) == Ok::<LocatorShape, ArgError>(
                locator_shape(l),
            ),
            Err(e) => spec_parse_locator(s.spec_bytes()) == Err::<LocatorShape, ArgError>(e),
        },
{
    let bytes = s.as_bytes();
    let n = bytes.len();
    let prefixed = n >= 2 && bytes[0] == 0x30u8 && (bytes[1] == 0x78u8 || bytes[1] == 0x58u8);
    proof {
        if bytes@.len() >= 2 {
            assert(bytes@.take(2) =~= seq![bytes@[0], bytes@[1]]);
        }
        assert(prefixed == (spec_starts_with(bytes@, seq![0x30u8, 0x78u8]) || spec_starts_with(
            bytes@,
            seq![0x30u8, 0x58u8],
        )));
    }
    if prefixed {
        let body = copy_range(bytes, 2, n);
        proof {
            assert(body@ =~= bytes@.skip(2));
        }
        return match parse_hex_usize_checked(body.as_slice()) {
            Some(v) => Ok(AddressLocator::Absolute(v)),
            None => Err(ArgError::InvalidHexAddress),
        };
    }
    let parts = split_pair(bytes, 0x2du8, 0x3eu8);
    let ghost parts_v = spec_split_pair(bytes@, 0x2du8, 0x3eu8);
    proof {
        assert(parts@.map_values(|p: Vec<u8>| p@)[0] == parts@[0]@);
        assert(parts_v.len() > 0);
    }
    let head = trim_spaces(parts[0].as_slice());
    let sig = match parse_sig_with_offset_bytes(head.as_slice()) {
        Ok(sig) => sig,
        Err(e) => {
            return Err(e);
        },
    };
    if parts.len() > 1 {
        let m = parts.len();
        let mut pointers: Vec<usize> = Vec::new();
        let mut i: usize = 1;
        proof {
            assert(parts_v.skip(1).skip(0) =~= parts_v.skip(1));
            match spec_pointers(parts_v.skip(1)) {
                Some(ps) => {
                    assert(pointers@ + ps =~= ps);
                },
                None => {
                },
            }
        }
        while i < m
            invariant
                1 <= i <= m,
                m == parts@.len(),
                m > 1,
                parts@.map_values(|p: Vec<u8>| p@) == parts_v,
                bytes@ == s.spec_bytes(),
                !spec_starts_with(bytes@, seq![0x30u8, 0x78u8]),
                !spec_starts_with(bytes@, seq![0x30u8, 0x58u8]),
                parts_v == spec_split_pair(bytes@, 0x2du8, 0x3eu8),
                spec_parse_sig_with_offset(spec_trim(parts_v[0])) == Ok::<
                    (Seq<Option<u8>>, Option<Offset>),
                    ArgError,
                >((sig.spec_pattern(), sig.spec_offset())),
                spec_pointers(parts_v.skip(1)) == (match spec_pointers(parts_v.skip(i as int)) {
                    Some(rest) => Some(pointers@ + rest),
                    None => None::<Seq<usize>>,
                }),
            decreases m - i,
        {
            let ghost rest0 = parts_v.skip(i as int);
            proof {
                assert(rest0.len() > 0);
                assert(parts@.map_values(|p: Vec<u8>| p@)[i as int] == parts@[i as int]@);
                assert(rest0[0] == parts_v[i as int]);
                assert(rest0.skip(1) =~= parts_v.skip(i as int + 1));
            }
            let hop_tok = trim_spaces(parts[i].as_slice());
            let ghost ptr0 = pointers@;
            match parse_pointer_bytes(hop_tok.as_slice()) {
                Some(v) => {
                    pointers.push(v);
                    proof {
                        match spec_pointers(parts_v.skip(i as int + 1)) {
                            Some(rest) => {
                                assert(pointers@ =~= ptr0 + seq![v]);
                                assert(ptr0 + (seq![v] + rest) =~= pointers@ + rest);
                            },
                            None => {
                            },
                        }
                    }
                },
                None => {
                    proof {
                        assert(hop_tok@ == spec_trim(rest0[0]));
                        assert(spec_pointers(rest0) is None);
                    }
                    return Err(ArgError::InvalidPointer);
                },
            }
            i = i + 1;
        }
        proof {
            assert(parts_v.skip(m as int) =~= Seq::<Seq<u8>>::empty());
            assert(pointers@ + Seq::<usize>::empty() =~= pointers@);
        }
        Ok(AddressLocator::PointerChain(sig, pointers))
    } else {
        proof {
            assert(parts_v.len() == 1);
        }
        Ok(AddressLocator::Pattern(sig))
    }
}

/// What a data-type name denotes.
pub open spec fn spec_parse_data_type(s: Seq<char>) -> Option<DataType> {
    if s == "u8"@ {
        Some(DataType::U8)
    } else if s == "u16"@ {
        Some(DataType::U16)
    } else if s == "u32"@ {
        Some(DataType::U32)
    } else if s == "u64"@ {
        Some(DataType::U64)
    } else if s == "i8"@ {
        Some(DataType::I8)
    } else if s == "i16"@ {
        Some(DataType::I16)
    } else if s == "i32"@ {
        Some(DataType::I32)
    } else if s == "i64"@ {
        Some(DataType::I64)
    } else if s == "f32"@ {
        Some(DataType::F32)
    } else if s == "f64"@ {
        Some(DataType::F64)
    } else if s == "pointer"@ {
        Some(DataType::Pointer)
    } else if s == "pointer32"@ {
        Some(DataType::Pointer32)
    } else if s == "pointer64"@ {
        Some(DataType::Pointer64)
    } else if s == "vec2"@ {
        Some(DataType::Vec2)
    } else if s == "vec3"@ {
        Some(DataType::Vec3)
    } else if s == "vec4"@ {
        Some(DataType::Vec4)
    } else if s == "mat4"@ {
        Some(DataType::Mat4)
    } else if s == "rgb"@ {
        Some(DataType::Rgb)
    } else if s == "rgba"@ {
        Some(DataType::Rgba)
    } else if s == "color32"@ {
        Some(DataType::Color32)
    } else {
        None
    }
}

/// Parses a data-type name.
pub fn parse_data_type(s: &str) -> (r: Result<DataType, ArgError>)
    ensures
        match r {
            Ok(d) => spec_parse_data_type(s@) == Some(d),
            Err(e) => spec_parse_data_type(s@) is None && e == ArgError::UnknownDataType,
        },
{
    if eq_str(s, "u8") {
        Ok(DataType::U8)
    } else if eq_str(s, "u16") {
        Ok(DataType::U16)
    } else if eq_str(s, "u32") {
        Ok(DataType::U32)
    } else if eq_str(s, "u64") {
        Ok(DataType::U64)
    } else if eq_str(s, "i8") {
        Ok(DataType::I8)
    } else if eq_str(s, "i16") {
        Ok(DataType::I16)
    } else if eq_str(s, "i32") {
        Ok(DataType::I32)
    } else if eq_str(s, "i64") {
        Ok(DataType::I64)
    } else if eq_str(s, "f32") {
        Ok(DataType::F32)
    } else if eq_str(s, "f64") {
        Ok(DataType::F64)
    } else if eq_str(s, "pointer") {
        Ok(DataType::Pointer)
    } else if eq_str(s, "pointer32") {
        Ok(DataType::Pointer32)
    } else if eq_str(s, "pointer64") {
        Ok(DataType::Pointer64)
    } else if eq_str(s, "vec2") {
        Ok(DataType::Vec2)
    } else if eq_str(s, "vec3") {
        Ok(DataType::Vec3)
    } else if eq_str(s, "vec4") {
        Ok(DataType::Vec4)
    } else if eq_str(s, "mat4") {
        Ok(DataType::Mat4)
    } else if eq_str(s, "rgb") {
        Ok(DataType::Rgb)
    } else if eq_str(s, "rgba") {
        Ok(DataType::Rgba)
    } else if eq_str(s, "color32") {
        Ok(DataType::Color32)
    } else {
        Err(ArgError::UnknownDataType)
    }
}

/// A polling interval: whole seconds and the nanoseconds below one
/// second, the plain shape of a duration.
#[derive(Debug, Clone, Copy, PartialEq, Eq, Structural)]
pub struct ParsedDuration {
    pub secs: u64,
    pub nanos: u32,
}

/// What a duration string denotes: an integer count of `us`, `ms` or
/// `s`, by its unit suffix, tried in that order.
pub open spec fn spec_parse_duration(s: Seq<u8>) -> Option<ParsedDuration> {
    if s.len() >= 2 && s[s.len() - 2] == 0x75u8 && s[s.len() - 1] == 0x73u8 {
        match spec_dec_value(s.take(s.len() - 2)) {
            Some(v) => if v <= u64::MAX {
                Some(
                    ParsedDuration {
                        secs: (v / 1000000) as u64,
                        nanos: ((v % 1000000) * 1000) as u32,
                    },
                )
            } else {
                None
            },
            None => None,
        }
    } else if s.len() >= 2 && s[s.len() - 2] == 0x6du8 && s[s.len() - 1] == 0x73u8 {
        match spec_dec_value(s.take(s.len() - 2)) {
            Some(v) => if v <= u64::MAX {
                Some(
                    ParsedDuration {
                        secs: (v / 1000) as u64,
                        nanos: ((v % 1000) * 1000000) as u32,
                    },
                )
            } else {
                None
            },
            None => None,
        }
    } else if s.len() >= 1 && s[s.len() - 1] == 0x73u8 {
        match spec_dec_value(s.take(s.len() - 1)) {
            Some(v) => if v <= u64::MAX {
                Some(ParsedDuration { secs: v as u64, nanos: 0 })
            } else {
                None
            },
            None => None,
        }
    } else {
        None
    }
}

/// Parses a duration with a `us`, `ms` or `s` suffix.
pub fn parse_duration(s: &str) -> (r: Result<ParsedDuration, ArgError>)
    ensures
        match r {
            Ok(d) => spec_parse_duration(s.spec_bytes()) == Some(d),
            Err(e) => spec_parse_duration(s.spec_bytes()) is None && e == ArgError::InvalidDuration,
        },
{
    let b = s.as_bytes();
    let n = b.len();
    if n >= 2 && b[n - 2] == 0x75u8 && b[n - 1] == 0x73u8 {
        let digits = copy_range(b, 0, n - 2);
        proof {
            assert(digits@ =~= b@.take(n as int - 2));
        }
        match parse_dec_u64(digits.as_slice()) {
            Some(v) => Ok(
                ParsedDuration { secs: v / 1000000, nanos: ((v % 1000000) * 1000) as u32 },
            ),
            None => Err(ArgError::InvalidDuration),
        }
    } else if n >= 2 && b[n - 2] == 0x6du8 && b[n - 1] == 0x73u8 {
        let digits = copy_range(b, 0, n - 2);
        proof {
            assert(digits@ =~= b@.take(n as int - 2));
        }
        match parse_dec_u64(digits.as_slice()) {
            Some(v) => Ok(
                ParsedDuration { secs: v / 1000, nanos: ((v % 1000) * 1000000) as u32 },
            ),
            None => Err(ArgError::InvalidDuration),
        }
    } else if n >= 1 && b[n - 1] == 0x73u8 {
        let digits = copy_range(b, 0, n - 1);
        proof {
            assert(digits@ =~= b@.take(n as int - 1));
        }
        match parse_dec_u64(digits.as_slice()) {
            Some(v) => Ok(ParsedDuration { secs: v, nanos: 0 }),
            None => Err(ArgError::InvalidDuration),
        }
    } else {
        Err(ArgError::InvalidDuration)
    }
}

} // verus!
