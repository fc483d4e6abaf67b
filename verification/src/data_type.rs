//! The closed set of fixed-size value encodings that a read can be
//! asked to decode. The table itself is plain data; decoding a read
//! into a value is left to the callers that own the value types.

use vstd::prelude::*;

verus! {

/// A fixed-size scalar, pointer, vector, matrix or colour encoding.
#[derive(Debug, Clone, Copy, PartialEq, Eq, Structural)]
pub enum DataType {
    U8,
    U16,
    U32,
    U64,
    I8,
    I16,
    I32,
    I64,
    F32,
    F64,
    Pointer,
    Pointer32,
    Pointer64,
    Vec2,
    Vec3,
    Vec4,
    Mat4,
    Rgb,
    Rgba,
    Color32,
}

} // verus!
