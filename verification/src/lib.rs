//! Building, serializing, parsing and inspecting CBOR documents (RFC 8949).
//!
//! A document is held either as a tree of [`value::CborValue`] items or as
//! a flat array of [`nodes::CborNode`]s in which the children of each
//! container occupy a contiguous block. Parsing and serialization reject
//! nesting deeper than [`MAX_DEPTH_LIMIT`], whatever depth the caller asks
//! for.

use vstd::prelude::*;

pub mod access;
pub mod canonical;
pub mod depth;
pub mod document;
pub mod error;
pub mod format;
pub mod laws;

pub mod nodes;
pub mod parse;
pub mod serialize;
pub mod text;
pub mod tree;
pub mod value;
pub mod wire;

verus! {

/// Success.
pub const STATUS_OK: i32 = 0;
/// Malformed input.
pub const STATUS_DECODE_FAILED: i32 = 1;
/// A map key or tag that is not present.
pub const STATUS_KEY_NOT_FOUND: i32 = 2;
/// An index past the end of an array or map.
pub const STATUS_OUT_OF_BOUND: i32 = 3;
/// An operation applied to the wrong kind of value.
pub const STATUS_TYPE_MISMATCH: i32 = 4;
/// An unencodable value.
pub const STATUS_ENCODE_FAILED: i32 = 5;

/// A null or otherwise unreadable handle.
pub const KIND_INVALID: i32 = -1;
pub const KIND_SIGNED: i32 = 0;
pub const KIND_BYTES: i32 = 1;
pub const KIND_STRING: i32 = 2;
pub const KIND_ARRAY: i32 = 3;
pub const KIND_MAP: i32 = 4;
pub const KIND_TAGGED: i32 = 5;
pub const KIND_SIMPLE: i32 = 6;

/// Ceiling on the depth a caller may request, bounding recursion in the
/// parser and serializer so that deeply nested input cannot overflow the
/// stack.
pub const MAX_DEPTH_LIMIT: usize = 256;

/// Clamp a caller-supplied depth to [`MAX_DEPTH_LIMIT`].
#[verifier::allow_in_spec]
pub fn capped(max_depth: usize) -> usize
    returns
        if max_depth < MAX_DEPTH_LIMIT {
            max_depth
        } else {
            MAX_DEPTH_LIMIT
        },
{
    if max_depth < MAX_DEPTH_LIMIT {
        max_depth
    } else {
        MAX_DEPTH_LIMIT
    }
}

/// Whether `value` is a simple value RFC 8949 reserves (24 to 31).
///
/// The reserved range has no encoding, so a value holding one could be
/// inspected but never serialized.
#[verifier::allow_in_spec]
pub fn is_reserved_simple(value: u8) -> bool
    returns
        24 <= value <= 31,
{
    24 <= value && value <= 31
}

} // verus!
