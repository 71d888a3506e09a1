//! Errors reported by parsing, serialization and node conversion.

use vstd::prelude::*;

verus! {

/// The decimal digits of `n`, most significant first, with no leading zero.
pub open spec fn decimal(n: nat) -> Seq<char>
    decreases n,
{
    if n < 10 {
        seq![digit(n)]
    } else {
        decimal(n / 10).push(digit(n % 10))
    }
}

/// The character of the decimal digit `d`.
pub open spec fn digit(d: nat) -> char {
    ((48 + d) as u32) as char
}

/// The one-character text of the digit `d`.
fn digit_text(d: u64) -> (r: &'static str)
    requires
        d < 10,
    ensures
        r@ == seq![digit(d as nat)],
{
    proof {
        reveal_strlit("0");
        reveal_strlit("1");
        reveal_strlit("2");
        reveal_strlit("3");
        reveal_strlit("4");
        reveal_strlit("5");
        reveal_strlit("6");
        reveal_strlit("7");
        reveal_strlit("8");
        reveal_strlit("9");
    }
    match d {
        0 => "0",
        1 => "1",
        2 => "2",
        3 => "3",
        4 => "4",
        5 => "5",
        6 => "6",
        7 => "7",
        8 => "8",
        _ => "9",
    }
}

/// Append the decimal digits of `n` to `s`.
fn append_decimal(s: &mut String, n: u64)
    ensures
        final(s)@ == old(s)@ + decimal(n as nat),
    decreases n,
{
    if n < 10 {
        s.append(digit_text(n));
    } else {
        append_decimal(s, n / 10);
        s.append(digit_text(n % 10));
    }
}

/// Why a CBOR operation failed.
#[derive(Clone, Copy, PartialEq, Eq, Structural, Debug)]
pub enum CborError {
    /// The input ended inside an item.
    UnexpectedEnd,
    /// Bytes were left over after the top-level item.
    TrailingBytes,
    /// An indefinite-length string or container.
    IndefiniteLength,
    /// A "break" stop code outside an indefinite-length item.
    UnexpectedBreak,
    /// Additional information 28, 29 or 30.
    ReservedInfo,
    /// A floating-point value, which the data model does not hold.
    UnsupportedFloat,
    /// A two-byte simple value below 32.
    InvalidSimpleEncoding,
    /// An integer outside the range of `i64`.
    IntegerOutOfRange,
    /// A text string that is not valid UTF-8.
    InvalidUtf8,
    /// An argument not encoded in its shortest form (deterministic mode).
    NonCanonicalHead,
    /// Map keys not strictly ascending (deterministic mode).
    MapKeyOrder,
    /// Nesting deeper than the depth limit.
    DepthExceeded { limit: usize },
    /// A simple value in the reserved range 24..=31, which has no encoding.
    ReservedSimple,
    /// Two map keys with the same encoding (deterministic mode).
    DuplicateMapKey,
    /// An array, map or tagged value used as a map key.
    ContainerKey,
    /// A node whose type is none of the `CBOR_TYPE_*` constants.
    UnknownNodeType { node_type: u8 },
    /// A child index past the end of the node array.
    ChildOutOfBounds,
    /// A child count that does not fit in `usize`.
    ChildCountOutOfRange,
    /// A child range whose end does not fit in `usize`.
    ChildRangeOverflow,
    /// A payload range outside the payload buffer.
    PayloadOutOfBounds,
    /// A simple-value node whose value does not fit in a byte.
    SimpleOutOfRange,
    /// A string longer than a CBOR argument can state.
    LengthOutOfRange,
}

impl CborError {
    /// A human-readable description.
    pub fn message(&self) -> (r: String)
        ensures
            !(self is DepthExceeded || self is UnknownNodeType) ==> r@ == self.text()@,
            self matches CborError::DepthExceeded { limit } ==> r@
                == "Maximum CBOR nesting depth exceeded (limit "@ + decimal(limit as nat) + ")"@,
            self matches CborError::UnknownNodeType { node_type } ==> r@
                == "Unknown CBOR node type "@ + decimal(node_type as nat),
    {
        match self {
            CborError::DepthExceeded { limit } => {
                let mut r = String::from_str("Maximum CBOR nesting depth exceeded (limit ");
                append_decimal(&mut r, *limit as u64);
                r.append(")");
                r
            },
            CborError::UnknownNodeType { node_type } => {
                let mut r = String::from_str("Unknown CBOR node type ");
                append_decimal(&mut r, *node_type as u64);
                r
            },
            _ => String::from_str(self.text()),
        }
    }

    /// The fixed description of each error.
    #[verifier::allow_in_spec]
    pub fn text(&self) -> &'static str
        returns
            match self {
                CborError::UnexpectedEnd => "Unexpected end of CBOR input",
                CborError::TrailingBytes => "Trailing bytes after the CBOR item",
                CborError::IndefiniteLength => "Indefinite-length encoding is not supported",
                CborError::UnexpectedBreak => "Unexpected break stop code",
                CborError::ReservedInfo => "Reserved additional information value",
                CborError::UnsupportedFloat => "Floating-point values are not supported",
                CborError::InvalidSimpleEncoding => "Invalid two-byte simple value",
                CborError::IntegerOutOfRange => "Integer out of range",
                CborError::InvalidUtf8 => "Text string is not valid UTF-8",
                CborError::NonCanonicalHead => "Argument not in its shortest form",
                CborError::MapKeyOrder => "Map keys not in deterministic order",
                CborError::DepthExceeded { .. } => "Maximum CBOR nesting depth exceeded",
                CborError::ReservedSimple => "Reserved simple value cannot be encoded",
                CborError::DuplicateMapKey => "Duplicate map key",
                CborError::ContainerKey => "Container used as a map key",
                CborError::UnknownNodeType { .. } => "Unknown CBOR node type",
                CborError::ChildOutOfBounds => "Child index out of bounds",
                CborError::ChildCountOutOfRange => "Child count out of range",
                CborError::ChildRangeOverflow => "Child range overflows",
                CborError::PayloadOutOfBounds => "Payload out of bounds",
                CborError::SimpleOutOfRange => "Simple value out of range",
                CborError::LengthOutOfRange => "String length out of range",
            },
    {
        match self {
            CborError::UnexpectedEnd => "Unexpected end of CBOR input",
            CborError::TrailingBytes => "Trailing bytes after the CBOR item",
            CborError::IndefiniteLength => "Indefinite-length encoding is not supported",
            CborError::UnexpectedBreak => "Unexpected break stop code",
            CborError::ReservedInfo => "Reserved additional information value",
            CborError::UnsupportedFloat => "Floating-point values are not supported",
            CborError::InvalidSimpleEncoding => "Invalid two-byte simple value",
            CborError::IntegerOutOfRange => "Integer out of range",
            CborError::InvalidUtf8 => "Text string is not valid UTF-8",
            CborError::NonCanonicalHead => "Argument not in its shortest form",
            CborError::MapKeyOrder => "Map keys not in deterministic order",
            CborError::DepthExceeded { .. } => "Maximum CBOR nesting depth exceeded",
            CborError::ReservedSimple => "Reserved simple value cannot be encoded",
            CborError::DuplicateMapKey => "Duplicate map key",
            CborError::ContainerKey => "Container used as a map key",
            CborError::UnknownNodeType { .. } => "Unknown CBOR node type",
            CborError::ChildOutOfBounds => "Child index out of bounds",
            CborError::ChildCountOutOfRange => "Child count out of range",
            CborError::ChildRangeOverflow => "Child range overflows",
            CborError::PayloadOutOfBounds => "Payload out of bounds",
            CborError::SimpleOutOfRange => "Simple value out of range",
            CborError::LengthOutOfRange => "String length out of range",
        }
    }
}

} // verus!
