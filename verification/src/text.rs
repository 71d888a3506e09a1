//! UTF-8 validation of text strings.

use vstd::prelude::*;
use vstd::utf8::{
    decode_first_codepoint, length_of_first_scalar, pop_first_scalar, valid_first_scalar,
    valid_utf8,
};

verus! {

/// The length of the well-formed UTF-8 encoding of one scalar that `b`
/// holds from `i`, or 0 where `b` holds none there.
fn first_scalar_len(b: &[u8], i: usize) -> (r: usize)
    requires
        i < b@.len(),
    ensures
        r == 0 <==> !valid_first_scalar(b@.skip(i as int)),
        r != 0 ==> r == length_of_first_scalar(b@.skip(i as int)) && i + r <= b@.len(),
{
    let ghost s = b@.skip(i as int);
    let n = b.len() - i;
    let x = b[i];
    assert(s[0] == x);
    if x <= 0x7f {
        let c: u32 = (x & 0x7F) as u32;
        assert(decode_first_codepoint(s) == c);
        if 0xD800 <= c && c <= 0xDFFF {
            return 0;
        }
        return 1;
    }
    if 0xc0 <= x && x <= 0xdf {
        if n < 2 {
            return 0;
        }
        let y = b[i + 1];
        assert(s[1] == y);
        if !(0x80 <= y && y <= 0xbf) {
            return 0;
        }
        let c: u32 = (((x & 0x1F) as u32) << 6) | ((y & 0x3f) as u32);
        assert(decode_first_codepoint(s) == c);
        if c < 0x80 || (0xD800 <= c && c <= 0xDFFF) {
            return 0;
        }
        return 2;
    }
    if 0xe0 <= x && x <= 0xef {
        if n < 3 {
            return 0;
        }
        let y = b[i + 1];
        let z = b[i + 2];
        assert(s[1] == y && s[2] == z);
        if !(0x80 <= y && y <= 0xbf) || !(0x80 <= z && z <= 0xbf) {
            return 0;
        }
        let c: u32 = (((x & 0x0F) as u32) << 12) | (((y & 0x3f) as u32) << 6) | ((z & 0x3f) as u32);
        assert(decode_first_codepoint(s) == c);
        if c < 0x800 || (0xD800 <= c && c <= 0xDFFF) {
            return 0;
        }
        return 3;
    }
    if 0xf0 <= x && x <= 0xf7 {
        if n < 4 {
            return 0;
        }
        let y = b[i + 1];
        let z = b[i + 2];
        let w = b[i + 3];
        assert(s[1] == y && s[2] == z && s[3] == w);
        if !(0x80 <= y && y <= 0xbf) || !(0x80 <= z && z <= 0xbf) || !(0x80 <= w && w <= 0xbf) {
            return 0;
        }
        let c: u32 = (((x & 0x07) as u32) << 18) | (((y & 0x3f) as u32) << 12) | (((z & 0x3f) as u32)
            << 6) | ((w & 0x3f) as u32);
        assert(decode_first_codepoint(s) == c);
        if c < 0x10000 || c > 0x10ffff || (0xD800 <= c && c <= 0xDFFF) {
            return 0;
        }
        return 4;
    }
    0
}

/// Whether `bytes` are valid UTF-8 (RFC 3629): each scalar in its shortest
/// form, no surrogate, nothing above U+10FFFF.
pub(crate) fn is_utf8(bytes: &[u8]) -> (r: bool)
    ensures
        r == valid_utf8(bytes@),
{
    let mut i: usize = 0;
    assert(bytes@.skip(0) =~= bytes@);
    while i < bytes.len()
        invariant
            i <= bytes@.len(),
            valid_utf8(bytes@) == valid_utf8(bytes@.skip(i as int)),
        decreases bytes@.len() - i,
    {
        let k = first_scalar_len(bytes, i);
        if k == 0 {
            return false;
        }
        assert(pop_first_scalar(bytes@.skip(i as int)) =~= bytes@.skip(i + k));
        i = i + k;
    }
    assert(bytes@.skip(i as int) =~= Seq::<u8>::empty());
    true
}

} // verus!
