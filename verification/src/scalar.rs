//! Decoding and encoding of single Unicode scalar values, and their case mappings.
use vstd::prelude::*;
use vstd::utf8::*;

verus! {

/// The full uppercase mapping of a scalar value, as Unicode's tables give it.
pub uninterp spec fn uppercase_of(c: char) -> Seq<char>;

/// The full lowercase mapping of a scalar value, as Unicode's tables give it.
pub uninterp spec fn lowercase_of(c: char) -> Seq<char>;

/// `char::to_uppercase`, collected: the scalar values of the uppercase mapping
/// of `c`, in order. The mapping is a fixed table, so the result is a function
/// of `c` alone; the table itself is not restated here.
#[verifier::external_body]
pub(crate) fn to_uppercase(c: char) -> (r: Vec<char>)
    ensures
        r@ == uppercase_of(c),
{
    c.to_uppercase().collect()
}

/// `char::to_lowercase`, collected: the scalar values of the lowercase mapping
/// of `c`, in order. The mapping is a fixed table, so the result is a function
/// of `c` alone; the table itself is not restated here.
#[verifier::external_body]
pub(crate) fn to_lowercase(c: char) -> (r: Vec<char>)
    ensures
        r@ == lowercase_of(c),
{
    c.to_lowercase().collect()
}

/// `char::from_u32`: the `char` with the given value where that value is a
/// Unicode scalar value, and `None` for surrogates and values above 0x10FFFF.
#[verifier::external_body]
pub(crate) fn char_from_u32(v: u32) -> (r: Option<char>)
    ensures
        is_scalar(v) ==> r == Some(v as char),
        !is_scalar(v) ==> r.is_none(),
{
    char::from_u32(v)
}

/// `char::encode_utf8`, copied out of its scratch buffer: the UTF-8 encoding
/// of `c`, one to four bytes.
#[verifier::external_body]
pub(crate) fn encode_char(c: char) -> (r: Vec<u8>)
    ensures
        r@ == encode_scalar(c as u32),
{
    let mut scratch = [0u8; 4];
    c.encode_utf8(&mut scratch).as_bytes().to_vec()
}

/// True when `b` has the form of a continuation byte.
fn is_continuation(b: u8) -> (r: bool)
    ensures
        r == is_continuation_byte(b),
{
    0x80 <= b && b <= 0xbf
}

/// Decodes the scalar value whose encoding starts at `at`, if a well-formed
/// one starts there: not truncated, not overlong, no surrogate, at most
/// 0x10FFFF. Returns the scalar with the number of bytes it takes. Past the
/// end nothing starts.
pub fn decode_scalar(bytes: &[u8], at: usize) -> (r: Option<(char, usize)>)
    ensures
        r.is_some() == (at <= bytes@.len() && valid_first_scalar(bytes@.skip(at as int))),
        r matches Some((c, n)) ==> {
            &&& c == decode_first_scalar(bytes@.skip(at as int)) as char
            &&& n == length_of_first_scalar(bytes@.skip(at as int))
            &&& 1 <= n <= 4
            &&& at + n <= bytes@.len()
        },
{
    let len = bytes.len();
    if at >= len {
        return None;
    }
    let ghost t = bytes@.skip(at as int);
    let avail: usize = len - at;
    let b0: u8 = bytes[at];
    assert(t[0] == b0);
    if b0 <= 0x7f {
        let cp: u32 = (b0 & 0x7f) as u32;
        assert((b0 & 0x7f) as u32 <= 0x7f) by (bit_vector);
        match char_from_u32(cp) {
            Some(c) => Some((c, 1)),
            None => None,
        }
    } else if 0xc0 <= b0 && b0 <= 0xdf {
        if avail < 2 {
            return None;
        }
        let b1: u8 = bytes[at + 1];
        assert(t[1] == b1);
        if !is_continuation(b1) {
            return None;
        }
        let cp: u32 = (((b0 & 0x1f) as u32) << 6) | ((b1 & 0x3f) as u32);
        assert(((((b0 & 0x1f) as u32) << 6) | ((b1 & 0x3f) as u32)) <= 0x7ff) by (bit_vector);
        if cp < 0x80 {
            return None;
        }
        match char_from_u32(cp) {
            Some(c) => Some((c, 2)),
            None => None,
        }
    } else if 0xe0 <= b0 && b0 <= 0xef {
        if avail < 3 {
            return None;
        }
        let b1: u8 = bytes[at + 1];
        let b2: u8 = bytes[at + 2];
        assert(t[1] == b1 && t[2] == b2);
        if !is_continuation(b1) || !is_continuation(b2) {
            return None;
        }
        let cp: u32 = (((b0 & 0x0f) as u32) << 12) | (((b1 & 0x3f) as u32) << 6) | ((b2
            & 0x3f) as u32);
        assert(((((b0 & 0x0f) as u32) << 12) | (((b1 & 0x3f) as u32) << 6) | ((b2 & 0x3f) as u32))
            <= 0xffff) by (bit_vector);
        if cp < 0x800 || (0xd800 <= cp && cp <= 0xdfff) {
            return None;
        }
        match char_from_u32(cp) {
            Some(c) => Some((c, 3)),
            None => None,
        }
    } else if 0xf0 <= b0 && b0 <= 0xf7 {
        if avail < 4 {
            return None;
        }
        let b1: u8 = bytes[at + 1];
        let b2: u8 = bytes[at + 2];
        let b3: u8 = bytes[at + 3];
        assert(t[1] == b1 && t[2] == b2 && t[3] == b3);
        if !is_continuation(b1) || !is_continuation(b2) || !is_continuation(b3) {
            return None;
        }
        let cp: u32 = (((b0 & 0x07) as u32) << 18) | (((b1 & 0x3f) as u32) << 12) | (((b2
            & 0x3f) as u32) << 6) | ((b3 & 0x3f) as u32);
        if cp < 0x10000 || cp > 0x10ffff {
            return None;
        }
        match char_from_u32(cp) {
            Some(c) => Some((c, 4)),
            None => None,
        }
    } else {
        None
    }
}

} // verus!
