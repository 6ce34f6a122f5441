//! Case-insensitive equality, ordering and hashing over byte sequences that
//! may hold invalid UTF-8.
//!
//! Well-formed UTF-8 text is compared by its uppercase-folded scalar values;
//! bytes that are not part of any well-formed encoding are compared as they are.
use vstd::prelude::*;
use crate::insensitive::{encoded, CharsLowercaseMap, CharsUppercaseMap};
pub use crate::insensitive_buf::InsensitiveBuf;
pub use crate::insensitive_display::InsensitiveDisplay;
pub use crate::insensitive_ref::Insensitive;

pub mod scalar;
pub mod insensitive;
pub mod insensitive_ref;
pub mod insensitive_display;
pub mod insensitive_buf;
pub mod laws;
pub mod order;

verus! {

/// Appends the uppercase form of `bytes` to `buf`: valid text uppercased,
/// invalid bytes as they are.
pub fn encode_upper(bytes: &[u8], buf: &mut Vec<u8>)
    ensures
        final(buf)@ == old(buf)@ + encoded::<CharsUppercaseMap>(bytes@),
{
    Insensitive::new(bytes).encode_upper(buf)
}

/// Appends the lowercase form of `bytes` to `buf`: valid text lowercased,
/// invalid bytes as they are.
pub fn encode_lower(bytes: &[u8], buf: &mut Vec<u8>)
    ensures
        final(buf)@ == old(buf)@ + encoded::<CharsLowercaseMap>(bytes@),
{
    Insensitive::new(bytes).encode_lower(buf)
}

/// The uppercase form of `bytes`.
pub fn to_upper(bytes: &[u8]) -> (r: Vec<u8>)
    ensures
        r@ == encoded::<CharsUppercaseMap>(bytes@),
{
    let mut buf: Vec<u8> = Vec::new();
    encode_upper(bytes, &mut buf);
    assert(Seq::<u8>::empty() + encoded::<CharsUppercaseMap>(bytes@) =~= encoded::<
        CharsUppercaseMap,
    >(bytes@));
    buf
}

/// The lowercase form of `bytes`.
pub fn to_lower(bytes: &[u8]) -> (r: Vec<u8>)
    ensures
        r@ == encoded::<CharsLowercaseMap>(bytes@),
{
    let mut buf: Vec<u8> = Vec::new();
    encode_lower(bytes, &mut buf);
    assert(Seq::<u8>::empty() + encoded::<CharsLowercaseMap>(bytes@) =~= encoded::<
        CharsLowercaseMap,
    >(bytes@));
    buf
}

} // verus!
