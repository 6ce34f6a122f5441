//! The owned case-insensitive byte sequence, which keeps short contents inline.
use vstd::prelude::*;
use smallvec::SmallVec;
use crate::insensitive::insensitive_eq;
use crate::insensitive_ref::{std_order, to_std_order, Insensitive, InsensitiveMut};
use core::cmp::Ordering;
use crate::order::{insensitive_order, Order};

verus! {

/// A `smallvec::SmallVec` of bytes, which stores up to 24 of them inline and
/// moves to the heap beyond that. Its contents are known only through
/// [`small_bytes`].
#[verifier::external_body]
#[derive(Debug)]
pub struct SmallBytes {
    inner: SmallVec<[u8; 24]>,
}

/// The bytes that a small vector holds, in order.
pub uninterp spec fn small_bytes(v: SmallBytes) -> Seq<u8>;

/// `SmallVec::new`: a vector that holds nothing.
#[verifier::external_body]
fn small_new() -> (r: SmallBytes)
    ensures
        small_bytes(r) == Seq::<u8>::empty(),
{
    SmallBytes { inner: SmallVec::new() }
}

/// `SmallVec::from_slice`: a vector that holds a copy of the slice.
#[verifier::external_body]
fn small_from_slice(s: &[u8]) -> (r: SmallBytes)
    ensures
        small_bytes(r) == s@,
{
    SmallBytes { inner: SmallVec::from_slice(s) }
}

/// `SmallVec::from_vec`: a vector that holds what `v` held.
#[verifier::external_body]
fn small_from_vec(v: Vec<u8>) -> (r: SmallBytes)
    ensures
        small_bytes(r) == v@,
{
    SmallBytes { inner: SmallVec::from_vec(v) }
}

/// `SmallVec::into_vec`: the contents as a `Vec`.
#[verifier::external_body]
fn small_into_vec(v: SmallBytes) -> (r: Vec<u8>)
    ensures
        r@ == small_bytes(v),
{
    v.inner.into_vec()
}

/// `SmallVec::as_slice`: the contents as a slice.
#[verifier::external_body]
fn small_as_slice(v: &SmallBytes) -> (r: &[u8])
    ensures
        r@ == small_bytes(*v),
{
    v.inner.as_slice()
}

/// `SmallVec::as_mut_slice`: the contents as a slice that can be written to;
/// what is written there is what the vector then holds.
#[verifier::external_body]
fn small_as_mut_slice(v: &mut SmallBytes) -> (r: &mut [u8])
    ensures
        r@ == small_bytes(*old(v)),
        small_bytes(*final(v)) == final(r)@,
{
    v.inner.as_mut_slice()
}

/// `SmallVec::extend_from_slice`: appends a copy of the slice. It reserves
/// room first, rounding the new length up to a power of two, and panics where
/// that is more than an allocation may have; the condition leaves those
/// lengths out.
#[verifier::external_body]
fn small_extend_from_slice(v: &mut SmallBytes, s: &[u8])
    requires
        small_bytes(*old(v)).len() + s@.len() <= usize::MAX / 4,
    ensures
        small_bytes(*final(v)) == small_bytes(*old(v)) + s@,
{
    v.inner.extend_from_slice(s)
}

/// An owned byte sequence that is compared without regard to case.
#[derive(Debug)]
pub struct InsensitiveBuf {
    bytes: SmallBytes,
}

/// The bytes of `s` from the last to the first.
pub fn reversed(s: &[u8]) -> (r: Vec<u8>)
    ensures
        r@ == s@.reverse(),
{
    let mut out: Vec<u8> = Vec::new();
    let mut i: usize = s.len();
    while i > 0
        invariant
            i <= s@.len(),
            out@.len() == s@.len() - i,
            forall|k: int| 0 <= k < out@.len() ==> out@[k] == s@[s@.len() - 1 - k],
        decreases i,
    {
        i = i - 1;
        out.push(s[i]);
    }
    assert(out@ =~= s@.reverse());
    out
}

impl InsensitiveBuf {
    /// The bytes that are held.
    pub closed spec fn view(&self) -> Seq<u8> {
        small_bytes(self.bytes)
    }

    /// Holds a copy of `bytes`; any byte sequence is accepted.
    pub fn new(bytes: &[u8]) -> (r: Self)
        ensures
            r@ == bytes@,
    {
        InsensitiveBuf { bytes: small_from_slice(bytes) }
    }

    /// Holds the bytes of `bytes`.
    pub fn from_vec(bytes: Vec<u8>) -> (r: Self)
        ensures
            r@ == bytes@,
    {
        InsensitiveBuf { bytes: small_from_vec(bytes) }
    }

    /// The held bytes as a `Vec`.
    pub fn into_vec(self) -> (r: Vec<u8>)
        ensures
            r@ == self@,
    {
        small_into_vec(self.bytes)
    }

    /// Appends a copy of `s`.
    pub fn extend_from_slice(&mut self, s: &[u8])
        requires
            old(self)@.len() + s@.len() <= usize::MAX / 4,
        ensures
            final(self)@ == old(self)@ + s@,
    {
        small_extend_from_slice(&mut self.bytes, s)
    }

    /// Appends the bytes of `s` from the last to the first.
    pub fn extend_from_slice_reversed(&mut self, s: &[u8])
        requires
            old(self)@.len() + s@.len() <= usize::MAX / 4,
        ensures
            final(self)@ == old(self)@ + s@.reverse(),
    {
        let back = reversed(s);
        small_extend_from_slice(&mut self.bytes, back.as_slice())
    }

    /// The borrowed view of the held bytes.
    pub fn as_insensitive(&self) -> (r: Insensitive<'_>)
        ensures
            r@ == self@,
    {
        Insensitive::from_bytes(small_as_slice(&self.bytes))
    }

    /// The held bytes as a view through which they can be changed in place.
    pub fn as_insensitive_mut(&mut self) -> (r: InsensitiveMut<'_>)
        ensures
            r@ == old(self)@,
    {
        Insensitive::from_bytes_mut(small_as_mut_slice(&mut self.bytes))
    }

    /// The held bytes.
    pub fn as_bytes(&self) -> (r: &[u8])
        ensures
            r@ == self@,
    {
        small_as_slice(&self.bytes)
    }

    /// Number of bytes held.
    pub fn len(&self) -> (r: usize)
        ensures
            r == self@.len(),
    {
        small_as_slice(&self.bytes).len()
    }

    /// True when no byte is held.
    pub fn is_empty(&self) -> (r: bool)
        ensures
            r == (self@.len() == 0),
    {
        small_as_slice(&self.bytes).len() == 0
    }

    /// True when both hold case-insensitively equal bytes.
    pub fn same_as(&self, other: &InsensitiveBuf) -> (r: bool)
        ensures
            r == insensitive_eq(self@, other@),
    {
        self.as_insensitive().same_as(&other.as_insensitive())
    }

    /// How this buffer stands to `other` in the case-insensitive order.
    pub fn order(&self, other: &InsensitiveBuf) -> (r: Order)
        ensures
            r == insensitive_order(self@, other@),
    {
        self.as_insensitive().order(&other.as_insensitive())
    }
}

impl PartialOrd for InsensitiveBuf {
    /// The case-insensitive order.
    fn partial_cmp(&self, other: &Self) -> (r: Option<Ordering>) {
        Some(to_std_order(self.order(other)))
    }
}

impl vstd::std_specs::cmp::PartialOrdSpecImpl for InsensitiveBuf {
    open spec fn obeys_partial_cmp_spec() -> bool {
        true
    }

    open spec fn partial_cmp_spec(&self, other: &Self) -> Option<Ordering> {
        Some(std_order(insensitive_order(self@, other@)))
    }
}

impl Default for InsensitiveBuf {
    /// A buffer that holds nothing.
    fn default() -> (r: Self)
        ensures
            r@ == Seq::<u8>::empty(),
    {
        InsensitiveBuf { bytes: small_new() }
    }
}

impl Clone for InsensitiveBuf {
    /// A buffer that holds a copy of the same bytes.
    fn clone(&self) -> (r: Self)
        ensures
            r@ == self@,
    {
        InsensitiveBuf::new(self.as_insensitive().as_bytes())
    }
}

impl PartialEq for InsensitiveBuf {
    /// Equality without regard to case.
    fn eq(&self, other: &Self) -> (r: bool) {
        self.same_as(other)
    }
}

impl Eq for InsensitiveBuf {

}

impl vstd::std_specs::cmp::PartialEqSpecImpl for InsensitiveBuf {
    open spec fn obeys_eq_spec() -> bool {
        true
    }

    open spec fn eq_spec(&self, other: &Self) -> bool {
        insensitive_eq(self@, other@)
    }
}

} // verus!
