//! The borrowed case-insensitive view of a byte sequence.
use vstd::prelude::*;
use vstd::utf8::*;
use crate::insensitive::{
    chunk_feed, encoded, first_chunk, hash_feed, insensitive_eq, lemma_segment_len_bounds,
    upper_key, CaseMap, CasedChunks, CharsLowercaseMap, CharsUppercaseMap,
};
use crate::insensitive_display::InsensitiveDisplay;
use crate::order::{insensitive_order, Order};
use crate::scalar::encode_char;
use core::cmp::Ordering;

verus! {

/// A borrowed byte sequence that is compared without regard to case.
#[derive(Debug, Clone, Copy)]
pub struct Insensitive<'a> {
    bytes: &'a [u8],
}

/// What one chunk feeds to a hasher: 32-bit words first, then bytes.
#[derive(Debug)]
pub struct ChunkFeed<'a> {
    /// The mapped scalar values of a valid chunk.
    pub words: Vec<u32>,
    /// The bytes of an invalid chunk.
    pub raw: &'a [u8],
}

impl<'a> ChunkFeed<'a> {
    /// The feed as its words and its bytes.
    pub open spec fn view(&self) -> (Seq<u32>, Seq<u8>) {
        (self.words@, self.raw@)
    }
}

/// Appends the UTF-8 encoding of `chars` to `buf`.
pub fn push_utf8(chars: &Vec<char>, buf: &mut Vec<u8>)
    ensures
        final(buf)@ == old(buf)@ + encode_utf8(chars@),
{
    let ghost before = buf@;
    let mut j: usize = 0;
    proof {
        assert(chars@.skip(0) =~= chars@);
    }
    while j < chars.len()
        invariant
            j <= chars@.len(),
            buf@ + encode_utf8(chars@.skip(j as int)) == before + encode_utf8(chars@),
        decreases chars@.len() - j,
    {
        let e = encode_char(chars[j]);
        proof {
            let rest = chars@.skip(j as int);
            assert(rest.drop_first() =~= chars@.skip(j + 1));
            assert((buf@ + e@) + encode_utf8(chars@.skip(j + 1)) =~= buf@ + encode_utf8(rest));
        }
        let ghost mid = buf@;
        buf.extend_from_slice(e.as_slice());
        assert(buf@ =~= mid + e@);
        j = j + 1;
    }
    assert(buf@ + Seq::<u8>::empty() =~= buf@);
}

/// Two sequences with the same head are equal exactly when their tails are.
proof fn lemma_same_head<T>(x: T, s: Seq<T>, t: Seq<T>)
    ensures
        (seq![x] + s == seq![x] + t) == (s == t),
{
    if seq![x] + s == seq![x] + t {
        assert((seq![x] + s).drop_first() =~= s);
        assert((seq![x] + t).drop_first() =~= t);
    }
}

impl<'a> Insensitive<'a> {
    /// The bytes that are viewed.
    pub closed spec fn view(&self) -> Seq<u8> {
        self.bytes@
    }

    /// Views `bytes`; any byte sequence is accepted.
    pub fn new(bytes: &'a [u8]) -> (r: Self)
        ensures
            r@ == bytes@,
    {
        Insensitive { bytes }
    }

    /// Views `bytes`; any byte sequence is accepted.
    pub fn from_bytes(bytes: &'a [u8]) -> (r: Self)
        ensures
            r@ == bytes@,
    {
        Insensitive { bytes }
    }

    /// The viewed bytes.
    pub fn as_bytes(&self) -> (r: &'a [u8])
        ensures
            r@ == self@,
    {
        self.bytes
    }

    /// What shows the viewed bytes to people.
    pub fn display(&self) -> (r: InsensitiveDisplay<'a>)
        ensures
            r@ == self@,
    {
        InsensitiveDisplay(*self)
    }

    /// Number of bytes viewed. Two equal views may differ in length.
    pub fn len(&self) -> (r: usize)
        ensures
            r == self@.len(),
    {
        self.bytes.len()
    }

    /// True when no byte is viewed.
    pub fn is_empty(&self) -> (r: bool)
        ensures
            r == (self@.len() == 0),
    {
        self.bytes.len() == 0
    }

    /// The chunks of the viewed bytes under the mapping `M`, from the front.
    pub fn cased_chunks<M: CaseMap>(&self) -> (r: CasedChunks<'a, M>)
        ensures
            r.wf(),
            r.remaining() == self@,
    {
        CasedChunks::new(self.bytes)
    }

    /// The chunks of the viewed bytes under the uppercase mapping.
    pub fn upper_chunks(&self) -> (r: CasedChunks<'a, CharsUppercaseMap>)
        ensures
            r.wf(),
            r.remaining() == self@,
    {
        self.cased_chunks::<CharsUppercaseMap>()
    }

    /// The chunks of the viewed bytes under the lowercase mapping.
    pub fn lower_chunks(&self) -> (r: CasedChunks<'a, CharsLowercaseMap>)
        ensures
            r.wf(),
            r.remaining() == self@,
    {
        self.cased_chunks::<CharsLowercaseMap>()
    }

    /// Appends the case-mapped form of the viewed bytes to `buf`.
    pub fn encode<M: CaseMap>(&self, buf: &mut Vec<u8>)
        ensures
            final(buf)@ == old(buf)@ + encoded::<M>(self@),
    {
        let ghost before = buf@;
        let mut chunks = self.cased_chunks::<M>();
        loop
            invariant
                chunks.wf(),
                buf@ + encoded::<M>(chunks.remaining()) == before + encoded::<M>(self@),
            ensures
                buf@ == before + encoded::<M>(self@),
            decreases chunks.remaining().len(),
        {
            let ghost s = chunks.remaining();
            let ghost mid = buf@;
            proof {
                lemma_segment_len_bounds(s);
            }
            match chunks.next() {
                Some(chunk) => {
                    let text = chunk.valid();
                    push_utf8(&text, buf);
                    let raw = chunk.invalid();
                    buf.extend_from_slice(raw);
                    proof {
                        let c = first_chunk::<M>(s);
                        assert(buf@ =~= mid + encode_utf8(c.0) + c.1);
                        assert(buf@ + encoded::<M>(chunks.remaining()) =~= mid + encoded::<M>(s));
                    }
                },
                None => {
                    assert(buf@ + Seq::<u8>::empty() =~= buf@);
                    break ;
                },
            }
        }
    }

    /// Appends the lowercase form of the viewed bytes to `buf`.
    pub fn encode_lower(&self, buf: &mut Vec<u8>)
        ensures
            final(buf)@ == old(buf)@ + encoded::<CharsLowercaseMap>(self@),
    {
        self.encode::<CharsLowercaseMap>(buf)
    }

    /// Appends the uppercase form of the viewed bytes to `buf`.
    pub fn encode_upper(&self, buf: &mut Vec<u8>)
        ensures
            final(buf)@ == old(buf)@ + encoded::<CharsUppercaseMap>(self@),
    {
        self.encode::<CharsUppercaseMap>(buf)
    }

    /// What the view feeds to a hasher, chunk after chunk under the uppercase
    /// mapping. Equal views give equal feeds.
    pub fn hash_feed(&self) -> (r: Vec<ChunkFeed<'a>>)
        ensures
            r@.len() == hash_feed(self@).len(),
            forall|i: int| 0 <= i < r@.len() ==> (#[trigger] r@[i])@ == hash_feed(self@)[i],
    {
        let mut out: Vec<ChunkFeed<'a>> = Vec::new();
        let ghost mut done: Seq<(Seq<u32>, Seq<u8>)> = Seq::empty();
        let mut chunks = self.upper_chunks();
        proof {
            assert(done + hash_feed(self@) =~= hash_feed(self@));
        }
        loop
            invariant
                chunks.wf(),
                done.len() == out@.len(),
                forall|i: int| 0 <= i < out@.len() ==> (#[trigger] out@[i])@ == done[i],
                done + hash_feed(chunks.remaining()) == hash_feed(self@),
            ensures
                done == hash_feed(self@),
                done.len() == out@.len(),
                forall|i: int| 0 <= i < out@.len() ==> (#[trigger] out@[i])@ == done[i],
            decreases chunks.remaining().len(),
        {
            let ghost s = chunks.remaining();
            proof {
                lemma_segment_len_bounds(s);
            }
            match chunks.next() {
                Some(chunk) => {
                    let item = ChunkFeed { words: chunk.hash_words(), raw: chunk.invalid() };
                    proof {
                        let h = first_chunk::<CharsUppercaseMap>(s);
                        assert(upper_key(s) == seq![h] + upper_key(chunks.remaining()));
                        assert(hash_feed(s) =~= seq![chunk_feed(h)] + hash_feed(
                            chunks.remaining(),
                        ));
                        assert(done.push(item@) + hash_feed(chunks.remaining()) =~= done
                            + hash_feed(s));
                        done = done.push(item@);
                    }
                    out.push(item);
                },
                None => {
                    assert(done + hash_feed(s) =~= done);
                    break ;
                },
            }
        }
        out
    }

    /// True when both views have the same chunks under the uppercase mapping.
    pub fn same_as(&self, other: &Insensitive<'_>) -> (r: bool)
        ensures
            r == insensitive_eq(self@, other@),
    {
        let mut left = self.upper_chunks();
        let mut right = other.upper_chunks();
        loop
            invariant
                left.wf(),
                right.wf(),
                insensitive_eq(self@, other@) == insensitive_eq(
                    left.remaining(),
                    right.remaining(),
                ),
            decreases left.remaining().len(),
        {
            let ghost s = left.remaining();
            let ghost t = right.remaining();
            proof {
                lemma_segment_len_bounds(s);
                lemma_segment_len_bounds(t);
            }
            let x = left.next();
            let y = right.next();
            match (x, y) {
                (None, None) => {
                    return true;
                },
                (Some(cx), Some(cy)) => {
                    let same = cx.same_as(&cy);
                    proof {
                        let hx = first_chunk::<CharsUppercaseMap>(s);
                        let hy = first_chunk::<CharsUppercaseMap>(t);
                        assert(upper_key(s)[0] == hx);
                        assert(upper_key(t)[0] == hy);
                        assert(same == (hx == hy));
                        if same {
                            lemma_same_head(hx, upper_key(left.remaining()), upper_key(right.remaining()));
                        }
                    }
                    if !same {
                        return false;
                    }
                },
                _ => {
                    assert(upper_key(s).len() != upper_key(t).len());
                    return false;
                },
            }
        }
    }
}

impl<'a> Insensitive<'a> {
    /// How this view stands to `other` in the case-insensitive order.
    pub fn order(&self, other: &Insensitive<'_>) -> (r: Order)
        ensures
            r == insensitive_order(self@, other@),
    {
        let mut left = self.upper_chunks();
        let mut right = other.upper_chunks();
        loop
            invariant
                left.wf(),
                right.wf(),
                insensitive_order(self@, other@) == insensitive_order(
                    left.remaining(),
                    right.remaining(),
                ),
            decreases left.remaining().len(),
        {
            let ghost s = left.remaining();
            let ghost t = right.remaining();
            proof {
                lemma_segment_len_bounds(s);
                lemma_segment_len_bounds(t);
            }
            let x = left.next();
            let y = right.next();
            match (x, y) {
                (None, None) => {
                    return Order::Equal;
                },
                (None, Some(_)) => {
                    return Order::Less;
                },
                (Some(_), None) => {
                    return Order::Greater;
                },
                (Some(cx), Some(cy)) => {
                    let o = cx.order(&cy);
                    proof {
                        let hx = first_chunk::<CharsUppercaseMap>(s);
                        let hy = first_chunk::<CharsUppercaseMap>(t);
                        assert(upper_key(s)[0] == hx);
                        assert(upper_key(t)[0] == hy);
                        assert(upper_key(s).drop_first() =~= upper_key(left.remaining()));
                        assert(upper_key(t).drop_first() =~= upper_key(right.remaining()));
                    }
                    match o {
                        Order::Equal => {},
                        _ => {
                            return o;
                        },
                    }
                },
            }
        }
    }

    /// The case-insensitive order as the standard library names it.
    pub fn cmp(&self, other: &Insensitive<'_>) -> (r: Ordering)
        ensures
            r == std_order(insensitive_order(self@, other@)),
    {
        to_std_order(self.order(other))
    }
}

/// The standard library's name for an [`Order`].
pub open spec fn std_order(o: Order) -> Ordering {
    match o {
        Order::Less => Ordering::Less,
        Order::Equal => Ordering::Equal,
        Order::Greater => Ordering::Greater,
    }
}

/// The standard library's name for an [`Order`].
pub fn to_std_order(o: Order) -> (r: Ordering)
    ensures
        r == std_order(o),
{
    match o {
        Order::Less => Ordering::Less,
        Order::Equal => Ordering::Equal,
        Order::Greater => Ordering::Greater,
    }
}

impl<'a> PartialOrd for Insensitive<'a> {
    /// The case-insensitive order: see [`insensitive_order`].
    fn partial_cmp(&self, other: &Self) -> (r: Option<Ordering>) {
        Some(self.cmp(other))
    }
}

impl<'a> vstd::std_specs::cmp::PartialOrdSpecImpl for Insensitive<'a> {
    open spec fn obeys_partial_cmp_spec() -> bool {
        true
    }

    open spec fn partial_cmp_spec(&self, other: &Self) -> Option<Ordering> {
        Some(std_order(insensitive_order(self@, other@)))
    }
}

impl<'a> PartialEq for Insensitive<'a> {
    /// Equality without regard to case: see [`insensitive_eq`].
    fn eq(&self, other: &Self) -> (r: bool) {
        self.same_as(other)
    }
}

impl<'a> Eq for Insensitive<'a> {

}

impl<'a> vstd::std_specs::cmp::PartialEqSpecImpl for Insensitive<'a> {
    open spec fn obeys_eq_spec() -> bool {
        true
    }

    open spec fn eq_spec(&self, other: &Self) -> bool {
        insensitive_eq(self@, other@)
    }
}

/// A borrowed byte sequence whose bytes may be changed in place, but not
/// their number.
pub struct InsensitiveMut<'a> {
    bytes: &'a mut [u8],
}

impl<'a> InsensitiveMut<'a> {
    /// The bytes that are viewed.
    pub closed spec fn view(&self) -> Seq<u8> {
        self.bytes@
    }

    /// The same bytes as a view that cannot change them.
    pub fn as_insensitive(&self) -> (r: Insensitive<'_>)
        ensures
            r@ == self@,
    {
        Insensitive { bytes: &*self.bytes }
    }

    /// The bytes, open to change.
    pub fn as_bytes_mut(&mut self) -> (r: &mut [u8])
        ensures
            r@ == old(self)@,
            final(self)@ == final(r)@,
    {
        &mut *self.bytes
    }
}

impl<'a> Insensitive<'a> {
    /// Views `bytes`, which stay open to change in place.
    pub fn from_bytes_mut(bytes: &'a mut [u8]) -> (r: InsensitiveMut<'a>)
        ensures
            r@ == old(bytes)@,
    {
        InsensitiveMut { bytes }
    }
}

} // verus!
