//! Case mappings, and the decomposition of a byte sequence into case-mapped
//! chunks: maximal runs of well-formed UTF-8 text alternating with maximal
//! runs of bytes at which no well-formed encoding starts.
use core::marker::PhantomData;
use vstd::prelude::*;
use vstd::slice::slice_subrange;
use vstd::utf8::*;
use crate::order::{chunk_order, compare_bytes, compare_chars, Order};
use crate::scalar::{decode_scalar, lowercase_of, to_lowercase, to_uppercase, uppercase_of};

verus! {

/// Closes [`CaseMap`] to the two mappings of this module.
pub trait Sealed {

}

/// A case mapping: sends each scalar value to the scalar values that replace it.
pub trait CaseMap: Sealed + Sized {
    /// What the mapping makes of one scalar value.
    spec fn mapped(c: char) -> Seq<char>;

    /// Maps one scalar value.
    fn map_char(c: char) -> (r: Vec<char>)
        ensures
            r@ == Self::mapped(c),
    ;
}

/// The uppercase mapping.
#[derive(Debug, Clone, Copy)]
pub struct CharsUppercaseMap;

/// The lowercase mapping.
#[derive(Debug, Clone, Copy)]
pub struct CharsLowercaseMap;

impl Sealed for CharsUppercaseMap {

}

impl Sealed for CharsLowercaseMap {

}

impl CaseMap for CharsUppercaseMap {
    open spec fn mapped(c: char) -> Seq<char> {
        uppercase_of(c)
    }

    fn map_char(c: char) -> (r: Vec<char>) {
        to_uppercase(c)
    }
}

impl CaseMap for CharsLowercaseMap {
    open spec fn mapped(c: char) -> Seq<char> {
        lowercase_of(c)
    }

    fn map_char(c: char) -> (r: Vec<char>) {
        to_lowercase(c)
    }
}

/// Number of bytes in the longest prefix of `s` that is a row of well-formed
/// scalar encodings.
pub open spec fn valid_run(s: Seq<u8>) -> nat
    decreases s.len(),
{
    if s.len() > 0 && valid_first_scalar(s) {
        let n = length_of_first_scalar(s);
        (n + valid_run(s.skip(n))) as nat
    } else {
        0
    }
}

/// Number of bytes at the start of `s` at none of which a well-formed scalar
/// encoding starts.
pub open spec fn invalid_run(s: Seq<u8>) -> nat
    decreases s.len(),
{
    if s.len() > 0 && !valid_first_scalar(s) {
        1 + invalid_run(s.skip(1))
    } else {
        0
    }
}

/// Length of the first segment of `s`: its leading valid run where it starts
/// with a well-formed encoding, else its leading invalid run.
pub open spec fn segment_len(s: Seq<u8>) -> nat {
    if valid_first_scalar(s) {
        valid_run(s)
    } else {
        invalid_run(s)
    }
}

/// The scalar values of the leading valid run of `s`, each replaced by what
/// `M` maps it to.
pub open spec fn folded<M: CaseMap>(s: Seq<u8>) -> Seq<char>
    decreases s.len(),
{
    if s.len() > 0 && valid_first_scalar(s) {
        M::mapped(decode_first_scalar(s) as char) + folded::<M>(s.skip(length_of_first_scalar(s)))
    } else {
        Seq::empty()
    }
}

/// The first chunk of a non-empty `s`: the mapped text of its first segment
/// where that is valid, beside the bytes of the segment where it is not.
pub open spec fn first_chunk<M: CaseMap>(s: Seq<u8>) -> (Seq<char>, Seq<u8>) {
    if valid_first_scalar(s) {
        (folded::<M>(s.take(valid_run(s) as int)), Seq::empty())
    } else {
        (Seq::empty(), s.take(invalid_run(s) as int))
    }
}

/// The chunks of `s` in order, each as its mapped text and its invalid bytes.
pub open spec fn chunk_views<M: CaseMap>(s: Seq<u8>) -> Seq<(Seq<char>, Seq<u8>)>
    decreases s.len(),
    via chunk_views_decreases::<M>
{
    if s.len() == 0 {
        Seq::empty()
    } else {
        seq![first_chunk::<M>(s)] + chunk_views::<M>(s.skip(segment_len(s) as int))
    }
}

#[via_fn]
proof fn chunk_views_decreases<M: CaseMap>(s: Seq<u8>) {
    lemma_segment_len_bounds(s);
}

/// The bytes of the segments of `s`, in order.
pub open spec fn segments(s: Seq<u8>) -> Seq<Seq<u8>>
    decreases s.len(),
    via segments_decreases
{
    if s.len() == 0 {
        Seq::empty()
    } else {
        seq![s.take(segment_len(s) as int)] + segments(s.skip(segment_len(s) as int))
    }
}

#[via_fn]
proof fn segments_decreases(s: Seq<u8>) {
    lemma_segment_len_bounds(s);
}

/// A run never reaches past the end.
pub proof fn lemma_run_bounds(s: Seq<u8>)
    ensures
        valid_run(s) <= s.len(),
        invalid_run(s) <= s.len(),
    decreases s.len(),
{
    if s.len() > 0 {
        if valid_first_scalar(s) {
            lemma_run_bounds(s.skip(length_of_first_scalar(s)));
        } else {
            lemma_run_bounds(s.skip(1));
        }
    }
}

/// The leading valid run of a byte sequence is valid UTF-8.
pub proof fn lemma_valid_run_is_valid(s: Seq<u8>)
    ensures
        valid_utf8(s.take(valid_run(s) as int)),
    decreases s.len(),
{
    lemma_run_bounds(s);
    if s.len() > 0 && valid_first_scalar(s) {
        let n = length_of_first_scalar(s);
        let r = s.skip(n);
        lemma_valid_run_is_valid(r);
        lemma_run_bounds(r);
        let p = s.take(valid_run(s) as int);
        assert(forall|i: int| 0 <= i < n ==> p[i] == s[i]);
        assert(valid_first_scalar(p));
        assert(pop_first_scalar(p) =~= r.take(valid_run(r) as int));
    }
}

/// The first segment of a non-empty sequence is not empty and lies within it.
pub proof fn lemma_segment_len_bounds(s: Seq<u8>)
    ensures
        s.len() > 0 ==> 1 <= segment_len(s) <= s.len(),
        s.len() == 0 ==> segment_len(s) == 0,
{
    lemma_run_bounds(s);
}

/// True when the two vectors hold the same scalar values in the same order.
fn same_chars(a: &Vec<char>, b: &Vec<char>) -> (r: bool)
    ensures
        r == (a@ == b@),
{
    if a.len() != b.len() {
        return false;
    }
    let mut i: usize = 0;
    while i < a.len()
        invariant
            i <= a@.len(),
            a@.len() == b@.len(),
            forall|k: int| 0 <= k < i ==> a@[k] == b@[k],
        decreases a@.len() - i,
    {
        if a[i] != b[i] {
            return false;
        }
        i = i + 1;
    }
    assert(a@ =~= b@);
    true
}

/// True when the two slices hold the same bytes in the same order.
fn same_bytes(a: &[u8], b: &[u8]) -> (r: bool)
    ensures
        r == (a@ == b@),
{
    if a.len() != b.len() {
        return false;
    }
    let mut i: usize = 0;
    while i < a.len()
        invariant
            i <= a@.len(),
            a@.len() == b@.len(),
            forall|k: int| 0 <= k < i ==> a@[k] == b@[k],
        decreases a@.len() - i,
    {
        if a[i] != b[i] {
            return false;
        }
        i = i + 1;
    }
    assert(a@ =~= b@);
    true
}

/// One chunk of a byte sequence under the mapping `M`: either a run of valid
/// text, read through `M`, or a run of invalid bytes, kept as they are.
#[derive(Debug)]
pub struct CasedChunk<'a, M> {
    text: &'a [u8],
    raw: &'a [u8],
    map: PhantomData<M>,
}

impl<'a, M: CaseMap> CasedChunk<'a, M> {
    /// The bytes of the valid text of this chunk; empty for an invalid one.
    pub closed spec fn text(&self) -> Seq<u8> {
        self.text@
    }

    /// The invalid bytes of this chunk; empty for a valid one.
    pub closed spec fn raw(&self) -> Seq<u8> {
        self.raw@
    }

    /// The chunk as its mapped text and its invalid bytes.
    pub open spec fn view(&self) -> (Seq<char>, Seq<u8>) {
        (folded::<M>(self.text()), self.raw())
    }

    /// The mapped scalar values of a valid chunk, in order; empty for an
    /// invalid chunk.
    pub fn valid(&self) -> (r: Vec<char>)
        ensures
            r@ == self@.0,
    {
        let mut out: Vec<char> = Vec::new();
        let len = self.text.len();
        let mut i: usize = 0;
        proof {
            assert(self.text@.skip(0) =~= self.text@);
            assert(out@ + folded::<M>(self.text@) =~= folded::<M>(self.text@));
        }
        while i < len
            invariant
                i <= len,
                len == self.text@.len(),
                out@ + folded::<M>(self.text@.skip(i as int)) == folded::<M>(self.text@),
            decreases len - i,
        {
            let ghost t = self.text@.skip(i as int);
            match decode_scalar(self.text, i) {
                Some((c, n)) => {
                    let mut m = M::map_char(c);
                    proof {
                        assert(t.skip(n as int) =~= self.text@.skip(i + n));
                        assert((out@ + m@) + folded::<M>(self.text@.skip(i + n)) =~= out@ + (m@
                            + folded::<M>(self.text@.skip(i + n))));
                    }
                    out.append(&mut m);
                    i = i + n;
                },
                None => {
                    assert(out@ + Seq::<char>::empty() =~= out@);
                    return out;
                },
            }
        }
        assert(out@ + Seq::<char>::empty() =~= out@);
        out
    }

    /// The mapped scalar values of a valid chunk as 32-bit words, as a hasher
    /// is to take them.
    pub fn hash_words(&self) -> (r: Vec<u32>)
        ensures
            r@ == chunk_feed(self@).0,
    {
        let chars = self.valid();
        let mut out: Vec<u32> = Vec::new();
        let mut i: usize = 0;
        while i < chars.len()
            invariant
                i <= chars@.len(),
                out@.len() == i,
                forall|k: int| 0 <= k < i ==> out@[k] == chars@[k] as u32,
            decreases chars@.len() - i,
        {
            out.push(chars[i] as u32);
            i = i + 1;
        }
        assert(out@ =~= chunk_feed(self@).0);
        out
    }

    /// True when both chunks have the same mapped text and the same invalid bytes.
    pub fn same_as(&self, other: &CasedChunk<'_, M>) -> (r: bool)
        ensures
            r == (self@ == other@),
    {
        let x = self.valid();
        let y = other.valid();
        same_chars(&x, &y) && same_bytes(self.raw, other.raw)
    }

    /// How this chunk stands to `other`: by mapped text first, then by
    /// invalid bytes.
    pub fn order(&self, other: &CasedChunk<'_, M>) -> (r: Order)
        ensures
            r == chunk_order(self@, other@),
    {
        let x = self.valid();
        let y = other.valid();
        match compare_chars(&x, &y) {
            Order::Equal => compare_bytes(self.raw, other.raw),
            o => o,
        }
    }

    /// The bytes of the text of a valid chunk as they stand, unmapped; empty
    /// for an invalid chunk.
    pub fn text_bytes(&self) -> (r: &'a [u8])
        ensures
            r@ == self.text(),
    {
        self.text
    }

    /// The bytes of an invalid chunk; empty for a valid chunk.
    pub fn invalid(&self) -> (r: &'a [u8])
        ensures
            r@ == self@.1,
    {
        self.raw
    }
}

/// The chunks of a byte sequence under the mapping `M`, handed out one by one
/// from the front.
#[derive(Debug)]
pub struct CasedChunks<'a, M> {
    bytes: &'a [u8],
    pos: usize,
    map: PhantomData<M>,
}

impl<'a, M: CaseMap> CasedChunks<'a, M> {
    /// The position never passes the end of the bytes.
    pub closed spec fn wf(&self) -> bool {
        self.pos <= self.bytes@.len()
    }

    /// The bytes that have not been handed out yet.
    pub closed spec fn remaining(&self) -> Seq<u8> {
        self.bytes@.skip(self.pos as int)
    }

    /// Starts at the front of `bytes`.
    pub fn new(bytes: &'a [u8]) -> (r: Self)
        ensures
            r.wf(),
            r.remaining() == bytes@,
    {
        assert(bytes@.skip(0) =~= bytes@);
        CasedChunks { bytes, pos: 0, map: PhantomData }
    }

    /// Hands out the next chunk: the first segment of what remains, which is
    /// then left behind. Once nothing remains the answer is `None`, and stays so.
    pub fn next(&mut self) -> (r: Option<CasedChunk<'a, M>>)
        requires
            old(self).wf(),
        ensures
            final(self).wf(),
            r.is_none() == (old(self).remaining().len() == 0),
            r.is_none() ==> final(self).remaining() == old(self).remaining(),
            r matches Some(c) ==> {
                let s = old(self).remaining();
                &&& final(self).remaining() == s.skip(segment_len(s) as int)
                &&& c@ == first_chunk::<M>(s)
                &&& c.text() + c.raw() == s.take(segment_len(s) as int)
                &&& valid_utf8(c.text())
                &&& (c.text().len() == 0) == !valid_first_scalar(s)
                &&& (c.raw().len() == 0) == valid_first_scalar(s)
            },
    {
        let bytes = self.bytes;
        let len = bytes.len();
        let start = self.pos;
        if start >= len {
            return None;
        }
        let ghost s = bytes@.skip(start as int);
        proof {
            lemma_segment_len_bounds(s);
        }
        let mut i: usize = start;
        let empty = slice_subrange(bytes, start, start);
        match decode_scalar(bytes, start) {
            Some((_, n)) => {
                i = start + n;
                assert(s.skip(n as int) =~= bytes@.skip(i as int));
                loop
                    invariant
                        start < i <= len,
                        len == bytes@.len(),
                        s == bytes@.skip(start as int),
                        valid_run(s) == (i - start) + valid_run(bytes@.skip(i as int)),
                    ensures
                        valid_run(s) == i - start,
                    decreases len - i,
                {
                    if i >= len {
                        break ;
                    }
                    match decode_scalar(bytes, i) {
                        Some((_, k)) => {
                            assert(bytes@.skip(i as int).skip(k as int) =~= bytes@.skip(i + k));
                            i = i + k;
                        },
                        None => {
                            break ;
                        },
                    }
                }
                let text = slice_subrange(bytes, start, i);
                self.pos = i;
                proof {
                    assert(text@ =~= s.take(segment_len(s) as int));
                    assert(bytes@.skip(i as int) =~= s.skip(segment_len(s) as int));
                    assert(text@ + empty@ =~= text@);
                    lemma_valid_run_is_valid(s);
                }
                Some(CasedChunk { text, raw: empty, map: PhantomData })
            },
            None => {
                i = start + 1;
                assert(s.skip(1) =~= bytes@.skip(i as int));
                loop
                    invariant
                        start < i <= len,
                        len == bytes@.len(),
                        s == bytes@.skip(start as int),
                        invalid_run(s) == (i - start) + invalid_run(bytes@.skip(i as int)),
                    ensures
                        invalid_run(s) == i - start,
                    decreases len - i,
                {
                    if i >= len {
                        break ;
                    }
                    match decode_scalar(bytes, i) {
                        Some(_) => {
                            break ;
                        },
                        None => {
                            assert(bytes@.skip(i as int).skip(1) =~= bytes@.skip(i + 1));
                            i = i + 1;
                        },
                    }
                }
                let raw = slice_subrange(bytes, start, i);
                self.pos = i;
                proof {
                    assert(raw@ =~= s.take(segment_len(s) as int));
                    assert(bytes@.skip(i as int) =~= s.skip(segment_len(s) as int));
                    assert(empty@ + raw@ =~= raw@);
                    assert(folded::<M>(empty@) =~= Seq::<char>::empty());
                }
                Some(CasedChunk { text: empty, raw, map: PhantomData })
            },
        }
    }
}

/// The case-mapped form of `s`: valid text as the UTF-8 encoding of its mapped
/// scalar values, invalid bytes as they are, segment after segment.
pub open spec fn encoded<M: CaseMap>(s: Seq<u8>) -> Seq<u8>
    decreases s.len(),
    via encoded_decreases::<M>
{
    if s.len() == 0 {
        Seq::empty()
    } else {
        let c = first_chunk::<M>(s);
        encode_utf8(c.0) + c.1 + encoded::<M>(s.skip(segment_len(s) as int))
    }
}

#[via_fn]
proof fn encoded_decreases<M: CaseMap>(s: Seq<u8>) {
    lemma_segment_len_bounds(s);
}

/// The key by which byte sequences are compared: their chunks under the
/// uppercase mapping.
pub open spec fn upper_key(s: Seq<u8>) -> Seq<(Seq<char>, Seq<u8>)> {
    chunk_views::<CharsUppercaseMap>(s)
}

/// Case-insensitive equality of two byte sequences.
pub open spec fn insensitive_eq(a: Seq<u8>, b: Seq<u8>) -> bool {
    upper_key(a) == upper_key(b)
}

/// The case-mapped form of `s`, segment by segment: for a valid segment the
/// UTF-8 encoding of its mapped text, for an invalid one its bytes.
pub open spec fn encoded_segments<M: CaseMap>(s: Seq<u8>) -> Seq<Seq<u8>>
    decreases s.len(),
    via encoded_segments_decreases::<M>
{
    if s.len() == 0 {
        Seq::empty()
    } else {
        let c = first_chunk::<M>(s);
        seq![encode_utf8(c.0) + c.1] + encoded_segments::<M>(s.skip(segment_len(s) as int))
    }
}

#[via_fn]
proof fn encoded_segments_decreases<M: CaseMap>(s: Seq<u8>) {
    lemma_segment_len_bounds(s);
}

/// What one chunk feeds to a hasher: each mapped scalar value as a 32-bit
/// word, then the invalid bytes.
pub open spec fn chunk_feed(c: (Seq<char>, Seq<u8>)) -> (Seq<u32>, Seq<u8>) {
    (c.0.map_values(|x: char| x as u32), c.1)
}

/// What a byte sequence feeds to a hasher: the feed of each of its chunks
/// under the uppercase mapping, in order.
pub open spec fn hash_feed(s: Seq<u8>) -> Seq<(Seq<u32>, Seq<u8>)> {
    upper_key(s).map_values(|c: (Seq<char>, Seq<u8>)| chunk_feed(c))
}

} // verus!
