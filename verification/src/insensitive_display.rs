//! Rendering of a byte sequence for people: valid text as it is, each invalid
//! byte as an escape with its value in hexadecimal.
use vstd::prelude::*;
use vstd::utf8::*;
use crate::insensitive::{
    lemma_segment_len_bounds, lemma_valid_run_is_valid, segment_len, CharsUppercaseMap,
};
use crate::insensitive_ref::Insensitive;

verus! {

/// The character for a hexadecimal digit, in lower case.
pub open spec fn hex_digit(n: u8) -> u8 {
    if n < 10 {
        (0x30 + n) as u8
    } else {
        (0x57 + n) as u8
    }
}

/// The value of a byte in hexadecimal, without a leading zero.
pub open spec fn hex_of(b: u8) -> Seq<u8> {
    if b < 16 {
        seq![hex_digit(b)]
    } else {
        seq![hex_digit(b / 16), hex_digit(b % 16)]
    }
}

/// The escape for one invalid byte: a backslash, `x`, and the value in
/// hexadecimal between two apostrophes.
pub open spec fn escaped(b: u8) -> Seq<u8> {
    seq![0x5cu8, 0x78u8, 0x27u8] + hex_of(b) + seq![0x27u8]
}

/// The escapes of a row of invalid bytes, in order.
pub open spec fn escaped_all(raw: Seq<u8>) -> Seq<u8>
    decreases raw.len(),
{
    if raw.len() == 0 {
        Seq::empty()
    } else {
        escaped(raw[0]) + escaped_all(raw.drop_first())
    }
}

/// The rendering of `s` as UTF-8: each valid segment as it stands, each
/// invalid segment as the escapes of its bytes.
pub open spec fn rendered(s: Seq<u8>) -> Seq<u8>
    decreases s.len(),
    via rendered_decreases
{
    if s.len() == 0 {
        Seq::empty()
    } else {
        let n = segment_len(s) as int;
        let piece = if valid_first_scalar(s) {
            s.take(n)
        } else {
            escaped_all(s.take(n))
        };
        piece + rendered(s.skip(n))
    }
}

#[via_fn]
proof fn rendered_decreases(s: Seq<u8>) {
    lemma_segment_len_bounds(s);
}

/// The digit character for a value below 16.
fn digit(n: u8) -> (r: u8)
    requires
        n < 16,
    ensures
        r == hex_digit(n),
{
    if n < 10 {
        0x30 + n
    } else {
        0x57 + n
    }
}

/// Appends the escape of one byte to `buf`.
fn push_escape(b: u8, buf: &mut Vec<u8>)
    ensures
        final(buf)@ == old(buf)@ + escaped(b),
{
    buf.push(0x5c);
    buf.push(0x78);
    buf.push(0x27);
    if b < 16 {
        buf.push(digit(b));
    } else {
        buf.push(digit(b / 16));
        buf.push(digit(b % 16));
    }
    buf.push(0x27);
    assert(buf@ =~= old(buf)@ + escaped(b));
}

/// Appends the escapes of a row of bytes to `buf`.
fn push_escapes(raw: &[u8], buf: &mut Vec<u8>)
    ensures
        final(buf)@ == old(buf)@ + escaped_all(raw@),
{
    let ghost before = buf@;
    let mut i: usize = 0;
    proof {
        assert(raw@.skip(0) =~= raw@);
    }
    while i < raw.len()
        invariant
            i <= raw@.len(),
            buf@ + escaped_all(raw@.skip(i as int)) == before + escaped_all(raw@),
        decreases raw@.len() - i,
    {
        let ghost mid = buf@;
        proof {
            assert(raw@.skip(i as int).drop_first() =~= raw@.skip(i + 1));
        }
        push_escape(raw[i], buf);
        proof {
            assert(buf@ + escaped_all(raw@.skip(i + 1)) =~= mid + escaped_all(raw@.skip(i as int)));
        }
        i = i + 1;
    }
    assert(buf@ + Seq::<u8>::empty() =~= buf@);
}

/// A byte sequence as it is shown to people. Case is kept.
#[derive(Debug, Clone, Copy)]
pub struct InsensitiveDisplay<'a>(pub Insensitive<'a>);

impl<'a> InsensitiveDisplay<'a> {
    /// The bytes that are shown.
    pub open spec fn view(&self) -> Seq<u8> {
        self.0@
    }

    /// The rendering as UTF-8 bytes.
    pub fn render(&self) -> (r: Vec<u8>)
        ensures
            r@ == rendered(self@),
    {
        let mut buf: Vec<u8> = Vec::new();
        let mut chunks = self.0.cased_chunks::<CharsUppercaseMap>();
        proof {
            assert(buf@ + rendered(self@) =~= rendered(self@));
        }
        loop
            invariant
                chunks.wf(),
                buf@ + rendered(chunks.remaining()) == rendered(self@),
            ensures
                buf@ == rendered(self@),
            decreases chunks.remaining().len(),
        {
            let ghost s = chunks.remaining();
            let ghost mid = buf@;
            proof {
                lemma_segment_len_bounds(s);
            }
            match chunks.next() {
                Some(chunk) => {
                    buf.extend_from_slice(chunk.text_bytes());
                    push_escapes(chunk.invalid(), &mut buf);
                    proof {
                        let n = segment_len(s) as int;
                        if valid_first_scalar(s) {
                            assert(chunk.text() =~= s.take(n));
                            assert(buf@ =~= mid + s.take(n));
                        } else {
                            assert(chunk.raw() =~= s.take(n));
                            assert(buf@ =~= mid + escaped_all(s.take(n)));
                        }
                        assert(buf@ + rendered(chunks.remaining()) =~= mid + rendered(s));
                    }
                },
                None => {
                    assert(buf@ + Seq::<u8>::empty() =~= buf@);
                    break ;
                },
            }
        }
        buf
    }
}

/// `String::from_utf8`, with its error dropped: the text that the bytes
/// encode where they are valid UTF-8, and `None` where they are not.
#[verifier::external_body]
fn string_from_utf8(bytes: Vec<u8>) -> (r: Option<String>)
    ensures
        valid_utf8(bytes@) ==> r.is_some() && r.unwrap()@ == decode_utf8(bytes@),
        !valid_utf8(bytes@) ==> r.is_none(),
{
    String::from_utf8(bytes).ok()
}

/// Bytes below 0x80 are valid UTF-8.
proof fn lemma_ascii_is_valid(a: Seq<u8>)
    requires
        forall|i: int| 0 <= i < a.len() ==> a[i] < 0x80,
    ensures
        valid_utf8(a),
    decreases a.len(),
{
    if a.len() > 0 {
        let b = a[0];
        assert((b & 0x7f) as u32 <= 0x7f) by (bit_vector);
        assert(pop_first_scalar(a) =~= a.skip(1));
        lemma_ascii_is_valid(a.skip(1));
    }
}

/// The escapes of any bytes are valid UTF-8.
proof fn lemma_escapes_are_valid(raw: Seq<u8>)
    ensures
        valid_utf8(escaped_all(raw)),
    decreases raw.len(),
{
    if raw.len() > 0 {
        lemma_ascii_is_valid(escaped(raw[0]));
        lemma_escapes_are_valid(raw.drop_first());
        valid_utf8_concat(escaped(raw[0]), escaped_all(raw.drop_first()));
    }
}

/// The rendering of any byte sequence is valid UTF-8.
pub proof fn lemma_rendered_is_valid(s: Seq<u8>)
    ensures
        valid_utf8(rendered(s)),
    decreases s.len(),
{
    if s.len() > 0 {
        lemma_segment_len_bounds(s);
        let n = segment_len(s) as int;
        lemma_rendered_is_valid(s.skip(n));
        if valid_first_scalar(s) {
            lemma_valid_run_is_valid(s);
            valid_utf8_concat(s.take(n), rendered(s.skip(n)));
        } else {
            lemma_escapes_are_valid(s.take(n));
            valid_utf8_concat(escaped_all(s.take(n)), rendered(s.skip(n)));
        }
    }
}

impl<'a> InsensitiveDisplay<'a> {
    /// The rendering as text.
    pub fn to_text(&self) -> (r: String)
        ensures
            r@ == decode_utf8(rendered(self@)),
    {
        let bytes = self.render();
        proof {
            lemma_rendered_is_valid(self@);
        }
        match string_from_utf8(bytes) {
            Some(text) => text,
            None => String::new(),
        }
    }
}

} // verus!
