//! What holds of the comparison and of the segmentation for all inputs.
use vstd::prelude::*;
use vstd::utf8::*;
use crate::insensitive::{
    chunk_views, encoded, encoded_segments, first_chunk, folded, hash_feed, insensitive_eq,
    invalid_run, lemma_run_bounds, lemma_segment_len_bounds, segment_len, segments, valid_run,
    CaseMap, CharsUppercaseMap,
};

verus! {

/// Case-insensitive equality is reflexive.
pub proof fn lemma_eq_reflexive(a: Seq<u8>)
    ensures
        insensitive_eq(a, a),
{
}

/// Case-insensitive equality is symmetric.
pub proof fn lemma_eq_symmetric(a: Seq<u8>, b: Seq<u8>)
    ensures
        insensitive_eq(a, b) == insensitive_eq(b, a),
{
}

/// Case-insensitive equality is transitive.
pub proof fn lemma_eq_transitive(a: Seq<u8>, b: Seq<u8>, c: Seq<u8>)
    requires
        insensitive_eq(a, b),
        insensitive_eq(b, c),
    ensures
        insensitive_eq(a, c),
{
}

/// Equal byte sequences feed the same words and bytes to a hasher.
pub proof fn lemma_eq_same_hash_feed(a: Seq<u8>, b: Seq<u8>)
    requires
        insensitive_eq(a, b),
    ensures
        hash_feed(a) == hash_feed(b),
{
}

/// The segments of a byte sequence, joined in order, give the sequence back;
/// none of them is empty; and only the empty sequence has no segment.
pub proof fn lemma_segments_cover(s: Seq<u8>)
    ensures
        segments(s).flatten() == s,
        forall|i: int| 0 <= i < segments(s).len() ==> (#[trigger] segments(s)[i]).len() > 0,
        (segments(s).len() == 0) == (s.len() == 0),
    decreases s.len(),
{
    if s.len() > 0 {
        lemma_segment_len_bounds(s);
        let n = segment_len(s) as int;
        let head = s.take(n);
        let rest = segments(s.skip(n));
        lemma_segments_cover(s.skip(n));
        assert(segments(s) == seq![head] + rest);
        assert((seq![head] + rest).drop_first() =~= rest);
        assert((seq![head] + rest).first() == head);
        assert(head + s.skip(n) =~= s);
        assert forall|i: int| 0 <= i < segments(s).len() implies (#[trigger] segments(s)[i]).len()
            > 0 by {
            if i > 0 {
                assert(segments(s)[i] == rest[i - 1]);
            }
        }
    } else {
        assert(segments(s).flatten() =~= s);
    }
}

/// After a valid run comes the end or a byte at which no well-formed
/// encoding starts; after an invalid run comes the end or a well-formed
/// encoding. So segments alternate between valid and invalid.
pub proof fn lemma_segments_alternate(s: Seq<u8>)
    requires
        s.len() > 0,
    ensures
        ({
            let rest = s.skip(segment_len(s) as int);
            rest.len() > 0 ==> valid_first_scalar(rest) != valid_first_scalar(s)
        }),
{
    if valid_first_scalar(s) {
        lemma_valid_run_ends(s);
    } else {
        lemma_invalid_run_ends(s);
    }
}

proof fn lemma_valid_run_ends(s: Seq<u8>)
    ensures
        !valid_first_scalar(s.skip(valid_run(s) as int)),
    decreases s.len(),
{
    if s.len() > 0 && valid_first_scalar(s) {
        let n = length_of_first_scalar(s);
        lemma_valid_run_ends(s.skip(n));
        lemma_run_bounds(s.skip(n));
        assert(s.skip(n).skip(valid_run(s.skip(n)) as int) =~= s.skip(valid_run(s) as int));
    } else {
        assert(s.skip(0) =~= s);
    }
}

proof fn lemma_invalid_run_ends(s: Seq<u8>)
    ensures
        ({
            let rest = s.skip(invalid_run(s) as int);
            rest.len() == 0 || valid_first_scalar(rest)
        }),
    decreases s.len(),
{
    if s.len() > 0 && !valid_first_scalar(s) {
        lemma_invalid_run_ends(s.skip(1));
        lemma_run_bounds(s.skip(1));
        assert(s.skip(1).skip(invalid_run(s.skip(1)) as int) =~= s.skip(invalid_run(s) as int));
    } else {
        assert(s.skip(0) =~= s);
    }
}

/// Case mapping works segment by segment and leaves invalid segments as they
/// are: the mapped form is the mapped segments joined in order, there are as
/// many of them as segments, and at the place of each invalid segment stand
/// its own bytes.
pub proof fn lemma_invalid_bytes_pass_through<M: CaseMap>(s: Seq<u8>)
    ensures
        encoded::<M>(s) == encoded_segments::<M>(s).flatten(),
        encoded_segments::<M>(s).len() == segments(s).len(),
        forall|i: int|
            0 <= i < segments(s).len() && !valid_first_scalar(#[trigger] segments(s)[i])
                ==> encoded_segments::<M>(s)[i] == segments(s)[i],
    decreases s.len(),
{
    if s.len() > 0 {
        lemma_segment_len_bounds(s);
        let n = segment_len(s) as int;
        let c = first_chunk::<M>(s);
        let piece = encode_utf8(c.0) + c.1;
        let rest = encoded_segments::<M>(s.skip(n));
        let tail = segments(s.skip(n));
        lemma_invalid_bytes_pass_through::<M>(s.skip(n));
        assert((seq![piece] + rest).drop_first() =~= rest);
        assert((seq![piece] + rest).first() == piece);
        assert(encoded::<M>(s) =~= piece + encoded::<M>(s.skip(n)));
        assert forall|i: int|
            0 <= i < segments(s).len() && !valid_first_scalar(
                #[trigger] segments(s)[i],
            ) implies encoded_segments::<M>(s)[i] == segments(s)[i] by {
            if i > 0 {
                assert(segments(s)[i] == tail[i - 1]);
                assert(encoded_segments::<M>(s)[i] == rest[i - 1]);
            } else {
                assert(segments(s)[0] == s.take(n));
                lemma_first_scalar_of_prefix(s, n);
                assert(encode_utf8(c.0) + c.1 =~= c.1);
            }
        }
    } else {
        assert(encoded::<M>(s) =~= encoded_segments::<M>(s).flatten());
    }
}

/// Whether a well-formed encoding starts a sequence shows in its first
/// segment already.
proof fn lemma_first_scalar_of_prefix(s: Seq<u8>, n: int)
    requires
        n == segment_len(s),
        s.len() > 0,
    ensures
        valid_first_scalar(s.take(n)) == valid_first_scalar(s),
{
    lemma_run_bounds(s);
    let p = s.take(n);
    if valid_first_scalar(s) {
        let k = length_of_first_scalar(s);
        lemma_run_bounds(s.skip(k));
        assert(k <= n);
        assert(forall|i: int| 0 <= i < k ==> p[i] == s[i]);
    } else {
        assert(n == 1 + invalid_run(s.skip(1)));
        assert(p[0] == s[0]);
        if valid_first_scalar(p) {
            let k = length_of_first_scalar(p);
            assert(forall|i: int| 0 <= i < k ==> p[i] == s[i]);
            assert(false);
        }
    }
}

/// Valid UTF-8 is one valid run from end to end.
pub proof fn lemma_valid_utf8_is_one_run(a: Seq<u8>)
    requires
        valid_utf8(a),
    ensures
        valid_run(a) == a.len(),
    decreases a.len(),
{
    if a.len() > 0 {
        let n = length_of_first_scalar(a);
        assert(pop_first_scalar(a) =~= a.skip(n));
        lemma_valid_utf8_is_one_run(a.skip(n));
    }
}

/// The chunks of non-empty valid UTF-8: one chunk, which holds all of it.
proof fn lemma_valid_utf8_single_chunk<M: CaseMap>(a: Seq<u8>)
    requires
        valid_utf8(a),
        a.len() > 0,
    ensures
        chunk_views::<M>(a) == seq![(folded::<M>(a), Seq::<u8>::empty())],
        encoded::<M>(a) == encode_utf8(folded::<M>(a)),
{
    lemma_valid_utf8_is_one_run(a);
    let n = a.len() as int;
    assert(a.take(n) =~= a);
    assert(a.skip(n).len() == 0);
    let c = first_chunk::<M>(a);
    assert(segment_len(a) == n);
    assert(chunk_views::<M>(a.skip(n)) =~= Seq::empty());
    assert(encoded::<M>(a.skip(n)) =~= Seq::empty());
    assert(chunk_views::<M>(a) =~= seq![c]);
    assert(encoded::<M>(a) =~= encode_utf8(c.0));
}

/// Scalar values mapped one by one by `M`, the results joined in order.
pub open spec fn mapped_text<M: CaseMap>(cs: Seq<char>) -> Seq<char>
    decreases cs.len(),
{
    if cs.len() == 0 {
        Seq::empty()
    } else {
        M::mapped(cs[0]) + mapped_text::<M>(cs.drop_first())
    }
}

/// The mapped text of valid UTF-8 is the mapping of the scalar values that it
/// encodes.
pub proof fn lemma_folded_of_valid_utf8<M: CaseMap>(a: Seq<u8>)
    requires
        valid_utf8(a),
    ensures
        folded::<M>(a) == mapped_text::<M>(decode_utf8(a)),
    decreases a.len(),
{
    if a.len() > 0 {
        let n = length_of_first_scalar(a);
        assert(pop_first_scalar(a) =~= a.skip(n));
        lemma_folded_of_valid_utf8::<M>(a.skip(n));
        let d = decode_utf8(a);
        assert(d.drop_first() =~= decode_utf8(a.skip(n)));
        assert(d[0] == decode_first_scalar(a) as char);
    }
}

/// Case invariance: valid UTF-8 is equal to its case-mapped form, wherever
/// uppercasing the mapped scalar values gives what uppercasing the scalar
/// values themselves gives, and the mapping does not delete the whole text.
/// (Unicode's tables do not grant the first for every scalar value: the
/// lowercase of U+1E9E is U+00DF, whose uppercase is "SS", while U+1E9E is
/// its own uppercase.)
pub proof fn lemma_case_invariance<M: CaseMap>(a: Seq<u8>)
    requires
        valid_utf8(a),
        a.len() > 0 ==> mapped_text::<M>(decode_utf8(a)).len() > 0,
        mapped_text::<CharsUppercaseMap>(mapped_text::<M>(decode_utf8(a))) == mapped_text::<
            CharsUppercaseMap,
        >(decode_utf8(a)),
    ensures
        insensitive_eq(a, encoded::<M>(a)),
{
    if a.len() > 0 {
        lemma_valid_utf8_single_chunk::<M>(a);
        lemma_valid_utf8_single_chunk::<CharsUppercaseMap>(a);
        lemma_folded_of_valid_utf8::<M>(a);
        lemma_folded_of_valid_utf8::<CharsUppercaseMap>(a);
        let f = folded::<M>(a);
        let e = encode_utf8(f);
        encode_utf8_valid_utf8(f);
        encode_utf8_first_scalar(f);
        encode_utf8_decode_utf8(f);
        lemma_valid_utf8_single_chunk::<CharsUppercaseMap>(e);
        lemma_folded_of_valid_utf8::<CharsUppercaseMap>(e);
    }
}

} // verus!
