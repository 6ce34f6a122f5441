use insensitive::insensitive::{CasedChunks, CharsUppercaseMap};
use insensitive::insensitive_display::InsensitiveDisplay;
use insensitive::order::{compare_bytes, compare_chars, Order};
use insensitive::scalar::decode_scalar;
use insensitive::{to_lower, to_upper, Insensitive};
use std::cmp::Ordering;
use std::collections::hash_map::DefaultHasher;
use std::hash::Hasher;

fn view(s: &str) -> Insensitive<'_> {
    Insensitive::new(s.as_bytes())
}

fn hash_of(v: &Insensitive<'_>) -> u64 {
    let mut state = DefaultHasher::new();
    for chunk in v.hash_feed() {
        for w in chunk.words {
            state.write_u32(w);
        }
        state.write(chunk.raw);
    }
    state.finish()
}

#[test]
fn equality_is_an_equivalence_on_samples() {
    let a = view("Straße");
    let b = view("STRASSE");
    let c = view("strasse");
    assert!(a.same_as(&a));
    assert_eq!(a.same_as(&b), b.same_as(&a));
    assert!(a.same_as(&b) && b.same_as(&c) && a.same_as(&c));
    assert_eq!(view("x").same_as(&view("y")), view("y").same_as(&view("x")));
}

#[test]
fn equal_views_hash_alike() {
    assert_eq!(hash_of(&view("abc")), hash_of(&view("ABC")));
    assert_eq!(hash_of(&view("ß")), hash_of(&view("SS")));
    let l = [b'a', 0xfe, b'b'];
    let r = [b'A', 0xfe, b'B'];
    assert_eq!(hash_of(&Insensitive::new(&l)), hash_of(&Insensitive::new(&r)));
}

#[test]
fn hash_feed_holds_code_points_then_bytes() {
    let bytes = [b'a', 0xc3, 0xa5, 0xfe, 0xff];
    let feed = Insensitive::new(&bytes).hash_feed();
    assert_eq!(feed.len(), 2);
    assert_eq!(feed[0].words, vec![0x41, 0xc5]);
    assert_eq!(feed[0].raw, &[] as &[u8]);
    assert_eq!(feed[1].words, Vec::<u32>::new());
    assert_eq!(feed[1].raw, &[0xfe, 0xff]);
    assert!(view("").hash_feed().is_empty());
}

#[test]
fn case_mapped_forms_are_equal_to_the_text() {
    for s in ["", "abc", "ÅäÖ", "Straße", "ŉ", "mixed CASE 123"] {
        let v = view(s);
        let up = to_upper(s.as_bytes());
        let low = to_lower(s.as_bytes());
        assert_eq!(v, Insensitive::new(&up));
        assert_eq!(v, Insensitive::new(&low));
    }
}

#[test]
fn lowercase_of_capital_sharp_s_is_a_different_name() {
    let s = "\u{1e9e}";
    let low = to_lower(s.as_bytes());
    assert_eq!(low, "ß".as_bytes());
    assert_ne!(view(s), Insensitive::new(&low));
}

#[test]
fn invalid_bytes_pass_through_case_mapping() {
    let bytes = [0xfe, b'a', 0xff, 0x80, b'b', 0xc3];
    assert_eq!(to_upper(&bytes), vec![0xfe, b'A', 0xff, 0x80, b'B', 0xc3]);
    let upper = [0xfe, b'A', 0xff, 0x80, b'B', 0xc3];
    assert_eq!(to_lower(&upper), Vec::from(bytes));
}

#[test]
fn segments_join_to_the_input() {
    let bytes = [b'x', 0xfe, 0xe2, 0x82, 0xac, 0xe2, 0x82, b'y', 0xff];
    let mut chunks: CasedChunks<'_, CharsUppercaseMap> = CasedChunks::new(&bytes);
    let mut joined: Vec<u8> = Vec::new();
    let mut kinds: Vec<bool> = Vec::new();
    while let Some(c) = chunks.next() {
        assert!(c.text_bytes().is_empty() != c.invalid().is_empty());
        kinds.push(c.invalid().is_empty());
        joined.extend_from_slice(c.text_bytes());
        joined.extend_from_slice(c.invalid());
    }
    assert_eq!(joined, Vec::from(bytes));
    assert_eq!(kinds, vec![true, false, true, false, true, false]);
}

#[test]
fn order_is_lexicographic_over_folded_text() {
    assert_eq!(view("").order(&view("")), Order::Equal);
    assert_eq!(view("").order(&view("ABC")), Order::Less);
    assert_eq!(view("ABC").order(&view("ABCD")), Order::Less);
    assert_eq!(view("abd").order(&view("ABC")), Order::Greater);
    assert_eq!(view("abc").order(&view("ABC")), Order::Equal);
    assert_eq!(view("b").order(&view("A")), Order::Greater);
    assert_eq!(view("abc").cmp(&view("ABD")), Ordering::Less);
    assert_eq!(view("abd").cmp(&view("ABC")), Ordering::Greater);
    assert_eq!(view("abc").cmp(&view("Abc")), Ordering::Equal);
    assert!(view("abc") < view("ABD"));
    assert!(view("ÅÄÖ") > view("ABCD"));
    assert_eq!(view("a").partial_cmp(&view("A")), Some(Ordering::Equal));
}

#[test]
fn order_puts_text_before_invalid_bytes_within_a_chunk() {
    let raw = [0xfe];
    let a_raw = [b'a', 0xfe];
    // an invalid chunk has no text, so it comes before any chunk with text
    assert_eq!(Insensitive::new(&raw).order(&view("a")), Order::Less);
    assert_eq!(view("a").order(&Insensitive::new(&raw)), Order::Greater);
    assert_eq!(Insensitive::new(&a_raw).order(&view("a")), Order::Greater);
    assert_eq!(Insensitive::new(&a_raw).order(&view("ab")), Order::Less);
    assert_eq!(Insensitive::new(&[0xfe, 0xff]).order(&Insensitive::new(&[0xfe])), Order::Greater);
    assert_eq!(Insensitive::new(&[0xfe]).order(&Insensitive::new(&[0xff])), Order::Less);
}

#[test]
fn chunk_comparisons() {
    let left = [b'a', 0xfe];
    let right = [b'A', 0xff];
    let mut l = Insensitive::new(&left).upper_chunks();
    let mut r = Insensitive::new(&right).upper_chunks();
    let (l0, r0) = (l.next().unwrap(), r.next().unwrap());
    assert!(l0.same_as(&r0));
    assert_eq!(l0.order(&r0), Order::Equal);
    assert_eq!(l0.hash_words(), vec![0x41]);
    let (l1, r1) = (l.next().unwrap(), r.next().unwrap());
    assert!(!l1.same_as(&r1));
    assert_eq!(l1.order(&r1), Order::Less);
    assert_eq!(r1.order(&l1), Order::Greater);
    assert_eq!(l0.order(&l1), Order::Greater);
}

#[test]
fn sequence_comparisons() {
    assert_eq!(compare_chars(&vec![], &vec![]), Order::Equal);
    assert_eq!(compare_chars(&vec!['a'], &vec!['a', 'b']), Order::Less);
    assert_eq!(compare_chars(&vec!['b'], &vec!['a', 'b']), Order::Greater);
    assert_eq!(compare_chars(&vec!['\u{10000}'], &vec!['\u{ffff}']), Order::Greater);
    assert_eq!(compare_bytes(&[1, 2], &[1, 2]), Order::Equal);
    assert_eq!(compare_bytes(&[1, 2], &[1, 3]), Order::Less);
    assert_eq!(compare_bytes(&[2], &[1, 3]), Order::Greater);
    assert_eq!(compare_bytes(&[], &[0]), Order::Less);
}

#[test]
fn display_escapes_invalid_bytes() {
    let bytes = [b'a', b'b', 0xfe, b'C', 0xc3, 0xa5];
    let shown = Insensitive::new(&bytes).display();
    assert_eq!(shown.to_text(), "ab\\x'fe'Cå");
    assert_eq!(shown.render(), "ab\\x'fe'Cå".as_bytes());
    assert_eq!(InsensitiveDisplay(view("Plain Text")).to_text(), "Plain Text");
    assert_eq!(view("").display().to_text(), "");
    assert_eq!(Insensitive::new(&[0x80, 0xff]).display().to_text(), "\\x'80'\\x'ff'");
}

#[test]
fn decode_scalar_gives_value_and_width() {
    assert_eq!(decode_scalar("A".as_bytes(), 0), Some(('A', 1)));
    assert_eq!(decode_scalar("xå".as_bytes(), 1), Some(('å', 2)));
    assert_eq!(decode_scalar("€".as_bytes(), 0), Some(('€', 3)));
    assert_eq!(decode_scalar("😀".as_bytes(), 0), Some(('😀', 4)));
    assert_eq!(decode_scalar("€".as_bytes(), 1), None);
    assert_eq!(decode_scalar("€".as_bytes(), 3), None);
    assert_eq!(decode_scalar(&[0xf8, 0x80, 0x80, 0x80], 0), None);
    assert_eq!(decode_scalar(&[0xe0, 0x80, 0x80], 0), None);
    assert_eq!(decode_scalar(&[0xf0, 0x80, 0x80, 0x80], 0), None);
}

#[test]
fn decode_scalar_past_the_end_is_none() {
    assert_eq!(decode_scalar("abc".as_bytes(), 4), None);
    assert_eq!(decode_scalar(&[], 0), None);
    assert_eq!(decode_scalar(&[], 1), None);
}
