use insensitive::insensitive::{CasedChunks, CharsLowercaseMap, CharsUppercaseMap};
use insensitive::{encode_lower, encode_upper, to_lower, to_upper, Insensitive};

fn view(s: &str) -> Insensitive<'_> {
    Insensitive::new(s.as_bytes())
}

#[test]
fn insensitive_ref_filename_eq() {
    assert_eq!(view(""), view(""));
    assert_eq!(view("abc"), view("abc"));
    assert_eq!(view("abc"), view("Abc"));
    assert_eq!(view("åäö"), view("åäö"));
    assert_eq!(view("åäö"), view("ÅÄÖ"));

    assert_ne!(view(""), view("ABC"));
    assert_ne!(view("ABC"), view("ABCD"));
    assert_ne!(view("ÅÄÖ"), view("ABCD"));
}

fn mixed_pair() -> (Vec<u8>, Vec<u8>) {
    let inv: &[u8] = &[0xfe];
    let mut l = Vec::from("ÅäÖ".as_bytes());
    l.extend(inv);
    l.extend("A".as_bytes());
    let mut r = Vec::from("åäö".as_bytes());
    r.extend(inv);
    r.extend("a".as_bytes());
    (l, r)
}

#[test]
fn mixed_valid_and_invalid_are_equal() {
    let (l, r) = mixed_pair();
    assert_eq!(Insensitive::new(&l), Insensitive::new(&r));
    assert!(Insensitive::new(&l).same_as(&Insensitive::new(&r)));
}

#[test]
fn invalid_bytes_are_compared_as_they_are() {
    assert_ne!(Insensitive::new(&[0xfe]), Insensitive::new(&[0xff]));
    assert_ne!(Insensitive::new(&[b'a', 0xfe]), Insensitive::new(&[b'a']));
    assert_eq!(Insensitive::new(&[b'a', 0xfe, 0xff]), Insensitive::new(&[b'A', 0xfe, 0xff]));
}

#[test]
fn to_upper_maps_text_and_keeps_invalid_bytes() {
    let (l, r) = mixed_pair();
    let mut want = Vec::from("ÅÄÖ".as_bytes());
    want.push(0xfe);
    want.push(b'A');
    assert_eq!(to_upper(&l), want);
    assert_eq!(to_upper(&r), want);
    assert_eq!(to_upper("straße".as_bytes()), "STRASSE".as_bytes());
    assert_eq!(to_upper(&[]), Vec::<u8>::new());
}

#[test]
fn to_lower_maps_text_and_keeps_invalid_bytes() {
    let (l, r) = mixed_pair();
    let mut want = Vec::from("åäö".as_bytes());
    want.push(0xfe);
    want.push(b'a');
    assert_eq!(to_lower(&l), want);
    assert_eq!(to_lower(&r), want);
    assert_eq!(to_lower("ABC def".as_bytes()), "abc def".as_bytes());
}

#[test]
fn encode_appends_to_the_buffer() {
    let mut buf = vec![b'>'];
    encode_upper("ab".as_bytes(), &mut buf);
    encode_lower("CD".as_bytes(), &mut buf);
    assert_eq!(buf, ">ABcd".as_bytes());
    let mut buf = Vec::new();
    Insensitive::new("ß".as_bytes()).encode::<CharsUppercaseMap>(&mut buf);
    assert_eq!(buf, "SS".as_bytes());
}

#[test]
fn equal_views_may_differ_in_length() {
    let a = view("ß");
    let b = view("SS");
    assert_eq!(a, b);
    assert_eq!(a.len(), 2);
    assert_eq!(b.len(), 2);
    let c = view("ŉ");
    let d = view("ʼN");
    assert_eq!(c, d);
    assert_ne!(c.len(), d.len());
    assert!(view("").is_empty());
    assert!(!a.is_empty());
    assert_eq!(a.as_bytes(), "ß".as_bytes());
}

#[test]
fn chunks_alternate_and_cover_the_input() {
    let bytes: Vec<u8> = vec![b'a', b'b', 0xfe, 0xff, 0xe2, 0x82, b'c', 0xc3, 0xa5];
    let mut chunks: CasedChunks<'_, CharsUppercaseMap> = CasedChunks::new(&bytes);
    let c = chunks.next().unwrap();
    assert_eq!(c.valid(), vec!['A', 'B']);
    assert_eq!(c.invalid(), &[] as &[u8]);
    let c = chunks.next().unwrap();
    assert_eq!(c.valid(), Vec::<char>::new());
    assert_eq!(c.invalid(), &[0xfe, 0xff, 0xe2, 0x82]);
    let c = chunks.next().unwrap();
    assert_eq!(c.valid(), vec!['C', 'Å']);
    assert_eq!(c.invalid(), &[] as &[u8]);
    assert!(chunks.next().is_none());
    assert!(chunks.next().is_none());
}

#[test]
fn empty_input_has_no_chunks() {
    let mut chunks: CasedChunks<'_, CharsLowercaseMap> = CasedChunks::new(&[]);
    assert!(chunks.next().is_none());
    let mut chunks = view("").lower_chunks();
    assert!(chunks.next().is_none());
}

#[test]
fn strict_decoding_rejects_overlong_surrogate_and_truncated() {
    // overlong encoding of '/', an encoded surrogate, a value above 0x10FFFF, a cut-off sequence
    for bad in [
        vec![0xc0u8, 0xaf],
        vec![0xed, 0xa0, 0x80],
        vec![0xf4, 0x90, 0x80, 0x80],
        vec![0xe2, 0x82],
        vec![0x80],
    ] {
        let mut chunks = Insensitive::new(&bad).upper_chunks();
        let c = chunks.next().unwrap();
        assert_eq!(c.valid(), Vec::<char>::new());
        assert_eq!(c.invalid(), &bad[..]);
        assert!(chunks.next().is_none());
        assert_eq!(to_upper(&bad), bad);
    }
    let good = "a\u{7ff}\u{800}\u{ffff}\u{10000}\u{10ffff}";
    let mut chunks = view(good).lower_chunks();
    let c = chunks.next().unwrap();
    assert_eq!(c.valid(), good.chars().collect::<Vec<char>>());
    assert!(chunks.next().is_none());
}
