use insensitive::insensitive_buf::InsensitiveBuf;
use insensitive::Insensitive;

#[test]
fn insensitive_buf_filename_eq() {
    let inv = &[0xfe];

    let mut l = Vec::from("ÅäÖ".as_bytes());
    l.extend(inv);
    l.extend("A".as_bytes());
    let l = Insensitive::new(&l);

    let mut r = Vec::from("åäö".as_bytes());
    r.extend(inv);
    r.extend("a".as_bytes());
    let r = Insensitive::new(&r);

    assert_eq!(l, r);

    assert_eq!(InsensitiveBuf::new(l.as_bytes()), InsensitiveBuf::new(r.as_bytes()));
    assert_eq!(size_of::<InsensitiveBuf>(), size_of::<[usize; 4]>())
}

#[test]
fn buf_holds_a_copy() {
    let b = InsensitiveBuf::new("Hello".as_bytes());
    assert_eq!(b.as_bytes(), "Hello".as_bytes());
    assert_eq!(b.len(), 5);
    assert!(!b.is_empty());
    assert_eq!(b.as_insensitive().as_bytes(), "Hello".as_bytes());
    assert_eq!(b.clone().into_vec(), Vec::from("Hello".as_bytes()));
    assert!(InsensitiveBuf::default().is_empty());
    assert_eq!(InsensitiveBuf::default().into_vec(), Vec::<u8>::new());
}

#[test]
fn buf_extends_and_reverses() {
    let mut b = InsensitiveBuf::new("ab".as_bytes());
    b.extend_from_slice("cd".as_bytes());
    assert_eq!(b.as_bytes(), "abcd".as_bytes());
    b.extend_from_slice_reversed("xyz".as_bytes());
    assert_eq!(b.as_bytes(), "abcdzyx".as_bytes());
    b.extend_from_slice_reversed(&[]);
    assert_eq!(b.as_bytes(), "abcdzyx".as_bytes());
}

#[test]
fn buf_grows_past_the_inline_size() {
    let long: Vec<u8> = (0..100u8).collect();
    let mut b = InsensitiveBuf::new(&long[..20]);
    b.extend_from_slice(&long[20..]);
    assert_eq!(b.as_bytes(), &long[..]);
    assert_eq!(b.len(), 100);
    assert_eq!(InsensitiveBuf::from_vec(long.clone()).into_vec(), long);
    assert_eq!(InsensitiveBuf::new(&long).into_vec(), long);
}

#[test]
fn buf_compares_without_case() {
    let a = InsensitiveBuf::new("Makefile".as_bytes());
    let b = InsensitiveBuf::new("MAKEFILE".as_bytes());
    let c = InsensitiveBuf::new("makefile.in".as_bytes());
    assert!(a.same_as(&b));
    assert!(a == b);
    assert!(a != c);
    assert!(a < c);
    assert!(c > b);
    assert_eq!(a.partial_cmp(&b), Some(std::cmp::Ordering::Equal));
}

#[test]
fn bytes_can_be_changed_in_place() {
    let mut data = *b"abc";
    let mut m = Insensitive::from_bytes_mut(&mut data);
    m.as_bytes_mut()[0] = b'x';
    assert_eq!(m.as_insensitive(), Insensitive::new(b"XBC"));
    assert_eq!(data, *b"xbc");

    let mut b = InsensitiveBuf::new(b"hello");
    {
        let mut m = b.as_insensitive_mut();
        m.as_bytes_mut()[4] = b'p';
    }
    assert_eq!(b.as_bytes(), b"hellp");
    assert_eq!(b.len(), 5);
}
