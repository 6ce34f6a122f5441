//! Lexicographic order of mapped text, of bytes and of chunks.
use vstd::prelude::*;
use crate::insensitive::upper_key;

verus! {

/// How one value stands to another.
#[derive(Debug, Clone, Copy, PartialEq, Eq, Structural)]
pub enum Order {
    /// It comes first.
    Less,
    /// Neither comes first.
    Equal,
    /// It comes last.
    Greater,
}

impl Order {
    /// The same relation read from the other side.
    pub open spec fn reversed(self) -> Order {
        match self {
            Order::Less => Order::Greater,
            Order::Equal => Order::Equal,
            Order::Greater => Order::Less,
        }
    }
}

/// Order of two integers.
pub open spec fn int_order(x: int, y: int) -> Order {
    if x < y {
        Order::Less
    } else if x == y {
        Order::Equal
    } else {
        Order::Greater
    }
}

/// Order of two scalar values: by code point.
pub open spec fn scalar_order(x: char, y: char) -> Order {
    int_order(x as u32 as int, y as u32 as int)
}

/// Order of two bytes.
pub open spec fn byte_order(x: u8, y: u8) -> Order {
    int_order(x as int, y as int)
}

/// Lexicographic order of two sequences under an order of their elements:
/// the first place where they differ decides; where one runs out first, it
/// comes first.
pub open spec fn lex_order<T>(a: Seq<T>, b: Seq<T>, elem: spec_fn(T, T) -> Order) -> Order
    decreases a.len(),
{
    if a.len() == 0 {
        if b.len() == 0 {
            Order::Equal
        } else {
            Order::Less
        }
    } else if b.len() == 0 {
        Order::Greater
    } else if elem(a[0], b[0]) != Order::Equal {
        elem(a[0], b[0])
    } else {
        lex_order(a.drop_first(), b.drop_first(), elem)
    }
}

/// Lexicographic order of two rows of scalar values.
pub open spec fn chars_order(a: Seq<char>, b: Seq<char>) -> Order {
    lex_order(a, b, |x: char, y: char| scalar_order(x, y))
}

/// Lexicographic order of two rows of bytes.
pub open spec fn bytes_order(a: Seq<u8>, b: Seq<u8>) -> Order {
    lex_order(a, b, |x: u8, y: u8| byte_order(x, y))
}

/// Order of two chunks: by their mapped text, then by their invalid bytes.
pub open spec fn chunk_order(x: (Seq<char>, Seq<u8>), y: (Seq<char>, Seq<u8>)) -> Order {
    if chars_order(x.0, y.0) != Order::Equal {
        chars_order(x.0, y.0)
    } else {
        bytes_order(x.1, y.1)
    }
}

/// Lexicographic order of two rows of chunks.
pub open spec fn key_order(a: Seq<(Seq<char>, Seq<u8>)>, b: Seq<(Seq<char>, Seq<u8>)>) -> Order {
    lex_order(a, b, |x: (Seq<char>, Seq<u8>), y: (Seq<char>, Seq<u8>)| chunk_order(x, y))
}

/// Case-insensitive order of two byte sequences: the order of their chunks
/// under the uppercase mapping.
pub open spec fn insensitive_order(a: Seq<u8>, b: Seq<u8>) -> Order {
    key_order(upper_key(a), upper_key(b))
}

/// Where the elements' order calls exactly equal elements equal, the
/// lexicographic order calls exactly equal sequences equal.
pub proof fn lemma_lex_equal<T>(a: Seq<T>, b: Seq<T>, elem: spec_fn(T, T) -> Order)
    requires
        forall|x: T, y: T| (#[trigger] elem(x, y) == Order::Equal) == (x == y),
    ensures
        (lex_order(a, b, elem) == Order::Equal) == (a == b),
    decreases a.len(),
{
    if a.len() > 0 && b.len() > 0 {
        lemma_lex_equal(a.drop_first(), b.drop_first(), elem);
        if a[0] == b[0] && a.drop_first() == b.drop_first() {
            assert(a =~= seq![a[0]] + a.drop_first());
            assert(b =~= seq![b[0]] + b.drop_first());
        }
    } else if a.len() == 0 && b.len() == 0 {
        assert(a =~= b);
    }
}

/// Where the elements' order turns round with its arguments, so does the
/// lexicographic order.
pub proof fn lemma_lex_reversed<T>(a: Seq<T>, b: Seq<T>, elem: spec_fn(T, T) -> Order)
    requires
        forall|x: T, y: T| #[trigger] elem(x, y) == elem(y, x).reversed(),
    ensures
        lex_order(a, b, elem) == lex_order(b, a, elem).reversed(),
    decreases a.len(),
{
    if a.len() > 0 && b.len() > 0 {
        lemma_lex_reversed(a.drop_first(), b.drop_first(), elem);
    }
}

/// Where the elements' order is transitive and calls exactly equal elements
/// equal, the lexicographic order is transitive.
pub proof fn lemma_lex_transitive<T>(
    a: Seq<T>,
    b: Seq<T>,
    c: Seq<T>,
    elem: spec_fn(T, T) -> Order,
)
    requires
        forall|x: T, y: T| (#[trigger] elem(x, y) == Order::Equal) == (x == y),
        forall|x: T, y: T, z: T|
            #[trigger] elem(x, y) == Order::Less && #[trigger] elem(y, z) == Order::Less
                ==> elem(x, z) == Order::Less,
        lex_order(a, b, elem) == Order::Less,
        lex_order(b, c, elem) == Order::Less,
    ensures
        lex_order(a, c, elem) == Order::Less,
    decreases a.len(),
{
    if a.len() > 0 && b.len() > 0 && c.len() > 0 {
        if elem(a[0], b[0]) == Order::Equal && elem(b[0], c[0]) == Order::Equal {
            lemma_lex_transitive(a.drop_first(), b.drop_first(), c.drop_first(), elem);
        }
    }
}

/// Two chunks are in the order `Equal` exactly when they are equal.
pub proof fn lemma_chunk_order_equal(x: (Seq<char>, Seq<u8>), y: (Seq<char>, Seq<u8>))
    ensures
        (chunk_order(x, y) == Order::Equal) == (x == y),
{
    let ce = |p: char, q: char| scalar_order(p, q);
    assert forall|p: char, q: char| (#[trigger] ce(p, q) == Order::Equal) == (p == q) by {
        if p as u32 == q as u32 {
            vstd::utf8::char_u32_cast(p, p as u32);
            vstd::utf8::char_u32_cast(q, q as u32);
        }
    }
    lemma_lex_equal(x.0, y.0, ce);
    lemma_lex_equal(x.1, y.1, |p: u8, q: u8| byte_order(p, q));
}

/// The order of chunks is transitive.
pub proof fn lemma_chunk_order_transitive(
    x: (Seq<char>, Seq<u8>),
    y: (Seq<char>, Seq<u8>),
    z: (Seq<char>, Seq<u8>),
)
    requires
        chunk_order(x, y) == Order::Less,
        chunk_order(y, z) == Order::Less,
    ensures
        chunk_order(x, z) == Order::Less,
{
    let ce = |p: char, q: char| scalar_order(p, q);
    let be = |p: u8, q: u8| byte_order(p, q);
    assert forall|p: char, q: char| (#[trigger] ce(p, q) == Order::Equal) == (p == q) by {
        if p as u32 == q as u32 {
            vstd::utf8::char_u32_cast(p, p as u32);
            vstd::utf8::char_u32_cast(q, q as u32);
        }
    }
    lemma_lex_equal(x.0, y.0, ce);
    lemma_lex_equal(y.0, z.0, ce);
    lemma_lex_equal(x.0, z.0, ce);
    if chars_order(x.0, y.0) == Order::Less && chars_order(y.0, z.0) == Order::Less {
        lemma_lex_transitive(x.0, y.0, z.0, ce);
    } else if chars_order(x.0, y.0) == Order::Equal && chars_order(y.0, z.0) == Order::Equal {
        lemma_lex_transitive(x.1, y.1, z.1, be);
    }
}

/// The order is transitive: what comes before something that comes before a
/// third comes before the third.
pub proof fn lemma_order_transitive(a: Seq<u8>, b: Seq<u8>, c: Seq<u8>)
    requires
        insensitive_order(a, b) == Order::Less,
        insensitive_order(b, c) == Order::Less,
    ensures
        insensitive_order(a, c) == Order::Less,
{
    let ke = |x: (Seq<char>, Seq<u8>), y: (Seq<char>, Seq<u8>)| chunk_order(x, y);
    assert forall|x: (Seq<char>, Seq<u8>), y: (Seq<char>, Seq<u8>)|
        (#[trigger] ke(x, y) == Order::Equal) == (x == y) by {
        lemma_chunk_order_equal(x, y);
    }
    assert forall|x: (Seq<char>, Seq<u8>), y: (Seq<char>, Seq<u8>), z: (Seq<char>, Seq<u8>)|
        #[trigger] ke(x, y) == Order::Less && #[trigger] ke(y, z) == Order::Less implies ke(x, z)
        == Order::Less by {
        lemma_chunk_order_transitive(x, y, z);
    }
    lemma_lex_transitive(upper_key(a), upper_key(b), upper_key(c), ke);
}

/// The order agrees with equality: two byte sequences are in the order
/// `Equal` exactly when they are case-insensitively equal.
pub proof fn lemma_order_equal_iff_eq(a: Seq<u8>, b: Seq<u8>)
    ensures
        (insensitive_order(a, b) == Order::Equal) == crate::insensitive::insensitive_eq(a, b),
{
    let ke = |x: (Seq<char>, Seq<u8>), y: (Seq<char>, Seq<u8>)| chunk_order(x, y);
    assert forall|x: (Seq<char>, Seq<u8>), y: (Seq<char>, Seq<u8>)|
        (#[trigger] ke(x, y) == Order::Equal) == (x == y) by {
        lemma_chunk_order_equal(x, y);
    }
    lemma_lex_equal(upper_key(a), upper_key(b), ke);
}

/// The order turns round with its arguments: if `a` comes before `b`, then
/// `b` comes after `a`.
pub proof fn lemma_order_reversed(a: Seq<u8>, b: Seq<u8>)
    ensures
        insensitive_order(a, b) == insensitive_order(b, a).reversed(),
{
    let ke = |x: (Seq<char>, Seq<u8>), y: (Seq<char>, Seq<u8>)| chunk_order(x, y);
    assert forall|x: (Seq<char>, Seq<u8>), y: (Seq<char>, Seq<u8>)| #[trigger]
        ke(x, y) == ke(y, x).reversed() by {
        lemma_lex_reversed(x.0, y.0, |p: char, q: char| scalar_order(p, q));
        lemma_lex_reversed(x.1, y.1, |p: u8, q: u8| byte_order(p, q));
        lemma_chunk_order_equal(x, y);
        lemma_chunk_order_equal(y, x);
    }
    lemma_lex_reversed(upper_key(a), upper_key(b), ke);
}

/// Lexicographic order of two rows of scalar values.
pub fn compare_chars(a: &Vec<char>, b: &Vec<char>) -> (r: Order)
    ensures
        r == chars_order(a@, b@),
{
    let mut i: usize = 0;
    proof {
        assert(a@.skip(0) =~= a@);
        assert(b@.skip(0) =~= b@);
    }
    loop
        invariant
            i <= a@.len(),
            i <= b@.len(),
            chars_order(a@.skip(i as int), b@.skip(i as int)) == chars_order(a@, b@),
        decreases a@.len() - i,
    {
        if i >= a.len() {
            if i >= b.len() {
                return Order::Equal;
            }
            return Order::Less;
        }
        if i >= b.len() {
            return Order::Greater;
        }
        proof {
            assert(a@.skip(i as int).drop_first() =~= a@.skip(i + 1));
            assert(b@.skip(i as int).drop_first() =~= b@.skip(i + 1));
        }
        let x: u32 = a[i] as u32;
        let y: u32 = b[i] as u32;
        if x < y {
            return Order::Less;
        }
        if x > y {
            return Order::Greater;
        }
        i = i + 1;
    }
}

/// Lexicographic order of two rows of bytes.
pub fn compare_bytes(a: &[u8], b: &[u8]) -> (r: Order)
    ensures
        r == bytes_order(a@, b@),
{
    let mut i: usize = 0;
    proof {
        assert(a@.skip(0) =~= a@);
        assert(b@.skip(0) =~= b@);
    }
    loop
        invariant
            i <= a@.len(),
            i <= b@.len(),
            bytes_order(a@.skip(i as int), b@.skip(i as int)) == bytes_order(a@, b@),
        decreases a@.len() - i,
    {
        if i >= a.len() {
            if i >= b.len() {
                return Order::Equal;
            }
            return Order::Less;
        }
        if i >= b.len() {
            return Order::Greater;
        }
        proof {
            assert(a@.skip(i as int).drop_first() =~= a@.skip(i + 1));
            assert(b@.skip(i as int).drop_first() =~= b@.skip(i + 1));
        }
        let x: u8 = a[i];
        let y: u8 = b[i];
        if x < y {
            return Order::Less;
        }
        if x > y {
            return Order::Greater;
        }
        i = i + 1;
    }
}

} // verus!
