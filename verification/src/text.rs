//! Text helpers: appending characters, hexadecimal digits, the textual form of
//! a MAC address and the order of texts.

use vstd::prelude::*;
use crate::order::{lex_lt, lex_lt_from};

verus! {

/// Appends `c` to `s`: std's `String::push`, which its documentation
/// describes as appending the given char to the end of the string. The
/// contract claims exactly that of the view.
#[verifier::external_body]
pub(crate) fn push_char(s: &mut String, c: char)
    ensures
        final(s)@ == old(s)@.push(c),
{
    s.push(c);
}

/// Lower-case hexadecimal digit of a nibble.
pub open spec fn hex_digit(n: u8) -> char {
    if n < 10 {
        (n + 48) as char
    } else {
        (n + 87) as char
    }
}

/// The lower-case hexadecimal digit of a nibble.
pub fn hex_digit_char(n: u8) -> (c: char)
    requires
        n < 16,
    ensures
        c == hex_digit(n),
{
    if n < 10 {
        (n + 48) as char
    } else {
        (n + 87) as char
    }
}

/// The textual form of a MAC address: six two-digit lower-case hexadecimal
/// bytes separated by colons, as `aa:bb:cc:dd:ee:ff`.
pub open spec fn mac_text(m: Seq<u8>) -> Seq<char> {
    Seq::new(
        17,
        |i: int|
            if i % 3 == 2 {
                ':'
            } else if i % 3 == 0 {
                hex_digit(m[i / 3] >> 4u8)
            } else {
                hex_digit(m[i / 3] & 15u8)
            },
    )
}

/// `a` sorts strictly before `b` by character codes, compared from position
/// `i` on (the order of `str`/`String` comparison).
pub open spec fn text_lt_from(a: Seq<char>, b: Seq<char>, i: int) -> bool
    decreases a.len() - i,
{
    if i < 0 || i >= a.len() {
        0 <= i < b.len()
    } else if i >= b.len() {
        false
    } else if (a[i] as u32) < (b[i] as u32) {
        true
    } else if (a[i] as u32) > (b[i] as u32) {
        false
    } else {
        text_lt_from(a, b, i + 1)
    }
}

/// Strict lexicographic order of texts by character codes.
pub open spec fn text_lt(a: Seq<char>, b: Seq<char>) -> bool {
    text_lt_from(a, b, 0)
}

proof fn lemma_hex_digit_code(n: u8)
    requires
        n < 16,
    ensures
        (hex_digit(n) as u32) == (if n < 10 { n + 48 } else { n + 87 }),
{
}

proof fn lemma_byte_nibbles(x: u8, y: u8)
    ensures
        (x < y) == ((x >> 4u8) < (y >> 4u8) || ((x >> 4u8) == (y >> 4u8) && (x & 15u8) < (y
            & 15u8))),
        (x == y) == ((x >> 4u8) == (y >> 4u8) && (x & 15u8) == (y & 15u8)),
        (x >> 4u8) < 16,
        (x & 15u8) < 16,
{
    assert((x < y) == ((x >> 4u8) < (y >> 4u8) || ((x >> 4u8) == (y >> 4u8) && (x & 15u8) < (y
        & 15u8)))) by (bit_vector);
    assert((x == y) == ((x >> 4u8) == (y >> 4u8) && (x & 15u8) == (y & 15u8))) by (bit_vector);
    assert((x >> 4u8) < 16) by (bit_vector);
    assert((x & 15u8) < 16) by (bit_vector);
}

proof fn lemma_mac_text_order_from(m1: Seq<u8>, m2: Seq<u8>, j: int)
    requires
        m1.len() == 6,
        m2.len() == 6,
        0 <= j <= 6,
    ensures
        text_lt_from(mac_text(m1), mac_text(m2), 3 * j) == lex_lt_from(m1, m2, j),
    decreases 6 - j,
{
    let t1 = mac_text(m1);
    let t2 = mac_text(m2);
    reveal_with_fuel(text_lt_from, 4);
    reveal_with_fuel(lex_lt_from, 2);
    if j < 6 {
        let (x, y) = (m1[j], m2[j]);
        lemma_byte_nibbles(x, y);
        lemma_byte_nibbles(y, x);
        lemma_hex_digit_code(x >> 4u8);
        lemma_hex_digit_code(y >> 4u8);
        lemma_hex_digit_code(x & 15u8);
        lemma_hex_digit_code(y & 15u8);
        assert((3 * j) % 3 == 0 && (3 * j) / 3 == j);
        assert((3 * j + 1) % 3 == 1 && (3 * j + 1) / 3 == j);
        assert((3 * j + 2) % 3 == 2);
        assert(t1[3 * j] == hex_digit(x >> 4u8));
        assert(t2[3 * j] == hex_digit(y >> 4u8));
        assert(t1[3 * j + 1] == hex_digit(x & 15u8));
        assert(t2[3 * j + 1] == hex_digit(y & 15u8));
        if j < 5 {
            assert(t1[3 * j + 2] == ':' && t2[3 * j + 2] == ':');
            lemma_mac_text_order_from(m1, m2, j + 1);
            assert(3 * j + 3 == 3 * (j + 1));
        }
    }
}

/// Texts of MAC addresses sort as the addresses' bytes do, so that sorting by
/// the text is sorting by the address.
pub proof fn lemma_mac_text_order(m1: Seq<u8>, m2: Seq<u8>)
    requires
        m1.len() == 6,
        m2.len() == 6,
    ensures
        text_lt(mac_text(m1), mac_text(m2)) == lex_lt(m1, m2),
{
    lemma_mac_text_order_from(m1, m2, 0);
}

/// Distinct MAC addresses have distinct texts.
pub proof fn lemma_mac_text_injective(m1: Seq<u8>, m2: Seq<u8>)
    requires
        m1.len() == 6,
        m2.len() == 6,
        mac_text(m1) == mac_text(m2),
    ensures
        m1 == m2,
{
    assert forall|j: int| 0 <= j < 6 implies m1[j] == m2[j] by {
        let (x, y) = (m1[j], m2[j]);
        lemma_byte_nibbles(x, y);
        lemma_byte_nibbles(y, x);
        lemma_hex_digit_code(x >> 4u8);
        lemma_hex_digit_code(y >> 4u8);
        lemma_hex_digit_code(x & 15u8);
        lemma_hex_digit_code(y & 15u8);
        assert((3 * j) % 3 == 0 && (3 * j) / 3 == j);
        assert((3 * j + 1) % 3 == 1 && (3 * j + 1) / 3 == j);
        assert(mac_text(m1)[3 * j] == mac_text(m2)[3 * j]);
        assert(mac_text(m1)[3 * j + 1] == mac_text(m2)[3 * j + 1]);
        assert(mac_text(m1)[3 * j] == hex_digit(x >> 4u8));
        assert(mac_text(m2)[3 * j] == hex_digit(y >> 4u8));
        assert(mac_text(m1)[3 * j + 1] == hex_digit(x & 15u8));
        assert(mac_text(m2)[3 * j + 1] == hex_digit(y & 15u8));
        assert(hex_digit(x >> 4u8) == hex_digit(y >> 4u8));
        assert(hex_digit(x & 15u8) == hex_digit(y & 15u8));
        assert((x >> 4u8) == (y >> 4u8));
        assert((x & 15u8) == (y & 15u8));
    }
    assert(m1 =~= m2);
}

/// The characters `t[a..b]` as a string.
pub(crate) fn string_of(t: &Vec<char>, a: usize, b: usize) -> (s: String)
    requires
        a <= b <= t.len(),
    ensures
        s@ == t@.subrange(a as int, b as int),
{
    let mut s = String::new();
    let mut i = a;
    while i < b
        invariant
            a <= i <= b <= t.len(),
            s@ == t@.subrange(a as int, i as int),
        decreases b - i,
    {
        push_char(&mut s, t[i]);
        assert(t@.subrange(a as int, i as int + 1) =~= t@.subrange(a as int, i as int).push(t@[i as int]));
        i = i + 1;
    }
    s
}

/// The characters of a text, in order.
pub(crate) fn text_chars(text: &str) -> (v: Vec<char>)
    ensures
        v@ == text@,
{
    broadcast use vstd::string::group_string_axioms;

    let mut v: Vec<char> = Vec::new();
    for c in it: text.chars()
        invariant
            v@ == it.history(),
    {
        v.push(c);
    }
    v
}

} // verus!
