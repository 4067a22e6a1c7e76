//! Layout of the database keys: an 8-byte big-endian time value followed by
//! the 6-byte MAC address, so that the store's byte order is time order.

use vstd::prelude::*;
use crate::order::{lex_lt, lex_lt_from, lemma_lex_concat};

verus! {

/// Microseconds per second.
pub const MICROS_PER_SEC: u64 = 1000000;

/// Length of a frame-count or event key.
pub const KEY_LEN: usize = 14;

/// Byte `i` (0 = most significant) of the big-endian encoding of `x`.
pub open spec fn be_byte(x: u64, i: int) -> u8 {
    if i == 0 {
        (x >> 56u64) as u8
    } else if i == 1 {
        (x >> 48u64) as u8
    } else if i == 2 {
        (x >> 40u64) as u8
    } else if i == 3 {
        (x >> 32u64) as u8
    } else if i == 4 {
        (x >> 24u64) as u8
    } else if i == 5 {
        (x >> 16u64) as u8
    } else if i == 6 {
        (x >> 8u64) as u8
    } else {
        x as u8
    }
}

/// The 8-byte big-endian encoding of `x` (what `u64::to_be_bytes` gives).
pub open spec fn be_bytes(x: u64) -> Seq<u8> {
    Seq::new(8, |i: int| be_byte(x, i))
}

/// The number whose big-endian encoding is the first 8 bytes of `s`
/// (what `u64::from_be_bytes` gives).
pub open spec fn be_value(s: Seq<u8>) -> u64 {
    ((s[0] as u64) << 56u64) | ((s[1] as u64) << 48u64) | ((s[2] as u64) << 40u64) | ((
    s[3] as u64) << 32u64) | ((s[4] as u64) << 24u64) | ((s[5] as u64) << 16u64) | ((
    s[6] as u64) << 8u64) | (s[7] as u64)
}

/// The whole second in which a microsecond timestamp falls.
pub open spec fn second_of(timestamp_us: u64) -> u64 {
    (timestamp_us / MICROS_PER_SEC) as u64
}

/// Key of a frame-count row: second of the timestamp, then the MAC.
pub open spec fn frame_key_spec(timestamp_us: u64, mac: Seq<u8>) -> Seq<u8> {
    be_bytes(second_of(timestamp_us)) + mac
}

/// Key of an event row: the full microsecond timestamp, then the MAC.
pub open spec fn event_key_spec(timestamp_us: u64, mac: Seq<u8>) -> Seq<u8> {
    be_bytes(timestamp_us) + mac
}

/// The time value at the head of a key.
pub open spec fn key_time(key: Seq<u8>) -> u64 {
    be_value(key)
}

/// The MAC address at the tail of a 14-byte key.
pub open spec fn key_mac(key: Seq<u8>) -> Seq<u8> {
    key.subrange(8, 14)
}

fn be_encode(x: u64, mac: &[u8; 6]) -> (key: [u8; 14])
    ensures
        key@ == be_bytes(x) + mac@,
{
    let key: [u8; 14] = [
        (x >> 56u64) as u8,
        (x >> 48u64) as u8,
        (x >> 40u64) as u8,
        (x >> 32u64) as u8,
        (x >> 24u64) as u8,
        (x >> 16u64) as u8,
        (x >> 8u64) as u8,
        x as u8,
        mac[0],
        mac[1],
        mac[2],
        mac[3],
        mac[4],
        mac[5],
    ];
    assert(key@ =~= be_bytes(x) + mac@);
    key
}

/// Key of a frame-count row: 8-byte big-endian second of `timestamp_us`
/// followed by the 6-byte MAC, 14 bytes in all.
pub fn frame_key(timestamp_us: u64, mac: &[u8; 6]) -> (key: [u8; 14])
    ensures
        key@ == frame_key_spec(timestamp_us, mac@),
{
    let sec = timestamp_us / MICROS_PER_SEC;
    be_encode(sec, mac)
}

/// Key of an event row: 8-byte big-endian `timestamp_us` followed by the
/// 6-byte MAC, 14 bytes in all.
pub fn event_key(timestamp_us: u64, mac: &[u8; 6]) -> (key: [u8; 14])
    ensures
        key@ == event_key_spec(timestamp_us, mac@),
{
    be_encode(timestamp_us, mac)
}

/// Reads the big-endian time value at the head of a key.
pub fn read_key_time(key: &[u8]) -> (t: u64)
    requires
        key@.len() >= 8,
    ensures
        t == key_time(key@),
{
    ((key[0] as u64) << 56u64) | ((key[1] as u64) << 48u64) | ((key[2] as u64) << 40u64) | ((
    key[3] as u64) << 32u64) | ((key[4] as u64) << 24u64) | ((key[5] as u64) << 16u64) | ((
    key[6] as u64) << 8u64) | (key[7] as u64)
}

/// Tells whether the MAC at the tail of a 14-byte key is `mac`.
pub fn key_has_mac(key: &[u8], mac: &[u8; 6]) -> (r: bool)
    requires
        key@.len() >= 14,
    ensures
        r == (key_mac(key@) == mac@),
{
    let mut i: usize = 0;
    while i < 6
        invariant
            key@.len() >= 14,
            0 <= i <= 6,
            forall|j: int| 0 <= j < i ==> key@[8 + j] == mac@[j],
        decreases 6 - i,
    {
        if key[8 + i] != mac[i] {
            assert(key_mac(key@)[i as int] != mac@[i as int]);
            return false;
        }
        i = i + 1;
    }
    assert(key_mac(key@) =~= mac@);
    true
}

// ---------------------------------------------------------------------------
// Laws of the encoding
// ---------------------------------------------------------------------------

/// Decoding the head of an encoding gives back the encoded number.
pub proof fn lemma_be_roundtrip(x: u64)
    ensures
        be_value(be_bytes(x)) == x,
        be_bytes(x).len() == 8,
{
    let s = be_bytes(x);
    assert(s[0] == be_byte(x, 0));
    assert(s[1] == be_byte(x, 1));
    assert(s[2] == be_byte(x, 2));
    assert(s[3] == be_byte(x, 3));
    assert(s[4] == be_byte(x, 4));
    assert(s[5] == be_byte(x, 5));
    assert(s[6] == be_byte(x, 6));
    assert(s[7] == be_byte(x, 7));
    assert(((((x >> 56u64) as u8) as u64) << 56u64) | ((((x >> 48u64) as u8) as u64) << 48u64)
        | ((((x >> 40u64) as u8) as u64) << 40u64) | ((((x >> 32u64) as u8) as u64) << 32u64)
        | ((((x >> 24u64) as u8) as u64) << 24u64) | ((((x >> 16u64) as u8) as u64) << 16u64)
        | ((((x >> 8u64) as u8) as u64) << 8u64) | ((x as u8) as u64) == x) by (bit_vector);
}

/// Any 8 bytes are the encoding of the number they decode to.
pub proof fn lemma_be_canonical(s: Seq<u8>)
    requires
        s.len() == 8,
    ensures
        be_bytes(be_value(s)) == s,
{
    let (b0, b1, b2, b3, b4, b5, b6, b7) = (s[0], s[1], s[2], s[3], s[4], s[5], s[6], s[7]);
    let v = be_value(s);
    assert(v == ((b0 as u64) << 56u64) | ((b1 as u64) << 48u64) | ((b2 as u64) << 40u64) | ((
    b3 as u64) << 32u64) | ((b4 as u64) << 24u64) | ((b5 as u64) << 16u64) | ((b6 as u64)
        << 8u64) | (b7 as u64));
    assert(((v >> 56u64) as u8) == b0 && ((v >> 48u64) as u8) == b1 && ((v >> 40u64) as u8)
        == b2 && ((v >> 32u64) as u8) == b3 && ((v >> 24u64) as u8) == b4 && ((v >> 16u64) as u8)
        == b5 && ((v >> 8u64) as u8) == b6 && (v as u8) == b7) by (bit_vector)
        requires
            v == ((b0 as u64) << 56u64) | ((b1 as u64) << 48u64) | ((b2 as u64) << 40u64) | ((
            b3 as u64) << 32u64) | ((b4 as u64) << 24u64) | ((b5 as u64) << 16u64) | ((
            b6 as u64) << 8u64) | (b7 as u64),
    ;
    assert(be_bytes(v) =~= s);
}

/// Big-endian encodings sort as the numbers they encode.
pub proof fn lemma_be_order(x: u64, y: u64)
    ensures
        lex_lt(be_bytes(x), be_bytes(y)) == (x < y),
{
    let a = be_bytes(x);
    let b = be_bytes(y);
    reveal_with_fuel(lex_lt_from, 9);
    let (x0, x1, x2, x3, x4, x5, x6, x7) = (a[0], a[1], a[2], a[3], a[4], a[5], a[6], a[7]);
    let (y0, y1, y2, y3, y4, y5, y6, y7) = (b[0], b[1], b[2], b[3], b[4], b[5], b[6], b[7]);
    assert(x0 == (x >> 56u64) as u8 && x1 == (x >> 48u64) as u8 && x2 == (x >> 40u64) as u8
        && x3 == (x >> 32u64) as u8 && x4 == (x >> 24u64) as u8 && x5 == (x >> 16u64) as u8
        && x6 == (x >> 8u64) as u8 && x7 == x as u8);
    assert(y0 == (y >> 56u64) as u8 && y1 == (y >> 48u64) as u8 && y2 == (y >> 40u64) as u8
        && y3 == (y >> 32u64) as u8 && y4 == (y >> 24u64) as u8 && y5 == (y >> 16u64) as u8
        && y6 == (y >> 8u64) as u8 && y7 == y as u8);
    assert((x < y) == (x0 < y0 || (x0 == y0 && (x1 < y1 || (x1 == y1 && (x2 < y2 || (x2 == y2
        && (x3 < y3 || (x3 == y3 && (x4 < y4 || (x4 == y4 && (x5 < y5 || (x5 == y5 && (x6 < y6
        || (x6 == y6 && x7 < y7))))))))))))))) by (bit_vector)
        requires
            x0 == (x >> 56u64) as u8 && x1 == (x >> 48u64) as u8 && x2 == (x >> 40u64) as u8
                && x3 == (x >> 32u64) as u8 && x4 == (x >> 24u64) as u8 && x5 == (x
                >> 16u64) as u8 && x6 == (x >> 8u64) as u8 && x7 == x as u8,
            y0 == (y >> 56u64) as u8 && y1 == (y >> 48u64) as u8 && y2 == (y >> 40u64) as u8
                && y3 == (y >> 32u64) as u8 && y4 == (y >> 24u64) as u8 && y5 == (y
                >> 16u64) as u8 && y6 == (y >> 8u64) as u8 && y7 == y as u8,
    ;
}

/// Frame keys sort by second first, then by MAC: the store's order is
/// chronological order.
pub proof fn lemma_frame_key_order(t1: u64, m1: Seq<u8>, t2: u64, m2: Seq<u8>)
    ensures
        lex_lt(frame_key_spec(t1, m1), frame_key_spec(t2, m2)) == (second_of(t1) < second_of(
            t2) || (second_of(t1) == second_of(t2) && lex_lt(m1, m2))),
{
    lemma_be_order(second_of(t1), second_of(t2));
    lemma_lex_concat(be_bytes(second_of(t1)), m1, be_bytes(second_of(t2)), m2);
    if be_bytes(second_of(t1)) == be_bytes(second_of(t2)) {
        lemma_be_roundtrip(second_of(t1));
        lemma_be_roundtrip(second_of(t2));
    }
}

/// Event keys sort by timestamp first, then by MAC.
pub proof fn lemma_event_key_order(t1: u64, m1: Seq<u8>, t2: u64, m2: Seq<u8>)
    ensures
        lex_lt(event_key_spec(t1, m1), event_key_spec(t2, m2)) == (t1 < t2 || (t1 == t2
            && lex_lt(m1, m2))),
{
    lemma_be_order(t1, t2);
    lemma_lex_concat(be_bytes(t1), m1, be_bytes(t2), m2);
    if be_bytes(t1) == be_bytes(t2) {
        lemma_be_roundtrip(t1);
        lemma_be_roundtrip(t2);
    }
}

/// A frame key gives back the second and the MAC it was made from.
pub proof fn lemma_frame_key_decode(timestamp_us: u64, mac: Seq<u8>)
    requires
        mac.len() == 6,
    ensures
        frame_key_spec(timestamp_us, mac).len() == KEY_LEN,
        key_time(frame_key_spec(timestamp_us, mac)) == second_of(timestamp_us),
        key_mac(frame_key_spec(timestamp_us, mac)) == mac,
{
    let k = frame_key_spec(timestamp_us, mac);
    lemma_be_roundtrip(second_of(timestamp_us));
    assert(k.subrange(0, 8) =~= be_bytes(second_of(timestamp_us)));
    assert(key_mac(k) =~= mac);
    assert(key_time(k) == be_value(k.subrange(0, 8)));
}

/// An event key gives back the timestamp and the MAC it was made from.
pub proof fn lemma_event_key_decode(timestamp_us: u64, mac: Seq<u8>)
    requires
        mac.len() == 6,
    ensures
        event_key_spec(timestamp_us, mac).len() == KEY_LEN,
        key_time(event_key_spec(timestamp_us, mac)) == timestamp_us,
        key_mac(event_key_spec(timestamp_us, mac)) == mac,
{
    let k = event_key_spec(timestamp_us, mac);
    lemma_be_roundtrip(timestamp_us);
    assert(k.subrange(0, 8) =~= be_bytes(timestamp_us));
    assert(key_mac(k) =~= mac);
    assert(key_time(k) == be_value(k.subrange(0, 8)));
}

} // verus!
