//! Conversions between a UUID's 128 bits and the integer forms that
//! NBT data stores it in: four `i32` words (an int array) or a pair of
//! `i64` halves (the `...Most` / `...Least` long tags).
use vstd::prelude::*;

verus! {

/// The unsigned value of a 32-bit word.
pub open spec fn word_value(w: i32) -> int {
    if w >= 0 { w as int } else { w + 0x1_0000_0000 }
}

/// The unsigned value of a 64-bit half.
pub open spec fn half_value(h: i64) -> int {
    if h >= 0 { h as int } else { h + 0x1_0000_0000_0000_0000 }
}

/// The 128-bit value whose big-endian 32-bit words are `a`, `b`, `c`, `d`.
pub open spec fn words_to_value(a: i32, b: i32, c: i32, d: i32) -> int {
    word_value(a) * 0x1_0000_0000_0000_0000_0000_0000 + word_value(b) * 0x1_0000_0000_0000_0000
        + word_value(c) * 0x1_0000_0000 + word_value(d)
}

/// The signed reading of the unsigned 32-bit number `u`.
pub open spec fn signed_word(u: int) -> i32 {
    (if u < 0x8000_0000 { u } else { u - 0x1_0000_0000 }) as i32
}

/// The signed reading of the unsigned 64-bit number `u`.
pub open spec fn signed_half(u: int) -> i64 {
    (if u < 0x8000_0000_0000_0000 { u } else { u - 0x1_0000_0000_0000_0000 }) as i64
}

/// Word `k` (0 is the most significant) of the 128-bit value `v`, read as signed.
pub open spec fn value_word(v: u128, k: int) -> i32 {
    signed_word((v as int / pow2_32(3 - k)) % 0x1_0000_0000)
}

/// `2^(32 * k)` for `k` in `0..4`.
pub open spec fn pow2_32(k: int) -> int {
    if k <= 0 {
        1
    } else if k == 1 {
        0x1_0000_0000
    } else if k == 2 {
        0x1_0000_0000_0000_0000
    } else {
        0x1_0000_0000_0000_0000_0000_0000
    }
}

/// Joins four signed 32-bit words, most significant first, into 128 bits.
pub fn to_u128(a: i32, b: i32, c: i32, d: i32) -> (r: u128)
    ensures
        r == words_to_value(a, b, c, d),
{
    let ua = a as u32 as u128;
    let ub = b as u32 as u128;
    let uc = c as u32 as u128;
    let ud = d as u32 as u128;
    let r = (ua << 96) | (ub << 64) | (uc << 32) | ud;
    assert(r == ua * 0x1_0000_0000_0000_0000_0000_0000 + ub * 0x1_0000_0000_0000_0000 + uc
        * 0x1_0000_0000 + ud) by (bit_vector)
        requires
            ua < 0x1_0000_0000,
            ub < 0x1_0000_0000,
            uc < 0x1_0000_0000,
            ud < 0x1_0000_0000,
            r == (ua << 96) | (ub << 64) | (uc << 32) | ud,
    ;
    assert(ua == word_value(a)) by (bit_vector)
        requires ua == a as u32 as u128;
    assert(ub == word_value(b)) by (bit_vector)
        requires ub == b as u32 as u128;
    assert(uc == word_value(c)) by (bit_vector)
        requires uc == c as u32 as u128;
    assert(ud == word_value(d)) by (bit_vector)
        requires ud == d as u32 as u128;
    r
}


/// Splits 128 bits into four signed 32-bit words, most significant first.
pub fn from_u128(value: u128) -> (parts: [i32; 4])
    ensures
        forall|k: int| 0 <= k < 4 ==> parts[k] == value_word(value, k),
{
    let a = (value >> 96) as u32 as i32;
    let b = ((value >> 64) & 0xFFFF_FFFF) as u32 as i32;
    let c = ((value >> 32) & 0xFFFF_FFFF) as u32 as i32;
    let d = (value & 0xFFFF_FFFF) as u32 as i32;
    assert(a == signed_word((value as int / 0x1_0000_0000_0000_0000_0000_0000) % 0x1_0000_0000)) by (bit_vector)
        requires a == (value >> 96) as u32 as i32;
    assert(b == signed_word((value as int / 0x1_0000_0000_0000_0000) % 0x1_0000_0000)) by (bit_vector)
        requires b == ((value >> 64) & 0xFFFF_FFFF) as u32 as i32;
    assert(c == signed_word((value as int / 0x1_0000_0000) % 0x1_0000_0000)) by (bit_vector)
        requires c == ((value >> 32) & 0xFFFF_FFFF) as u32 as i32;
    assert(d == signed_word((value as int / 1) % 0x1_0000_0000)) by (bit_vector)
        requires d == (value & 0xFFFF_FFFF) as u32 as i32;
    let parts = [a, b, c, d];
    assert forall|k: int| 0 <= k < 4 implies parts[k] == value_word(value, k) by {
        if k == 0 {
        } else if k == 1 {
        } else if k == 2 {
        } else {
        }
    }
    parts
}


/// Splitting the 128 bits that four words join to gives back the same four
/// words: an int-array UUID survives a round trip through its 128-bit value.
pub proof fn lemma_words_roundtrip(a: i32, b: i32, c: i32, d: i32)
    ensures
        0 <= words_to_value(a, b, c, d) <= u128::MAX,
        value_word(words_to_value(a, b, c, d) as u128, 0) == a,
        value_word(words_to_value(a, b, c, d) as u128, 1) == b,
        value_word(words_to_value(a, b, c, d) as u128, 2) == c,
        value_word(words_to_value(a, b, c, d) as u128, 3) == d,
{
    assert(0 <= words_to_value(a, b, c, d) <= u128::MAX) by (bit_vector);
    let w = words_to_value(a, b, c, d) as u128;
    assert(signed_word((w as int / 0x1_0000_0000_0000_0000_0000_0000) % 0x1_0000_0000) == a) by (bit_vector)
        requires w as int == words_to_value(a, b, c, d);
    assert(signed_word((w as int / 0x1_0000_0000_0000_0000) % 0x1_0000_0000) == b) by (bit_vector)
        requires w as int == words_to_value(a, b, c, d);
    assert(signed_word((w as int / 0x1_0000_0000) % 0x1_0000_0000) == c) by (bit_vector)
        requires w as int == words_to_value(a, b, c, d);
    assert(signed_word((w as int / 1) % 0x1_0000_0000) == d) by (bit_vector)
        requires w as int == words_to_value(a, b, c, d);
}

/// Joining the four words of a 128-bit value gives back that value.
pub proof fn lemma_value_roundtrip(v: u128)
    ensures
        words_to_value(value_word(v, 0), value_word(v, 1), value_word(v, 2), value_word(v, 3)) == v,
{
    let a = value_word(v, 0);
    let b = value_word(v, 1);
    let c = value_word(v, 2);
    let d = value_word(v, 3);
    assert(words_to_value(a, b, c, d) == v) by (bit_vector)
        requires
            a == signed_word((v as int / 0x1_0000_0000_0000_0000_0000_0000) % 0x1_0000_0000),
            b == signed_word((v as int / 0x1_0000_0000_0000_0000) % 0x1_0000_0000),
            c == signed_word((v as int / 0x1_0000_0000) % 0x1_0000_0000),
            d == signed_word((v as int / 1) % 0x1_0000_0000),
    ;
}


/// The UUID stored in an int array: its first four entries, most significant first.
pub fn i32s_to_uuid4(values: &[i32]) -> (uuid: u128)
    requires
        values@.len() >= 4,
    ensures
        uuid == words_to_value(values@[0], values@[1], values@[2], values@[3]),
{
    to_u128(values[0], values[1], values[2], values[3])
}

/// The four words of an int-array UUID.
pub fn uuid4_to_i32s(uuid: u128) -> (words: [i32; 4])
    ensures
        forall|k: int| 0 <= k < 4 ==> words[k] == value_word(uuid, k),
{
    from_u128(uuid)
}

/// The 128-bit value whose upper half is `most` and lower half `least`.
pub open spec fn halves_to_value(most: i64, least: i64) -> int {
    half_value(most) * 0x1_0000_0000_0000_0000 + half_value(least)
}

/// The UUID stored as a `Most` / `Least` pair of longs.
pub fn i64pair_to_uuid4(most: i64, least: i64) -> (uuid: u128)
    ensures
        uuid == halves_to_value(most, least),
{
    let m = most as u64 as u128;
    let l = least as u64 as u128;
    let r = (m << 64) | l;
    assert(r == half_value(most) * 0x1_0000_0000_0000_0000 + half_value(least)) by (bit_vector)
        requires
            m == most as u64 as u128,
            l == least as u64 as u128,
            r == (m << 64) | l,
    ;
    r
}

/// The `Most` / `Least` longs that store `uuid`.
pub fn uuid_to_i64pair(uuid: u128) -> (halves: (i64, i64))
    ensures
        halves.0 == signed_half(uuid as int / 0x1_0000_0000_0000_0000),
        halves.1 == signed_half(uuid as int % 0x1_0000_0000_0000_0000),
{
    let most = (uuid >> 64) as i64;
    let least = (uuid & (u128::MAX >> 64)) as i64;
    assert(most == signed_half(uuid as int / 0x1_0000_0000_0000_0000)) by (bit_vector)
        requires most == (uuid >> 64) as i64;
    assert(least == signed_half(uuid as int % 0x1_0000_0000_0000_0000)) by (bit_vector)
        requires least == (uuid & (u128::MAX >> 64)) as i64;
    (most, least)
}

/// Splitting a UUID into `Most` / `Least` longs and joining them back gives
/// the same UUID; joining two longs and splitting gives the same longs.
pub proof fn lemma_halves_roundtrip(v: u128, most: i64, least: i64)
    ensures
        halves_to_value(
            signed_half(v as int / 0x1_0000_0000_0000_0000),
            signed_half(v as int % 0x1_0000_0000_0000_0000),
        ) == v,
        0 <= halves_to_value(most, least) <= u128::MAX,
        signed_half(halves_to_value(most, least) / 0x1_0000_0000_0000_0000) == most,
        signed_half(halves_to_value(most, least) % 0x1_0000_0000_0000_0000) == least,
{
    assert(halves_to_value(
        signed_half(v as int / 0x1_0000_0000_0000_0000),
        signed_half(v as int % 0x1_0000_0000_0000_0000),
    ) == v) by (bit_vector);
    assert(0 <= halves_to_value(most, least) <= u128::MAX) by (bit_vector);
    let w = halves_to_value(most, least) as u128;
    assert(signed_half(w as int / 0x1_0000_0000_0000_0000) == most) by (bit_vector)
        requires w as int == halves_to_value(most, least);
    assert(signed_half(w as int % 0x1_0000_0000_0000_0000) == least) by (bit_vector)
        requires w as int == halves_to_value(most, least);
}

} // verus!
