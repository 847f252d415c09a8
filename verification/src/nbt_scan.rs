//! One pass over uncompressed binary NBT that tells whether its structure
//! lies whole within the bytes, with no negative length and no list or
//! compound nested deeper than Minecraft allows, before a recursive reader
//! that allocates by the lengths it meets is given the bytes.
use vstd::prelude::*;
use crate::nbt_file::MAX_NBT_DEPTH;

verus! {

/// The unsigned 16-bit big-endian number at `p`.
pub open spec fn u16_at(b: Seq<u8>, p: int) -> int {
    b[p] as int * 256 + b[p + 1] as int
}

/// The signed 32-bit big-endian length at `p`, or -1 where it is negative.
pub open spec fn len_at(b: Seq<u8>, p: int) -> int {
    if b[p] >= 128 {
        -1
    } else {
        b[p] as int * 16777216 + b[p + 1] as int * 65536 + b[p + 2] as int * 256 + b[p + 3] as int
    }
}

/// The payload size of the tags of fixed size (byte, short, int, long,
/// float, double).
pub open spec fn fixed_size(id: u8) -> int {
    if id == 1 {
        1
    } else if id == 2 {
        2
    } else if id == 3 || id == 5 {
        4
    } else {
        8
    }
}

/// The element size of the array tags (byte, int and long arrays).
pub open spec fn elem_size(id: u8) -> int {
    if id == 7 {
        1
    } else if id == 11 {
        4
    } else {
        8
    }
}

/// Where the payload of a tag of type `id` that starts at `p`, inside `d`
/// enclosing lists and compounds, ends; -1 where it does not lie whole in
/// `b`, holds a negative length or an unknown type, or nests too deep.
pub open spec fn payload_end(b: Seq<u8>, p: int, id: u8, d: int) -> int
    decreases b.len() - p, 2int, 0int,
{
    if p < 0 || p > b.len() {
        -1
    } else if 1 <= id <= 6 {
        if p + fixed_size(id) <= b.len() { p + fixed_size(id) } else { -1 }
    } else if id == 7 || id == 11 || id == 12 {
        if p + 4 > b.len() {
            -1
        } else {
            let n = len_at(b, p);
            if n < 0 || p + 4 + n * elem_size(id) > b.len() { -1 } else { p + 4 + n * elem_size(id) }
        }
    } else if id == 8 {
        if p + 2 > b.len() || p + 2 + u16_at(b, p) > b.len() { -1 } else { p + 2 + u16_at(b, p) }
    } else if id == 9 {
        if d >= MAX_NBT_DEPTH || p + 5 > b.len() {
            -1
        } else {
            let e = b[p];
            let n = len_at(b, p + 1);
            if n < 0 || e > 12 || (e == 0 && n > 0) {
                -1
            } else {
                items_end(b, p + 5, e, n, d + 1)
            }
        }
    } else if id == 10 {
        if d >= MAX_NBT_DEPTH { -1 } else { compound_end(b, p, d + 1) }
    } else {
        -1
    }
}

/// Where `n` payloads of type `id`, the first at `p`, end; -1 where one of
/// them does not.
pub open spec fn items_end(b: Seq<u8>, p: int, id: u8, n: int, d: int) -> int
    decreases b.len() - p, 3int, n,
{
    if p < 0 || p > b.len() {
        -1
    } else if n <= 0 {
        p
    } else {
        let q = payload_end(b, p, id, d);
        if q <= p || q > b.len() { -1 } else { items_end(b, q, id, n - 1, d) }
    }
}

/// Where the entries of a compound, the first at `p`, end with the end
/// tag; -1 where one of them does not lie whole in `b`.
pub open spec fn compound_end(b: Seq<u8>, p: int, d: int) -> int
    decreases b.len() - p, 1int, 0int,
{
    if p < 0 || p >= b.len() {
        -1
    } else if b[p] == 0 {
        p + 1
    } else if b[p] > 12 || p + 3 > b.len() || p + 3 + u16_at(b, p + 1) > b.len() {
        -1
    } else {
        let s = p + 3 + u16_at(b, p + 1);
        let q = payload_end(b, s, b[p], d);
        if q <= p || q > b.len() { -1 } else { compound_end(b, q, d) }
    }
}

/// Where the named root compound of binary NBT `b` ends; -1 where `b` is
/// not such NBT, whole and nested no deeper than Minecraft allows.
pub open spec fn nbt_scan(b: Seq<u8>) -> int {
    if b.len() < 3 || b[0] != 10 || 3 + u16_at(b, 1) > b.len() {
        -1
    } else {
        compound_end(b, 3 + u16_at(b, 1), 1)
    }
}

proof fn lemma_payload_within(b: Seq<u8>, p: int, id: u8, d: int)
    requires
        0 <= p <= b.len(),
    ensures
        payload_end(b, p, id, d) >= 0 ==> p < payload_end(b, p, id, d) <= b.len(),
    decreases b.len() - p, 2int, 0int,
{
    if id == 9 && d < MAX_NBT_DEPTH && p + 5 <= b.len() {
        let n = len_at(b, p + 1);
        if n >= 0 {
            lemma_items_within(b, p + 5, b[p], n, d + 1);
        }
    } else if id == 10 && d < MAX_NBT_DEPTH {
        lemma_compound_within(b, p, d + 1);
    }
}

proof fn lemma_items_within(b: Seq<u8>, p: int, id: u8, n: int, d: int)
    requires
        0 <= p <= b.len(),
    ensures
        items_end(b, p, id, n, d) >= 0 ==> p <= items_end(b, p, id, n, d) <= b.len(),
    decreases b.len() - p, 3int, n,
{
    if n > 0 {
        lemma_payload_within(b, p, id, d);
        let q = payload_end(b, p, id, d);
        if p < q <= b.len() {
            lemma_items_within(b, q, id, n - 1, d);
        }
    }
}

proof fn lemma_compound_within(b: Seq<u8>, p: int, d: int)
    requires
        0 <= p <= b.len(),
    ensures
        compound_end(b, p, d) >= 0 ==> p < compound_end(b, p, d) <= b.len(),
    decreases b.len() - p, 1int, 0int,
{
    if p < b.len() && b[p] != 0 && b[p] <= 12 && p + 3 <= b.len() && p + 3 + u16_at(b, p + 1) <= b.len() {
        let s = p + 3 + u16_at(b, p + 1);
        lemma_payload_within(b, s, b[p], d);
        let q = payload_end(b, s, b[p], d);
        if p < q <= b.len() {
            lemma_compound_within(b, q, d);
        }
    }
}

/// Whatever the bytes, the scan either refuses them or ends inside them,
/// after the root's type, name and end tag: it never reports an end beyond
/// the bytes it was given.
pub proof fn lemma_scan_within(b: Seq<u8>)
    ensures
        nbt_scan(b) >= 0 ==> 4 <= nbt_scan(b) <= b.len(),
{
    if b.len() >= 3 && b[0] == 10 && 3 + u16_at(b, 1) <= b.len() {
        lemma_compound_within(b, 3 + u16_at(b, 1), 1);
    }
}

/// The unsigned 16-bit number at `p`.
fn read_u16(b: &[u8], p: usize) -> (r: usize)
    requires
        p + 2 <= b@.len(),
    ensures
        r == u16_at(b@, p as int),
{
    (b[p] as usize) * 256 + (b[p + 1] as usize)
}

/// The signed 32-bit length at `p`, `None` where it is negative.
fn read_len(b: &[u8], p: usize) -> (r: Option<usize>)
    requires
        p + 4 <= b@.len(),
    ensures
        match r {
            Some(n) => n == len_at(b@, p as int) && n < 0x8000_0000,
            None => len_at(b@, p as int) < 0,
        },
{
    if b[p] >= 128 {
        None
    } else {
        let n: u32 = (b[p] as u32) * 16777216 + (b[p + 1] as u32) * 65536 + (b[p + 2] as u32) * 256 + (b[p + 3] as u32);
        Some(n as usize)
    }
}

proof fn lemma_fits(n: int, w: int, rest: int)
    requires
        0 <= n,
        1 <= w,
        0 <= rest,
    ensures
        (n * w <= rest) == (n <= rest / w),
{
    assert((n * w <= rest) == (n <= rest / w)) by (nonlinear_arith)
        requires 0 <= n, 1 <= w, 0 <= rest;
}

/// Where the payload of a tag of type `id` at `p` ends, as `payload_end`.
fn scan_payload(b: &[u8], p: usize, id: u8, d: usize) -> (r: Option<usize>)
    requires
        p <= b@.len(),
        d <= MAX_NBT_DEPTH,
    ensures
        match r {
            Some(e) => payload_end(b@, p as int, id, d as int) == e,
            None => payload_end(b@, p as int, id, d as int) < 0,
        },
    decreases b@.len() - p, 2int, 0int,
{
    let len = b.len();
    if 1 <= id && id <= 6 {
        let w: usize = if id == 1 { 1 } else if id == 2 { 2 } else if id == 3 || id == 5 { 4 } else { 8 };
        if w <= len - p { Some(p + w) } else { None }
    } else if id == 7 || id == 11 || id == 12 {
        if len - p < 4 {
            return None;
        }
        let w: usize = if id == 7 { 1 } else if id == 11 { 4 } else { 8 };
        match read_len(b, p) {
            None => None,
            Some(n) => {
                let rest = len - p - 4;
                proof {
                    lemma_fits(n as int, w as int, rest as int);
                }
                if n > rest / w {
                    None
                } else {
                    assert(n * w <= rest);
                    Some(p + 4 + n * w)
                }
            },
        }
    } else if id == 8 {
        if len - p < 2 {
            return None;
        }
        let s = read_u16(b, p);
        if s > len - p - 2 { None } else { Some(p + 2 + s) }
    } else if id == 9 {
        if d >= MAX_NBT_DEPTH || len - p < 5 {
            return None;
        }
        let e = b[p];
        match read_len(b, p + 1) {
            None => None,
            Some(n) => {
                if e > 12 || (e == 0 && n > 0) {
                    None
                } else {
                    scan_items(b, p + 5, e, n, d + 1)
                }
            },
        }
    } else if id == 10 {
        if d >= MAX_NBT_DEPTH { None } else { scan_compound(b, p, d + 1) }
    } else {
        None
    }
}

/// Where `n` payloads of type `id` from `p` end, as `items_end`.
fn scan_items(b: &[u8], p: usize, id: u8, n: usize, d: usize) -> (r: Option<usize>)
    requires
        p <= b@.len(),
        d <= MAX_NBT_DEPTH,
    ensures
        match r {
            Some(e) => items_end(b@, p as int, id, n as int, d as int) == e,
            None => items_end(b@, p as int, id, n as int, d as int) < 0,
        },
    decreases b@.len() - p, 3int, n,
{
    let mut cur = p;
    let mut k = n;
    while k > 0
        invariant
            p <= cur <= b@.len(),
            k <= n,
            d <= MAX_NBT_DEPTH,
            items_end(b@, p as int, id, n as int, d as int) == items_end(b@, cur as int, id, k as int, d as int),
        decreases k,
    {
        let q = match scan_payload(b, cur, id, d) {
            Some(q) => q,
            None => return None,
        };
        if q <= cur || q > b.len() {
            return None;
        }
        cur = q;
        k = k - 1;
    }
    Some(cur)
}

/// Where the entries of a compound from `p` end, as `compound_end`.
fn scan_compound(b: &[u8], p: usize, d: usize) -> (r: Option<usize>)
    requires
        p <= b@.len(),
        d <= MAX_NBT_DEPTH,
    ensures
        match r {
            Some(e) => compound_end(b@, p as int, d as int) == e,
            None => compound_end(b@, p as int, d as int) < 0,
        },
    decreases b@.len() - p, 1int, 0int,
{
    let mut cur = p;
    while cur < b.len() && b[cur] != 0
        invariant
            p <= cur <= b@.len(),
            d <= MAX_NBT_DEPTH,
            compound_end(b@, p as int, d as int) == compound_end(b@, cur as int, d as int),
        decreases b@.len() - cur,
    {
        let id = b[cur];
        if id > 12 || b.len() - cur < 3 {
            return None;
        }
        let s = read_u16(b, cur + 1);
        if s > b.len() - cur - 3 {
            return None;
        }
        let q = match scan_payload(b, cur + 3 + s, id, d) {
            Some(q) => q,
            None => return None,
        };
        if q <= cur || q > b.len() {
            return None;
        }
        cur = q;
    }
    if cur < b.len() { Some(cur + 1) } else { None }
}

/// Where the root compound of the uncompressed binary NBT `bytes` ends;
/// `None` where the bytes are not such NBT, whole, without a negative
/// length and nested no deeper than `MAX_NBT_DEPTH`.
pub fn binary_nbt_end(bytes: &[u8]) -> (r: Option<usize>)
    ensures
        match r {
            Some(e) => nbt_scan(bytes@) == e && e >= 0,
            None => nbt_scan(bytes@) < 0,
        },
{
    if bytes.len() < 3 || bytes[0] != 10 {
        return None;
    }
    let s = read_u16(bytes, 1);
    if s > bytes.len() - 3 {
        return None;
    }
    scan_compound(bytes, 3 + s, 1)
}

} // verus!
