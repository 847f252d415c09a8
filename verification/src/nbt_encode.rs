//! Binary NBT as an NBT writer lays a tree out, and the law that the scan
//! made before reading accepts every such tree within Minecraft's limits,
//! ending exactly where its encoding ends.
use vstd::prelude::*;
use crate::nbt::{Compound, Tag};
use crate::nbt_file::MAX_NBT_DEPTH;
use crate::nbt_scan::{compound_end, items_end, len_at, nbt_scan, payload_end, u16_at};

verus! {

/// The NBT type id of a tag.
pub open spec fn type_id(t: Tag) -> u8 {
    match t {
        Tag::Byte(_) => 1,
        Tag::Short(_) => 2,
        Tag::Int(_) => 3,
        Tag::Long(_) => 4,
        Tag::Float(_) => 5,
        Tag::Double(_) => 6,
        Tag::ByteArray(_) => 7,
        Tag::String(_) => 8,
        Tag::List(_) => 9,
        Tag::Compound(_) => 10,
        Tag::IntArray(_) => 11,
        Tag::LongArray(_) => 12,
    }
}

/// `n` written as `k` big-endian bytes (modulo 256 to the `k`).
pub open spec fn be(n: int, k: nat) -> Seq<u8>
    decreases k,
{
    if k == 0 {
        Seq::empty()
    } else {
        be(n / 256, (k - 1) as nat).push((n % 256) as u8)
    }
}

/// The bytes NBT writes for a text: its UTF-8 bytes (the modified UTF-8 of
/// Java differs from them only for NUL and characters beyond the BMP; the
/// scan reads nothing but the length written before them).
pub open spec fn text_bytes(s: Seq<char>) -> Seq<u8> {
    vstd::utf8::encode_utf8(s)
}

/// Int-array elements, four big-endian bytes each.
pub open spec fn ints_be(s: Seq<i32>) -> Seq<u8>
    decreases s.len(),
{
    if s.len() == 0 {
        Seq::empty()
    } else {
        ints_be(s.drop_last()) + be(s.last() as int, 4)
    }
}

/// Long-array elements, eight big-endian bytes each.
pub open spec fn longs_be(s: Seq<i64>) -> Seq<u8>
    decreases s.len(),
{
    if s.len() == 0 {
        Seq::empty()
    } else {
        longs_be(s.drop_last()) + be(s.last() as int, 8)
    }
}

/// The element type a list is written with: that of its first element, or
/// the end tag for an empty list.
pub open spec fn elem_id(s: Seq<Tag>) -> u8 {
    if s.len() == 0 { 0 } else { type_id(s[0]) }
}

/// The payload bytes of a tag.
pub open spec fn payload(t: Tag) -> Seq<u8>
    decreases t, 0int,
{
    match t {
        Tag::Byte(x) => seq![x as u8],
        Tag::Short(x) => be(x as int, 2),
        Tag::Int(x) => be(x as int, 4),
        Tag::Long(x) => be(x as int, 8),
        Tag::Float(x) => be(x as int, 4),
        Tag::Double(x) => be(x as int, 8),
        Tag::ByteArray(v) => be(v@.len() as int, 4) + v@.map_values(|x: i8| x as u8),
        Tag::String(s) => be(text_bytes(s@).len() as int, 2) + text_bytes(s@),
        Tag::List(v) => seq![elem_id(v@)] + be(v@.len() as int, 4) + items_from(v@, 0),
        Tag::Compound(c) => entries_from(c.entries@, 0) + seq![0u8],
        Tag::IntArray(v) => be(v@.len() as int, 4) + ints_be(v@),
        Tag::LongArray(v) => be(v@.len() as int, 4) + longs_be(v@),
    }
}

/// The payloads of the list items `s[i..]`, one after another.
pub open spec fn items_from(s: Seq<Tag>, i: int) -> Seq<u8>
    decreases s, s.len() - i,
{
    if i < 0 || i >= s.len() {
        Seq::empty()
    } else {
        payload(s[i]) + items_from(s, i + 1)
    }
}

/// A named entry of a compound: its type id, its name and its payload.
pub open spec fn entry_bytes(name: Seq<char>, t: Tag) -> Seq<u8>
    decreases t, 1int,
{
    seq![type_id(t)] + be(text_bytes(name).len() as int, 2) + text_bytes(name) + payload(t)
}

/// The entries `es[i..]` of a compound, one after another.
pub open spec fn entries_from(es: Seq<(String, Tag)>, i: int) -> Seq<u8>
    decreases es, es.len() - i,
{
    if i < 0 || i >= es.len() {
        Seq::empty()
    } else {
        entry_bytes(es[i].0@, es[i].1) + entries_from(es, i + 1)
    }
}

/// Binary NBT of the root compound `c` named `name`.
pub open spec fn nbt_bytes(name: Seq<char>, c: Compound) -> Seq<u8> {
    seq![10u8] + be(text_bytes(name).len() as int, 2) + text_bytes(name) + payload(Tag::Compound(c))
}

/// `t` can be written as binary NBT within Minecraft's limits when it
/// stands inside `d` enclosing lists and compounds: lists and compounds
/// nest fewer than `MAX_NBT_DEPTH` deep, texts and names are shorter than
/// 65536 bytes, arrays and lists hold fewer than 2^31 items, and the items
/// of a list are all of one type.
pub open spec fn nbt_ok(t: Tag, d: int) -> bool
    decreases t,
{
    match t {
        Tag::ByteArray(v) => v@.len() < 0x8000_0000,
        Tag::IntArray(v) => v@.len() < 0x8000_0000,
        Tag::LongArray(v) => v@.len() < 0x8000_0000,
        Tag::String(s) => text_bytes(s@).len() < 0x10000,
        Tag::List(v) => d < MAX_NBT_DEPTH as int && v@.len() < 0x8000_0000 && forall|i: int|
            0 <= i < v@.len() ==> type_id(#[trigger] v@[i]) == elem_id(v@) && nbt_ok(v@[i], d + 1),
        Tag::Compound(c) => d < MAX_NBT_DEPTH as int && forall|i: int|
            0 <= i < c.entries@.len() ==> text_bytes((#[trigger] c.entries@[i]).0@).len() < 0x10000 && nbt_ok(
                c.entries@[i].1,
                d + 1,
            ),
        _ => true,
    }
}

/// `t` has the shape of binary NBT, whatever its depth: texts and names
/// shorter than 65536 bytes, arrays and lists of fewer than 2^31 items, the
/// items of a list all of one type.
pub open spec fn nbt_shaped(t: Tag) -> bool
    decreases t,
{
    match t {
        Tag::ByteArray(v) => v@.len() < 0x8000_0000,
        Tag::IntArray(v) => v@.len() < 0x8000_0000,
        Tag::LongArray(v) => v@.len() < 0x8000_0000,
        Tag::String(s) => text_bytes(s@).len() < 0x10000,
        Tag::List(v) => v@.len() < 0x8000_0000 && forall|i: int|
            0 <= i < v@.len() ==> type_id(#[trigger] v@[i]) == elem_id(v@) && nbt_shaped(v@[i]),
        Tag::Compound(c) => forall|i: int|
            0 <= i < c.entries@.len() ==> text_bytes((#[trigger] c.entries@[i]).0@).len() < 0x10000 && nbt_shaped(
                c.entries@[i].1,
            ),
        _ => true,
    }
}

/// `t`, standing inside `d` enclosing lists and compounds, holds a list or
/// a compound `MAX_NBT_DEPTH` or more levels deep.
pub open spec fn too_deep(t: Tag, d: int) -> bool
    decreases t,
{
    match t {
        Tag::List(v) => d >= MAX_NBT_DEPTH as int || exists|i: int|
            0 <= i < v@.len() && too_deep(#[trigger] v@[i], d + 1),
        Tag::Compound(c) => d >= MAX_NBT_DEPTH as int || exists|i: int|
            0 <= i < c.entries@.len() && too_deep((#[trigger] c.entries@[i]).1, d + 1),
        _ => false,
    }
}

proof fn lemma_ok_of_shaped(t: Tag, d: int)
    requires
        nbt_shaped(t),
        !too_deep(t, d),
    ensures
        nbt_ok(t, d),
    decreases t,
{
    match t {
        Tag::List(v) => {
            assert forall|i: int| 0 <= i < v@.len() implies type_id(#[trigger] v@[i]) == elem_id(v@) && nbt_ok(
                v@[i],
                d + 1,
            ) by {
                assert(!too_deep(v@[i], d + 1));
                lemma_ok_of_shaped(v@[i], d + 1);
            }
        },
        Tag::Compound(c) => {
            assert forall|i: int| 0 <= i < c.entries@.len() implies text_bytes((#[trigger] c.entries@[i]).0@).len()
                < 0x10000 && nbt_ok(c.entries@[i].1, d + 1) by {
                assert(!too_deep(c.entries@[i].1, d + 1));
                lemma_ok_of_shaped(c.entries@[i].1, d + 1);
            }
        },
        _ => {},
    }
}

proof fn lemma_shaped_of_ok(t: Tag, d: int)
    requires
        nbt_ok(t, d),
    ensures
        nbt_shaped(t),
        !too_deep(t, d),
    decreases t,
{
    match t {
        Tag::List(v) => {
            assert forall|i: int| 0 <= i < v@.len() implies type_id(#[trigger] v@[i]) == elem_id(v@) && nbt_shaped(
                v@[i],
            ) && !too_deep(v@[i], d + 1) by {
                lemma_shaped_of_ok(v@[i], d + 1);
            }
        },
        Tag::Compound(c) => {
            assert forall|i: int| 0 <= i < c.entries@.len() implies text_bytes((#[trigger] c.entries@[i]).0@).len()
                < 0x10000 && nbt_shaped(c.entries@[i].1) && !too_deep(c.entries@[i].1, d + 1) by {
                lemma_shaped_of_ok(c.entries@[i].1, d + 1);
            }
        },
        _ => {},
    }
}

proof fn lemma_be_len(n: int, k: nat)
    ensures
        be(n, k).len() == k,
    decreases k,
{
    if k > 0 {
        lemma_be_len(n / 256, (k - 1) as nat);
    }
}

proof fn lemma_ints_len(s: Seq<i32>)
    ensures
        ints_be(s).len() == 4 * s.len(),
    decreases s.len(),
{
    if s.len() > 0 {
        lemma_ints_len(s.drop_last());
        lemma_be_len(s.last() as int, 4);
    }
}

proof fn lemma_longs_len(s: Seq<i64>)
    ensures
        longs_be(s).len() == 8 * s.len(),
    decreases s.len(),
{
    if s.len() > 0 {
        lemma_longs_len(s.drop_last());
        lemma_be_len(s.last() as int, 8);
    }
}

/// Where `b` holds `x + y` from `p`, it holds `x` from `p` and `y` right
/// after.
proof fn lemma_split(b: Seq<u8>, p: int, x: Seq<u8>, y: Seq<u8>)
    requires
        0 <= p,
        p + x.len() + y.len() <= b.len(),
        b.subrange(p, p + x.len() + y.len()) == x + y,
    ensures
        b.subrange(p, p + x.len()) == x,
        b.subrange(p + x.len(), p + x.len() + y.len()) == y,
{
    assert forall|k: int| 0 <= k < x.len() implies #[trigger] b.subrange(p, p + x.len())[k] == x[k] by {
        assert(b.subrange(p, p + x.len() + y.len())[k] == (x + y)[k]);
    }
    assert(b.subrange(p, p + x.len()) =~= x);
    assert forall|k: int| 0 <= k < y.len() implies #[trigger] b.subrange(p + x.len(), p + x.len() + y.len())[k]
        == y[k] by {
        assert(b.subrange(p, p + x.len() + y.len())[x.len() + k] == (x + y)[x.len() + k]);
        assert(b.subrange(p, p + x.len() + y.len())[x.len() + k] == b[p + x.len() + k]);
        assert(b.subrange(p + x.len(), p + x.len() + y.len())[k] == b[p + x.len() + k]);
    }
    assert(b.subrange(p + x.len(), p + x.len() + y.len()) =~= y);
}

proof fn lemma_u16(b: Seq<u8>, p: int, n: int)
    requires
        0 <= n < 0x10000,
        0 <= p,
        p + 2 <= b.len(),
        b.subrange(p, p + 2) == be(n, 2),
    ensures
        u16_at(b, p) == n,
{
    assert(b.subrange(p, p + 2)[0] == b[p]);
    assert(b.subrange(p, p + 2)[1] == b[p + 1]);
    reveal_with_fuel(be, 3);
    assert(be(n, 2) =~= seq![((n / 256) % 256) as u8, (n % 256) as u8]);
    assert(be(n, 2)[0] == ((n / 256) % 256) as u8);
    assert(be(n, 2)[1] == (n % 256) as u8);
    assert(n / 256 < 256);
}

proof fn lemma_len4(b: Seq<u8>, p: int, n: int)
    requires
        0 <= n < 0x8000_0000,
        0 <= p,
        p + 4 <= b.len(),
        b.subrange(p, p + 4) == be(n, 4),
    ensures
        len_at(b, p) == n,
{
    let q1 = n / 256;
    let q2 = q1 / 256;
    let q3 = q2 / 256;
    assert(b.subrange(p, p + 4)[0] == b[p]);
    assert(b.subrange(p, p + 4)[1] == b[p + 1]);
    assert(b.subrange(p, p + 4)[2] == b[p + 2]);
    assert(b.subrange(p, p + 4)[3] == b[p + 3]);
    reveal_with_fuel(be, 5);
    assert(be(n, 4) == seq![(q3 % 256) as u8, (q2 % 256) as u8, (q1 % 256) as u8, (n % 256) as u8]) by {
        assert(be(n, 4) =~= seq![(q3 % 256) as u8, (q2 % 256) as u8, (q1 % 256) as u8, (n % 256) as u8]);
    }
    assert(q3 < 128);
    assert(n == q3 * 16777216 + (q2 % 256) * 65536 + (q1 % 256) * 256 + n % 256);
}

proof fn lemma_payload_nonempty(t: Tag)
    ensures
        payload(t).len() >= 1,
{
    match t {
        Tag::Short(x) => lemma_be_len(x as int, 2),
        Tag::Int(x) => lemma_be_len(x as int, 4),
        Tag::Long(x) => lemma_be_len(x as int, 8),
        Tag::Float(x) => lemma_be_len(x as int, 4),
        Tag::Double(x) => lemma_be_len(x as int, 8),
        Tag::ByteArray(v) => lemma_be_len(v@.len() as int, 4),
        Tag::String(s) => lemma_be_len(text_bytes(s@).len() as int, 2),
        Tag::List(v) => {},
        Tag::IntArray(v) => lemma_be_len(v@.len() as int, 4),
        Tag::LongArray(v) => lemma_be_len(v@.len() as int, 4),
        _ => {},
    }
}

proof fn lemma_scan_payload(t: Tag, d: int, b: Seq<u8>, p: int)
    requires
        nbt_ok(t, d),
        0 <= d,
        0 <= p,
        p + payload(t).len() <= b.len(),
        b.subrange(p, p + payload(t).len()) == payload(t),
    ensures
        payload_end(b, p, type_id(t), d) == p + payload(t).len(),
    decreases t, 0int,
{
    match t {
        Tag::Byte(x) => {},
        Tag::Short(x) => lemma_be_len(x as int, 2),
        Tag::Int(x) => lemma_be_len(x as int, 4),
        Tag::Long(x) => lemma_be_len(x as int, 8),
        Tag::Float(x) => lemma_be_len(x as int, 4),
        Tag::Double(x) => lemma_be_len(x as int, 8),
        Tag::ByteArray(v) => {
            let h = be(v@.len() as int, 4);
            let m = v@.map_values(|x: i8| x as u8);
            lemma_be_len(v@.len() as int, 4);
            lemma_split(b, p, h, m);
            lemma_len4(b, p, v@.len() as int);
        },
        Tag::IntArray(v) => {
            let h = be(v@.len() as int, 4);
            lemma_be_len(v@.len() as int, 4);
            lemma_ints_len(v@);
            lemma_split(b, p, h, ints_be(v@));
            lemma_len4(b, p, v@.len() as int);
        },
        Tag::LongArray(v) => {
            let h = be(v@.len() as int, 4);
            lemma_be_len(v@.len() as int, 4);
            lemma_longs_len(v@);
            lemma_split(b, p, h, longs_be(v@));
            lemma_len4(b, p, v@.len() as int);
        },
        Tag::String(x) => {
            let tb = text_bytes(x@);
            let h = be(tb.len() as int, 2);
            lemma_be_len(tb.len() as int, 2);
            lemma_split(b, p, h, tb);
            lemma_u16(b, p, tb.len() as int);
        },
        Tag::List(v) => {
            let e = seq![elem_id(v@)];
            let h = be(v@.len() as int, 4);
            let its = items_from(v@, 0);
            lemma_be_len(v@.len() as int, 4);
            assert(payload(t) == e + h + its);
            lemma_split(b, p, e + h, its);
            lemma_split(b, p, e, h);
            assert(b.subrange(p, p + 1)[0] == b[p]);
            lemma_len4(b, p + 1, v@.len() as int);
            if v@.len() > 0 {
                assert(type_id(v@[0]) == elem_id(v@));
            }
            assert forall|j: int| 0 <= j < v@.len() implies type_id(#[trigger] v@[j]) == elem_id(v@) && nbt_ok(
                v@[j],
                d + 1,
            ) by {}
            assert(decreases_to!(t => v@));
            lemma_scan_items(v@, 0, elem_id(v@), d + 1, b, p + 5);
        },
        Tag::Compound(c) => {
            let es = entries_from(c.entries@, 0);
            assert(payload(t) == es + seq![0u8]);
            lemma_split(b, p, es, seq![0u8]);
            assert(b.subrange(p + es.len(), p + es.len() + 1)[0] == b[p + es.len()]);
            assert(decreases_to!(t => c.entries@));
            lemma_scan_entries(c.entries@, 0, d + 1, b, p);
        },
    }
}

proof fn lemma_scan_items(s: Seq<Tag>, i: int, id: u8, d: int, b: Seq<u8>, p: int)
    requires
        0 <= i <= s.len(),
        forall|j: int| i <= j < s.len() ==> type_id(#[trigger] s[j]) == id && nbt_ok(s[j], d),
        0 <= d,
        0 <= p,
        p + items_from(s, i).len() <= b.len(),
        b.subrange(p, p + items_from(s, i).len()) == items_from(s, i),
    ensures
        items_end(b, p, id, s.len() - i, d) == p + items_from(s, i).len(),
    decreases s, s.len() - i,
{
    if i < s.len() {
        let x = payload(s[i]);
        let y = items_from(s, i + 1);
        lemma_split(b, p, x, y);
        lemma_payload_nonempty(s[i]);
        lemma_scan_payload(s[i], d, b, p);
        lemma_scan_items(s, i + 1, id, d, b, p + x.len());
    }
}

proof fn lemma_scan_entries(es: Seq<(String, Tag)>, i: int, d: int, b: Seq<u8>, p: int)
    requires
        0 <= i <= es.len(),
        forall|j: int| i <= j < es.len() ==> text_bytes((#[trigger] es[j]).0@).len() < 0x10000 && nbt_ok(es[j].1, d),
        0 <= d,
        0 <= p,
        p + entries_from(es, i).len() < b.len(),
        b.subrange(p, p + entries_from(es, i).len()) == entries_from(es, i),
        b[p + entries_from(es, i).len()] == 0,
    ensures
        compound_end(b, p, d) == p + entries_from(es, i).len() + 1,
    decreases es, es.len() - i,
{
    if i < es.len() {
        let t = es[i].1;
        let nb = text_bytes(es[i].0@);
        let head = seq![type_id(t)] + be(nb.len() as int, 2) + nb;
        let x = entry_bytes(es[i].0@, t);
        let y = entries_from(es, i + 1);
        assert(x == head + payload(t));
        lemma_be_len(nb.len() as int, 2);
        lemma_split(b, p, x, y);
        lemma_split(b, p, head, payload(t));
        lemma_split(b, p, seq![type_id(t)] + be(nb.len() as int, 2), nb);
        lemma_split(b, p, seq![type_id(t)], be(nb.len() as int, 2));
        assert(b.subrange(p, p + 1)[0] == b[p]);
        lemma_u16(b, p + 1, nb.len() as int);
        lemma_payload_nonempty(t);
        lemma_scan_payload(t, d, b, p + head.len());
        lemma_scan_entries(es, i + 1, d, b, p + x.len());
    }
}

proof fn lemma_refuse_payload(t: Tag, d: int, b: Seq<u8>, p: int)
    requires
        nbt_shaped(t),
        too_deep(t, d),
        0 <= d,
        0 <= p,
        p + payload(t).len() <= b.len(),
        b.subrange(p, p + payload(t).len()) == payload(t),
    ensures
        payload_end(b, p, type_id(t), d) < 0,
    decreases t, 0int,
{
    match t {
        Tag::List(v) => {
            if d < MAX_NBT_DEPTH as int {
                let e = seq![elem_id(v@)];
                let h = be(v@.len() as int, 4);
                let its = items_from(v@, 0);
                lemma_be_len(v@.len() as int, 4);
                assert(payload(t) == e + h + its);
                lemma_split(b, p, e + h, its);
                lemma_split(b, p, e, h);
                assert(b.subrange(p, p + 1)[0] == b[p]);
                lemma_len4(b, p + 1, v@.len() as int);
                let k = choose|i: int| 0 <= i < v@.len() && too_deep(#[trigger] v@[i], d + 1);
                assert(type_id(v@[0]) == elem_id(v@));
                assert(decreases_to!(t => v@));
                lemma_refuse_items(v@, 0, elem_id(v@), d + 1, b, p + 5);
            }
        },
        Tag::Compound(c) => {
            if d < MAX_NBT_DEPTH as int {
                let es = entries_from(c.entries@, 0);
                assert(payload(t) == es + seq![0u8]);
                lemma_split(b, p, es, seq![0u8]);
                assert(decreases_to!(t => c.entries@));
                lemma_refuse_entries(c.entries@, 0, d + 1, b, p);
            }
        },
        _ => {},
    }
}

proof fn lemma_refuse_items(s: Seq<Tag>, i: int, id: u8, d: int, b: Seq<u8>, p: int)
    requires
        0 <= i <= s.len(),
        forall|j: int| i <= j < s.len() ==> type_id(#[trigger] s[j]) == id && nbt_shaped(s[j]),
        exists|j: int| i <= j < s.len() && too_deep(#[trigger] s[j], d),
        0 <= d,
        0 <= p,
        p + items_from(s, i).len() <= b.len(),
        b.subrange(p, p + items_from(s, i).len()) == items_from(s, i),
    ensures
        items_end(b, p, id, s.len() - i, d) < 0,
    decreases s, s.len() - i,
{
    let x = payload(s[i]);
    let y = items_from(s, i + 1);
    lemma_split(b, p, x, y);
    if too_deep(s[i], d) {
        lemma_refuse_payload(s[i], d, b, p);
    } else {
        lemma_ok_of_shaped(s[i], d);
        lemma_payload_nonempty(s[i]);
        lemma_scan_payload(s[i], d, b, p);
        let k = choose|j: int| i <= j < s.len() && too_deep(#[trigger] s[j], d);
        assert(k != i);
        lemma_refuse_items(s, i + 1, id, d, b, p + x.len());
    }
}

proof fn lemma_refuse_entries(es: Seq<(String, Tag)>, i: int, d: int, b: Seq<u8>, p: int)
    requires
        0 <= i <= es.len(),
        forall|j: int| i <= j < es.len() ==> text_bytes((#[trigger] es[j]).0@).len() < 0x10000 && nbt_shaped(es[j].1),
        exists|j: int| i <= j < es.len() && too_deep((#[trigger] es[j]).1, d),
        0 <= d,
        0 <= p,
        p + entries_from(es, i).len() <= b.len(),
        b.subrange(p, p + entries_from(es, i).len()) == entries_from(es, i),
    ensures
        compound_end(b, p, d) < 0,
    decreases es, es.len() - i,
{
    let t = es[i].1;
    let nb = text_bytes(es[i].0@);
    let head = seq![type_id(t)] + be(nb.len() as int, 2) + nb;
    let x = entry_bytes(es[i].0@, t);
    let y = entries_from(es, i + 1);
    assert(x == head + payload(t));
    lemma_be_len(nb.len() as int, 2);
    lemma_split(b, p, x, y);
    lemma_split(b, p, head, payload(t));
    lemma_split(b, p, seq![type_id(t)] + be(nb.len() as int, 2), nb);
    lemma_split(b, p, seq![type_id(t)], be(nb.len() as int, 2));
    assert(b.subrange(p, p + 1)[0] == b[p]);
    lemma_u16(b, p + 1, nb.len() as int);
    if too_deep(t, d) {
        lemma_refuse_payload(t, d, b, p + head.len());
    } else {
        lemma_ok_of_shaped(t, d);
        lemma_payload_nonempty(t);
        lemma_scan_payload(t, d, b, p + head.len());
        let k = choose|j: int| i <= j < es.len() && too_deep((#[trigger] es[j]).1, d);
        assert(k != i);
        lemma_refuse_entries(es, i + 1, d, b, p + x.len());
    }
}

/// For bytes laid out as a tree of the shape of binary NBT, the scan stops
/// at Minecraft's depth limit and nowhere else: it refuses the bytes exactly
/// when the tree holds a list or compound `MAX_NBT_DEPTH` or more levels
/// deep, and otherwise ends exactly where they end.
pub proof fn lemma_scan_depth_limit(name: Seq<char>, c: Compound, rest: Seq<u8>)
    requires
        text_bytes(name).len() < 0x10000,
        nbt_shaped(Tag::Compound(c)),
    ensures
        nbt_scan(nbt_bytes(name, c) + rest) < 0 <==> too_deep(Tag::Compound(c), 0),
        !too_deep(Tag::Compound(c), 0) ==> nbt_scan(nbt_bytes(name, c) + rest) == nbt_bytes(name, c).len(),
{
    if too_deep(Tag::Compound(c), 0) {
        let nb = text_bytes(name);
        let h = be(nb.len() as int, 2);
        let es = entries_from(c.entries@, 0);
        let all = nbt_bytes(name, c);
        let b = all + rest;
        let s0: int = 3 + nb.len() as int;
        lemma_be_len(nb.len() as int, 2);
        assert(all == seq![10u8] + h + nb + (es + seq![0u8]));
        assert(b.subrange(0, all.len() as int) =~= all);
        lemma_split(b, 0, seq![10u8] + h + nb, es + seq![0u8]);
        lemma_split(b, 0, seq![10u8] + h, nb);
        lemma_split(b, 0, seq![10u8], h);
        lemma_split(b, s0, es, seq![0u8]);
        assert(b.subrange(0, 1)[0] == b[0]);
        lemma_u16(b, 1, nb.len() as int);
        lemma_refuse_entries(c.entries@, 0, 1, b, s0);
    } else {
        lemma_ok_of_shaped(Tag::Compound(c), 0);
        lemma_scan_accepts_written(name, c, rest);
    }
}

/// The scan made before binary NBT is read accepts every tree that an NBT
/// writer lays out within Minecraft's limits, of any of the twelve tag
/// types (a double is eight bytes, an int array four bytes an item, and so
/// on), whatever follows it, and it ends exactly where the tree's bytes
/// end.
pub proof fn lemma_scan_accepts_written(name: Seq<char>, c: Compound, rest: Seq<u8>)
    requires
        text_bytes(name).len() < 0x10000,
        nbt_ok(Tag::Compound(c), 0),
    ensures
        nbt_scan(nbt_bytes(name, c) + rest) == nbt_bytes(name, c).len(),
{
    let nb = text_bytes(name);
    let h = be(nb.len() as int, 2);
    let es = entries_from(c.entries@, 0);
    let all = nbt_bytes(name, c);
    let s0: int = 3 + nb.len() as int;
    let e0: int = s0 + es.len() as int;
    let b = all + rest;
    lemma_be_len(nb.len() as int, 2);
    assert(all == seq![10u8] + h + nb + (es + seq![0u8]));
    assert(b.subrange(0, all.len() as int) =~= all);
    lemma_split(b, 0, seq![10u8] + h + nb, es + seq![0u8]);
    lemma_split(b, 0, seq![10u8] + h, nb);
    lemma_split(b, 0, seq![10u8], h);
    lemma_split(b, s0, es, seq![0u8]);
    assert(b.subrange(0, 1)[0] == b[0]);
    assert(b.subrange(e0, e0 + 1)[0] == b[e0]);
    lemma_u16(b, 1, nb.len() as int);
    lemma_scan_entries(c.entries@, 0, 1, b, s0);
}

} // verus!
