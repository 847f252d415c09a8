//! A model of an NBT tree and the UUID swap over it.
//!
//! UUIDs are found in three places: int arrays of length four, pairs of
//! long tags named `<prefix>Most` / `<prefix>Least` in the same compound
//! (the layout before 1.16), and text inside string tags.
use std::collections::HashMap;
use vstd::prelude::*;
use crate::map::{SymBiMap, is_pairing};
use crate::swap::{matcher_patterns, matcher_replace_all, replaced_all, standard_matcher};
use crate::text::chars_of;
use crate::uuid_bits::{
    halves_to_value, i32s_to_uuid4, i64pair_to_uuid4, lemma_halves_roundtrip, lemma_value_roundtrip,
    lemma_words_roundtrip, signed_half, uuid4_to_i32s, uuid_to_i64pair, value_word, words_to_value,
};
use crate::uuid_text::views;

verus! {

broadcast use vstd::std_specs::hash::group_hash_axioms;

/// One NBT tag. Floating-point payloads are held as their IEEE-754 bits.
#[derive(Debug, PartialEq)]
pub enum Tag {
    Byte(i8),
    Short(i16),
    Int(i32),
    Long(i64),
    Float(u32),
    Double(u64),
    ByteArray(Vec<i8>),
    String(String),
    List(Vec<Tag>),
    Compound(Compound),
    IntArray(Vec<i32>),
    LongArray(Vec<i64>),
}

/// A compound tag: named tags, each name at most once.
#[derive(Debug, PartialEq)]
pub struct Compound {
    pub entries: Vec<(String, Tag)>,
}

/// `"Most"`.
pub open spec fn most_suffix() -> Seq<char> {
    seq!['M', 'o', 's', 't']
}

/// `"Least"`.
pub open spec fn least_suffix() -> Seq<char> {
    seq!['L', 'e', 'a', 's', 't']
}

/// `s` ends with `suffix`.
pub open spec fn ends_with(s: Seq<char>, suffix: Seq<char>) -> bool {
    s.len() >= suffix.len() && s.subrange(s.len() - suffix.len(), s.len() as int) == suffix
}

/// `s` without its last `n` characters.
pub open spec fn drop_end(s: Seq<char>, n: int) -> Seq<char> {
    s.subrange(0, s.len() - n)
}

/// `j` is the first position of the name `key` in `es`.
pub open spec fn first_named(es: Seq<(String, Tag)>, key: Seq<char>, j: int) -> bool {
    &&& 0 <= j < es.len()
    &&& es[j].0@ == key
    &&& forall|i: int| 0 <= i < j ==> #[trigger] es[i].0@ != key
}

/// The value of the long tag named `key` in `es` (its first entry of that
/// name), if there is one.
pub open spec fn long_named(es: Seq<(String, Tag)>, key: Seq<char>) -> Option<i64> {
    if exists|j: int| #[trigger] first_named(es, key, j) {
        let j = choose|j: int| #[trigger] first_named(es, key, j);
        match es[j].1 {
            Tag::Long(x) => Some(x),
            _ => None,
        }
    } else {
        None
    }
}

/// The four words of an int array after the swap: a four-word UUID that
/// the map holds becomes its partner; anything else stays.
pub open spec fn remap_words(ws: Seq<i32>, m: Map<u128, u128>) -> Seq<i32> {
    let v = words_to_value(ws[0], ws[1], ws[2], ws[3]) as u128;
    if ws.len() == 4 && m.contains_key(v) {
        seq![value_word(m[v], 0), value_word(m[v], 1), value_word(m[v], 2), value_word(m[v], 3)]
    } else {
        ws
    }
}

/// The value of entry `i` after the swap of `Most` / `Least` long pairs:
/// when entry `i` is one half of a pair whose UUID the map holds, the
/// matching half of the partner UUID; otherwise the entry's own value.
pub open spec fn paired_long_value(es: Seq<(String, Tag)>, i: int, m: Map<u128, u128>) -> Tag {
    let k = es[i].0@;
    if ends_with(k, most_suffix()) {
        let prefix = drop_end(k, 4);
        match (es[i].1, long_named(es, prefix + least_suffix())) {
            (Tag::Long(most), Some(least)) => {
                let u = halves_to_value(most, least) as u128;
                if m.contains_key(u) {
                    Tag::Long(signed_half(m[u] as int / 0x1_0000_0000_0000_0000))
                } else {
                    es[i].1
                }
            },
            _ => es[i].1,
        }
    } else if ends_with(k, least_suffix()) {
        let prefix = drop_end(k, 5);
        match (long_named(es, prefix + most_suffix()), es[i].1) {
            (Some(most), Tag::Long(least)) => {
                let u = halves_to_value(most, least) as u128;
                if m.contains_key(u) {
                    Tag::Long(signed_half(m[u] as int % 0x1_0000_0000_0000_0000))
                } else {
                    es[i].1
                }
            },
            _ => es[i].1,
        }
    } else {
        es[i].1
    }
}


/// `new` is `old` with its UUIDs swapped: text through the automaton with
/// patterns `pats` and replacements `reps`, int arrays and `Most` / `Least`
/// long pairs through the map `m`; every other tag as it was.
pub open spec fn tag_swapped(
    old: Tag,
    new: Tag,
    m: Map<u128, u128>,
    pats: Seq<Seq<char>>,
    reps: Seq<Seq<char>>,
) -> bool
    decreases old,
{
    match old {
        Tag::String(s) => new matches Tag::String(t) && t@ == replaced_all(pats, reps, s@),
        Tag::IntArray(a) => new matches Tag::IntArray(b) && b@ == remap_words(a@, m),
        Tag::List(items) => new matches Tag::List(out) && out@.len() == items@.len() && forall|i: int|
            0 <= i < items@.len() ==> tag_swapped(#[trigger] items@[i], out@[i], m, pats, reps),
        Tag::Compound(c) => new matches Tag::Compound(d) && compound_swapped(c, d, m, pats, reps),
        Tag::ByteArray(a) => new matches Tag::ByteArray(b) && b@ == a@,
        Tag::LongArray(a) => new matches Tag::LongArray(b) && b@ == a@,
        _ => new == old,
    }
}

/// `new` is the compound `old` with its UUIDs swapped: the same names in the
/// same order, long pairs swapped as a whole, every other value swapped on
/// its own.
pub open spec fn compound_swapped(
    old: Compound,
    new: Compound,
    m: Map<u128, u128>,
    pats: Seq<Seq<char>>,
    reps: Seq<Seq<char>>,
) -> bool
    decreases old,
{
    &&& new.entries@.len() == old.entries@.len()
    &&& forall|i: int|
        0 <= i < old.entries@.len() ==> {
            &&& (#[trigger] new.entries@[i]).0 == old.entries@[i].0
            &&& if old.entries@[i].1 is Long {
                new.entries@[i].1 == paired_long_value(old.entries@, i, m)
            } else {
                tag_swapped(old.entries@[i].1, new.entries@[i].1, m, pats, reps)
            }
        }
}


/// A copy of `v`.
pub fn copy_vec<T: Copy>(v: &Vec<T>) -> (r: Vec<T>)
    ensures
        r@ == v@,
{
    let mut out: Vec<T> = Vec::new();
    let mut i: usize = 0;
    while i < v.len()
        invariant
            i <= v@.len(),
            out@ == v@.take(i as int),
        decreases v@.len() - i,
    {
        out.push(v[i]);
        i = i + 1;
        assert(out@ =~= v@.take(i as int));
    }
    assert(v@.take(v@.len() as int) =~= v@);
    out
}

/// The int array `a` after the swap.
pub fn remap_int_array(a: &Vec<i32>, uuid_map: &SymBiMap<u128>) -> (r: Vec<i32>)
    ensures
        r@ == remap_words(a@, uuid_map@),
{
    if a.len() == 4 {
        let old_uuid = i32s_to_uuid4(a.as_slice());
        if let Some(other) = uuid_map.get(&old_uuid) {
            let w = uuid4_to_i32s(*other);
            let mut out: Vec<i32> = Vec::new();
            out.push(w[0]);
            out.push(w[1]);
            out.push(w[2]);
            out.push(w[3]);
            assert(out@ =~= seq![value_word(*other, 0), value_word(*other, 1), value_word(*other, 2), value_word(*other, 3)]);
            return out;
        }
    }
    copy_vec(a)
}

/// The first long tag named `key` among `es`, if it is a long.
fn find_long(es: &Vec<(String, Tag)>, key: &String) -> (r: Option<i64>)
    ensures
        r == long_named(es@, key@),
{
    let mut i: usize = 0;
    while i < es.len()
        invariant
            i <= es@.len(),
            forall|j: int| 0 <= j < i ==> #[trigger] es@[j].0@ != key@,
        decreases es@.len() - i,
    {
        if es[i].0 == *key {
            assert(first_named(es@, key@, i as int));
            proof {
                let j = choose|j: int| #[trigger] first_named(es@, key@, j);
                if j < i {
                    assert(es@[j].0@ != key@);
                }
                if j > i {
                    assert(es@[i as int].0@ != key@);
                }
            }
            return match &es[i].1 {
                Tag::Long(x) => Some(*x),
                _ => None,
            };
        }
        i = i + 1;
    }
    assert(!exists|j: int| #[trigger] first_named(es@, key@, j));
    None
}

/// `cs` ends with the characters of `suffix`.
fn ends_with_chars(cs: &Vec<char>, suffix: &Vec<char>) -> (r: bool)
    ensures
        r == ends_with(cs@, suffix@),
{
    if cs.len() < suffix.len() {
        return false;
    }
    let start = cs.len() - suffix.len();
    let mut i: usize = 0;
    while i < suffix.len()
        invariant
            start == cs@.len() - suffix@.len(),
            suffix@.len() <= cs@.len() <= usize::MAX,
            i <= suffix@.len(),
            forall|j: int| 0 <= j < i ==> cs@[start + j] == suffix@[j],
        decreases suffix@.len() - i,
    {
        if cs[start + i] != suffix[i] {
            assert(cs@.subrange(start as int, cs@.len() as int)[i as int] != suffix@[i as int]);
            return false;
        }
        i = i + 1;
    }
    assert(cs@.subrange(start as int, cs@.len() as int) =~= suffix@);
    true
}

/// The first `n` characters of `cs` followed by `tail`, as a string.
fn prefix_then(cs: &Vec<char>, n: usize, tail: &Vec<char>) -> (r: String)
    requires
        n <= cs@.len(),
    ensures
        r@ == cs@.subrange(0, n as int) + tail@,
{
    let mut out: Vec<char> = Vec::new();
    let mut i: usize = 0;
    while i < n
        invariant
            i <= n <= cs@.len(),
            out@ == cs@.subrange(0, i as int),
        decreases n - i,
    {
        out.push(cs[i]);
        i = i + 1;
        assert(out@ =~= cs@.subrange(0, i as int));
    }
    let mut j: usize = 0;
    while j < tail.len()
        invariant
            j <= tail@.len(),
            out@ == cs@.subrange(0, n as int) + tail@.take(j as int),
        decreases tail@.len() - j,
    {
        out.push(tail[j]);
        j = j + 1;
        assert(out@ =~= cs@.subrange(0, n as int) + tail@.take(j as int));
    }
    assert(tail@.take(tail@.len() as int) =~= tail@);
    crate::text::string_of(&out)
}

/// The characters of `"Most"`.
fn most_chars() -> (r: Vec<char>)
    ensures
        r@ == most_suffix(),
{
    let mut v: Vec<char> = Vec::new();
    v.push('M');
    v.push('o');
    v.push('s');
    v.push('t');
    assert(v@ =~= most_suffix());
    v
}

/// The characters of `"Least"`.
fn least_chars() -> (r: Vec<char>)
    ensures
        r@ == least_suffix(),
{
    let mut v: Vec<char> = Vec::new();
    v.push('L');
    v.push('e');
    v.push('a');
    v.push('s');
    v.push('t');
    assert(v@ =~= least_suffix());
    v
}

/// The value of entry `i` (a long) after the `Most` / `Least` swap.
fn paired_long(es: &Vec<(String, Tag)>, i: usize, uuid_map: &SymBiMap<u128>) -> (r: Tag)
    requires
        i < es@.len(),
        es@[i as int].1 is Long,
    ensures
        r == paired_long_value(es@, i as int, uuid_map@),
{
    let own = match &es[i].1 {
        Tag::Long(x) => *x,
        _ => 0,
    };
    let key = chars_of(es[i].0.as_str());
    let most = most_chars();
    let least = least_chars();
    if ends_with_chars(&key, &most) {
        let partner = prefix_then(&key, key.len() - 4, &least);
        if let Some(least_value) = find_long(es, &partner) {
            let u = i64pair_to_uuid4(own, least_value);
            if let Some(other) = uuid_map.get(&u) {
                let (m, _) = uuid_to_i64pair(*other);
                return Tag::Long(m);
            }
        }
        Tag::Long(own)
    } else if ends_with_chars(&key, &least) {
        let partner = prefix_then(&key, key.len() - 5, &most);
        if let Some(most_value) = find_long(es, &partner) {
            let u = i64pair_to_uuid4(most_value, own);
            if let Some(other) = uuid_map.get(&u) {
                let (_, l) = uuid_to_i64pair(*other);
                return Tag::Long(l);
            }
        }
        Tag::Long(own)
    } else {
        Tag::Long(own)
    }
}


/// `tag` with its UUIDs swapped; see [`tag_swapped`].
pub(crate) fn swap_in_tag(
    tag: &Tag,
    uuid_map: &SymBiMap<u128>,
    ac: &aho_corasick::AhoCorasick,
    replacements: &Vec<String>,
) -> (r: Tag)
    requires
        standard_matcher(*ac),
        replacements@.len() == matcher_patterns(*ac).len(),
    ensures
        tag_swapped(*tag, r, uuid_map@, matcher_patterns(*ac), views(replacements@)),
    decreases tag,
{
    match tag {
        Tag::Byte(x) => Tag::Byte(*x),
        Tag::Short(x) => Tag::Short(*x),
        Tag::Int(x) => Tag::Int(*x),
        Tag::Long(x) => Tag::Long(*x),
        Tag::Float(x) => Tag::Float(*x),
        Tag::Double(x) => Tag::Double(*x),
        Tag::ByteArray(v) => Tag::ByteArray(copy_vec(v)),
        Tag::LongArray(v) => Tag::LongArray(copy_vec(v)),
        Tag::String(s) => Tag::String(matcher_replace_all(ac, s.as_str(), replacements)),
        Tag::IntArray(a) => Tag::IntArray(remap_int_array(a, uuid_map)),
        Tag::List(items) => {
            let mut out: Vec<Tag> = Vec::new();
            let mut i: usize = 0;
            while i < items.len()
                invariant
                    *tag == Tag::List(*items),
                    i <= items@.len(),
                    out@.len() == i,
                    standard_matcher(*ac),
                    replacements@.len() == matcher_patterns(*ac).len(),
                    forall|j: int|
                        0 <= j < i ==> tag_swapped(
                            #[trigger] items@[j],
                            out@[j],
                            uuid_map@,
                            matcher_patterns(*ac),
                            views(replacements@),
                        ),
                decreases items@.len() - i,
            {
                proof {
                    assert(decreases_to!(*tag => (*tag)->List_0));
                    assert(decreases_to!(*items => items@));
                    assert(decreases_to!(items@ => items@[i as int]));
                }
                let t = swap_in_tag(&items[i], uuid_map, ac, replacements);
                out.push(t);
                i = i + 1;
            }
            Tag::List(out)
        },
        Tag::Compound(c) => Tag::Compound(swap_in_compound(c, uuid_map, ac, replacements)),
    }
}

/// The compound `c` with its UUIDs swapped; see [`compound_swapped`].
pub(crate) fn swap_in_compound(
    c: &Compound,
    uuid_map: &SymBiMap<u128>,
    ac: &aho_corasick::AhoCorasick,
    replacements: &Vec<String>,
) -> (r: Compound)
    requires
        standard_matcher(*ac),
        replacements@.len() == matcher_patterns(*ac).len(),
    ensures
        compound_swapped(*c, r, uuid_map@, matcher_patterns(*ac), views(replacements@)),
    decreases c,
{
    let es = &c.entries;
    let mut out: Vec<(String, Tag)> = Vec::new();
    let mut i: usize = 0;
    while i < es.len()
        invariant
            es == &c.entries,
            i <= es@.len(),
            out@.len() == i,
            standard_matcher(*ac),
            replacements@.len() == matcher_patterns(*ac).len(),
            forall|j: int|
                0 <= j < i ==> {
                    &&& (#[trigger] out@[j]).0 == es@[j].0
                    &&& if es@[j].1 is Long {
                        out@[j].1 == paired_long_value(es@, j, uuid_map@)
                    } else {
                        tag_swapped(es@[j].1, out@[j].1, uuid_map@, matcher_patterns(*ac), views(replacements@))
                    }
                },
        decreases es@.len() - i,
    {
        let name = es[i].0.clone();
        let value = if let Tag::Long(_) = &es[i].1 {
            paired_long(es, i, uuid_map)
        } else {
            assert(decreases_to!(*c => es@[i as int].1));
            swap_in_tag(&es[i].1, uuid_map, ac, replacements)
        };
        out.push((name, value));
        i = i + 1;
    }
    Compound { entries: out }
}


/// The int array `a` after the swap through the one-way map `uuid_map`.
pub fn remap_words_through(a: &Vec<i32>, uuid_map: &HashMap<u128, u128>) -> (r: Vec<i32>)
    ensures
        r@ == remap_words(a@, uuid_map@),
{
    if a.len() == 4 {
        let old_uuid = i32s_to_uuid4(a.as_slice());
        if let Some(other) = uuid_map.get(&old_uuid) {
            let w = uuid4_to_i32s(*other);
            let mut out: Vec<i32> = Vec::new();
            out.push(w[0]);
            out.push(w[1]);
            out.push(w[2]);
            out.push(w[3]);
            assert(out@ =~= seq![value_word(*other, 0), value_word(*other, 1), value_word(*other, 2), value_word(*other, 3)]);
            return out;
        }
    }
    copy_vec(a)
}

/// `new` is `old` with only its int-array UUIDs swapped through `m`; every
/// other tag, text included, as it was.
pub open spec fn int_arrays_swapped(old: Tag, new: Tag, m: Map<u128, u128>) -> bool
    decreases old,
{
    match old {
        Tag::IntArray(a) => new matches Tag::IntArray(b) && b@ == remap_words(a@, m),
        Tag::List(items) => new matches Tag::List(out) && out@.len() == items@.len() && forall|i: int|
            0 <= i < items@.len() ==> int_arrays_swapped(#[trigger] items@[i], out@[i], m),
        Tag::Compound(c) => new matches Tag::Compound(d) && d.entries@.len() == c.entries@.len()
            && forall|i: int|
            0 <= i < c.entries@.len() ==> (#[trigger] d.entries@[i]).0 == c.entries@[i].0
                && int_arrays_swapped(c.entries@[i].1, d.entries@[i].1, m),
        Tag::ByteArray(a) => new matches Tag::ByteArray(b) && b@ == a@,
        Tag::LongArray(a) => new matches Tag::LongArray(b) && b@ == a@,
        Tag::String(s) => new matches Tag::String(t) && t@ == s@,
        _ => new == old,
    }
}

/// `tag` with the UUIDs of its int arrays of length four looked up in the
/// one-way map `uuid_map`, and nothing else touched (the region rewrite of the
/// one-way tool).
pub fn swap_int_arrays(tag: &Tag, uuid_map: &HashMap<u128, u128>) -> (r: Tag)
    ensures
        int_arrays_swapped(*tag, r, uuid_map@),
    decreases tag,
{
    match tag {
        Tag::Byte(x) => Tag::Byte(*x),
        Tag::Short(x) => Tag::Short(*x),
        Tag::Int(x) => Tag::Int(*x),
        Tag::Long(x) => Tag::Long(*x),
        Tag::Float(x) => Tag::Float(*x),
        Tag::Double(x) => Tag::Double(*x),
        Tag::ByteArray(v) => Tag::ByteArray(copy_vec(v)),
        Tag::LongArray(v) => Tag::LongArray(copy_vec(v)),
        Tag::String(s) => Tag::String(s.clone()),
        Tag::IntArray(a) => Tag::IntArray(remap_words_through(a, uuid_map)),
        Tag::List(items) => {
            let mut out: Vec<Tag> = Vec::new();
            let mut i: usize = 0;
            while i < items.len()
                invariant
                    *tag == Tag::List(*items),
                    i <= items@.len(),
                    out@.len() == i,
                    forall|j: int| 0 <= j < i ==> int_arrays_swapped(#[trigger] items@[j], out@[j], uuid_map@),
                decreases items@.len() - i,
            {
                proof {
                    assert(decreases_to!(*tag => (*tag)->List_0));
                    assert(decreases_to!(*items => items@));
                    assert(decreases_to!(items@ => items@[i as int]));
                }
                out.push(swap_int_arrays(&items[i], uuid_map));
                i = i + 1;
            }
            Tag::List(out)
        },
        Tag::Compound(c) => {
            let mut out: Vec<(String, Tag)> = Vec::new();
            let mut i: usize = 0;
            while i < c.entries.len()
                invariant
                    *tag == Tag::Compound(*c),
                    i <= c.entries@.len(),
                    out@.len() == i,
                    forall|j: int|
                        0 <= j < i ==> (#[trigger] out@[j]).0 == c.entries@[j].0 && int_arrays_swapped(
                            c.entries@[j].1,
                            out@[j].1,
                            uuid_map@,
                        ),
                decreases c.entries@.len() - i,
            {
                proof {
                    assert(decreases_to!(*tag => (*tag)->Compound_0));
                    assert(decreases_to!(*c => c.entries@[i as int].1));
                }
                let name = c.entries[i].0.clone();
                out.push((name, swap_int_arrays(&c.entries[i].1, uuid_map)));
                i = i + 1;
            }
            Tag::Compound(Compound { entries: out })
        },
    }
}

/// `new` is a deep copy of `old`: the same tags, names and payloads.
pub open spec fn tag_copied(old: Tag, new: Tag) -> bool
    decreases old,
{
    match old {
        Tag::IntArray(a) => new matches Tag::IntArray(b) && b@ == a@,
        Tag::ByteArray(a) => new matches Tag::ByteArray(b) && b@ == a@,
        Tag::LongArray(a) => new matches Tag::LongArray(b) && b@ == a@,
        Tag::String(s) => new matches Tag::String(t) && t@ == s@,
        Tag::List(items) => new matches Tag::List(out) && out@.len() == items@.len() && forall|i: int|
            0 <= i < items@.len() ==> tag_copied(#[trigger] items@[i], out@[i]),
        Tag::Compound(c) => new matches Tag::Compound(d) && d.entries@.len() == c.entries@.len()
            && forall|i: int|
            0 <= i < c.entries@.len() ==> (#[trigger] d.entries@[i]).0 == c.entries@[i].0 && tag_copied(
                c.entries@[i].1,
                d.entries@[i].1,
            ),
        _ => new == old,
    }
}

/// A deep copy of `tag`.
pub fn copy_tag(tag: &Tag) -> (r: Tag)
    ensures
        tag_copied(*tag, r),
    decreases tag,
{
    match tag {
        Tag::Byte(x) => Tag::Byte(*x),
        Tag::Short(x) => Tag::Short(*x),
        Tag::Int(x) => Tag::Int(*x),
        Tag::Long(x) => Tag::Long(*x),
        Tag::Float(x) => Tag::Float(*x),
        Tag::Double(x) => Tag::Double(*x),
        Tag::ByteArray(v) => Tag::ByteArray(copy_vec(v)),
        Tag::LongArray(v) => Tag::LongArray(copy_vec(v)),
        Tag::IntArray(v) => Tag::IntArray(copy_vec(v)),
        Tag::String(s) => Tag::String(s.clone()),
        Tag::List(items) => {
            let mut out: Vec<Tag> = Vec::new();
            let mut i: usize = 0;
            while i < items.len()
                invariant
                    *tag == Tag::List(*items),
                    i <= items@.len(),
                    out@.len() == i,
                    forall|j: int| 0 <= j < i ==> tag_copied(#[trigger] items@[j], out@[j]),
                decreases items@.len() - i,
            {
                proof {
                    assert(decreases_to!(*tag => (*tag)->List_0));
                    assert(decreases_to!(*items => items@));
                    assert(decreases_to!(items@ => items@[i as int]));
                }
                out.push(copy_tag(&items[i]));
                i = i + 1;
            }
            Tag::List(out)
        },
        Tag::Compound(c) => Tag::Compound(copy_compound(c)),
    }
}

/// A deep copy of the compound `c`.
pub fn copy_compound(c: &Compound) -> (r: Compound)
    ensures
        tag_copied(Tag::Compound(*c), Tag::Compound(r)),
    decreases c,
{
    let mut out: Vec<(String, Tag)> = Vec::new();
    let mut i: usize = 0;
    while i < c.entries.len()
        invariant
            i <= c.entries@.len(),
            out@.len() == i,
            forall|j: int|
                0 <= j < i ==> (#[trigger] out@[j]).0 == c.entries@[j].0 && tag_copied(
                    c.entries@[j].1,
                    out@[j].1,
                ),
        decreases c.entries@.len() - i,
    {
        proof {
            assert(decreases_to!(*c => c.entries@[i as int].1));
        }
        let name = c.entries[i].0.clone();
        out.push((name, copy_tag(&c.entries[i].1)));
        i = i + 1;
    }
    Compound { entries: out }
}

/// Swapping the UUID of an int array twice with a symmetric map gives back
/// the array: rows swap both ways.
pub proof fn lemma_int_array_swap_twice(ws: Seq<i32>, m: Map<u128, u128>)
    requires
        is_pairing(m),
    ensures
        remap_words(remap_words(ws, m), m) == ws,
{
    if ws.len() == 4 {
        let v = words_to_value(ws[0], ws[1], ws[2], ws[3]) as u128;
        lemma_words_roundtrip(ws[0], ws[1], ws[2], ws[3]);
        lemma_value_roundtrip(v);
        if m.contains_key(v) {
            let o = m[v];
            let ws1 = remap_words(ws, m);
            assert(ws1 == seq![value_word(o, 0), value_word(o, 1), value_word(o, 2), value_word(o, 3)]);
            lemma_value_roundtrip(o);
            assert(words_to_value(ws1[0], ws1[1], ws1[2], ws1[3]) as u128 == o);
            assert(m[o] == v);
            lemma_words_roundtrip(ws[0], ws[1], ws[2], ws[3]);
            assert(remap_words(ws1, m) =~= seq![value_word(v, 0), value_word(v, 1), value_word(v, 2), value_word(v, 3)]);
            assert(remap_words(ws1, m) =~= ws);
        }
    }
}

/// A `Most` / `Least` pair holding a UUID of a symmetric map is rewritten
/// to the halves of its partner, and those halves are rewritten back.
pub proof fn lemma_long_pair_swap_twice(most: i64, least: i64, m: Map<u128, u128>)
    requires
        is_pairing(m),
        m.contains_key(halves_to_value(most, least) as u128),
    ensures
        ({
            let o = m[halves_to_value(most, least) as u128];
            let most1 = signed_half(o as int / 0x1_0000_0000_0000_0000);
            let least1 = signed_half(o as int % 0x1_0000_0000_0000_0000);
            &&& halves_to_value(most1, least1) as u128 == o
            &&& m.contains_key(o)
            &&& signed_half(m[o] as int / 0x1_0000_0000_0000_0000) == most
            &&& signed_half(m[o] as int % 0x1_0000_0000_0000_0000) == least
        }),
{
    let u = halves_to_value(most, least) as u128;
    lemma_halves_roundtrip(u, most, least);
    let o = m[u];
    lemma_halves_roundtrip(o, most, least);
}


/// Looking the int arrays of a tree up twice in a symmetric map gives back
/// the tree: every swapped UUID is swapped back, and nothing else moved.
pub proof fn lemma_int_arrays_swap_twice(t: Tag, t1: Tag, t2: Tag, m: Map<u128, u128>)
    requires
        is_pairing(m),
        int_arrays_swapped(t, t1, m),
        int_arrays_swapped(t1, t2, m),
    ensures
        tag_copied(t, t2),
    decreases t,
{
    match t {
        Tag::IntArray(a) => {
            lemma_int_array_swap_twice(a@, m);
        },
        Tag::List(items) => {
            let mid = t1->List_0;
            let last = t2->List_0;
            assert forall|i: int| 0 <= i < items@.len() implies tag_copied(#[trigger] items@[i], last@[i]) by {
                assert(decreases_to!(t => t->List_0));
                assert(decreases_to!(t->List_0 => items@));
                assert(decreases_to!(items@ => items@[i]));
                lemma_int_arrays_swap_twice(items@[i], mid@[i], last@[i], m);
            }
        },
        Tag::Compound(c) => {
            let mid = t1->Compound_0;
            let last = t2->Compound_0;
            assert forall|i: int| 0 <= i < c.entries@.len() implies (#[trigger] last.entries@[i]).0 == c.entries@[i].0
                && tag_copied(c.entries@[i].1, last.entries@[i].1) by {
                assert(decreases_to!(t => t->Compound_0));
                assert(decreases_to!(c => c.entries@[i].1));
                assert(mid.entries@[i].0 == c.entries@[i].0);
                lemma_int_arrays_swap_twice(c.entries@[i].1, mid.entries@[i].1, last.entries@[i].1, m);
            }
        },
        _ => {},
    }
}

} // verus!
