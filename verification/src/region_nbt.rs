//! Reading the NBT of a region chunk with `fastnbt`, for the region
//! rewrite of the one-way tool.
use std::collections::HashMap;
use fastnbt::Value as FValue;
use fastnbt::Value::{Byte, ByteArray, Double, Float, Int, IntArray, Long, LongArray, Short};
use vstd::prelude::*;
use crate::nbt::{Compound, Tag, int_arrays_swapped, swap_int_arrays};
use crate::nbt_laws::well_named;
use crate::nbt_scan::{binary_nbt_end, nbt_scan};

verus! {

broadcast use vstd::std_specs::hash::group_hash_axioms;

/// Declares the NBT value type of `fastnbt` to Verus.
#[verifier::external_type_specification]
#[verifier::external_body]
pub struct ExFastValue(fastnbt::Value);

/// The library's tag for a `fastnbt` value.
///
/// Trusted: one variant for each variant of `fastnbt::Value`, payloads
/// moved as they are (floats by their bits); every compound is a map, so
/// its names come out distinct.
#[verifier::external_body]
fn value_of(v: &fastnbt::Value) -> (r: Tag)
    ensures
        well_named(r),
{
    match v {
        Byte(x) => Tag::Byte(*x),
        Short(x) => Tag::Short(*x),
        Int(x) => Tag::Int(*x),
        Long(x) => Tag::Long(*x),
        Float(x) => Tag::Float(x.to_bits()),
        Double(x) => Tag::Double(x.to_bits()),
        FValue::String(s) => Tag::String(s.clone()),
        ByteArray(a) => Tag::ByteArray(a.to_vec()),
        IntArray(a) => Tag::IntArray(a.to_vec()),
        LongArray(a) => Tag::LongArray(a.to_vec()),
        FValue::List(l) => Tag::List(list_of(l)),
        FValue::Compound(m) => Tag::Compound(map_of(m))
    }
}

/// The library's tags for the elements of a `fastnbt` list.
///
/// Trusted: `value_of` on each element, in order.
#[verifier::external_body]
fn list_of(l: &Vec<fastnbt::Value>) -> (r: Vec<Tag>)
    ensures
        forall|i: int| 0 <= i < r@.len() ==> well_named(#[trigger] r@[i]),
{
    l.iter().map(value_of).collect()
}

/// The library's compound for a `fastnbt` compound.
///
/// Trusted: each entry of the map, in the order in which it is walked, its
/// value converted by `value_of`; the map's keys are distinct.
#[verifier::external_body]
fn map_of(m: &HashMap<String, fastnbt::Value>) -> (r: Compound)
    ensures
        well_named(Tag::Compound(r)),
{
    Compound { entries: m.iter().map(|(k, x)| (k.clone(), value_of(x))).collect() }
}

/// `b` is the tree `a` with its compound entries in some order: lists in
/// the same order, each entry of a compound matched by a same-named entry of
/// the other, equal lengths and every other tag as it was.
pub open spec fn same_up_to_order(a: Tag, b: Tag) -> bool
    decreases a,
{
    match a {
        Tag::List(x) => b matches Tag::List(y) && y@.len() == x@.len() && forall|i: int|
            0 <= i < x@.len() ==> same_up_to_order(#[trigger] x@[i], y@[i]),
        Tag::Compound(c) => b matches Tag::Compound(e) && e.entries@.len() == c.entries@.len()
            && (forall|i: int|
            #![trigger c.entries@[i]]
            0 <= i < c.entries@.len() ==> exists|j: int|
                #![trigger e.entries@[j]]
                0 <= j < e.entries@.len() && e.entries@[j].0@ == c.entries@[i].0@
                    && same_up_to_order(c.entries@[i].1, e.entries@[j].1))
            && (forall|j: int|
            #![trigger e.entries@[j]]
            0 <= j < e.entries@.len() ==> exists|i: int|
                #![trigger c.entries@[i]]
                0 <= i < c.entries@.len() && e.entries@[j].0@ == c.entries@[i].0@
                    && same_up_to_order(c.entries@[i].1, e.entries@[j].1)),
        Tag::ByteArray(x) => b matches Tag::ByteArray(y) && y@ == x@,
        Tag::IntArray(x) => b matches Tag::IntArray(y) && y@ == x@,
        Tag::LongArray(x) => b matches Tag::LongArray(y) && y@ == x@,
        Tag::String(x) => b matches Tag::String(y) && y@ == x@,
        _ => b == a,
    }
}

/// What `fastnbt::from_bytes::<fastnbt::Value>` reads from uncompressed
/// binary NBT, with its compound entries in the order of the bytes (a
/// repeated name at its first place, with its last value), or `None` when
/// the bytes hold no NBT.
pub uninterp spec fn fastnbt_tree(data: Seq<u8>) -> Option<Tag>;

/// The tree of uncompressed NBT `data` that `binary_nbt_end` accepts, or
/// `None` when it cannot be read.
///
/// Trusted: `fastnbt::from_bytes::<fastnbt::Value>`, which recurses once per
/// nesting level (hence the scan first), converted by `value_of`. Its
/// compounds are hash maps, walked in an order that the process picks, so
/// the result is `fastnbt_tree` of the bytes up to the order of compound
/// entries, with distinct names.
#[verifier::external_body]
fn read_value_model(data: &[u8]) -> (r: Option<Tag>)
    requires
        nbt_scan(data@) >= 0,
    ensures
        r is Some <==> fastnbt_tree(data@) is Some,
        r matches Some(t) ==> (fastnbt_tree(data@) matches Some(u) && same_up_to_order(u, t) && well_named(t)),
{
    fastnbt::from_bytes::<fastnbt::Value>(data).ok().map(|v| value_of(&v))
}

/// The uncompressed NBT `data` of a region chunk, read, with the UUIDs of
/// its int arrays of length four looked up in the one-way map `uuid_map`;
/// `None` when the scan refuses the bytes or they hold no NBT tree.
pub fn swap_chunk_int_arrays(data: &[u8], uuid_map: &HashMap<u128, u128>) -> (r: Option<Tag>)
    ensures
        r is Some <==> nbt_scan(data@) >= 0 && fastnbt_tree(data@) is Some,
        r matches Some(t) ==> (fastnbt_tree(data@) matches Some(u) && exists|p: Tag|
            #![trigger int_arrays_swapped(p, t, uuid_map@)]
            same_up_to_order(u, p) && well_named(p) && int_arrays_swapped(p, t, uuid_map@)),
{
    if binary_nbt_end(data).is_none() {
        return None;
    }
    match read_value_model(data) {
        Some(p) => {
            let t = swap_int_arrays(&p, uuid_map);
            assert(int_arrays_swapped(p, t, uuid_map@));
            Some(t)
        },
        None => None,
    }
}

} // verus!
