//! Laws of the UUID swap over whole NBT trees.
use vstd::prelude::*;
use crate::map::is_pairing;
use crate::nbt::{
    Compound, Tag, compound_swapped, drop_end, ends_with, first_named, lemma_int_array_swap_twice,
    lemma_long_pair_swap_twice,
    least_suffix, long_named, most_suffix, paired_long_value, tag_copied, tag_swapped,
};
use crate::swap::replaced_all;
use crate::uuid_bits::halves_to_value;

verus! {

/// No two entries of `es` share a name (as in every NBT compound).
pub open spec fn names_unique(es: Seq<(String, Tag)>) -> bool {
    forall|i: int, j: int| 0 <= i < es.len() && 0 <= j < es.len() && i != j ==> #[trigger] es[i].0@ != #[trigger] es[j].0@
}

/// Every compound in `t` has entries of distinct names.
pub open spec fn well_named(t: Tag) -> bool
    decreases t,
{
    match t {
        Tag::List(items) => forall|i: int| 0 <= i < items@.len() ==> well_named(#[trigger] items@[i]),
        Tag::Compound(c) => names_unique(c.entries@) && forall|i: int|
            0 <= i < c.entries@.len() ==> well_named(#[trigger] c.entries@[i].1),
        _ => true,
    }
}

/// A second text swap gives back every string of `t`.
pub open spec fn text_swap_undone(t: Tag, pats: Seq<Seq<char>>, reps: Seq<Seq<char>>) -> bool
    decreases t,
{
    match t {
        Tag::String(s) => replaced_all(pats, reps, replaced_all(pats, reps, s@)) == s@,
        Tag::List(items) => forall|i: int|
            0 <= i < items@.len() ==> text_swap_undone(#[trigger] items@[i], pats, reps),
        Tag::Compound(c) => forall|i: int|
            0 <= i < c.entries@.len() ==> text_swap_undone(#[trigger] c.entries@[i].1, pats, reps),
        _ => true,
    }
}

proof fn lemma_suffixes(p: Seq<char>)
    ensures
        ends_with(p + least_suffix(), least_suffix()),
        !ends_with(p + least_suffix(), most_suffix()),
        drop_end(p + least_suffix(), 5) == p,
        ends_with(p + most_suffix(), most_suffix()),
        drop_end(p + most_suffix(), 4) == p,
{
    let l = p + least_suffix();
    let m = p + most_suffix();
    assert(l.subrange(l.len() - 5, l.len() as int) =~= least_suffix());
    assert(l.subrange(l.len() - 4, l.len() as int)[0] == 'e');
    assert(l.subrange(0, l.len() - 5) =~= p);
    assert(m.subrange(m.len() - 4, m.len() as int) =~= most_suffix());
    assert(m.subrange(0, m.len() - 4) =~= p);
}

proof fn lemma_rejoin(k: Seq<char>, suffix: Seq<char>)
    requires
        ends_with(k, suffix),
    ensures
        drop_end(k, suffix.len() as int) + suffix == k,
{
    assert(drop_end(k, suffix.len() as int) + suffix =~= k);
}

/// Under distinct names, the entry named `es[j].0` is found at `j`.
proof fn lemma_found_at(es: Seq<(String, Tag)>, j: int)
    requires
        names_unique(es),
        0 <= j < es.len(),
    ensures
        first_named(es, es[j].0@, j),
        long_named(es, es[j].0@) == match es[j].1 {
            Tag::Long(x) => Some(x),
            _ => None::<i64>,
        },
{
    assert(first_named(es, es[j].0@, j));
    let k = choose|k: int| #[trigger] first_named(es, es[j].0@, k);
    assert(k == j);
}

/// A name that no entry of `es` has is not found.
proof fn lemma_not_found(es: Seq<(String, Tag)>, key: Seq<char>)
    requires
        forall|j: int| 0 <= j < es.len() ==> #[trigger] es[j].0@ != key,
    ensures
        long_named(es, key) is None,
{
    assert(!exists|j: int| #[trigger] first_named(es, key, j));
}

/// The swap keeps a tag a long exactly when it was one.
proof fn lemma_swap_keeps_long(t: Tag, t1: Tag, m: Map<u128, u128>, pats: Seq<Seq<char>>, reps: Seq<Seq<char>>)
    requires
        tag_swapped(t, t1, m, pats, reps),
    ensures
        t1 is Long <==> t is Long,
{
}

/// The swap of a compound keeps its names, and the distinctness of them.
proof fn lemma_swap_keeps_names(c: Compound, c1: Compound, m: Map<u128, u128>, pats: Seq<Seq<char>>, reps: Seq<Seq<char>>)
    requires
        compound_swapped(c, c1, m, pats, reps),
    ensures
        forall|i: int| 0 <= i < c.entries@.len() ==> #[trigger] c1.entries@[i].0@ == c.entries@[i].0@,
        names_unique(c.entries@) ==> names_unique(c1.entries@),
{
    assert forall|i: int| 0 <= i < c.entries@.len() implies #[trigger] c1.entries@[i].0@ == c.entries@[i].0@ by {
        assert(c1.entries@[i].0 == c.entries@[i].0);
    }
}

/// The long entry `i` of a compound with distinct names comes back after
/// two swaps with a symmetric map.
proof fn lemma_long_entry_twice(
    c: Compound,
    c1: Compound,
    c2: Compound,
    i: int,
    m: Map<u128, u128>,
    pats: Seq<Seq<char>>,
    reps: Seq<Seq<char>>,
)
    requires
        is_pairing(m),
        names_unique(c.entries@),
        compound_swapped(c, c1, m, pats, reps),
        compound_swapped(c1, c2, m, pats, reps),
        0 <= i < c.entries@.len(),
        c.entries@[i].1 is Long,
    ensures
        c2.entries@[i].1 == c.entries@[i].1,
{
    let es = c.entries@;
    let e1 = c1.entries@;
    let e2 = c2.entries@;
    lemma_swap_keeps_names(c, c1, m, pats, reps);
    lemma_swap_keeps_names(c1, c2, m, pats, reps);
    let k = es[i].0@;
    let x = es[i].1->Long_0;
    assert(e1[i].1 == paired_long_value(es, i, m));
    assert(e1[i].1 is Long);
    assert(e2[i].1 == paired_long_value(e1, i, m));
    if ends_with(k, most_suffix()) {
        let p = drop_end(k, 4);
        let q = p + least_suffix();
        lemma_suffixes(p);
        lemma_rejoin(k, most_suffix());
        if exists|j: int| 0 <= j < es.len() && #[trigger] es[j].0@ == q {
            let j = choose|j: int| 0 <= j < es.len() && #[trigger] es[j].0@ == q;
            assert(j != i);
            lemma_found_at(es, j);
            lemma_found_at(e1, j);
            lemma_found_at(es, i);
            assert(e1[j].0@ == q);
            if es[j].1 is Long {
                let y = es[j].1->Long_0;
                assert(e1[j].1 == paired_long_value(es, j, m));
                if m.contains_key(halves_to_value(x, y) as u128) {
                    lemma_long_pair_swap_twice(x, y, m);
                }
            } else {
                lemma_swap_keeps_long(es[j].1, e1[j].1, m, pats, reps);
            }
        } else {
            lemma_not_found(es, q);
            assert forall|j: int| 0 <= j < e1.len() implies #[trigger] e1[j].0@ != q by {
                assert(e1[j].0@ == es[j].0@);
            }
            lemma_not_found(e1, q);
        }
    } else if ends_with(k, least_suffix()) {
        let p = drop_end(k, 5);
        let q = p + most_suffix();
        lemma_suffixes(p);
        lemma_rejoin(k, least_suffix());
        if exists|j: int| 0 <= j < es.len() && #[trigger] es[j].0@ == q {
            let j = choose|j: int| 0 <= j < es.len() && #[trigger] es[j].0@ == q;
            assert(j != i);
            lemma_found_at(es, j);
            lemma_found_at(e1, j);
            lemma_found_at(es, i);
            assert(e1[j].0@ == q);
            if es[j].1 is Long {
                let y = es[j].1->Long_0;
                assert(e1[j].1 == paired_long_value(es, j, m));
                if m.contains_key(halves_to_value(y, x) as u128) {
                    lemma_long_pair_swap_twice(y, x, m);
                }
            } else {
                lemma_swap_keeps_long(es[j].1, e1[j].1, m, pats, reps);
            }
        } else {
            lemma_not_found(es, q);
            assert forall|j: int| 0 <= j < e1.len() implies #[trigger] e1[j].0@ != q by {
                assert(e1[j].0@ == es[j].0@);
            }
            lemma_not_found(e1, q);
        }
    }
}


/// Swapping a tree twice with a symmetric map gives the tree back, wherever
/// a second text swap gives back each of its strings: every int-array UUID
/// and every `Most` / `Least` pair is swapped back, and nothing else moved.
/// (The compounds of the tree have distinct names, as in NBT.)
pub proof fn lemma_swap_twice(
    t: Tag,
    t1: Tag,
    t2: Tag,
    m: Map<u128, u128>,
    pats: Seq<Seq<char>>,
    reps: Seq<Seq<char>>,
)
    requires
        is_pairing(m),
        well_named(t),
        text_swap_undone(t, pats, reps),
        tag_swapped(t, t1, m, pats, reps),
        tag_swapped(t1, t2, m, pats, reps),
    ensures
        tag_copied(t, t2),
    decreases t,
{
    match t {
        Tag::IntArray(a) => {
            lemma_int_array_swap_twice(a@, m);
        },
        Tag::List(items) => {
            let mid = t1->List_0;
            let last = t2->List_0;
            assert forall|i: int| 0 <= i < items@.len() implies tag_copied(#[trigger] items@[i], last@[i]) by {
                assert(decreases_to!(t => t->List_0));
                assert(decreases_to!(t->List_0 => items@));
                assert(decreases_to!(items@ => items@[i]));
                lemma_swap_twice(items@[i], mid@[i], last@[i], m, pats, reps);
            }
        },
        Tag::Compound(c) => {
            assert(decreases_to!(t => t->Compound_0));
            lemma_compound_swap_twice(c, t1->Compound_0, t2->Compound_0, m, pats, reps);
        },
        _ => {},
    }
}

/// Swapping a compound twice with a symmetric map gives the compound back,
/// wherever a second text swap gives back each of its strings.
pub proof fn lemma_compound_swap_twice(
    c: Compound,
    c1: Compound,
    c2: Compound,
    m: Map<u128, u128>,
    pats: Seq<Seq<char>>,
    reps: Seq<Seq<char>>,
)
    requires
        is_pairing(m),
        well_named(Tag::Compound(c)),
        text_swap_undone(Tag::Compound(c), pats, reps),
        compound_swapped(c, c1, m, pats, reps),
        compound_swapped(c1, c2, m, pats, reps),
    ensures
        tag_copied(Tag::Compound(c), Tag::Compound(c2)),
    decreases c,
{
    lemma_swap_keeps_names(c, c1, m, pats, reps);
    assert forall|i: int| 0 <= i < c.entries@.len() implies (#[trigger] c2.entries@[i]).0 == c.entries@[i].0
        && tag_copied(c.entries@[i].1, c2.entries@[i].1) by {
        assert(c1.entries@[i].0 == c.entries@[i].0);
        assert(c2.entries@[i].0 == c1.entries@[i].0);
        if c.entries@[i].1 is Long {
            lemma_long_entry_twice(c, c1, c2, i, m, pats, reps);
        } else {
            let x = c.entries@[i].1;
            let x1 = c1.entries@[i].1;
            lemma_swap_keeps_long(x, x1, m, pats, reps);
            assert(decreases_to!(c => c.entries@[i].1));
            assert(well_named(x));
            assert(text_swap_undone(x, pats, reps));
            lemma_swap_twice(x, x1, c2.entries@[i].1, m, pats, reps);
        }
    }
}

} // verus!
