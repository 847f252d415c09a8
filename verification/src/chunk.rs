//! The processor of entity chunks of the one-way tool.
//!
//! It walks the root compound of a chunk: each entity of the `Entities`
//! list has its player references (`Owner`, `last_hurt_by_player`,
//! `AngryAt`, the `Trusted` list and the `Target` of each entry of
//! `Gossips`) looked up in a one-way map, rewritten when found, and counted.
//!
//! The walk is described by the sequence of its *reference events*, in
//! visiting order: `Some(words)` for a reference that is an int array, and
//! `None` where the walk meets a tag of the wrong kind and gives up.
use std::collections::HashMap;
use vstd::prelude::*;
use crate::nbt::{Compound, Tag, copy_tag, copy_vec, tag_copied};
use crate::nbt_io::{binary_tree, read_binary_nbt};
use crate::uuid_bits::{i32s_to_uuid4, uuid4_to_i32s, value_word, words_to_value};

verus! {

broadcast use vstd::std_specs::hash::group_hash_axioms;

/// What the walk meets at one reference position.
pub open spec fn ref_event(t: Tag) -> Option<Seq<i32>> {
    match t {
        Tag::IntArray(a) => Some(a@),
        _ => None,
    }
}

/// The events of each element of `xs`, one after another.
pub open spec fn joined<T>(xs: Seq<T>, f: spec_fn(T) -> Seq<Option<Seq<i32>>>) -> Seq<Option<Seq<i32>>>
    decreases xs.len(),
{
    if xs.len() == 0 {
        Seq::empty()
    } else {
        joined(xs.drop_last(), f) + f(xs.last())
    }
}

/// No event gives up.
pub open spec fn all_found(e: Seq<Option<Seq<i32>>>) -> bool {
    forall|k: int| 0 <= k < e.len() ==> (#[trigger] e[k]) is Some
}

/// The events that the walk reaches: those before the first that gives up.
pub open spec fn reached(e: Seq<Option<Seq<i32>>>) -> Seq<Option<Seq<i32>>>
    decreases e.len(),
{
    if e.len() == 0 {
        e
    } else if e[0] is None {
        Seq::empty()
    } else {
        seq![e[0]] + reached(e.drop_first())
    }
}

/// Every reached reference holds at least the four words of a UUID.
pub open spec fn wide(e: Seq<Option<Seq<i32>>>) -> bool {
    forall|k: int| 0 <= k < e.len() ==> (#[trigger] e[k] matches Some(a) ==> a.len() >= 4)
}

/// The UUID held by the first four words of a reference.
pub open spec fn ref_value(a: Seq<i32>) -> u128 {
    words_to_value(a[0], a[1], a[2], a[3]) as u128
}

/// The UUIDs of the references among `e` that the map `m` holds, in order.
pub open spec fn hits(e: Seq<Option<Seq<i32>>>, m: Map<u128, u128>) -> Seq<u128>
    decreases e.len(),
{
    if e.len() == 0 {
        Seq::empty()
    } else {
        let before = hits(e.drop_last(), m);
        match e.last() {
            Some(a) => if m.contains_key(ref_value(a)) {
                before.push(ref_value(a))
            } else {
                before
            },
            None => before,
        }
    }
}

/// How many times `u` occurs in `s`.
pub open spec fn occurrences(s: Seq<u128>, u: u128) -> nat
    decreases s.len(),
{
    if s.len() == 0 {
        0
    } else {
        occurrences(s.drop_last(), u) + if s.last() == u {
            1nat
        } else {
            0nat
        }
    }
}

/// The count of `u` in `f`, zero when absent.
pub open spec fn tally(f: Map<u128, u32>, u: u128) -> int {
    if f.contains_key(u) {
        f[u] as int
    } else {
        0
    }
}

/// `after` is `before` with one more count for each element of `s`.
pub open spec fn tallied(before: Map<u128, u32>, after: Map<u128, u32>, s: Seq<u128>) -> bool {
    &&& forall|u: u128| #[trigger]
        after.contains_key(u) <==> (before.contains_key(u) || occurrences(s, u) > 0)
    &&& forall|u: u128| after.contains_key(u) ==> #[trigger] after[u] == tally(before, u) + occurrences(s, u)
}

/// Adding the elements of `s` to the counts of `f` overflows no count.
pub open spec fn fits(f: Map<u128, u32>, s: Seq<u128>) -> bool {
    forall|u: u128| tally(f, u) + #[trigger] occurrences(s, u) <= u32::MAX
}

proof fn lemma_joined_concat<T>(a: Seq<T>, b: Seq<T>, f: spec_fn(T) -> Seq<Option<Seq<i32>>>)
    ensures
        joined(a + b, f) == joined(a, f) + joined(b, f),
    decreases b.len(),
{
    if b.len() == 0 {
        assert(a + b =~= a);
        assert(joined(a, f) + joined(b, f) =~= joined(a, f));
    } else {
        lemma_joined_concat(a, b.drop_last(), f);
        assert((a + b).drop_last() =~= a + b.drop_last());
        assert((a + b).last() == b.last());
        assert(joined(a + b, f) =~= joined(a, f) + joined(b, f));
    }
}

/// The events of `xs` split around its element `i`.
proof fn lemma_joined_split<T>(xs: Seq<T>, f: spec_fn(T) -> Seq<Option<Seq<i32>>>, i: int)
    requires
        0 <= i < xs.len(),
    ensures
        joined(xs.take(i + 1), f) == joined(xs.take(i), f) + f(xs[i]),
        joined(xs, f) == joined(xs.take(i), f) + f(xs[i]) + joined(xs.skip(i + 1), f),
{
    assert(xs.take(i + 1).drop_last() =~= xs.take(i));
    assert(xs =~= xs.take(i + 1) + xs.skip(i + 1));
    lemma_joined_concat(xs.take(i + 1), xs.skip(i + 1), f);
}

proof fn lemma_joined_all<T>(xs: Seq<T>, f: spec_fn(T) -> Seq<Option<Seq<i32>>>)
    ensures
        joined(xs.take(xs.len() as int), f) == joined(xs, f),
{
    assert(xs.take(xs.len() as int) =~= xs);
}

proof fn lemma_reached_concat(x: Seq<Option<Seq<i32>>>, y: Seq<Option<Seq<i32>>>)
    ensures
        reached(x + y) == if all_found(x) {
            x + reached(y)
        } else {
            reached(x)
        },
    decreases x.len(),
{
    if x.len() == 0 {
        assert(x + y =~= y);
        assert(x + reached(y) =~= reached(y));
    } else if x[0] is None {
        assert((x + y)[0] == x[0]);
    } else {
        assert((x + y)[0] == x[0]);
        assert((x + y).drop_first() =~= x.drop_first() + y);
        lemma_reached_concat(x.drop_first(), y);
        if all_found(x) {
            assert forall|k: int| 0 <= k < x.drop_first().len() implies (#[trigger] x.drop_first()[k]) is Some by {
                assert(x.drop_first()[k] == x[k + 1]);
            }
            assert(seq![x[0]] + (x.drop_first() + reached(y)) =~= x + reached(y));
        } else {
            let k = choose|k: int| 0 <= k < x.len() && !((#[trigger] x[k]) is Some);
            assert(x.drop_first()[k - 1] == x[k]);
            assert(!all_found(x.drop_first()));
        }
    }
}

proof fn lemma_reached_found(e: Seq<Option<Seq<i32>>>)
    requires
        all_found(e),
    ensures
        reached(e) == e,
{
    lemma_reached_concat(e, Seq::empty());
    assert(e + Seq::<Option<Seq<i32>>>::empty() =~= e);
}

proof fn lemma_hits_concat(a: Seq<Option<Seq<i32>>>, b: Seq<Option<Seq<i32>>>, m: Map<u128, u128>)
    ensures
        hits(a + b, m) == hits(a, m) + hits(b, m),
    decreases b.len(),
{
    if b.len() == 0 {
        assert(a + b =~= a);
        assert(hits(a, m) + hits(b, m) =~= hits(a, m));
    } else {
        lemma_hits_concat(a, b.drop_last(), m);
        assert((a + b).drop_last() =~= a + b.drop_last());
        assert((a + b).last() == b.last());
        assert(hits(a + b, m) =~= hits(a, m) + hits(b, m));
    }
}

proof fn lemma_occurrences_concat(s: Seq<u128>, t: Seq<u128>, u: u128)
    ensures
        occurrences(s + t, u) == occurrences(s, u) + occurrences(t, u),
    decreases t.len(),
{
    if t.len() == 0 {
        assert(s + t =~= s);
    } else {
        lemma_occurrences_concat(s, t.drop_last(), u);
        assert((s + t).drop_last() =~= s + t.drop_last());
        assert((s + t).last() == t.last());
    }
}

proof fn lemma_tallied_empty(f: Map<u128, u32>, m: Map<u128, u128>)
    ensures
        tallied(f, f, hits(reached(Seq::empty()), m)),
{
    assert(reached(Seq::<Option<Seq<i32>>>::empty()) =~= Seq::<Option<Seq<i32>>>::empty());
    assert(hits(Seq::<Option<Seq<i32>>>::empty(), m) =~= Seq::<u128>::empty());
}

proof fn lemma_tallied_trans(f0: Map<u128, u32>, f1: Map<u128, u32>, f2: Map<u128, u32>, s: Seq<u128>, t: Seq<u128>)
    requires
        tallied(f0, f1, s),
        tallied(f1, f2, t),
    ensures
        tallied(f0, f2, s + t),
{
    assert forall|u: u128| #[trigger] f2.contains_key(u) <==> (f0.contains_key(u) || occurrences(s + t, u) > 0) by {
        lemma_occurrences_concat(s, t, u);
    }
    assert forall|u: u128| f2.contains_key(u) implies #[trigger] f2[u] == tally(f0, u) + occurrences(s + t, u) by {
        lemma_occurrences_concat(s, t, u);
    }
}

proof fn lemma_gives_up(f: Map<u128, u32>, m: Map<u128, u128>)
    ensures
        tallied(f, f, hits(reached(seq![None]), m)),
        !all_found(seq![None]),
{
    let e: Seq<Option<Seq<i32>>> = seq![None];
    assert(e[0] is None);
    assert(reached(e) =~= Seq::<Option<Seq<i32>>>::empty());
    lemma_tallied_empty(f, m);
}

/// The walk reaches no short reference and overflows no count, when it
/// starts with the counts `f`.
pub open spec fn walk_ok(f: Map<u128, u32>, e: Seq<Option<Seq<i32>>>, m: Map<u128, u128>) -> bool {
    wide(reached(e)) && fits(f, hits(reached(e), m))
}

/// A walk over the events `e` that neither panics nor overflows, took the
/// counts from `before` to `after`, and went on to the end exactly when
/// `found`.
pub open spec fn walked(
    before: Map<u128, u32>,
    after: Map<u128, u32>,
    e: Seq<Option<Seq<i32>>>,
    m: Map<u128, u128>,
    found: bool,
) -> bool {
    &&& walk_ok(before, e, m)
    &&& tallied(before, after, hits(reached(e), m))
    &&& found == all_found(e)
}

/// After the events `p` (all found, all wide) have taken the counts from
/// `start` to `cur`, the walk over `p + y` from `start` is sound exactly when
/// the walk over `y` from `cur` is.
proof fn lemma_walk_after_prefix(
    p: Seq<Option<Seq<i32>>>,
    y: Seq<Option<Seq<i32>>>,
    m: Map<u128, u128>,
    start: Map<u128, u32>,
    cur: Map<u128, u32>,
)
    requires
        all_found(p),
        wide(p),
        tallied(start, cur, hits(p, m)),
    ensures
        walk_ok(start, p + y, m) <==> walk_ok(cur, y, m),
{
    lemma_reached_concat(p, y);
    let ry = reached(y);
    assert(reached(p + y) == p + ry);
    assert(wide(p + ry) <==> wide(ry)) by {
        if wide(ry) {
            assert forall|k: int| 0 <= k < (p + ry).len() implies (#[trigger] (p + ry)[k] matches Some(a) ==> a.len()
                >= 4) by {
                if k < p.len() {
                    assert((p + ry)[k] == p[k]);
                } else {
                    assert((p + ry)[k] == ry[k - p.len()]);
                }
            }
        }
        if wide(p + ry) {
            assert forall|k: int| 0 <= k < ry.len() implies (#[trigger] ry[k] matches Some(a) ==> a.len() >= 4) by {
                assert((p + ry)[p.len() + k] == ry[k]);
            }
        }
    }
    lemma_hits_concat(p, ry, m);
    let hp = hits(p, m);
    let hy = hits(ry, m);
    assert forall|u: u128| tally(start, u) + occurrences(hp + hy, u) == tally(cur, u) + occurrences(hy, u) by {
        lemma_occurrences_concat(hp, hy, u);
    }
    if fits(cur, hy) {
        assert forall|u: u128| tally(start, u) + #[trigger] occurrences(hp + hy, u) <= u32::MAX by {
            assert(tally(cur, u) + occurrences(hy, u) <= u32::MAX);
        }
    }
    if fits(start, hp + hy) {
        assert forall|u: u128| tally(cur, u) + #[trigger] occurrences(hy, u) <= u32::MAX by {
            assert(tally(start, u) + occurrences(hp + hy, u) <= u32::MAX);
        }
    }
}

/// The walk over `x + r` is unsound where the walk over `x` is, and sound
/// where the walk over `x` is sound and gives up.
proof fn lemma_walk_part(x: Seq<Option<Seq<i32>>>, r: Seq<Option<Seq<i32>>>, m: Map<u128, u128>, cur: Map<u128, u32>)
    ensures
        walk_ok(cur, x + r, m) ==> walk_ok(cur, x, m),
        walk_ok(cur, x, m) && !all_found(x) ==> walk_ok(cur, x + r, m),
{
    lemma_reached_concat(x, r);
    if all_found(x) {
        lemma_reached_found(x);
        let whole = x + reached(r);
        if walk_ok(cur, x + r, m) {
            assert forall|k: int| 0 <= k < x.len() implies (#[trigger] x[k] matches Some(a) ==> a.len() >= 4) by {
                assert(whole[k] == x[k]);
            }
            lemma_hits_concat(x, reached(r), m);
            assert forall|u: u128| tally(cur, u) + #[trigger] occurrences(hits(x, m), u) <= u32::MAX by {
                lemma_occurrences_concat(hits(x, m), hits(reached(r), m), u);
                assert(tally(cur, u) + occurrences(hits(whole, m), u) <= u32::MAX);
            }
        }
    }
}

proof fn lemma_wide_concat(p: Seq<Option<Seq<i32>>>, x: Seq<Option<Seq<i32>>>)
    requires
        wide(p),
        wide(x),
    ensures
        wide(p + x),
{
    assert forall|k: int| 0 <= k < (p + x).len() implies (#[trigger] (p + x)[k] matches Some(a) ==> a.len() >= 4) by {
        if k < p.len() {
            assert((p + x)[k] == p[k]);
        } else {
            assert((p + x)[k] == x[k - p.len()]);
        }
    }
}

proof fn lemma_empty_walk_ok(f: Map<u128, u32>, m: Map<u128, u128>)
    ensures
        walk_ok(f, Seq::empty(), m),
{
    let e = Seq::<Option<Seq<i32>>>::empty();
    assert(reached(e) =~= e);
    assert(hits(e, m) =~= Seq::<u128>::empty());
}

/// Counts that a walk took from `start` overflow nothing.
proof fn lemma_tallied_fits(start: Map<u128, u32>, cur: Map<u128, u32>, s: Seq<u128>)
    requires
        tallied(start, cur, s),
    ensures
        fits(start, s),
{
    assert forall|u: u128| tally(start, u) + #[trigger] occurrences(s, u) <= u32::MAX by {
        if cur.contains_key(u) {
            assert(cur[u] == tally(start, u) + occurrences(s, u));
        }
    }
}

/// After the walk has gone through a part with events `x`: the counts so far
/// are those of the events reached, and the walk goes on only if the part
/// gave up nowhere.
proof fn lemma_step_after(
    p: Seq<Option<Seq<i32>>>,
    x: Seq<Option<Seq<i32>>>,
    r: Seq<Option<Seq<i32>>>,
    m: Map<u128, u128>,
    start: Map<u128, u32>,
    cur: Map<u128, u32>,
    next: Map<u128, u32>,
)
    requires
        all_found(p),
        tallied(start, cur, hits(p, m)),
        tallied(cur, next, hits(reached(x), m)),
    ensures
        all_found(x) ==> all_found(p + x) && tallied(start, next, hits(p + x, m)),
        !all_found(x) ==> !all_found(p + x + r) && tallied(start, next, hits(reached(p + x + r), m)),
{
    lemma_tallied_trans(start, cur, next, hits(p, m), hits(reached(x), m));
    lemma_hits_concat(p, reached(x), m);
    if all_found(x) {
        lemma_reached_found(x);
        assert forall|k: int| 0 <= k < (p + x).len() implies (#[trigger] (p + x)[k]) is Some by {
            if k >= p.len() {
                assert((p + x)[k] == x[k - p.len()]);
            } else {
                assert((p + x)[k] == p[k]);
            }
        }
    } else {
        assert(p + x + r =~= p + (x + r));
        lemma_reached_concat(p, x + r);
        lemma_reached_concat(x, r);
        let k = choose|k: int| 0 <= k < x.len() && !((#[trigger] x[k]) is Some);
        assert((p + x + r)[p.len() + k] == x[k]);
    }
}

/// The name of a tag holding one player reference.
pub open spec fn is_ref_name(k: Seq<char>) -> bool {
    k == "Owner"@ || k == "last_hurt_by_player"@ || k == "AngryAt"@
}

/// The events of one element of a `Trusted` list.
pub open spec fn trusted_item() -> spec_fn(Tag) -> Seq<Option<Seq<i32>>> {
    |t: Tag| seq![ref_event(t)]
}

/// The events of a `Trusted` value: a list of references.
pub open spec fn trusted_events(t: Tag) -> Seq<Option<Seq<i32>>> {
    match t {
        Tag::List(xs) => joined(xs@, trusted_item()),
        _ => seq![None],
    }
}

/// The events of one entry of a gossip: its `Target` is a reference.
pub open spec fn gossip_entry() -> spec_fn((String, Tag)) -> Seq<Option<Seq<i32>>> {
    |e: (String, Tag)|
        if e.0@ == "Target"@ {
            seq![ref_event(e.1)]
        } else {
            Seq::empty()
        }
}

/// The events of one gossip: a compound.
pub open spec fn gossip_events(t: Tag) -> Seq<Option<Seq<i32>>> {
    match t {
        Tag::Compound(c) => joined(c.entries@, gossip_entry()),
        _ => seq![None],
    }
}

/// The events of one element of a `Gossips` list.
pub open spec fn gossip_item() -> spec_fn(Tag) -> Seq<Option<Seq<i32>>> {
    |t: Tag| gossip_events(t)
}

/// The events of a `Gossips` value: a list of gossips.
pub open spec fn gossips_events(t: Tag) -> Seq<Option<Seq<i32>>> {
    match t {
        Tag::List(gs) => joined(gs@, gossip_item()),
        _ => seq![None],
    }
}

/// The events of the entry named `k` with value `t` in an entity.
pub open spec fn entity_entry_events(k: Seq<char>, t: Tag) -> Seq<Option<Seq<i32>>> {
    if is_ref_name(k) {
        seq![ref_event(t)]
    } else if k == "Trusted"@ {
        trusted_events(t)
    } else if k == "Gossips"@ {
        gossips_events(t)
    } else {
        Seq::empty()
    }
}

/// The events of one entry of an entity.
pub open spec fn entity_entry() -> spec_fn((String, Tag)) -> Seq<Option<Seq<i32>>> {
    |e: (String, Tag)| entity_entry_events(e.0@, e.1)
}

/// The events of one entity: a compound.
pub open spec fn entity_events(t: Tag) -> Seq<Option<Seq<i32>>> {
    match t {
        Tag::Compound(c) => joined(c.entries@, entity_entry()),
        _ => seq![None],
    }
}

/// The events of one element of the `Entities` list.
pub open spec fn entity_item() -> spec_fn(Tag) -> Seq<Option<Seq<i32>>> {
    |t: Tag| entity_events(t)
}

/// The events of an `Entities` value: a list of entities.
pub open spec fn entities_events(t: Tag) -> Seq<Option<Seq<i32>>> {
    match t {
        Tag::List(items) => joined(items@, entity_item()),
        _ => seq![None],
    }
}

/// The events of one entry of the root compound.
pub open spec fn root_entry() -> spec_fn((String, Tag)) -> Seq<Option<Seq<i32>>> {
    |e: (String, Tag)|
        if e.0@ == "Entities"@ {
            entities_events(e.1)
        } else {
            Seq::empty()
        }
}

/// The reference events of a whole chunk, in visiting order.
pub open spec fn chunk_events(root: Compound) -> Seq<Option<Seq<i32>>> {
    joined(root.entries@, root_entry())
}

/// The words of a reference after the lookup: the partner's four words
/// when `m` holds the UUID of its first four words, else the words as they were.
pub open spec fn remap_ref_words(a: Seq<i32>, m: Map<u128, u128>) -> Seq<i32> {
    let v = ref_value(a);
    if m.contains_key(v) {
        seq![value_word(m[v], 0), value_word(m[v], 1), value_word(m[v], 2), value_word(m[v], 3)]
    } else {
        a
    }
}

/// `new` is the reference `old` after the lookup.
pub open spec fn ref_out(old: Tag, new: Tag, m: Map<u128, u128>) -> bool {
    old matches Tag::IntArray(a) && new matches Tag::IntArray(b) && b@ == remap_ref_words(a@, m)
}

/// `new` is the `Trusted` list `old` after the lookup.
pub open spec fn trusted_out(old: Tag, new: Tag, m: Map<u128, u128>) -> bool {
    old matches Tag::List(xs) && new matches Tag::List(ys) && ys@.len() == xs@.len() && forall|i: int|
        0 <= i < xs@.len() ==> ref_out(#[trigger] xs@[i], ys@[i], m)
}

/// `new` is the gossip `old` after the lookup of its `Target`.
pub open spec fn gossip_out(old: Tag, new: Tag, m: Map<u128, u128>) -> bool {
    old matches Tag::Compound(c) && new matches Tag::Compound(d) && d.entries@.len() == c.entries@.len()
        && forall|i: int|
        0 <= i < c.entries@.len() ==> (#[trigger] d.entries@[i]).0 == c.entries@[i].0 && if c.entries@[i].0@
            == "Target"@ {
            ref_out(c.entries@[i].1, d.entries@[i].1, m)
        } else {
            tag_copied(c.entries@[i].1, d.entries@[i].1)
        }
}

/// `new` is the `Gossips` list `old` after the lookup.
pub open spec fn gossips_out(old: Tag, new: Tag, m: Map<u128, u128>) -> bool {
    old matches Tag::List(xs) && new matches Tag::List(ys) && ys@.len() == xs@.len() && forall|i: int|
        0 <= i < xs@.len() ==> gossip_out(#[trigger] xs@[i], ys@[i], m)
}

/// `new` is the value `old` of the entity entry named `k` after the lookup.
pub open spec fn entity_value_out(k: Seq<char>, old: Tag, new: Tag, m: Map<u128, u128>) -> bool {
    if is_ref_name(k) {
        ref_out(old, new, m)
    } else if k == "Trusted"@ {
        trusted_out(old, new, m)
    } else if k == "Gossips"@ {
        gossips_out(old, new, m)
    } else {
        tag_copied(old, new)
    }
}

/// `new` is the entity `old` after the lookup.
pub open spec fn entity_out(old: Tag, new: Tag, m: Map<u128, u128>) -> bool {
    old matches Tag::Compound(c) && new matches Tag::Compound(d) && d.entries@.len() == c.entries@.len()
        && forall|i: int|
        0 <= i < c.entries@.len() ==> (#[trigger] d.entries@[i]).0 == c.entries@[i].0 && entity_value_out(
            c.entries@[i].0@,
            c.entries@[i].1,
            d.entries@[i].1,
            m,
        )
}

/// `new` is the `Entities` list `old` after the lookup.
pub open spec fn entities_out(old: Tag, new: Tag, m: Map<u128, u128>) -> bool {
    old matches Tag::List(xs) && new matches Tag::List(ys) && ys@.len() == xs@.len() && forall|i: int|
        0 <= i < xs@.len() ==> entity_out(#[trigger] xs@[i], ys@[i], m)
}

/// `new` is the root compound `old` of a chunk after the lookup: the same
/// names in the same order, the `Entities` rewritten, the rest copied.
pub open spec fn chunk_out(old: Compound, new: Compound, m: Map<u128, u128>) -> bool {
    &&& new.entries@.len() == old.entries@.len()
    &&& forall|i: int|
        0 <= i < old.entries@.len() ==> (#[trigger] new.entries@[i]).0 == old.entries@[i].0 && if old.entries@[i].0@
            == "Entities"@ {
            entities_out(old.entries@[i].1, new.entries@[i].1, m)
        } else {
            tag_copied(old.entries@[i].1, new.entries@[i].1)
        }
}

/// `name` is the text `key`.
fn named(name: &String, key: &str) -> (r: bool)
    ensures
        r == (name@ == key@),
{
    let k = key.to_owned();
    *name == k
}

/// What processing the root `root` came to: counts taken from `before` to
/// `after` by a sound walk, and the rewritten root when the walk went to the
/// end; or `Err` where the walk cannot go on.
pub open spec fn chunk_outcome(
    before: Map<u128, u32>,
    after: Map<u128, u32>,
    root: Compound,
    m: Map<u128, u128>,
    r: Result<Option<Compound>, ()>,
) -> bool {
    match r {
        Ok(o) => walked(before, after, chunk_events(root), m, o is Some) && (o matches Some(t) ==> chunk_out(root, t, m)),
        Err(_) => !walk_ok(before, chunk_events(root), m),
    }
}

/// Looks player UUIDs of entity chunks up in a one-way map, and counts how
/// often each one that the map holds was found.
pub struct ChunkProcesser {
    /// For each UUID of the map met so far, how many times it was met.
    pub find: HashMap<u128, u32>,
    /// Old UUID to new UUID.
    pub map: HashMap<u128, u128>,
}

impl ChunkProcesser {
    /// A processor with the counts `find` and the map `map`.
    pub fn new(find: HashMap<u128, u32>, map: HashMap<u128, u128>) -> (r: Self)
        ensures
            r.find@ == find@,
            r.map@ == map@,
    {
        ChunkProcesser { find, map }
    }

    /// The reference `tag` after the lookup; `None` if it is not an int
    /// array. `Err` where the walk cannot go on: a reference shorter than a
    /// UUID, or a count that would overflow.
    fn remap_ref(&mut self, tag: &Tag) -> (r: Result<Option<Tag>, ()>)
        ensures
            final(self).map == old(self).map,
            match r {
                Ok(o) => walked(old(self).find@, final(self).find@, seq![ref_event(*tag)], old(self).map@, o is Some) && (o matches Some(
                    t,
                ) ==> ref_out(*tag, t, old(self).map@)),
                Err(_) => !walk_ok(old(self).find@, seq![ref_event(*tag)], old(self).map@),
            },
    {
        let ghost e = seq![ref_event(*tag)];
        proof {
            assert(e.drop_first() =~= Seq::<Option<Seq<i32>>>::empty());
            assert(reached(e.drop_first()) =~= Seq::<Option<Seq<i32>>>::empty());
        }
        match tag {
            Tag::IntArray(a) => {
                proof {
                    assert(reached(e) =~= e);
                    assert(e.drop_last() =~= Seq::<Option<Seq<i32>>>::empty());
                    assert(e[0] == Some(a@));
                    assert(hits(e.drop_last(), self.map@) =~= Seq::<u128>::empty());
                }
                if a.len() < 4 {
                    assert(!wide(reached(e)));
                    return Err(());
                }
                let old_uuid = i32s_to_uuid4(a.as_slice());
                let ghost v = ref_value(a@);
                assert(old_uuid == v);
                match self.map.get(&old_uuid) {
                    Some(new_uuid) => {
                        let new_uuid = *new_uuid;
                        let ghost h = hits(e, self.map@);
                        proof {
                            assert(h =~= seq![v]);
                            assert(occurrences(seq![v].drop_last(), v) == 0);
                            assert(occurrences(h, v) == 1);
                            assert forall|u: u128| u != v implies occurrences(h, u) == 0 by {
                                assert(seq![v].drop_last() =~= Seq::<u128>::empty());
                                assert(occurrences(seq![v].drop_last(), u) == 0);
                            }
                        }
                        let count: u32 = match self.find.get(&old_uuid) {
                            Some(c) => *c,
                            None => 0,
                        };
                        assert(count == tally(self.find@, v));
                        if count == u32::MAX {
                            assert(!fits(self.find@, h));
                            return Err(());
                        }
                        self.find.insert(old_uuid, count + 1);
                        let w = uuid4_to_i32s(new_uuid);
                        let mut out: Vec<i32> = Vec::new();
                        out.push(w[0]);
                        out.push(w[1]);
                        out.push(w[2]);
                        out.push(w[3]);
                        assert(out@ =~= remap_ref_words(a@, self.map@));
                        Ok(Some(Tag::IntArray(out)))
                    },
                    None => {
                        proof {
                            assert(hits(e, self.map@) =~= Seq::<u128>::empty());
                        }
                        Ok(Some(Tag::IntArray(copy_vec(a))))
                    },
                }
            },
            _ => {
                proof {
                    assert(reached(e) =~= Seq::<Option<Seq<i32>>>::empty());
                    assert(hits(Seq::<Option<Seq<i32>>>::empty(), self.map@) =~= Seq::<u128>::empty());
                    assert(!(e[0] is Some));
                }
                Ok(None)
            },
        }
    }

    /// The `Trusted` value `tag` after the lookup; `None` if it is not a list of int arrays.
    fn remap_trusted(&mut self, tag: &Tag) -> (r: Result<Option<Tag>, ()>)
        ensures
            final(self).map == old(self).map,
            match r {
                Ok(o) => walked(old(self).find@, final(self).find@, trusted_events(*tag), old(self).map@, o is Some) && (o matches Some(
                    t,
                ) ==> trusted_out(*tag, t, old(self).map@)),
                Err(_) => !walk_ok(old(self).find@, trusted_events(*tag), old(self).map@),
            },
    {
        let ghost m = self.map@;
        let ghost start = self.find@;
        let ghost f = trusted_item();
        match tag {
            Tag::List(xs) => {
                let mut out: Vec<Tag> = Vec::new();
                let mut i: usize = 0;
                proof {
                    assert(xs@.take(0) =~= Seq::<Tag>::empty());
                    lemma_tallied_empty(start, m);
                    assert(reached(Seq::<Option<Seq<i32>>>::empty()) =~= Seq::<Option<Seq<i32>>>::empty());
                }
                while i < xs.len()
                    invariant
                        *tag == Tag::List(*xs),
                        i <= xs@.len(),
                        out@.len() == i,
                        self.map == old(self).map,
                        m == old(self).map@,
                        start == old(self).find@,
                        f == trusted_item(),
                        all_found(joined(xs@.take(i as int), f)),
                        wide(joined(xs@.take(i as int), f)),
                        tallied(start, self.find@, hits(joined(xs@.take(i as int), f), m)),
                        forall|j: int| 0 <= j < i ==> ref_out(#[trigger] xs@[j], out@[j], m),
                    decreases xs@.len() - i,
                {
                    let ghost p = joined(xs@.take(i as int), f);
                    let ghost x = f(xs@[i as int]);
                    let ghost rest = joined(xs@.skip(i as int + 1), f);
                    let ghost cur = self.find@;
                    proof {
                        lemma_joined_split(xs@, f, i as int);
                        assert(p + x + rest == p + (x + rest));
                        lemma_walk_after_prefix(p, x + rest, m, start, cur);
                        lemma_walk_part(x, rest, m, cur);
                    }
                    let t = self.remap_ref(&xs[i]);
                    match t {
                        Ok(Some(t)) => {
                            proof {
                                lemma_step_after(p, x, rest, m, start, cur, self.find@);
                                lemma_reached_found(x);
                                lemma_wide_concat(p, x);
                            }
                            out.push(t);
                        },
                        Ok(None) => {
                            proof {
                                lemma_step_after(p, x, rest, m, start, cur, self.find@);
                            }
                            return Ok(None);
                        },
                        Err(e) => return Err(e),
                    }
                    i = i + 1;
                }
                proof {
                    lemma_joined_all(xs@, f);
                    lemma_reached_found(joined(xs@, f));
                    lemma_tallied_fits(start, self.find@, hits(joined(xs@, f), m));
                }
                Ok(Some(Tag::List(out)))
            },
            _ => {
                proof {
                    lemma_gives_up(start, m);
                }
                Ok(None)
            },
        }
    }

    /// The gossip `tag` after the lookup of its `Target`; `None` if it is not a compound or its `Target` is not an int array.
    fn remap_gossip(&mut self, tag: &Tag) -> (r: Result<Option<Tag>, ()>)
        ensures
            final(self).map == old(self).map,
            match r {
                Ok(o) => walked(old(self).find@, final(self).find@, gossip_events(*tag), old(self).map@, o is Some) && (o matches Some(
                    t,
                ) ==> gossip_out(*tag, t, old(self).map@)),
                Err(_) => !walk_ok(old(self).find@, gossip_events(*tag), old(self).map@),
            },
    {
        let ghost m = self.map@;
        let ghost start = self.find@;
        let ghost f = gossip_entry();
        match tag {
            Tag::Compound(c) => {
                let es = &c.entries;
                let mut out: Vec<(String, Tag)> = Vec::new();
                let mut i: usize = 0;
                proof {
                    assert(es@.take(0) =~= Seq::<(String, Tag)>::empty());
                    lemma_tallied_empty(start, m);
                    assert(reached(Seq::<Option<Seq<i32>>>::empty()) =~= Seq::<Option<Seq<i32>>>::empty());
                }
                while i < es.len()
                    invariant
                        *tag == Tag::Compound(*c),
                        es == &c.entries,
                        i <= es@.len(),
                        out@.len() == i,
                        self.map == old(self).map,
                        m == old(self).map@,
                        start == old(self).find@,
                        f == gossip_entry(),
                        all_found(joined(es@.take(i as int), f)),
                        wide(joined(es@.take(i as int), f)),
                        tallied(start, self.find@, hits(joined(es@.take(i as int), f), m)),
                        forall|j: int|
                            0 <= j < i ==> (#[trigger] out@[j]).0 == es@[j].0 && if es@[j].0@ == "Target"@ {
                                ref_out(es@[j].1, out@[j].1, m)
                            } else {
                                tag_copied(es@[j].1, out@[j].1)
                            },
                    decreases es@.len() - i,
                {
                    let ghost p = joined(es@.take(i as int), f);
                    let ghost x = f(es@[i as int]);
                    let ghost rest = joined(es@.skip(i as int + 1), f);
                    let ghost cur = self.find@;
                    proof {
                        lemma_joined_split(es@, f, i as int);
                        assert(p + x + rest == p + (x + rest));
                        lemma_walk_after_prefix(p, x + rest, m, start, cur);
                        lemma_walk_part(x, rest, m, cur);
                    }
                    let t = if named(&es[i].0, "Target") {
                        self.remap_ref(&es[i].1)
                    } else {
                        proof {
                            lemma_tallied_empty(cur, m);
                            lemma_empty_walk_ok(cur, m);
                        }
                        Ok(Some(copy_tag(&es[i].1)))
                    };
                    match t {
                        Ok(Some(t)) => {
                            proof {
                                lemma_step_after(p, x, rest, m, start, cur, self.find@);
                                lemma_reached_found(x);
                                lemma_wide_concat(p, x);
                            }
                            out.push((es[i].0.clone(), t));
                        },
                        Ok(None) => {
                            proof {
                                lemma_step_after(p, x, rest, m, start, cur, self.find@);
                            }
                            return Ok(None);
                        },
                        Err(e) => return Err(e),
                    }
                    i = i + 1;
                }
                proof {
                    lemma_joined_all(es@, f);
                    lemma_reached_found(joined(es@, f));
                    lemma_tallied_fits(start, self.find@, hits(joined(es@, f), m));
                }
                Ok(Some(Tag::Compound(Compound { entries: out })))
            },
            _ => {
                proof {
                    lemma_gives_up(start, m);
                }
                Ok(None)
            },
        }
    }

    /// The `Gossips` value `tag` after the lookup; `None` if it is not a list of well-formed gossips.
    fn remap_gossips(&mut self, tag: &Tag) -> (r: Result<Option<Tag>, ()>)
        ensures
            final(self).map == old(self).map,
            match r {
                Ok(o) => walked(old(self).find@, final(self).find@, gossips_events(*tag), old(self).map@, o is Some) && (o matches Some(
                    t,
                ) ==> gossips_out(*tag, t, old(self).map@)),
                Err(_) => !walk_ok(old(self).find@, gossips_events(*tag), old(self).map@),
            },
    {
        let ghost m = self.map@;
        let ghost start = self.find@;
        let ghost f = gossip_item();
        match tag {
            Tag::List(xs) => {
                let mut out: Vec<Tag> = Vec::new();
                let mut i: usize = 0;
                proof {
                    assert(xs@.take(0) =~= Seq::<Tag>::empty());
                    lemma_tallied_empty(start, m);
                    assert(reached(Seq::<Option<Seq<i32>>>::empty()) =~= Seq::<Option<Seq<i32>>>::empty());
                }
                while i < xs.len()
                    invariant
                        *tag == Tag::List(*xs),
                        i <= xs@.len(),
                        out@.len() == i,
                        self.map == old(self).map,
                        m == old(self).map@,
                        start == old(self).find@,
                        f == gossip_item(),
                        all_found(joined(xs@.take(i as int), f)),
                        wide(joined(xs@.take(i as int), f)),
                        tallied(start, self.find@, hits(joined(xs@.take(i as int), f), m)),
                        forall|j: int| 0 <= j < i ==> gossip_out(#[trigger] xs@[j], out@[j], m),
                    decreases xs@.len() - i,
                {
                    let ghost p = joined(xs@.take(i as int), f);
                    let ghost x = f(xs@[i as int]);
                    let ghost rest = joined(xs@.skip(i as int + 1), f);
                    let ghost cur = self.find@;
                    proof {
                        lemma_joined_split(xs@, f, i as int);
                        assert(p + x + rest == p + (x + rest));
                        lemma_walk_after_prefix(p, x + rest, m, start, cur);
                        lemma_walk_part(x, rest, m, cur);
                    }
                    let t = self.remap_gossip(&xs[i]);
                    match t {
                        Ok(Some(t)) => {
                            proof {
                                lemma_step_after(p, x, rest, m, start, cur, self.find@);
                                lemma_reached_found(x);
                                lemma_wide_concat(p, x);
                            }
                            out.push(t);
                        },
                        Ok(None) => {
                            proof {
                                lemma_step_after(p, x, rest, m, start, cur, self.find@);
                            }
                            return Ok(None);
                        },
                        Err(e) => return Err(e),
                    }
                    i = i + 1;
                }
                proof {
                    lemma_joined_all(xs@, f);
                    lemma_reached_found(joined(xs@, f));
                    lemma_tallied_fits(start, self.find@, hits(joined(xs@, f), m));
                }
                Ok(Some(Tag::List(out)))
            },
            _ => {
                proof {
                    lemma_gives_up(start, m);
                }
                Ok(None)
            },
        }
    }

    /// The value `tag` of the entity entry named `name` after the lookup.
    fn entity_value(&mut self, name: &String, tag: &Tag) -> (r: Result<Option<Tag>, ()>)
        ensures
            final(self).map == old(self).map,
            match r {
                Ok(o) => walked(old(self).find@, final(self).find@, entity_entry_events(name@, *tag), old(self).map@, o is Some) && (o matches Some(
                    t,
                ) ==> entity_value_out(name@, *tag, t, old(self).map@)),
                Err(_) => !walk_ok(old(self).find@, entity_entry_events(name@, *tag), old(self).map@),
            },
    {
        if named(name, "Owner") || named(name, "last_hurt_by_player") || named(name, "AngryAt") {
            self.remap_ref(tag)
        } else if named(name, "Trusted") {
            self.remap_trusted(tag)
        } else if named(name, "Gossips") {
            self.remap_gossips(tag)
        } else {
            proof {
                lemma_tallied_empty(self.find@, self.map@);
                lemma_empty_walk_ok(self.find@, self.map@);
            }
            Ok(Some(copy_tag(tag)))
        }
    }

    /// The entity `tag` after the lookup; `None` if it is not a compound or one of its references is malformed.
    fn remap_entity(&mut self, tag: &Tag) -> (r: Result<Option<Tag>, ()>)
        ensures
            final(self).map == old(self).map,
            match r {
                Ok(o) => walked(old(self).find@, final(self).find@, entity_events(*tag), old(self).map@, o is Some) && (o matches Some(
                    t,
                ) ==> entity_out(*tag, t, old(self).map@)),
                Err(_) => !walk_ok(old(self).find@, entity_events(*tag), old(self).map@),
            },
    {
        let ghost m = self.map@;
        let ghost start = self.find@;
        let ghost f = entity_entry();
        match tag {
            Tag::Compound(c) => {
                let es = &c.entries;
                let mut out: Vec<(String, Tag)> = Vec::new();
                let mut i: usize = 0;
                proof {
                    assert(es@.take(0) =~= Seq::<(String, Tag)>::empty());
                    lemma_tallied_empty(start, m);
                    assert(reached(Seq::<Option<Seq<i32>>>::empty()) =~= Seq::<Option<Seq<i32>>>::empty());
                }
                while i < es.len()
                    invariant
                        *tag == Tag::Compound(*c),
                        es == &c.entries,
                        i <= es@.len(),
                        out@.len() == i,
                        self.map == old(self).map,
                        m == old(self).map@,
                        start == old(self).find@,
                        f == entity_entry(),
                        all_found(joined(es@.take(i as int), f)),
                        wide(joined(es@.take(i as int), f)),
                        tallied(start, self.find@, hits(joined(es@.take(i as int), f), m)),
                        forall|j: int|
                            0 <= j < i ==> (#[trigger] out@[j]).0 == es@[j].0 && entity_value_out(es@[j].0@, es@[j].1, out@[j].1, m),
                    decreases es@.len() - i,
                {
                    let ghost p = joined(es@.take(i as int), f);
                    let ghost x = f(es@[i as int]);
                    let ghost rest = joined(es@.skip(i as int + 1), f);
                    let ghost cur = self.find@;
                    proof {
                        lemma_joined_split(es@, f, i as int);
                        assert(p + x + rest == p + (x + rest));
                        lemma_walk_after_prefix(p, x + rest, m, start, cur);
                        lemma_walk_part(x, rest, m, cur);
                    }
                    let t = self.entity_value(&es[i].0, &es[i].1);
                    match t {
                        Ok(Some(t)) => {
                            proof {
                                lemma_step_after(p, x, rest, m, start, cur, self.find@);
                                lemma_reached_found(x);
                                lemma_wide_concat(p, x);
                            }
                            out.push((es[i].0.clone(), t));
                        },
                        Ok(None) => {
                            proof {
                                lemma_step_after(p, x, rest, m, start, cur, self.find@);
                            }
                            return Ok(None);
                        },
                        Err(e) => return Err(e),
                    }
                    i = i + 1;
                }
                proof {
                    lemma_joined_all(es@, f);
                    lemma_reached_found(joined(es@, f));
                    lemma_tallied_fits(start, self.find@, hits(joined(es@, f), m));
                }
                Ok(Some(Tag::Compound(Compound { entries: out })))
            },
            _ => {
                proof {
                    lemma_gives_up(start, m);
                }
                Ok(None)
            },
        }
    }

    /// The `Entities` value `tag` after the lookup; `None` if it is not a list of well-formed entities.
    fn remap_entities(&mut self, tag: &Tag) -> (r: Result<Option<Tag>, ()>)
        ensures
            final(self).map == old(self).map,
            match r {
                Ok(o) => walked(old(self).find@, final(self).find@, entities_events(*tag), old(self).map@, o is Some) && (o matches Some(
                    t,
                ) ==> entities_out(*tag, t, old(self).map@)),
                Err(_) => !walk_ok(old(self).find@, entities_events(*tag), old(self).map@),
            },
    {
        let ghost m = self.map@;
        let ghost start = self.find@;
        let ghost f = entity_item();
        match tag {
            Tag::List(xs) => {
                let mut out: Vec<Tag> = Vec::new();
                let mut i: usize = 0;
                proof {
                    assert(xs@.take(0) =~= Seq::<Tag>::empty());
                    lemma_tallied_empty(start, m);
                    assert(reached(Seq::<Option<Seq<i32>>>::empty()) =~= Seq::<Option<Seq<i32>>>::empty());
                }
                while i < xs.len()
                    invariant
                        *tag == Tag::List(*xs),
                        i <= xs@.len(),
                        out@.len() == i,
                        self.map == old(self).map,
                        m == old(self).map@,
                        start == old(self).find@,
                        f == entity_item(),
                        all_found(joined(xs@.take(i as int), f)),
                        wide(joined(xs@.take(i as int), f)),
                        tallied(start, self.find@, hits(joined(xs@.take(i as int), f), m)),
                        forall|j: int| 0 <= j < i ==> entity_out(#[trigger] xs@[j], out@[j], m),
                    decreases xs@.len() - i,
                {
                    let ghost p = joined(xs@.take(i as int), f);
                    let ghost x = f(xs@[i as int]);
                    let ghost rest = joined(xs@.skip(i as int + 1), f);
                    let ghost cur = self.find@;
                    proof {
                        lemma_joined_split(xs@, f, i as int);
                        assert(p + x + rest == p + (x + rest));
                        lemma_walk_after_prefix(p, x + rest, m, start, cur);
                        lemma_walk_part(x, rest, m, cur);
                    }
                    let t = self.remap_entity(&xs[i]);
                    match t {
                        Ok(Some(t)) => {
                            proof {
                                lemma_step_after(p, x, rest, m, start, cur, self.find@);
                                lemma_reached_found(x);
                                lemma_wide_concat(p, x);
                            }
                            out.push(t);
                        },
                        Ok(None) => {
                            proof {
                                lemma_step_after(p, x, rest, m, start, cur, self.find@);
                            }
                            return Ok(None);
                        },
                        Err(e) => return Err(e),
                    }
                    i = i + 1;
                }
                proof {
                    lemma_joined_all(xs@, f);
                    lemma_reached_found(joined(xs@, f));
                    lemma_tallied_fits(start, self.find@, hits(joined(xs@, f), m));
                }
                Ok(Some(Tag::List(out)))
            },
            _ => {
                proof {
                    lemma_gives_up(start, m);
                }
                Ok(None)
            },
        }
    }

    /// The root compound of a chunk after the lookup of every player
    /// reference of its entities. `Ok(None)` where the walk meets a tag of
    /// the wrong kind (an `Entities` that is not a list of compounds, a
    /// reference that is not an int array, ...); the references met before
    /// stay counted. `Err` where the walk cannot go on at all (and `process`
    /// is not to be called): a reference shorter than a UUID, or a count
    /// past `u32::MAX`, met before any such tag.
    pub fn process_checked(&mut self, root: &Compound) -> (r: Result<Option<Compound>, ()>)
        ensures
            final(self).map == old(self).map,
            match r {
                Ok(o) => walked(old(self).find@, final(self).find@, chunk_events(*root), old(self).map@, o is Some) && (o matches Some(
                    t,
                ) ==> chunk_out(*root, t, old(self).map@)),
                Err(_) => !walk_ok(old(self).find@, chunk_events(*root), old(self).map@),
            },
    {
        let ghost m = self.map@;
        let ghost start = self.find@;
        let ghost f = root_entry();
        let es = &root.entries;
        let mut out: Vec<(String, Tag)> = Vec::new();
        let mut i: usize = 0;
        proof {
            assert(es@.take(0) =~= Seq::<(String, Tag)>::empty());
            lemma_tallied_empty(start, m);
            assert(reached(Seq::<Option<Seq<i32>>>::empty()) =~= Seq::<Option<Seq<i32>>>::empty());
        }
        while i < es.len()
            invariant
                es == &root.entries,
                i <= es@.len(),
                out@.len() == i,
                self.map == old(self).map,
                m == old(self).map@,
                start == old(self).find@,
                f == root_entry(),
                all_found(joined(es@.take(i as int), f)),
                wide(joined(es@.take(i as int), f)),
                tallied(start, self.find@, hits(joined(es@.take(i as int), f), m)),
                forall|j: int|
                    0 <= j < i ==> (#[trigger] out@[j]).0 == es@[j].0 && if es@[j].0@ == "Entities"@ {
                        entities_out(es@[j].1, out@[j].1, m)
                    } else {
                        tag_copied(es@[j].1, out@[j].1)
                    },
            decreases es@.len() - i,
        {
            let ghost p = joined(es@.take(i as int), f);
            let ghost x = f(es@[i as int]);
            let ghost rest = joined(es@.skip(i as int + 1), f);
            let ghost cur = self.find@;
            proof {
                lemma_joined_split(es@, f, i as int);
                assert(p + x + rest == p + (x + rest));
                lemma_walk_after_prefix(p, x + rest, m, start, cur);
                lemma_walk_part(x, rest, m, cur);
            }
            let t = if named(&es[i].0, "Entities") {
        self.remap_entities(&es[i].1)
    } else {
        proof {
            lemma_tallied_empty(cur, m);
            lemma_empty_walk_ok(cur, m);
        }
        Ok(Some(copy_tag(&es[i].1)))
    };
            match t {
                Ok(Some(t)) => {
                    proof {
                        lemma_step_after(p, x, rest, m, start, cur, self.find@);
                        lemma_reached_found(x);
                        lemma_wide_concat(p, x);
                    }
                    out.push((es[i].0.clone(), t));
                },
                Ok(None) => {
                    proof {
                        lemma_step_after(p, x, rest, m, start, cur, self.find@);
                    }
                    return Ok(None);
                },
                Err(e) => return Err(e),
            }
            i = i + 1;
        }
        proof {
            lemma_joined_all(es@, f);
            lemma_reached_found(joined(es@, f));
            lemma_tallied_fits(start, self.find@, hits(joined(es@, f), m));
        }
        Ok(Some(Compound { entries: out }))
    }

    /// The uncompressed NBT `data` of an entity chunk, read and then
    /// processed as `process_checked` does. `None`, with the counts
    /// untouched, when the bytes hold no NBT tree.
    pub fn process_chunk_bytes(&mut self, data: &[u8]) -> (r: Option<Result<Option<Compound>, ()>>)
        ensures
            final(self).map == old(self).map,
            r is Some <==> binary_tree(data@) is Some,
            r is None ==> final(self).find@ == old(self).find@,
            r matches Some(o) ==> (binary_tree(data@) matches Some((root, _))
                && chunk_outcome(old(self).find@, final(self).find@, root, old(self).map@, o)),
    {
        match read_binary_nbt(data) {
            Some((root, _)) => {
                let o = self.process_checked(&root);
                Some(o)
            },
            None => None,
        }
    }

    /// The root compound of a chunk after the lookup of every player
    /// reference of its entities; `None` where the walk meets a tag of the
    /// wrong kind (the references met before stay counted).
    pub fn process(&mut self, root: &Compound) -> (r: Option<Compound>)
        requires
            walk_ok(old(self).find@, chunk_events(*root), old(self).map@),
        ensures
            final(self).map == old(self).map,
            tallied(old(self).find@, final(self).find@, hits(reached(chunk_events(*root)), old(self).map@)),
            r is Some <==> all_found(chunk_events(*root)),
            r matches Some(new) ==> chunk_out(*root, new, old(self).map@),
    {
        match self.process_checked(root) {
            Ok(o) => o,
            Err(_) => None,
        }
    }
}

} // verus!
