//! `SymBiMap`: a flat, symmetric pairing of elements. Every element stands
//! in at most one pair, and `a -> b` holds exactly when `b -> a` holds.
use std::collections::{HashMap, HashSet};
use std::hash::Hash;
use vstd::prelude::*;
use vstd::std_specs::hash::obeys_key_model;

verus! {

broadcast use vstd::std_specs::hash::group_hash_axioms;

/// `m` pairs elements symmetrically: each element maps to a different
/// element, which maps back to it.
pub open spec fn is_pairing<T>(m: Map<T, T>) -> bool {
    &&& m.dom().finite()
    &&& forall|a: T|
        #[trigger] m.contains_key(a) ==> m[a] != a && m.contains_key(m[a]) && m[m[a]] == a
}

/// `T`'s `Hash`, `Eq` and `==` behave as on plain values, so that a hash
/// table keyed by `T` acts as a mathematical map.
pub open spec fn plain_key<T: PartialEq>() -> bool {
    &&& obeys_key_model::<T>()
    &&& vstd::laws_eq::obeys_concrete_eq::<T>()
}

/// `T`'s `clone` gives back a value equal to the one cloned.
pub open spec fn faithful_clone<T: Clone>() -> bool {
    forall|a: T, b: T| #[trigger] call_ensures(T::clone, (&a,), b) ==> a == b
}

/// Why an insertion was refused.
#[derive(Debug, PartialEq, Eq)]
pub enum InsertError<T> {
    /// `a` or `b` already stands in a pair.
    Duplicate(T),
    /// `a == b`.
    SelfPair(T),
}

/// The message with which a stored table that breaks the pairing is
/// refused.
pub fn insert_error_message<T>(e: &InsertError<T>) -> (r: &'static str)
    ensures
        e is SelfPair ==> r@ == "invalid pair: a key maps to itself"@,
        e is Duplicate ==> r@ == "invalid pair: an element appears more than once"@,
{
    match e {
        InsertError::SelfPair(_) => "invalid pair: a key maps to itself",
        InsertError::Duplicate(_) => "invalid pair: an element appears more than once",
    }
}

/// What inserting the pair `(a, b)` into the pairing `m` answers.
pub open spec fn insert_outcome<T>(m: Map<T, T>, a: T, b: T) -> Result<(), InsertError<T>> {
    if a == b {
        Err(InsertError::SelfPair(a))
    } else if m.contains_key(a) {
        Err(InsertError::Duplicate(a))
    } else if m.contains_key(b) {
        Err(InsertError::Duplicate(b))
    } else {
        Ok(())
    }
}

/// `ps` lists the pairs of `m` once each: every listed pair is an entry of
/// `m`, every element of `m` stands in a listed pair, and no two listed
/// pairs share an element.
pub open spec fn lists_each_pair_once<T>(m: Map<T, T>, ps: Seq<(T, T)>) -> bool {
    &&& forall|i: int| 0 <= i < ps.len() ==> #[trigger] m.contains_key(ps[i].0) && m[ps[i].0] == ps[i].1
    &&& forall|k: T| #[trigger] m.contains_key(k) ==> exists|i: int| 0 <= i < ps.len() && (ps[i].0 == k || ps[i].1 == k)
    &&& forall|i: int, j: int|
        0 <= i < ps.len() && 0 <= j < ps.len() && i != j ==> #[trigger] ps[i].0 != #[trigger] ps[j].0
            && ps[i].0 != ps[j].1 && ps[i].1 != ps[j].0 && ps[i].1 != ps[j].1
}

/// The elements that stand in the first `n` pairs of `ps`.
pub open spec fn covered<T>(ps: Seq<(T, T)>, x: T) -> bool {
    exists|i: int| 0 <= i < ps.len() && (ps[i].0 == x || ps[i].1 == x)
}

/// The result of inserting the pairs `ps` one after another into an empty
/// map, stopping at the first refusal.
pub open spec fn fold_pairs<T>(ps: Seq<(T, T)>) -> Result<Map<T, T>, InsertError<T>>
    decreases ps.len(),
{
    if ps.len() == 0 {
        Ok(Map::empty())
    } else {
        match fold_pairs(ps.drop_last()) {
            Err(e) => Err(e),
            Ok(m) => {
                let (a, b) = ps.last();
                match insert_outcome(m, a, b) {
                    Ok(()) => Ok(m.insert(a, b).insert(b, a)),
                    Err(e) => Err(e),
                }
            },
        }
    }
}

/// A flat bidirectional map. Each stored pair `(a, b)` is kept as the two
/// entries `a -> b` and `b -> a`.
#[derive(Debug, Default, Clone)]
pub struct SymBiMap<T> {
    map: HashMap<T, T>,
}

impl<T> View for SymBiMap<T> {
    type V = Map<T, T>;

    closed spec fn view(&self) -> Map<T, T> {
        self.map@
    }
}

impl<T> SymBiMap<T> {
    /// The map is a symmetric pairing.
    pub open spec fn wf(&self) -> bool {
        is_pairing(self@)
    }

    /// The number of pairs.
    pub open spec fn pair_count(&self) -> nat {
        self@.dom().len() / 2
    }
}

impl<T: Eq + Hash> SymBiMap<T> {
    /// An empty map.
    pub fn new() -> (r: Self)
        ensures
            r.wf(),
            r@ == Map::<T, T>::empty(),
    {
        SymBiMap { map: HashMap::new() }
    }

    /// The partner of `key`, if it stands in a pair. Symmetric: the partner's
    /// partner is `key`.
    pub fn get(&self, key: &T) -> (r: Option<&T>)
        requires
            obeys_key_model::<T>(),
        ensures
            match r {
                Some(p) => self@.contains_key(*key) && *p == self@[*key],
                None => !self@.contains_key(*key),
            },
    {
        self.map.get(key)
    }

    /// Whether `key` stands in some pair.
    pub fn contains(&self, key: &T) -> (r: bool)
        requires
            obeys_key_model::<T>(),
        ensures
            r == self@.contains_key(*key),
    {
        self.map.contains_key(key)
    }

    /// Removes the whole pair that `key` stands in, from either end, and
    /// returns `(key, partner)`.
    pub fn remove(&mut self, key: &T) -> (r: Option<(T, T)>)
        requires
            old(self).wf(),
            obeys_key_model::<T>(),
        ensures
            final(self).wf(),
            match r {
                Some((this, partner)) => {
                    &&& old(self)@.contains_key(*key)
                    &&& this == *key
                    &&& partner == old(self)@[*key]
                    &&& final(self)@ == old(self)@.remove(this).remove(partner)
                },
                None => !old(self)@.contains_key(*key) && final(self)@ == old(self)@,
            },
    {
        let ghost m0 = self@;
        match self.map.remove(key) {
            None => None,
            Some(partner) => {
                assert(m0[*key] == partner);
                match self.map.remove(&partner) {
                    Some(this) => {
                        assert(self@ =~= m0.remove(this).remove(partner));
                        assert forall|a: T| #[trigger] self@.contains_key(a) implies self@[a] != a
                            && self@.contains_key(self@[a]) && self@[self@[a]] == a by {
                            assert(m0.contains_key(a));
                            assert(m0[a] != this && m0[a] != partner);
                        }
                        Some((this, partner))
                    },
                    None => {
                        assert(false);
                        None
                    },
                }
            },
        }
    }

    /// The number of pairs.
    pub fn len(&self) -> (r: usize)
        requires
            obeys_key_model::<T>(),
        ensures
            r == self.pair_count(),
    {
        self.map.len() / 2
    }

    /// Whether no pair is stored.
    pub fn is_empty(&self) -> (r: bool)
        requires
            obeys_key_model::<T>(),
        ensures
            r == (self@.dom().len() == 0),
    {
        self.map.is_empty()
    }
}

impl<T: Eq + Hash + Copy> SymBiMap<T> {
    /// Every stored entry, in both directions: `(a, b)` and `(b, a)` for each
    /// pair, in the order in which the table is walked.
    pub fn entries(&self) -> (r: Vec<(T, T)>)
        requires
            obeys_key_model::<T>(),
        ensures
            r@.len() == self@.dom().len(),
            forall|i: int|
                0 <= i < r@.len() ==> #[trigger] self@.contains_key(r@[i].0) && self@[r@[i].0]
                    == r@[i].1,
            forall|k: T| #[trigger] self@.contains_key(k) ==> r@.contains((k, self@[k])),
    {
        let mut out: Vec<(T, T)> = Vec::new();
        for item in it: self.map.iter()
            invariant
                out@.len() == it.index(),
                it.seq().len() == self@.dom().len(),
                forall|i: int|
                    0 <= i < it.seq().len() ==> #[trigger] self@.contains_key(*it.seq()[i].0)
                        && self@[*it.seq()[i].0] == *it.seq()[i].1,
                forall|i: int|
                    0 <= i < out@.len() ==> out@[i] == (*it.seq()[i].0, *it.seq()[i].1),
                forall|k: T|
                    #[trigger] self@.contains_key(k) ==> out@.contains((k, self@[k])) || exists|j: int|
                        out@.len() <= j < it.seq().len() && it.seq()[j] == (&k, &self@[k]),
        {
            assert(item == it.seq()[out@.len() as int]);
            let ghost before = out@;
            let (k, v) = item;
            out.push((*k, *v));
            proof {
                assert forall|kk: T| #[trigger] self@.contains_key(kk) implies out@.contains((kk, self@[kk]))
                    || exists|j: int| out@.len() <= j < it.seq().len() && it.seq()[j] == (&kk, &self@[kk]) by {
                    if before.contains((kk, self@[kk])) {
                        let i = choose|i: int| 0 <= i < before.len() && before[i] == (kk, self@[kk]);
                        assert(out@[i] == (kk, self@[kk]));
                    } else {
                        let j = choose|j: int| before.len() <= j < it.seq().len() && it.seq()[j] == (&kk, &self@[kk]);
                        if j == before.len() {
                            assert(out@[j] == (kk, self@[kk]));
                        }
                    }
                }
            }
        }
        assert forall|i: int| 0 <= i < out@.len() implies #[trigger] self@.contains_key(out@[i].0)
            && self@[out@[i].0] == out@[i].1 by {
        }
        out
    }

    /// Each pair once, as one of its two entries (which one depends on the
    /// order in which the table is walked).
    pub fn pairs(&self) -> (r: Vec<(T, T)>)
        requires
            self.wf(),
            obeys_key_model::<T>(),
        ensures
            r@.len() == self.pair_count(),
            lists_each_pair_once(self@, r@),
    {
        let ghost m = self@;
        let entries = self.entries();
        assert(entries@.len() == m.dom().len());
        assert(entries@.len() > 0 ==> m.contains_key(entries@[0].0));
        let mut seen: HashSet<T> = HashSet::new();
        let mut out: Vec<(T, T)> = Vec::new();
        let mut idx: usize = 0;
        while idx < entries.len()
            invariant
                is_pairing(m),
                m == self@,
                obeys_key_model::<T>(),
                idx <= entries@.len(),
                entries@.len() == m.dom().len(),
                forall|i: int| 0 <= i < entries@.len() ==> #[trigger] m.contains_key(entries@[i].0)
                    && m[entries@[i].0] == entries@[i].1,
                forall|k: T| #[trigger] m.contains_key(k) ==> entries@.contains((k, m[k])),
                seen@.finite(),
                seen@.len() == 2 * out@.len(),
                forall|x: T| #[trigger] seen@.contains(x) <==> covered(out@, x),
                forall|i: int| 0 <= i < out@.len() ==> #[trigger] m.contains_key(out@[i].0) && m[out@[i].0] == out@[i].1,
                forall|i: int, j: int|
                    0 <= i < out@.len() && 0 <= j < out@.len() && i != j ==> #[trigger] out@[i].0 != #[trigger] out@[j].0
                        && out@[i].0 != out@[j].1 && out@[i].1 != out@[j].0 && out@[i].1 != out@[j].1,
                forall|e: int| 0 <= e < idx ==> #[trigger] seen@.contains(entries@[e].0),
            decreases entries@.len() - idx,
        {
            let (k, v) = entries[idx];
            assert(m.contains_key(entries@[idx as int].0));
            assert(m.contains_key(k) && m[k] == v && m.contains_key(v) && m[v] == k);
            let ghost out0 = out@;
            let ghost seen0 = seen@;
            if seen.contains(&k) || seen.contains(&v) {
                proof {
                    if !seen0.contains(k) {
                        assert(covered(out0, v));
                        let i = choose|i: int| 0 <= i < out0.len() && (out0[i].0 == v || out0[i].1 == v);
                        assert(m[v] == k);
                        if out0[i].0 == v {
                            assert(out0[i].1 == k);
                        } else {
                            assert(m.contains_key(out0[i].0));
                            assert(m[out0[i].1] == out0[i].0);
                            assert(out0[i].0 == k);
                        }
                        assert(covered(out0, k));
                    }
                }
            } else {
                assert(k != v);
                seen.insert(k);
                seen.insert(v);
                out.push((k, v));
                proof {
                    assert(seen@ =~= seen0.insert(k).insert(v));
                    assert forall|x: T| #[trigger] seen@.contains(x) <==> covered(out@, x) by {
                        if seen@.contains(x) {
                            if x == k || x == v {
                                assert(out@[out0.len() as int] == (k, v));
                            } else {
                                let i = choose|i: int| 0 <= i < out0.len() && (out0[i].0 == x || out0[i].1 == x);
                                assert(out@[i] == out0[i]);
                            }
                        }
                        if covered(out@, x) {
                            let i = choose|i: int| 0 <= i < out@.len() && (out@[i].0 == x || out@[i].1 == x);
                            if i < out0.len() {
                                assert(out0[i] == out@[i]);
                                assert(covered(out0, x));
                            }
                        }
                    }
                    assert forall|i: int, j: int|
                        0 <= i < out@.len() && 0 <= j < out@.len() && i != j implies #[trigger] out@[i].0 != #[trigger] out@[j].0
                            && out@[i].0 != out@[j].1 && out@[i].1 != out@[j].0 && out@[i].1 != out@[j].1 by {
                        if i < out0.len() && j < out0.len() {
                        } else if i < out0.len() {
                            assert(covered(out0, out0[i].0) && covered(out0, out0[i].1));
                        } else {
                            assert(covered(out0, out0[j].0) && covered(out0, out0[j].1));
                        }
                    }
                }
            }
            idx = idx + 1;
        }
        proof {
            assert(seen@ =~= m.dom()) by {
                assert forall|x: T| seen@.contains(x) implies m.contains_key(x) by {
                    let i = choose|i: int| 0 <= i < out@.len() && (out@[i].0 == x || out@[i].1 == x);
                    assert(m.contains_key(out@[i].0));
                }
                assert forall|x: T| m.contains_key(x) implies seen@.contains(x) by {
                    let e = choose|e: int| 0 <= e < entries@.len() && entries@[e] == (x, m[x]);
                    assert(seen@.contains(entries@[e].0));
                }
            }
            assert forall|k: T| #[trigger] m.contains_key(k) implies exists|i: int|
                0 <= i < out@.len() && (out@[i].0 == k || out@[i].1 == k) by {
                assert(seen@.contains(k));
            }
        }
        out
    }
}

impl<T: Eq + Hash + Clone> SymBiMap<T> {
    /// The map holding the pairs `ps`, each inserted in turn; the first
    /// refused insertion is the error. This is how a stored table is read
    /// back, so that a table that breaks the pairing is never accepted.
    pub fn from_pairs(ps: &Vec<(T, T)>) -> (r: Result<Self, InsertError<T>>)
        requires
            plain_key::<T>(),
            faithful_clone::<T>(),
        ensures
            match (r, fold_pairs(ps@)) {
                (Ok(m), Ok(spec_m)) => m.wf() && m@ == spec_m,
                (Err(e), Err(spec_e)) => e == spec_e,
                _ => false,
            },
    {
        let mut out: Self = SymBiMap::new();
        let mut i: usize = 0;
        while i < ps.len()
            invariant
                plain_key::<T>(),
                faithful_clone::<T>(),
                i <= ps@.len(),
                out.wf(),
                fold_pairs(ps@.take(i as int)) == Ok::<Map<T, T>, InsertError<T>>(out@),
            decreases ps@.len() - i,
        {
            let a = ps[i].0.clone();
            let b = ps[i].1.clone();
            assert(a == ps@[i as int].0 && b == ps@[i as int].1);
            assert(ps@.take(i + 1).drop_last() =~= ps@.take(i as int));
            match out.insert(a, b) {
                Ok(()) => {},
                Err(e) => {
                    proof {
                        let j = i + 1;
                        assert forall|n: int| j <= n <= ps@.len() implies fold_pairs(ps@.take(n)) == Err::<Map<T, T>, InsertError<T>>(e) by {
                            lemma_fold_stops(ps@, j, n, e);
                        }
                        assert(ps@.take(ps@.len() as int) =~= ps@);
                    }
                    return Err(e);
                },
            }
            i = i + 1;
        }
        assert(ps@.take(ps@.len() as int) =~= ps@);
        Ok(out)
    }

    /// Inserts the pair `(a, b)`. Refused, leaving the map unchanged, when
    /// `a == b` or when `a` or `b` already stands in a pair.
    pub fn insert(&mut self, a: T, b: T) -> (r: Result<(), InsertError<T>>)
        requires
            old(self).wf(),
            plain_key::<T>(),
            faithful_clone::<T>(),
        ensures
            final(self).wf(),
            r == insert_outcome(old(self)@, a, b),
            r is Ok ==> final(self)@ == old(self)@.insert(a, b).insert(b, a),
            r is Err ==> final(self)@ == old(self)@,
    {
        proof {
            reveal(vstd::laws_eq::obeys_concrete_eq);
        }
        if a == b {
            return Err(InsertError::SelfPair(a));
        }
        if self.map.contains_key(&a) {
            return Err(InsertError::Duplicate(a));
        }
        if self.map.contains_key(&b) {
            return Err(InsertError::Duplicate(b));
        }
        let ghost m0 = self@;
        let a2 = a.clone();
        let b2 = b.clone();
        assert(a2 == a && b2 == b);
        self.map.insert(a2, b2);
        self.map.insert(b, a);
        assert forall|x: T| #[trigger] self@.contains_key(x) implies self@[x] != x
            && self@.contains_key(self@[x]) && self@[self@[x]] == x by {
            if x != a && x != b {
                assert(m0.contains_key(x));
                assert(m0[x] != a && m0[x] != b);
            }
        }
        Ok(())
    }
}


/// Once a refusal occurs, inserting more pairs keeps it.
proof fn lemma_fold_stops<T>(ps: Seq<(T, T)>, j: int, n: int, e: InsertError<T>)
    requires
        0 <= j <= n <= ps.len(),
        fold_pairs(ps.take(j)) == Err::<Map<T, T>, InsertError<T>>(e),
    ensures
        fold_pairs(ps.take(n)) == Err::<Map<T, T>, InsertError<T>>(e),
    decreases n - j,
{
    if n > j {
        lemma_fold_stops(ps, j, n - 1, e);
        assert(ps.take(n).drop_last() =~= ps.take(n - 1));
    }
}

/// A pairing holds an even number of elements, so the entry count is twice
/// the pair count that `len` reports.
pub proof fn lemma_pairing_even<T>(m: Map<T, T>)
    requires
        is_pairing(m),
    ensures
        m.dom().len() % 2 == 0,
    decreases m.dom().len(),
{
    if m.dom().len() != 0 {
        let a = m.dom().choose();
        let b = m[a];
        let rest = m.remove(a).remove(b);
        assert(rest.dom() =~= m.dom().remove(a).remove(b));
        assert forall|x: T| #[trigger] rest.contains_key(x) implies rest[x] != x
            && rest.contains_key(rest[x]) && rest[rest[x]] == x by {
            assert(m.contains_key(x));
            assert(m[x] != a && m[x] != b);
        }
        lemma_pairing_even(rest);
    }
}

/// Partnership is symmetric: `a` is paired with `b` exactly when `b` is
/// paired with `a`.
pub proof fn lemma_partner_symmetric<T>(m: Map<T, T>, a: T, b: T)
    requires
        is_pairing(m),
    ensures
        (m.contains_key(a) && m[a] == b) <==> (m.contains_key(b) && m[b] == a),
{
}

/// An accepted insertion adds exactly one pair, and removing it again from
/// either end gives back the map as it was.
pub proof fn lemma_insert_then_remove<T>(m: Map<T, T>, a: T, b: T)
    requires
        is_pairing(m),
        insert_outcome(m, a, b) is Ok,
    ensures
        is_pairing(m.insert(a, b).insert(b, a)),
        m.insert(a, b).insert(b, a).dom().len() / 2 == m.dom().len() / 2 + 1,
        m.insert(a, b).insert(b, a).remove(a).remove(b) == m,
        m.insert(a, b).insert(b, a).remove(b).remove(a) == m,
{
    let n = m.insert(a, b).insert(b, a);
    assert(n.dom() =~= m.dom().insert(a).insert(b));
    assert forall|x: T| #[trigger] n.contains_key(x) implies n[x] != x && n.contains_key(n[x])
        && n[n[x]] == x by {
        if x != a && x != b {
            assert(m.contains_key(x));
            assert(m[x] != a && m[x] != b);
        }
    }
    assert(n.remove(a).remove(b) =~= m);
    assert(n.remove(b).remove(a) =~= m);
}

/// Removing a pair drops exactly one pair, and neither of its elements
/// stands in any pair afterwards.
pub proof fn lemma_remove_pair<T>(m: Map<T, T>, a: T)
    requires
        is_pairing(m),
        m.contains_key(a),
    ensures
        is_pairing(m.remove(a).remove(m[a])),
        m.remove(a).remove(m[a]).dom().len() / 2 + 1 == m.dom().len() / 2,
        !m.remove(a).remove(m[a]).contains_key(a),
        !m.remove(a).remove(m[a]).contains_key(m[a]),
{
    let b = m[a];
    let rest = m.remove(a).remove(b);
    assert(rest.dom() =~= m.dom().remove(a).remove(b));
    assert forall|x: T| #[trigger] rest.contains_key(x) implies rest[x] != x
        && rest.contains_key(rest[x]) && rest[rest[x]] == x by {
        assert(m.contains_key(x));
        assert(m[x] != a && m[x] != b);
    }
}


/// Reading back the pairs that `pairs` lists (each once, in either
/// direction) rebuilds the same map: writing a table out and reading it in
/// preserves its pairs.
pub proof fn lemma_pairs_read_back<T>(m: Map<T, T>, ps: Seq<(T, T)>)
    requires
        is_pairing(m),
        lists_each_pair_once(m, ps),
    ensures
        fold_pairs(ps) == Ok::<Map<T, T>, InsertError<T>>(m),
{
    lemma_fold_prefix(m, ps, ps.len() as int);
    assert(ps.take(ps.len() as int) =~= ps);
    assert(m.restrict(Set::new(|x: T| covered(ps, x))) =~= m);
}

proof fn lemma_fold_prefix<T>(m: Map<T, T>, ps: Seq<(T, T)>, n: int)
    requires
        is_pairing(m),
        lists_each_pair_once(m, ps),
        0 <= n <= ps.len(),
    ensures
        fold_pairs(ps.take(n)) == Ok::<Map<T, T>, InsertError<T>>(
            m.restrict(Set::new(|x: T| covered(ps.take(n), x))),
        ),
    decreases n,
{
    if n == 0 {
        assert(m.restrict(Set::new(|x: T| covered(ps.take(0), x))) =~= Map::<T, T>::empty());
    } else {
        lemma_fold_prefix(m, ps, n - 1);
        let pre = ps.take(n - 1);
        let cur = ps.take(n);
        assert(cur.drop_last() =~= pre);
        let (a, b) = ps[n - 1];
        assert(cur.last() == (a, b));
        let sub = m.restrict(Set::new(|x: T| covered(pre, x)));
        assert(m.contains_key(ps[n - 1].0));
        assert(m.contains_key(a) && m[a] == b);
        assert(a != b);
        assert(!sub.contains_key(a)) by {
            if covered(pre, a) {
                let i = choose|i: int| 0 <= i < pre.len() && (pre[i].0 == a || pre[i].1 == a);
                assert(ps[i] == pre[i]);
                assert(ps[i].0 != ps[n - 1].0 && ps[i].1 != ps[n - 1].0);
            }
        }
        assert(!sub.contains_key(b)) by {
            if covered(pre, b) {
                let i = choose|i: int| 0 <= i < pre.len() && (pre[i].0 == b || pre[i].1 == b);
                assert(ps[i] == pre[i]);
                assert(ps[i].0 != ps[n - 1].1 && ps[i].1 != ps[n - 1].1);
            }
        }
        assert(insert_outcome(sub, a, b) == Ok::<(), InsertError<T>>(()));
        let next = m.restrict(Set::new(|x: T| covered(cur, x)));
        assert forall|x: T| covered(cur, x) <==> (covered(pre, x) || x == a || x == b) by {
            if covered(cur, x) {
                let i = choose|i: int| 0 <= i < cur.len() && (cur[i].0 == x || cur[i].1 == x);
                if i < n - 1 {
                    assert(pre[i] == cur[i]);
                }
            }
            if covered(pre, x) {
                let i = choose|i: int| 0 <= i < pre.len() && (pre[i].0 == x || pre[i].1 == x);
                assert(cur[i] == pre[i]);
            }
            if x == a || x == b {
                assert(cur[n - 1] == (a, b));
            }
        }
        assert forall|x: T| covered(pre, x) implies m.contains_key(x) by {
            let i = choose|i: int| 0 <= i < pre.len() && (pre[i].0 == x || pre[i].1 == x);
            assert(ps[i] == pre[i]);
            assert(m.contains_key(ps[i].0) && m[ps[i].0] == ps[i].1);
        }
        assert(next =~= sub.insert(a, b).insert(b, a));
    }
}

} // verus!
