//! Building the swap table from the rows that a user entered, with every
//! conflicting row reported.
use std::collections::HashSet;
use vstd::prelude::*;
use crate::map::{InsertError, SymBiMap, is_pairing};

verus! {

broadcast use {vstd::std_specs::hash::group_hash_axioms, vstd::laws_eq::group_laws_eq};

/// Which side of a row conflicts.
#[derive(Debug, PartialEq, Eq)]
pub enum UpdateSide {
    Left,
    Right,
    Both,
}

/// A row of the swap table that cannot be accepted.
#[derive(Debug, PartialEq, Eq)]
pub struct UpdateError {
    pub index: usize,
    pub side: UpdateSide,
    pub error: InsertError<u128>,
}

/// `u` stands in one of the first `n` rows.
pub open spec fn appears_before(rows: Seq<(u128, u128)>, n: int, u: u128) -> bool {
    exists|j: int| #![trigger rows[j]] 0 <= j < n && (rows[j].0 == u || rows[j].1 == u)
}

/// The error that row `i` is reported with, if any: a row that pairs a
/// UUID with itself, or whose UUIDs already stand in an earlier row
/// (accepted or not).
pub open spec fn row_error(rows: Seq<(u128, u128)>, i: int) -> Option<UpdateError> {
    let (l, r) = rows[i];
    if l == r {
        Some(UpdateError { index: i as usize, side: UpdateSide::Both, error: InsertError::SelfPair(l) })
    } else {
        let tl = appears_before(rows, i, l);
        let tr = appears_before(rows, i, r);
        if tl && tr {
            Some(UpdateError { index: i as usize, side: UpdateSide::Both, error: InsertError::Duplicate(l) })
        } else if tl {
            Some(UpdateError { index: i as usize, side: UpdateSide::Left, error: InsertError::Duplicate(l) })
        } else if tr {
            Some(UpdateError { index: i as usize, side: UpdateSide::Right, error: InsertError::Duplicate(r) })
        } else {
            None
        }
    }
}

/// The errors of the first `n` rows, in row order.
pub open spec fn row_errors(rows: Seq<(u128, u128)>, n: int) -> Seq<UpdateError>
    decreases n,
{
    if n <= 0 {
        Seq::empty()
    } else {
        row_errors(rows, n - 1) + match row_error(rows, n - 1) {
            Some(e) => seq![e],
            None => Seq::empty(),
        }
    }
}

/// The pairing made of the accepted rows among the first `n`.
pub open spec fn rows_map(rows: Seq<(u128, u128)>, n: int) -> Map<u128, u128>
    decreases n,
{
    if n <= 0 {
        Map::empty()
    } else {
        let m = rows_map(rows, n - 1);
        let (l, r) = rows[n - 1];
        if row_error(rows, n - 1) is None {
            m.insert(l, r).insert(r, l)
        } else {
            m
        }
    }
}

/// An element of the accepted rows stands in some row.
proof fn lemma_rows_map_dom(rows: Seq<(u128, u128)>, n: int)
    requires
        0 <= n <= rows.len(),
    ensures
        forall|u: u128| #[trigger] rows_map(rows, n).contains_key(u) ==> appears_before(rows, n, u),
        rows_map(rows, n).dom().finite(),
    decreases n,
{
    if n > 0 {
        lemma_rows_map_dom(rows, n - 1);
        assert forall|u: u128| #[trigger] rows_map(rows, n).contains_key(u) implies appears_before(rows, n, u) by {
            if rows_map(rows, n - 1).contains_key(u) {
                let j = choose|j: int| #![trigger rows[j]] 0 <= j < n - 1 && (rows[j].0 == u || rows[j].1 == u);
                assert(rows[j].0 == u || rows[j].1 == u);
            } else {
                assert(rows[n - 1].0 == u || rows[n - 1].1 == u);
            }
        }
    }
}

/// Checks the rows and builds the swap table from them. A row fails when it
/// pairs a UUID with itself (`Both`, `SelfPair`) or when one of its UUIDs
/// already stands in an earlier row, accepted or failed (`Duplicate` of the
/// left UUID when the left side or both conflict, else of the right one).
/// All failing rows are reported; the table is returned only when none fails.
pub fn build_uuid_map(uuid_pairs: &[(u128, u128)]) -> (r: Result<SymBiMap<u128>, Vec<UpdateError>>)
    ensures
        match r {
            Ok(map) => {
                &&& map.wf()
                &&& row_errors(uuid_pairs@, uuid_pairs@.len() as int).len() == 0
                &&& map@ == rows_map(uuid_pairs@, uuid_pairs@.len() as int)
            },
            Err(errors) => {
                &&& errors@.len() > 0
                &&& errors@ == row_errors(uuid_pairs@, uuid_pairs@.len() as int)
            },
        },
{
    let ghost rows = uuid_pairs@;
    let mut new_uuid_map: SymBiMap<u128> = SymBiMap::new();
    let mut used_by_failed: HashSet<u128> = HashSet::new();
    let mut errors: Vec<UpdateError> = Vec::new();
    let mut index: usize = 0;
    while index < uuid_pairs.len()
        invariant
            rows == uuid_pairs@,
            index <= rows.len(),
            new_uuid_map.wf(),
            new_uuid_map@ == rows_map(rows, index as int),
            errors@ == row_errors(rows, index as int),
            forall|u: u128|
                #![trigger new_uuid_map@.contains_key(u)]
                #![trigger used_by_failed@.contains(u)]
                #![trigger appears_before(rows, index as int, u)]
                (new_uuid_map@.contains_key(u) || used_by_failed@.contains(u)) <==> appears_before(
                    rows,
                    index as int,
                    u,
                ),
        decreases rows.len() - index,
    {
        let (left_uuid, right_uuid) = uuid_pairs[index];
        let ghost i = index as int;
        proof {
            assert(rows[i] == (left_uuid, right_uuid));
            assert forall|u: u128| appears_before(rows, i + 1, u) <==> (appears_before(rows, i, u)
                || u == left_uuid || u == right_uuid) by {
                if appears_before(rows, i + 1, u) && !(u == left_uuid || u == right_uuid) {
                    let j = choose|j: int| #![trigger rows[j]] 0 <= j < i + 1 && (rows[j].0 == u || rows[j].1 == u);
                    assert(j < i);
                    assert(rows[j].0 == u || rows[j].1 == u);
                }
                if appears_before(rows, i, u) {
                    let j = choose|j: int| #![trigger rows[j]] 0 <= j < i && (rows[j].0 == u || rows[j].1 == u);
                    assert(rows[j].0 == u || rows[j].1 == u);
                }
                if u == left_uuid || u == right_uuid {
                    assert(rows[i].0 == u || rows[i].1 == u);
                }
            }
            assert(row_errors(rows, i + 1) == row_errors(rows, i) + match row_error(rows, i) {
                Some(e) => seq![e],
                None => Seq::empty(),
            });
        }
        let ghost map0 = new_uuid_map@;
        let ghost used0 = used_by_failed@;
        if left_uuid == right_uuid {
            errors.push(UpdateError { index, side: UpdateSide::Both, error: InsertError::SelfPair(left_uuid) });
            used_by_failed.insert(left_uuid);
        } else {
            let taken_left = new_uuid_map.contains(&left_uuid) || used_by_failed.contains(&left_uuid);
            let taken_right = new_uuid_map.contains(&right_uuid) || used_by_failed.contains(&right_uuid);
            if taken_left || taken_right {
                let (side, dup_uuid) = if taken_left && taken_right {
                    (UpdateSide::Both, left_uuid)
                } else if taken_left {
                    (UpdateSide::Left, left_uuid)
                } else {
                    (UpdateSide::Right, right_uuid)
                };
                errors.push(UpdateError { index, side, error: InsertError::Duplicate(dup_uuid) });
                used_by_failed.insert(left_uuid);
                used_by_failed.insert(right_uuid);
            } else {
                let inserted = new_uuid_map.insert(left_uuid, right_uuid);
                assert(inserted is Ok);
            }
        }
        proof {
            assert forall|u: u128| (new_uuid_map@.contains_key(u) || used_by_failed@.contains(u))
                <==> appears_before(rows, i + 1, u) by {
                assert((map0.contains_key(u) || used0.contains(u)) <==> appears_before(rows, i, u));
            }
        }
        index = index + 1;
    }
    proof {
        assert(rows.subrange(0, rows.len() as int) == rows);
    }
    if errors.len() == 0 {
        Ok(new_uuid_map)
    } else {
        Err(errors)
    }
}


/// Among the first `n` rows, no row pairs a UUID with itself and no UUID
/// stands in two rows.
pub open spec fn rows_distinct(rows: Seq<(u128, u128)>, n: int) -> bool {
    &&& forall|i: int| #![trigger rows[i]] 0 <= i < n ==> rows[i].0 != rows[i].1
    &&& forall|i: int, j: int|
        #![trigger rows[i], rows[j]]
        0 <= i < j < n ==> rows[i].0 != rows[j].0 && rows[i].0 != rows[j].1 && rows[i].1 != rows[j].0
            && rows[i].1 != rows[j].1
}

/// The table is accepted exactly when every UUID stands in one row only and
/// no row pairs a UUID with itself; it then pairs each row's two UUIDs with
/// each other and holds nothing else.
pub proof fn lemma_accepted_iff_distinct(rows: Seq<(u128, u128)>, n: int)
    requires
        0 <= n <= rows.len(),
    ensures
        row_errors(rows, n).len() == 0 <==> rows_distinct(rows, n),
        rows_distinct(rows, n) ==> {
            &&& is_pairing(rows_map(rows, n))
            &&& forall|i: int|
                #![trigger rows[i]]
                0 <= i < n ==> rows_map(rows, n).contains_key(rows[i].0) && rows_map(rows, n)[rows[i].0]
                    == rows[i].1 && rows_map(rows, n).contains_key(rows[i].1) && rows_map(rows, n)[rows[i].1]
                    == rows[i].0
            &&& forall|u: u128| #[trigger] rows_map(rows, n).contains_key(u) ==> appears_before(rows, n, u)
        },
    decreases n,
{
    lemma_rows_map_dom(rows, n);
    if n > 0 {
        lemma_accepted_iff_distinct(rows, n - 1);
        let (l, r) = rows[n - 1];
        let prev = row_errors(rows, n - 1);
        assert(row_errors(rows, n).len() == prev.len() + (if row_error(rows, n - 1) is None { 0int } else { 1int }));
        let fresh = l != r && !appears_before(rows, n - 1, l) && !appears_before(rows, n - 1, r);
        assert(row_error(rows, n - 1) is None <==> fresh);
        if rows_distinct(rows, n) {
            assert(rows_distinct(rows, n - 1));
            assert(rows[n - 1] == (l, r));
            assert(!appears_before(rows, n - 1, l)) by {
                if appears_before(rows, n - 1, l) {
                    let j = choose|j: int| #![trigger rows[j]] 0 <= j < n - 1 && (rows[j].0 == l || rows[j].1 == l);
                    assert(rows[j].0 != rows[n - 1].0 && rows[j].1 != rows[n - 1].0);
                }
            }
            assert(!appears_before(rows, n - 1, r)) by {
                if appears_before(rows, n - 1, r) {
                    let j = choose|j: int| #![trigger rows[j]] 0 <= j < n - 1 && (rows[j].0 == r || rows[j].1 == r);
                    assert(rows[j].0 != rows[n - 1].1 && rows[j].1 != rows[n - 1].1);
                }
            }
            let m0 = rows_map(rows, n - 1);
            let m = rows_map(rows, n);
            assert(m == m0.insert(l, r).insert(r, l));
            assert(!m0.contains_key(l) && !m0.contains_key(r));
            assert forall|x: u128| #[trigger] m.contains_key(x) implies m[x] != x && m.contains_key(m[x]) && m[m[x]] == x by {
                if x != l && x != r {
                    assert(m0.contains_key(x));
                    assert(m0[x] != l && m0[x] != r);
                }
            }
            assert forall|i: int| #![trigger rows[i]] 0 <= i < n implies m.contains_key(rows[i].0) && m[rows[i].0]
                == rows[i].1 && m.contains_key(rows[i].1) && m[rows[i].1] == rows[i].0 by {
                if i < n - 1 {
                    assert(rows[i].0 != l && rows[i].0 != r && rows[i].1 != l && rows[i].1 != r);
                }
            }
        } else {
            if rows_distinct(rows, n - 1) {
                if fresh {
                    assert forall|i: int, j: int| #![trigger rows[i], rows[j]]
                        0 <= i < j < n implies rows[i].0 != rows[j].0 && rows[i].0 != rows[j].1 && rows[i].1 != rows[j].0
                            && rows[i].1 != rows[j].1 by {
                        if j == n - 1 {
                            assert(rows[j] == (l, r));
                            if rows[i].0 == l || rows[i].1 == l {
                                assert(appears_before(rows, n - 1, l));
                            }
                            if rows[i].0 == r || rows[i].1 == r {
                                assert(appears_before(rows, n - 1, r));
                            }
                        }
                    }
                    assert(rows_distinct(rows, n));
                }
            } else {
                assert(prev.len() != 0);
            }
        }
    }
}

} // verus!
