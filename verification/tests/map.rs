use uuid_remap::map::{insert_error_message, InsertError, SymBiMap};

#[test]
fn insert_and_get_are_symmetric() {
    let mut map = SymBiMap::new();
    map.insert(1, 2).unwrap();
    assert_eq!(map.get(&1), Some(&2));
    assert_eq!(map.get(&2), Some(&1));
    assert_eq!(map.get(&3), None);
}

#[test]
fn insert_rejects_self_pair() {
    let mut map = SymBiMap::new();
    assert_eq!(map.insert(1, 1), Err(InsertError::SelfPair(1)));
    assert!(map.is_empty());
}

#[test]
fn insert_rejects_duplicates_on_either_side() {
    let mut map = SymBiMap::new();
    map.insert(1, 2).unwrap();
    assert_eq!(map.insert(1, 3), Err(InsertError::Duplicate(1)));
    assert_eq!(map.insert(3, 2), Err(InsertError::Duplicate(2)));
    assert_eq!(map.insert(2, 3), Err(InsertError::Duplicate(2)));
}

#[test]
fn failed_insert_leaves_map_unchanged() {
    let mut map = SymBiMap::new();
    map.insert(1, 2).unwrap();
    assert!(map.insert(3, 1).is_err());
    assert!(!map.contains(&3));
    assert_eq!(map.get(&1), Some(&2));
    assert_eq!(map.len(), 1);
}

#[test]
fn contains_checks_both_ends() {
    let mut map = SymBiMap::new();
    map.insert(1, 2).unwrap();
    assert!(map.contains(&1));
    assert!(map.contains(&2));
    assert!(!map.contains(&3));
}

#[test]
fn remove_works_from_either_end() {
    let mut map = SymBiMap::new();
    map.insert(1, 2).unwrap();
    assert_eq!(map.remove(&2), Some((2, 1)));
    assert!(map.is_empty());
    assert_eq!(map.get(&1), None);
    assert_eq!(map.get(&2), None);
    assert_eq!(map.remove(&1), None);
    map.insert(1, 2).unwrap();
    assert_eq!(map.len(), 1);
}

#[test]
fn len_counts_pairs() {
    let mut map: SymBiMap<i32> = SymBiMap::new();
    assert_eq!(map.len(), 0);
    assert!(map.is_empty());
    map.insert(1, 2).unwrap();
    map.insert(3, 4).unwrap();
    assert_eq!(map.len(), 2);
    assert!(!map.is_empty());
}

#[test]
fn pairs_list_each_pair_once() {
    let mut map: SymBiMap<u128> = SymBiMap::new();
    map.insert(10, 20).unwrap();
    map.insert(30, 40).unwrap();
    let pairs = map.pairs();
    assert_eq!(pairs.len(), 2);
    for (k, v) in &pairs {
        assert_eq!(map.get(k), Some(v));
    }
    let mut elems: Vec<u128> = pairs.iter().flat_map(|(k, v)| [*k, *v]).collect();
    elems.sort();
    assert_eq!(elems, vec![10, 20, 30, 40]);
}

#[test]
fn entries_hold_both_directions() {
    let mut map: SymBiMap<u128> = SymBiMap::new();
    map.insert(5, 6).unwrap();
    let mut entries = map.entries();
    entries.sort();
    assert_eq!(entries, vec![(5, 6), (6, 5)]);
}

#[test]
fn pairs_read_back_into_same_map() {
    let mut map: SymBiMap<u128> = SymBiMap::new();
    for (a, b) in [(1, 2), (3, 4), (5, 6)] {
        map.insert(a, b).unwrap();
    }
    let restored = SymBiMap::from_pairs(&map.pairs()).unwrap();
    assert_eq!(restored.len(), map.len());
    for (k, v) in map.entries() {
        assert_eq!(restored.get(&k), Some(&v));
    }
}

#[test]
fn from_pairs_rejects_self_pair_and_duplicates() {
    assert_eq!(SymBiMap::<u128>::from_pairs(&vec![(7, 7)]).unwrap_err(), InsertError::SelfPair(7));
    assert_eq!(
        SymBiMap::<u128>::from_pairs(&vec![(1, 2), (2, 3)]).unwrap_err(),
        InsertError::Duplicate(2)
    );
    assert_eq!(
        SymBiMap::<u128>::from_pairs(&vec![(1, 2), (3, 2)]).unwrap_err(),
        InsertError::Duplicate(2)
    );
    let map = SymBiMap::<u128>::from_pairs(&vec![(1, 2), (3, 4)]).unwrap();
    assert_eq!(map.get(&2), Some(&1));
    assert_eq!(map.get(&4), Some(&3));
}

#[test]
fn refusals_have_messages() {
    assert_eq!(insert_error_message(&InsertError::SelfPair(1u128)), "invalid pair: a key maps to itself");
    assert_eq!(insert_error_message(&InsertError::Duplicate(1u128)), "invalid pair: an element appears more than once");
}

#[test]
fn string_pairs_build_a_symmetric_map() {
    let s = |x: &str| x.to_string();
    let map = SymBiMap::from_pairs(&vec![(s("a"), s("b")), (s("c"), s("d"))]).unwrap();
    assert_eq!(map.len(), 2);
    assert_eq!(map.get(&s("b")), Some(&s("a")));
    assert_eq!(map.get(&s("d")), Some(&s("c")));
    assert_eq!(SymBiMap::from_pairs(&vec![(s("a"), s("a"))]).err(), Some(InsertError::SelfPair(s("a"))));
    assert_eq!(
        SymBiMap::from_pairs(&vec![(s("a"), s("b")), (s("b"), s("c"))]).err(),
        Some(InsertError::Duplicate(s("b")))
    );
    let mut m = SymBiMap::new();
    m.insert(s("x"), s("y")).unwrap();
    assert_eq!(m.insert(s("z"), s("y")), Err(InsertError::Duplicate(s("y"))));
}
