use std::str::FromStr;
use uuid_remap::map::InsertError;
use uuid_remap::rows::{build_uuid_map, UpdateSide};

fn uuid(n: u32) -> u128 {
    uuid::Uuid::from_str(&format!("00000000-0000-4000-8000-{:012x}", n)).unwrap().as_u128()
}

#[test]
fn both_sides_conflicting_reports_both() {
    let (a, b) = (uuid(1), uuid(2));
    let errors = build_uuid_map(&[(a, b), (a, b)]).unwrap_err();
    assert_eq!(errors.len(), 1);
    assert_eq!(errors[0].index, 1);
    assert!(matches!(errors[0].side, UpdateSide::Both));
    assert!(matches!(errors[0].error, InsertError::Duplicate(_)));
}

#[test]
fn conflict_with_failed_row_is_reported() {
    let (c, d) = (uuid(3), uuid(4));
    let errors = build_uuid_map(&[(c, c), (c, d)]).unwrap_err();
    assert_eq!(errors.len(), 2);
    assert!(matches!(errors[0].error, InsertError::SelfPair(_)));
    assert_eq!(errors[1].index, 1);
    assert!(matches!(errors[1].side, UpdateSide::Left));
    assert_eq!(errors[1].error, InsertError::Duplicate(c));
}

#[test]
fn valid_rows_still_build_the_map() {
    let map = build_uuid_map(&[(uuid(1), uuid(2)), (uuid(3), uuid(4))]).unwrap();
    assert_eq!(map.len(), 2);
    assert_eq!(map.get(&uuid(2)), Some(&uuid(1)));
}

#[test]
fn right_side_conflict_reports_right_uuid() {
    let errors = build_uuid_map(&[(uuid(1), uuid(2)), (uuid(3), uuid(2)), (uuid(5), uuid(6))]).unwrap_err();
    assert_eq!(errors.len(), 1);
    assert_eq!(errors[0].index, 1);
    assert_eq!(errors[0].side, UpdateSide::Right);
    assert_eq!(errors[0].error, InsertError::Duplicate(uuid(2)));
}

#[test]
fn empty_rows_build_empty_map() {
    let map = build_uuid_map(&[]).unwrap();
    assert!(map.is_empty());
}
