use uuid_remap::uuid_bits::{from_u128, i32s_to_uuid4, i64pair_to_uuid4, to_u128, uuid4_to_i32s, uuid_to_i64pair};

#[test]
fn test_uuid_64_to_128() {
    let uuid = uuid::Uuid::parse_str("f89043ac-4df9-401d-813a-24459916827e").unwrap();
    let most: i64 = -535853948335472611;
    let least: i64 = -9134949012827897218;
    let new_uuid = i64pair_to_uuid4(most, least);
    assert_eq!(uuid.as_u128(), new_uuid);
}

#[test]
fn words_join_most_significant_first() {
    assert_eq!(to_u128(0, 0, 0, 1), 1);
    assert_eq!(to_u128(1, 0, 0, 0), 1u128 << 96);
    assert_eq!(to_u128(-1, -1, -1, -1), u128::MAX);
    assert_eq!(from_u128(u128::MAX), [-1, -1, -1, -1]);
    assert_eq!(from_u128(0x0000_0001_0000_0002_0000_0003_0000_0004), [1, 2, 3, 4]);
}

#[test]
fn int_array_roundtrip() {
    let uuid = uuid::Uuid::parse_str("9db4226c-1015-40da-8fa5-4335aab896b6").unwrap().as_u128();
    let words = uuid4_to_i32s(uuid);
    assert_eq!(i32s_to_uuid4(&words), uuid);
    assert_eq!(words[0], 0x9db4226cu32 as i32);
}

#[test]
fn long_pair_roundtrip() {
    let uuid = uuid::Uuid::parse_str("59c66d96-d356-364a-a84e-0511b286a31b").unwrap().as_u128();
    let (most, least) = uuid_to_i64pair(uuid);
    assert_eq!(i64pair_to_uuid4(most, least), uuid);
    assert_eq!(most as u64, 0x59c66d96d356364a);
    assert_eq!(least as u64, 0xa84e0511b286a31b);
}
