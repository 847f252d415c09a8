use std::collections::HashMap;
use uuid_remap::chunk::ChunkProcesser;
use uuid_remap::one_way::{parse_uuid_pairs, transfer_name, App};
use uuid_remap::nbt::{swap_int_arrays, Compound, Tag};
use uuid_remap::region_nbt::swap_chunk_int_arrays;
use uuid_remap::uuid_bits::uuid4_to_i32s;

const A: &str = "9db4226c-1015-40da-8fa5-4335aab896b6";
const B: &str = "59c66d96-d356-364a-a84e-0511b286a31b";
const C: &str = "f89043ac-4df9-401d-813a-24459916827e";

fn u(s: &str) -> u128 {
    uuid::Uuid::parse_str(s).unwrap().as_u128()
}

fn words(s: &str) -> Tag {
    Tag::IntArray(uuid4_to_i32s(u(s)).to_vec())
}

fn entry(name: &str, tag: Tag) -> (String, Tag) {
    (name.to_string(), tag)
}

fn compound(entries: Vec<(String, Tag)>) -> Tag {
    Tag::Compound(Compound { entries })
}

fn one_way() -> HashMap<u128, u128> {
    let mut map = HashMap::new();
    map.insert(u(A), u(B));
    map
}

fn fox() -> Tag {
    compound(vec![
        entry("id", Tag::String("minecraft:fox".to_string())),
        entry("Owner", words(A)),
        entry("Trusted", Tag::List(vec![words(A), words(C)])),
        entry(
            "Gossips",
            Tag::List(vec![compound(vec![entry("Target", words(A)), entry("Value", Tag::Int(5))])]),
        ),
        entry("UUID", words(A)),
    ])
}

fn chunk_with(entities: Tag) -> Compound {
    Compound { entries: vec![entry("DataVersion", Tag::Int(3465)), entry("Entities", entities)] }
}

#[test]
fn chunk_references_are_rewritten_and_counted() {
    let mut cp = ChunkProcesser::new(HashMap::new(), one_way());
    let root = chunk_with(Tag::List(vec![fox()]));
    let out = cp.process(&root).unwrap();
    let expected = chunk_with(Tag::List(vec![compound(vec![
        entry("id", Tag::String("minecraft:fox".to_string())),
        entry("Owner", words(B)),
        entry("Trusted", Tag::List(vec![words(B), words(C)])),
        entry(
            "Gossips",
            Tag::List(vec![compound(vec![entry("Target", words(B)), entry("Value", Tag::Int(5))])]),
        ),
        // the entity's own UUID is not a player reference
        entry("UUID", words(A)),
    ])]));
    assert_eq!(out, expected);
    assert_eq!(cp.find.get(&u(A)), Some(&3));
    assert_eq!(cp.find.len(), 1);
}

#[test]
fn chunk_map_is_one_way() {
    let mut cp = ChunkProcesser::new(HashMap::new(), one_way());
    let root = chunk_with(Tag::List(vec![compound(vec![entry("Owner", words(B))])]));
    let out = cp.process(&root).unwrap();
    assert_eq!(out, root);
    assert!(cp.find.is_empty());
}

#[test]
fn chunk_without_entities_is_copied() {
    let mut cp = ChunkProcesser::new(HashMap::new(), one_way());
    let root = Compound { entries: vec![entry("Owner", words(A)), entry("Level", compound(vec![]))] };
    assert_eq!(cp.process(&root), Some(root));
    assert!(cp.find.is_empty());
}

#[test]
fn chunk_with_wrong_entities_kind_gives_up() {
    let mut cp = ChunkProcesser::new(HashMap::new(), one_way());
    let root = chunk_with(Tag::Int(0));
    assert_eq!(cp.process(&root), None);
    assert!(cp.find.is_empty());
}

#[test]
fn chunk_gives_up_after_counting_what_came_before() {
    let mut cp = ChunkProcesser::new(HashMap::new(), one_way());
    let root = chunk_with(Tag::List(vec![
        compound(vec![entry("Owner", words(A))]),
        compound(vec![entry("AngryAt", Tag::String(A.to_string()))]),
        compound(vec![entry("Owner", words(A))]),
    ]));
    assert_eq!(cp.process(&root), None);
    assert_eq!(cp.find.get(&u(A)), Some(&1));
}

#[test]
fn chunk_counts_add_to_earlier_counts() {
    let mut find = HashMap::new();
    find.insert(u(A), 7);
    let mut cp = ChunkProcesser::new(find, one_way());
    let root = chunk_with(Tag::List(vec![compound(vec![entry("last_hurt_by_player", words(A))])]));
    assert!(cp.process(&root).is_some());
    assert_eq!(cp.find.get(&u(A)), Some(&8));
}

#[test]
fn chunk_short_reference_is_reported() {
    let mut cp = ChunkProcesser::new(HashMap::new(), one_way());
    let root = chunk_with(Tag::List(vec![compound(vec![entry("Owner", Tag::IntArray(vec![1, 2]))])]));
    assert_eq!(cp.process_checked(&root), Err(()));
}

#[test]
fn chunk_count_overflow_is_reported() {
    let mut find = HashMap::new();
    find.insert(u(A), u32::MAX);
    let mut cp = ChunkProcesser::new(find, one_way());
    let root = chunk_with(Tag::List(vec![compound(vec![entry("Owner", words(A))])]));
    assert_eq!(cp.process_checked(&root), Err(()));
}

#[test]
fn region_int_arrays_follow_a_one_way_map() {
    let tag = compound(vec![
        entry("a", words(A)),
        entry("b", words(B)),
        entry("s", Tag::String(A.to_string())),
        entry("l", Tag::List(vec![words(A), Tag::IntArray(vec![1, 2, 3])])),
    ]);
    let out = swap_int_arrays(&tag, &one_way());
    let expected = compound(vec![
        entry("a", words(B)),
        entry("b", words(B)),
        entry("s", Tag::String(A.to_string())),
        entry("l", Tag::List(vec![words(B), Tag::IntArray(vec![1, 2, 3])])),
    ]);
    assert_eq!(out, expected);
}

#[test]
fn pairs_parse_into_a_one_way_map() {
    let pairs = vec![(A.to_string(), B.to_string()), (B.to_string(), A.to_string())];
    let map = parse_uuid_pairs(&pairs).unwrap();
    assert_eq!(map.len(), 2);
    assert_eq!(map.get(&u(A)), Some(&u(B)));
    assert_eq!(map.get(&u(B)), Some(&u(A)));
}

#[test]
fn pairs_report_the_first_bad_text() {
    let pairs = vec![(A.to_string(), B.to_string()), (C.to_string(), "nope".to_string()), ("bad".to_string(), A.to_string())];
    assert_eq!(parse_uuid_pairs(&pairs), Err("nope".to_string()));
}

#[test]
fn player_file_is_renamed_and_counted() {
    let mut find = HashMap::new();
    let name = transfer_name(A, Some("dat"), &one_way(), &mut find).unwrap();
    assert_eq!(name, Some(format!("{}.dat", B)));
    assert_eq!(find.get(&u(A)), Some(&1));
    let name = transfer_name(A, None, &one_way(), &mut find).unwrap();
    assert_eq!(name, Some(B.to_string()));
    assert_eq!(find.get(&u(A)), Some(&2));
}

#[test]
fn other_files_keep_their_names() {
    let mut find = HashMap::new();
    assert_eq!(transfer_name("level", Some("dat"), &one_way(), &mut find), Ok(None));
    assert_eq!(transfer_name(C, Some("dat"), &one_way(), &mut find), Ok(None));
    assert!(find.is_empty());
}

#[test]
fn found_players_are_recorded_once() {
    let mut app = App::new("server");
    app.record_uuids(&vec![u(A), u(B), u(A)]);
    assert_eq!(app.dir, "server");
    assert_eq!(app.uuids.len(), 2);
    assert!(app.uuids.contains_key(&u(B)));
}

#[test]
fn region_swap_twice_with_symmetric_table_restores_tree() {
    let mut both = one_way();
    both.insert(u(B), u(A));
    let tag = compound(vec![
        entry("Owner", words(A)),
        entry("friends", Tag::List(vec![words(B), words(C)])),
        entry("name", Tag::String(A.to_string())),
    ]);
    let once = swap_int_arrays(&tag, &both);
    assert_ne!(once, tag);
    assert_eq!(swap_int_arrays(&once, &both), tag);
}

#[test]
fn pairs_accept_every_written_form() {
    let bare = B.replace('-', "").to_uppercase();
    let pairs = vec![
        (format!("{{{}}}", A), bare.clone()),
        (format!("URN:uuid:{}", C), A.to_uppercase()),
    ];
    let map = parse_uuid_pairs(&pairs).unwrap();
    assert_eq!(map.get(&u(A)), Some(&u(B)));
    assert_eq!(map.get(&u(C)), Some(&u(A)));
    let short = vec![(A[..35].to_string(), B.to_string())];
    assert_eq!(parse_uuid_pairs(&short), Err(A[..35].to_string()));
    let bad_hyphen = vec![(A.replace('-', "_"), B.to_string())];
    assert!(parse_uuid_pairs(&bad_hyphen).is_err());
}

#[test]
fn chunk_bytes_are_read_then_processed() {
    let mut fox = quartz_nbt::NbtCompound::new();
    fox.insert("id", quartz_nbt::NbtTag::String("minecraft:fox".to_string()));
    fox.insert("Owner", quartz_nbt::NbtTag::IntArray(uuid4_to_i32s(u(A)).to_vec()));
    let mut root = quartz_nbt::NbtCompound::new();
    root.insert("DataVersion", quartz_nbt::NbtTag::Int(3465));
    root.insert("Entities", quartz_nbt::NbtTag::List(quartz_nbt::NbtList::from(vec![quartz_nbt::NbtTag::Compound(fox)])));
    let mut bytes = Vec::new();
    quartz_nbt::io::write_nbt(&mut bytes, Some(""), &root, quartz_nbt::io::Flavor::Uncompressed).unwrap();
    let mut cp = ChunkProcesser::new(HashMap::new(), one_way());
    let out = cp.process_chunk_bytes(&bytes).unwrap().unwrap().unwrap();
    let expected = chunk_with(Tag::List(vec![compound(vec![
        entry("id", Tag::String("minecraft:fox".to_string())),
        entry("Owner", words(B)),
    ])]));
    assert_eq!(out, expected);
    assert_eq!(cp.find.get(&u(A)), Some(&1));
    // bytes that hold no NBT leave the counts as they were
    assert!(cp.process_chunk_bytes(&bytes[..bytes.len() - 1]).is_none());
    assert_eq!(cp.find.get(&u(A)), Some(&1));
}

#[test]
fn region_chunk_bytes_are_read_then_swapped() {
    let mut inner = HashMap::new();
    inner.insert("Owner".to_string(), fastnbt::Value::IntArray(fastnbt::IntArray::new(uuid4_to_i32s(u(A)).to_vec())));
    inner.insert("n".to_string(), fastnbt::Value::Int(9));
    let bytes = fastnbt::to_bytes(&fastnbt::Value::Compound(inner)).unwrap();
    let out = swap_chunk_int_arrays(&bytes, &one_way()).unwrap();
    match out {
        Tag::Compound(c) => {
            assert_eq!(c.entries.len(), 2);
            assert!(c.entries.contains(&entry("Owner", words(B))));
            assert!(c.entries.contains(&entry("n", Tag::Int(9))));
        },
        _ => panic!("not a compound"),
    }
    assert!(swap_chunk_int_arrays(&bytes[..bytes.len() - 1], &one_way()).is_none());
}
