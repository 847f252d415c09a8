use uuid_remap::map::SymBiMap;
use uuid_remap::nbt::Tag;
use uuid_remap::nbt_file::{CompressFlavor, NbtFileSkip};
use uuid_remap::nbt_io::{inflate, swap_chunk_bytes, swap_nbt_bytes};
use uuid_remap::nbt_scan::binary_nbt_end;
use uuid_remap::one_way::{parse_uuid_table, UuidTableError};
use uuid_remap::swapper::UuidSwapper;
use uuid_remap::uuid_bits::uuid4_to_i32s;

const A: &str = "9db4226c-1015-40da-8fa5-4335aab896b6";
const B: &str = "59c66d96-d356-364a-a84e-0511b286a31b";

fn u(s: &str) -> u128 {
    uuid::Uuid::parse_str(s).unwrap().as_u128()
}

fn table() -> SymBiMap<u128> {
    let mut map = SymBiMap::new();
    map.insert(u(A), u(B)).unwrap();
    map
}

fn entry<'a>(tree: &'a uuid_remap::nbt::Compound, name: &str) -> &'a Tag {
    &tree.entries.iter().find(|(k, _)| k == name).unwrap().1
}

#[test]
fn snbt_file_is_read_and_swapped() {
    let map = table();
    let swapper = UuidSwapper::new(&map).unwrap();
    let text = format!(r#"{{owner:"{}",n:3}}"#, A);
    let s = swap_nbt_bytes(text.as_bytes(), true, &swapper).ok().unwrap();
    assert_eq!(s.flavor, CompressFlavor::Uncompressed);
    assert_eq!(s.root_name, "");
    assert_eq!(entry(&s.tree, "owner"), &Tag::String(B.to_string()));
    assert_eq!(entry(&s.tree, "n"), &Tag::Int(3));
}

#[test]
fn deep_snbt_is_refused() {
    let map = table();
    let swapper = UuidSwapper::new(&map).unwrap();
    let text = "[".repeat(600);
    assert!(matches!(swap_nbt_bytes(text.as_bytes(), true, &swapper), Err(NbtFileSkip::TooDeep)));
}

#[test]
fn jsonc_text_is_no_binary_nbt() {
    let map = table();
    let swapper = UuidSwapper::new(&map).unwrap();
    let text = format!("{{\n    \"{}\": \"{}\"\n}}", A, B);
    assert!(matches!(swap_nbt_bytes(text.as_bytes(), false, &swapper), Err(NbtFileSkip::Unparsable)));
}

#[test]
fn binary_file_is_read_and_swapped() {
    let map = table();
    let swapper = UuidSwapper::new(&map).unwrap();
    let mut root = quartz_nbt::NbtCompound::new();
    root.insert("Owner", quartz_nbt::NbtTag::IntArray(uuid4_to_i32s(u(A)).to_vec()));
    let mut bytes = Vec::new();
    quartz_nbt::io::write_nbt(&mut bytes, Some("root"), &root, quartz_nbt::io::Flavor::GzCompressed).unwrap();
    let s = swap_nbt_bytes(&bytes, false, &swapper).ok().unwrap();
    assert_eq!(s.flavor, CompressFlavor::GzCompressed);
    assert_eq!(s.root_name, "root");
    assert_eq!(entry(&s.tree, "Owner"), &Tag::IntArray(uuid4_to_i32s(u(B)).to_vec()));
}

#[test]
fn json_table_is_read() {
    let text = format!(r#"{{"{}": "{}"}}"#, A, B);
    let map = parse_uuid_table(&text).unwrap();
    assert_eq!(map.len(), 1);
    assert_eq!(map.get(&u(A)), Some(&u(B)));
}

#[test]
fn json_table_refusals() {
    assert!(matches!(parse_uuid_table("not json"), Err(UuidTableError::NotJson(_))));
    assert!(matches!(parse_uuid_table(r#"{"a": 1}"#), Err(UuidTableError::NotJson(_))));
    let text = format!(r#"{{"{}": "nope"}}"#, A);
    assert_eq!(parse_uuid_table(&text), Err(UuidTableError::BadUuid("nope".to_string())));
}

fn nested_lists(depth: usize) -> Vec<u8> {
    // A root compound holding one list of lists, `depth` lists deep.
    let mut bytes = vec![10, 0, 0, 9, 0, 1, b'l'];
    for _ in 1..depth {
        bytes.extend_from_slice(&[9, 0, 0, 0, 1]);
    }
    bytes.extend_from_slice(&[1, 0, 0, 0, 0]);
    bytes.push(0);
    bytes
}

#[test]
fn scan_finds_the_end_of_the_root() {
    let mut root = quartz_nbt::NbtCompound::new();
    root.insert("n", quartz_nbt::NbtTag::Int(7));
    root.insert("s", quartz_nbt::NbtTag::String("abc".to_string()));
    root.insert("a", quartz_nbt::NbtTag::LongArray(vec![1, 2]));
    let mut bytes = Vec::new();
    quartz_nbt::io::write_nbt(&mut bytes, Some("r"), &root, quartz_nbt::io::Flavor::Uncompressed).unwrap();
    let len = bytes.len();
    bytes.extend_from_slice(&[1, 2, 3]);
    assert_eq!(binary_nbt_end(&bytes), Some(len));
    assert_eq!(binary_nbt_end(&bytes[..len - 1]), None);
    assert_eq!(binary_nbt_end(&[10, 0, 0, 0]), Some(4));
    assert_eq!(binary_nbt_end(&[8, 0, 0, 0]), None);
}

#[test]
fn scan_refuses_negative_lengths_and_unknown_tags() {
    // int array of length -1
    assert_eq!(binary_nbt_end(&[10, 0, 0, 11, 0, 1, b'a', 0xFF, 0xFF, 0xFF, 0xFF, 0]), None);
    // list of bytes of length -1
    assert_eq!(binary_nbt_end(&[10, 0, 0, 9, 0, 1, b'a', 1, 0xFF, 0xFF, 0xFF, 0xFF, 0]), None);
    // list of end tags that is not empty
    assert_eq!(binary_nbt_end(&[10, 0, 0, 9, 0, 1, b'a', 0, 0, 0, 0, 1, 0]), None);
    // empty list of end tags
    assert_eq!(binary_nbt_end(&[10, 0, 0, 9, 0, 1, b'a', 0, 0, 0, 0, 0, 0]), Some(13));
    // tag type 13
    assert_eq!(binary_nbt_end(&[10, 0, 0, 13, 0, 1, b'a', 0, 0]), None);
}

#[test]
fn scan_refuses_deep_nesting() {
    let ok = nested_lists(511);
    assert_eq!(binary_nbt_end(&ok), Some(ok.len()));
    let deep = nested_lists(512);
    assert_eq!(binary_nbt_end(&deep), None);
    let map = table();
    let swapper = UuidSwapper::new(&map).unwrap();
    let huge = nested_lists(100_000);
    assert!(matches!(swap_nbt_bytes(&huge, false, &swapper), Err(NbtFileSkip::Unparsable)));
    assert!(matches!(swap_chunk_bytes(&huge, &swapper), Err(NbtFileSkip::Unparsable)));
    let shallow = nested_lists(50);
    assert!(matches!(swap_nbt_bytes(&shallow, false, &swapper), Ok(_)));
}

#[test]
fn negative_lengths_are_not_read() {
    let map = table();
    let swapper = UuidSwapper::new(&map).unwrap();
    let bytes = [10, 0, 0, 9, 0, 1, b'a', 1, 0xFF, 0xFF, 0xFF, 0xFF, 0];
    assert!(matches!(swap_nbt_bytes(&bytes, false, &swapper), Err(NbtFileSkip::Unparsable)));
    assert!(matches!(swap_chunk_bytes(&bytes, &swapper), Err(NbtFileSkip::Unparsable)));
}

#[test]
fn zlib_file_is_inflated_read_and_swapped() {
    let map = table();
    let swapper = UuidSwapper::new(&map).unwrap();
    let mut root = quartz_nbt::NbtCompound::new();
    root.insert("b", quartz_nbt::NbtTag::Byte(1));
    root.insert("Owner", quartz_nbt::NbtTag::String(A.to_string()));
    let mut plain = Vec::new();
    quartz_nbt::io::write_nbt(&mut plain, Some("z"), &root, quartz_nbt::io::Flavor::Uncompressed).unwrap();
    let mut bytes = Vec::new();
    quartz_nbt::io::write_nbt(&mut bytes, Some("z"), &root, quartz_nbt::io::Flavor::ZlibCompressed).unwrap();
    assert_eq!(inflate(&bytes), plain);
    let s = swap_nbt_bytes(&bytes, false, &swapper).ok().unwrap();
    assert_eq!(s.flavor, CompressFlavor::ZlibCompressed);
    assert_eq!(s.root_name, "z");
    let names: Vec<&str> = s.tree.entries.iter().map(|(k, _)| k.as_str()).collect();
    assert_eq!(names, vec!["b", "Owner"]);
    assert_eq!(entry(&s.tree, "Owner"), &Tag::String(B.to_string()));
    let c = swap_chunk_bytes(&plain, &swapper).ok().unwrap();
    assert_eq!(c.flavor, CompressFlavor::Uncompressed);
    assert_eq!(entry(&c.tree, "b"), &Tag::Byte(1));
    assert_eq!(entry(&c.tree, "Owner"), &Tag::String(B.to_string()));
}
