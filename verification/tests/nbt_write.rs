use quartz_nbt::NbtTag as Q;
use uuid_remap::map::SymBiMap;
use uuid_remap::nbt::{Compound, Tag};
use uuid_remap::nbt_file::{CompressFlavor, NbtFileSkip};
use uuid_remap::nbt_io::{swap_chunk_bytes, swap_nbt_bytes};
use uuid_remap::nbt_write::{
    checked_written, compounds_same, finish_binary_file, finish_chunk, finish_snbt_file, tags_same,
};
use uuid_remap::swapper::UuidSwapper;
use uuid_remap::uuid_bits::uuid4_to_i32s;

const A: &str = "9db4226c-1015-40da-8fa5-4335aab896b6";
const B: &str = "59c66d96-d356-364a-a84e-0511b286a31b";

fn u(s: &str) -> u128 {
    uuid::Uuid::parse_str(s).unwrap().as_u128()
}

fn table() -> SymBiMap<u128> {
    let mut map = SymBiMap::new();
    map.insert(u(A), u(B)).unwrap();
    map
}

fn to_quartz(tag: &Tag) -> quartz_nbt::NbtTag {
    match tag {
        Tag::Byte(x) => Q::Byte(*x),
        Tag::Short(x) => Q::Short(*x),
        Tag::Int(x) => Q::Int(*x),
        Tag::Long(x) => Q::Long(*x),
        Tag::Float(x) => Q::Float(f32::from_bits(*x)),
        Tag::Double(x) => Q::Double(f64::from_bits(*x)),
        Tag::ByteArray(v) => Q::ByteArray(v.clone()),
        Tag::String(s) => Q::String(s.clone()),
        Tag::List(items) => Q::List(quartz_nbt::NbtList::from_iter(items.iter().map(to_quartz))),
        Tag::Compound(c) => Q::Compound(compound_to_quartz(c)),
        Tag::IntArray(v) => Q::IntArray(v.clone()),
        Tag::LongArray(v) => Q::LongArray(v.clone()),
    }
}

fn compound_to_quartz(c: &Compound) -> quartz_nbt::NbtCompound {
    c.entries.iter().map(|(k, v)| (k.clone(), to_quartz(v))).collect()
}

fn quartz_flavor(f: CompressFlavor) -> quartz_nbt::io::Flavor {
    match f {
        CompressFlavor::GzCompressed => quartz_nbt::io::Flavor::GzCompressed,
        CompressFlavor::ZlibCompressed => quartz_nbt::io::Flavor::ZlibCompressed,
        CompressFlavor::Uncompressed => quartz_nbt::io::Flavor::Uncompressed,
    }
}

fn write_binary(tree: &Compound, root_name: &str, flavor: CompressFlavor) -> Option<Vec<u8>> {
    let mut out = Vec::new();
    quartz_nbt::io::write_nbt(&mut out, Some(root_name), &compound_to_quartz(tree), quartz_flavor(flavor)).ok()?;
    Some(out)
}

fn write_snbt(tree: &Compound) -> String {
    compound_to_quartz(tree).to_string()
}

fn empty_root() -> Compound {
    Compound { entries: Vec::new() }
}

fn sample(owner: &str) -> quartz_nbt::NbtCompound {
    let mut root = quartz_nbt::NbtCompound::new();
    root.insert("Owner", quartz_nbt::NbtTag::IntArray(uuid4_to_i32s(u(owner)).to_vec()));
    root.insert("name", quartz_nbt::NbtTag::String(format!("player {}", owner)));
    root.insert("f", quartz_nbt::NbtTag::Float(1.5));
    root
}

fn written(root: &quartz_nbt::NbtCompound, flavor: quartz_nbt::io::Flavor) -> Vec<u8> {
    let mut bytes = Vec::new();
    quartz_nbt::io::write_nbt(&mut bytes, Some("data"), root, flavor).unwrap();
    bytes
}

#[test]
fn binary_file_is_written_back_swapped() {
    let map = table();
    let swapper = UuidSwapper::new(&map).unwrap();
    let bytes = written(&sample(A), quartz_nbt::io::Flavor::GzCompressed);
    let s = swap_nbt_bytes(&bytes, false, &swapper).unwrap();
    let w = write_binary(&s.tree, &s.root_name, s.flavor);
    let out = finish_binary_file(&bytes, &s, w).unwrap();
    let (tree, name) = quartz_nbt::io::read_nbt(&mut std::io::Cursor::new(out), quartz_nbt::io::Flavor::GzCompressed).unwrap();
    assert_eq!(name, "data");
    assert_eq!(tree, sample(B));
}

#[test]
fn binary_file_without_uuids_is_unchanged() {
    let map = table();
    let swapper = UuidSwapper::new(&map).unwrap();
    let mut root = quartz_nbt::NbtCompound::new();
    root.insert("n", quartz_nbt::NbtTag::Int(1));
    let bytes = written(&root, quartz_nbt::io::Flavor::Uncompressed);
    let s = swap_nbt_bytes(&bytes, false, &swapper).unwrap();
    let w = write_binary(&s.tree, &s.root_name, s.flavor);
    assert_eq!(finish_binary_file(&bytes, &s, w), Err(NbtFileSkip::Unchanged));
}

#[test]
fn bytes_that_read_back_otherwise_are_refused() {
    let map = table();
    let swapper = UuidSwapper::new(&map).unwrap();
    let bytes = written(&sample(A), quartz_nbt::io::Flavor::ZlibCompressed);
    let s = swap_nbt_bytes(&bytes, false, &swapper).unwrap();
    // nothing written, the tree of another file, the right tree under another compression
    assert_eq!(finish_binary_file(&bytes, &s, None), Err(NbtFileSkip::Unwritable));
    let other = write_binary(&empty_root(), &s.root_name, s.flavor);
    assert_eq!(finish_binary_file(&bytes, &s, other), Err(NbtFileSkip::Unwritable));
    let gz = write_binary(&s.tree, &s.root_name, CompressFlavor::GzCompressed);
    assert_eq!(finish_binary_file(&bytes, &s, gz), Err(NbtFileSkip::Unwritable));
    let renamed = write_binary(&s.tree, "other", s.flavor);
    assert_eq!(finish_binary_file(&bytes, &s, renamed), Err(NbtFileSkip::Unwritable));
    let text = format!(r#"{{owner:"{}"}}"#, A);
    let t = swap_nbt_bytes(text.as_bytes(), true, &swapper).unwrap();
    assert_eq!(finish_snbt_file(text.as_bytes(), &t, "{}"), Err(NbtFileSkip::Unwritable));
    assert_eq!(finish_snbt_file(text.as_bytes(), &t, "{owner:"), Err(NbtFileSkip::Unwritable));
    let chunk = written(&sample(A), quartz_nbt::io::Flavor::Uncompressed);
    let c = swap_chunk_bytes(&chunk, &swapper).unwrap();
    assert_eq!(finish_chunk(&c, write_binary(&empty_root(), &c.root_name, CompressFlavor::Uncompressed)), Err(NbtFileSkip::Unwritable));
    assert_eq!(finish_chunk(&c, None), Err(NbtFileSkip::Unwritable));
}

#[test]
fn snbt_file_is_written_back_swapped() {
    let map = table();
    let swapper = UuidSwapper::new(&map).unwrap();
    let text = format!(r#"{{owner:"{}",n:3}}"#, A);
    let s = swap_nbt_bytes(text.as_bytes(), true, &swapper).unwrap();
    let out = finish_snbt_file(text.as_bytes(), &s, &write_snbt(&s.tree)).unwrap();
    let tree = quartz_nbt::snbt::parse(std::str::from_utf8(&out).unwrap()).unwrap();
    let mut expected = quartz_nbt::NbtCompound::new();
    expected.insert("owner", quartz_nbt::NbtTag::String(B.to_string()));
    expected.insert("n", quartz_nbt::NbtTag::Int(3));
    assert_eq!(tree, expected);
    let same = swap_nbt_bytes(b"{n:3}", true, &swapper).unwrap();
    assert_eq!(finish_snbt_file(b"{n:3}", &same, &write_snbt(&same.tree)), Err(NbtFileSkip::Unchanged));
}

#[test]
fn chunk_is_written_back_swapped() {
    let map = table();
    let swapper = UuidSwapper::new(&map).unwrap();
    let chunk = written(&sample(A), quartz_nbt::io::Flavor::Uncompressed);
    let s = swap_chunk_bytes(&chunk, &swapper).unwrap();
    let out = finish_chunk(&s, write_binary(&s.tree, &s.root_name, CompressFlavor::Uncompressed)).unwrap();
    assert_eq!(out.len(), chunk.len());
    assert_eq!(out, written(&sample(B), quartz_nbt::io::Flavor::Uncompressed));
}

#[test]
fn written_bytes_are_kept_only_when_they_read_back() {
    let tree = Compound { entries: vec![("k".to_string(), Tag::LongArray(vec![1, -2]))] };
    let w = write_binary(&tree, "", CompressFlavor::Uncompressed);
    assert_eq!(checked_written(&tree, "", CompressFlavor::Uncompressed, w.clone()), w);
    assert_eq!(checked_written(&tree, "x", CompressFlavor::Uncompressed, w.clone()), None);
    assert_eq!(checked_written(&empty_root(), "", CompressFlavor::Uncompressed, w), None);
    assert_eq!(checked_written(&tree, "", CompressFlavor::Uncompressed, None), None);
}

#[test]
fn tree_comparison() {
    let a = Compound { entries: vec![("x".to_string(), Tag::List(vec![Tag::Int(1), Tag::String("s".to_string())]))] };
    let b = Compound { entries: vec![("x".to_string(), Tag::List(vec![Tag::Int(1), Tag::String("s".to_string())]))] };
    let c = Compound { entries: vec![("x".to_string(), Tag::List(vec![Tag::Int(1), Tag::String("t".to_string())]))] };
    let d = Compound { entries: vec![("y".to_string(), Tag::List(vec![Tag::Int(1), Tag::String("s".to_string())]))] };
    assert!(compounds_same(&a, &b));
    assert!(!compounds_same(&a, &c));
    assert!(!compounds_same(&a, &d));
    assert!(tags_same(&Tag::Float(3), &Tag::Float(3)));
    assert!(!tags_same(&Tag::Float(3), &Tag::Int(3)));
    assert!(!tags_same(&Tag::IntArray(vec![1, 2]), &Tag::IntArray(vec![1, 2, 3])));
}

#[test]
fn region_chunk_is_rewritten_and_written_back() {
    let mut inner = std::collections::HashMap::new();
    inner.insert("Owner".to_string(), fastnbt::Value::IntArray(fastnbt::IntArray::new(uuid4_to_i32s(u(A)).to_vec())));
    inner.insert("n".to_string(), fastnbt::Value::Int(9));
    let data = fastnbt::to_bytes(&fastnbt::Value::Compound(inner)).unwrap();
    let mut one_way = std::collections::HashMap::new();
    one_way.insert(u(A), u(B));
    let root = match uuid_remap::region_nbt::swap_chunk_int_arrays(&data, &one_way).unwrap() {
        Tag::Compound(c) => c,
        _ => panic!("not a compound"),
    };
    let w = write_binary(&root, "", CompressFlavor::Uncompressed);
    let out = checked_written(&root, "", CompressFlavor::Uncompressed, w).unwrap();
    assert_eq!(out.len(), data.len());
    let back: fastnbt::Value = fastnbt::from_bytes(&out).unwrap();
    let mut expected = std::collections::HashMap::new();
    expected.insert("Owner".to_string(), fastnbt::Value::IntArray(fastnbt::IntArray::new(uuid4_to_i32s(u(B)).to_vec())));
    expected.insert("n".to_string(), fastnbt::Value::Int(9));
    assert_eq!(back, fastnbt::Value::Compound(expected));
}
