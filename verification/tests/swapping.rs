use std::collections::HashMap;
use uuid_remap::content::{swap_uuids_in_content, FileContentSwapResult};
use uuid_remap::export::{export_jsonc, PlayerData};
use uuid_remap::files::{can_skip_this_file, renamed_file_name};
use uuid_remap::map::SymBiMap;
use uuid_remap::nbt::{Compound, Tag};
use uuid_remap::nbt_file::{snbt_text, NbtFileSkip};
use uuid_remap::swapper::{swap_uuids_in_string, UuidSwapper};
use uuid_remap::uuid_bits::{uuid4_to_i32s, uuid_to_i64pair};

const A: &str = "9db4226c-1015-40da-8fa5-4335aab896b6";
const B: &str = "59c66d96-d356-364a-a84e-0511b286a31b";

fn u(s: &str) -> u128 {
    uuid::Uuid::parse_str(s).unwrap().as_u128()
}

fn swap_table() -> SymBiMap<u128> {
    let mut map = SymBiMap::new();
    map.insert(u(A), u(B)).unwrap();
    map
}

#[test]
fn string_swap_goes_both_ways_once() {
    let map = swap_table();
    let text = format!("owner {} friend {} upper {}", A, B, A.to_uppercase());
    let out = swap_uuids_in_string(&text, &map).unwrap();
    assert_eq!(out, format!("owner {} friend {} upper {}", B, A, B.to_uppercase()));
}

#[test]
fn string_swap_handles_bare_forms() {
    let map = swap_table();
    let bare = A.replace('-', "");
    let out = swap_uuids_in_string(&format!("playerdata/{}.dat", bare), &map).unwrap();
    assert_eq!(out, format!("playerdata/{}.dat", B.replace('-', "")));
}

#[test]
fn string_without_uuid_is_unchanged() {
    let map = swap_table();
    assert_eq!(swap_uuids_in_string("minecraft:stone", &map).unwrap(), "minecraft:stone");
}

#[test]
fn nbt_tree_swaps_every_uuid_form() {
    let map = swap_table();
    let swapper = UuidSwapper::new(&map).unwrap();
    let (most, least) = uuid_to_i64pair(u(A));
    let words = uuid4_to_i32s(u(A));
    let inner = Compound {
        entries: vec![("Owner".to_string(), Tag::IntArray(words.to_vec()))],
    };
    let root = Compound {
        entries: vec![
            ("UUIDMost".to_string(), Tag::Long(most)),
            ("UUIDLeast".to_string(), Tag::Long(least)),
            ("name".to_string(), Tag::String(format!("by {}", A))),
            ("list".to_string(), Tag::List(vec![Tag::Compound(inner)])),
            ("short".to_string(), Tag::IntArray(vec![1, 2, 3])),
            ("count".to_string(), Tag::Int(7)),
        ],
    };
    let out = swapper.swap_compound(&root);
    let (most_b, least_b) = uuid_to_i64pair(u(B));
    assert_eq!(out.entries[0], ("UUIDMost".to_string(), Tag::Long(most_b)));
    assert_eq!(out.entries[1], ("UUIDLeast".to_string(), Tag::Long(least_b)));
    assert_eq!(out.entries[2].1, Tag::String(format!("by {}", B)));
    let expected_inner = Compound {
        entries: vec![("Owner".to_string(), Tag::IntArray(uuid4_to_i32s(u(B)).to_vec()))],
    };
    assert_eq!(out.entries[3].1, Tag::List(vec![Tag::Compound(expected_inner)]));
    assert_eq!(out.entries[4].1, Tag::IntArray(vec![1, 2, 3]));
    assert_eq!(out.entries[5].1, Tag::Int(7));
    let back = swapper.swap_compound(&out);
    assert_eq!(back, root);
}

#[test]
fn lone_most_long_is_left_alone() {
    let map = swap_table();
    let swapper = UuidSwapper::new(&map).unwrap();
    let (most, _) = uuid_to_i64pair(u(A));
    let root = Compound { entries: vec![("OwnerMost".to_string(), Tag::Long(most))] };
    assert_eq!(swapper.swap_compound(&root), root);
}

#[test]
fn content_swap_results() {
    let map = swap_table();
    let swapper = UuidSwapper::new(&map).unwrap();
    let text = format!("{{\"owner\": \"{}\"}}", A);
    let (result, bytes) = swap_uuids_in_content(text.as_bytes(), &swapper);
    assert_eq!(result, FileContentSwapResult::Changed);
    assert_eq!(String::from_utf8(bytes).unwrap(), format!("{{\"owner\": \"{}\"}}", B));
    let (result, bytes) = swap_uuids_in_content(b"no uuid here", &swapper);
    assert_eq!(result, FileContentSwapResult::NoChange);
    assert!(bytes.is_empty());
    let (result, _) = swap_uuids_in_content(&[1, 0, 2, 3], &swapper);
    assert_eq!(result, FileContentSwapResult::IsBinary);
}

#[test]
fn skip_decisions() {
    let png = [0x89, 0x50, 0x4E, 0x47, 0x0D, 0x0A, 0x1A, 0x0A, 0, 0, 0, 0];
    assert_eq!(can_skip_this_file(&png, "png"), Some("png".to_string()));
    let gz = [0x1f, 0x8b, 0x08, 0, 0, 0, 0, 0];
    assert_eq!(can_skip_this_file(&gz, "gz"), Some("gz".to_string()));
    assert_eq!(can_skip_this_file(&gz, "dat"), None);
    assert_eq!(can_skip_this_file(b"plain text", "txt"), None);
    assert_eq!(can_skip_this_file(&png, "uuid_remap_tmp"), Some("uuid_remap_tmp".to_string()));
}

#[test]
fn renamed_names() {
    let map = swap_table();
    let swapper = UuidSwapper::new(&map).unwrap();
    assert_eq!(renamed_file_name(&format!("{}.dat", A), &swapper), Some(format!("{}.dat", B)));
    assert_eq!(renamed_file_name("level.dat", &swapper), None);
}

#[test]
fn snbt_depth_is_checked() {
    assert_eq!(snbt_text("[".repeat(600).as_bytes()), Err(NbtFileSkip::TooDeep));
    assert_eq!(snbt_text(b"{a:[1]}").unwrap(), "{a:[1]}");
}

#[test]
fn jsonc_export_names_players() {
    let map = swap_table();
    let mut names = HashMap::new();
    names.insert(
        u(A),
        PlayerData { avatar: None, name: "Peter_2500".to_string(), mode: "Online".to_string() },
    );
    let text = export_jsonc(&map, &names);
    let line = if text.contains(&format!("\"{}\": \"{}\"", A, B)) {
        format!("{{\n    // Peter_2500[Online] <-> <anonymous>\n    \"{}\": \"{}\"\n}}", A, B)
    } else {
        format!("{{\n    // <anonymous> <-> Peter_2500[Online]\n    \"{}\": \"{}\"\n}}", B, A)
    };
    assert_eq!(text, line);
    let empty: SymBiMap<u128> = SymBiMap::new();
    assert_eq!(export_jsonc(&empty, &HashMap::new()), "{\n}");
}

#[test]
fn empty_table_leaves_text_as_it_is() {
    let map: SymBiMap<u128> = SymBiMap::new();
    let text = format!("owner {}", A);
    assert_eq!(swap_uuids_in_string(&text, &map), Some(text.clone()));
    assert!(UuidSwapper::new(&map).is_some());
}
