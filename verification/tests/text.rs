use uuid_remap::players::collect_player_uuids;
use uuid_remap::nbt_file::{detect_compress_flavor, max_bracket_depth, CompressFlavor};
use uuid_remap::uuid_text::{uuid_map_variants, uuid_variants};

#[test]
fn bracket_depth() {
    assert_eq!(max_bracket_depth(""), 0);
    assert_eq!(max_bracket_depth("{a:[1,2],b:[3]}"), 2);
    assert_eq!(max_bracket_depth("]]]{["), 2);
    assert_eq!(max_bracket_depth(&"[".repeat(1000)), 1000);
}

#[test]
fn compress_flavor_from_magic() {
    assert_eq!(detect_compress_flavor(&[0x1f, 0x8b, 0]), CompressFlavor::GzCompressed);
    assert_eq!(detect_compress_flavor(&[0x78, 0x9c]), CompressFlavor::ZlibCompressed);
    assert_eq!(detect_compress_flavor(&[0x78, 0x01]), CompressFlavor::ZlibCompressed);
    assert_eq!(detect_compress_flavor(&[0x78, 0xda]), CompressFlavor::ZlibCompressed);
    assert_eq!(detect_compress_flavor(&[0x78]), CompressFlavor::Uncompressed);
    assert_eq!(detect_compress_flavor(&[0x0a, 0x00]), CompressFlavor::Uncompressed);
}

#[test]
fn variants_cover_four_forms() {
    let from = uuid::Uuid::parse_str("9db4226c-1015-40da-8fa5-4335aab896b6").unwrap().as_u128();
    let to = uuid::Uuid::parse_str("59c66d96-d356-364a-a84e-0511b286a31b").unwrap().as_u128();
    let (p, r) = uuid_variants(from, to);
    assert_eq!(
        p,
        vec![
            "9db4226c-1015-40da-8fa5-4335aab896b6",
            "9DB4226C-1015-40DA-8FA5-4335AAB896B6",
            "9db4226c101540da8fa54335aab896b6",
            "9DB4226C101540DA8FA54335AAB896B6"
        ]
    );
    assert_eq!(r[0], "59c66d96-d356-364a-a84e-0511b286a31b");
    assert_eq!(r[3], "59C66D96D356364AA84E0511B286A31B");
    let (ps, rs) = uuid_map_variants(&vec![(from, to), (to, from)]);
    assert_eq!(ps.len(), 8);
    assert_eq!(ps[4], r[0]);
    assert_eq!(rs[4], p[0]);
}

#[test]
fn player_files_name_each_player_once() {
    let a = "9db4226c-1015-40da-8fa5-4335aab896b6";
    let b = "59c66d96-d356-364a-a84e-0511b286a31b";
    let names = vec![a.to_string(), "level".to_string(), b.to_string(), a.to_string()];
    let found = collect_player_uuids(&names);
    let want: Vec<u128> = vec![
        uuid::Uuid::parse_str(a).unwrap().as_u128(),
        uuid::Uuid::parse_str(b).unwrap().as_u128(),
    ];
    assert_eq!(found, want);
}
