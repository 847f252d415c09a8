//! Reading an NBT file into the library's tree, binary or SNBT, and the
//! swap of its UUIDs ready to be written back.
use quartz_nbt::NbtTag as QTag;
use quartz_nbt::NbtTag::{Byte, ByteArray, Double, Float, Int, IntArray, Long, LongArray, Short};
use vstd::prelude::*;
use crate::content::decoded_text;
use crate::nbt::{Compound, Tag, compound_swapped};
use crate::nbt_file::{CompressFlavor, NbtFileSkip, MAX_NBT_DEPTH, detect_compress_flavor, flavor_of, max_depth, snbt_text};
use crate::nbt_laws::well_named;
use crate::nbt_scan::{binary_nbt_end, nbt_scan};
use crate::swapper::UuidSwapper;

verus! {

/// Declares the tag type of `quartz_nbt` to Verus.
#[verifier::external_type_specification]
#[verifier::external_body]
pub struct ExQuartzTag(quartz_nbt::NbtTag);

/// Declares the compound type of `quartz_nbt` to Verus.
#[verifier::external_type_specification]
#[verifier::external_body]
pub struct ExQuartzCompound(quartz_nbt::NbtCompound);

/// The library's tag for a `quartz_nbt` tag.
///
/// Trusted: one variant for each variant of `quartz_nbt::NbtTag`, payloads
/// moved as they are (floats by their bits); every compound is a map, so its
/// names come out distinct.
#[verifier::external_body]
fn tag_of(t: &quartz_nbt::NbtTag) -> (r: Tag)
    ensures
        well_named(r),
{
    match t {
        Byte(x) => Tag::Byte(*x),
        Short(x) => Tag::Short(*x),
        Int(x) => Tag::Int(*x),
        Long(x) => Tag::Long(*x),
        Float(x) => Tag::Float(x.to_bits()),
        Double(x) => Tag::Double(x.to_bits()),
        ByteArray(v) => Tag::ByteArray(v.clone()),
        QTag::String(s) => Tag::String(s.clone()),
        QTag::List(l) => Tag::List(l.iter().map(tag_of).collect()),
        QTag::Compound(c) => Tag::Compound(compound_of(c)),
        IntArray(v) => Tag::IntArray(v.clone()),
        LongArray(v) => Tag::LongArray(v.clone()),
    }
}

/// The library's compound for a `quartz_nbt` compound.
///
/// Trusted: each entry of the map `quartz_nbt::NbtCompound::inner`, in the
/// map's own order (with the crate's `preserve_order` feature, an
/// `IndexMap` kept in the order of insertion), its value converted by
/// `tag_of`.
#[verifier::external_body]
fn compound_of(c: &quartz_nbt::NbtCompound) -> (r: Compound)
    ensures
        well_named(Tag::Compound(r)),
{
    Compound { entries: c.inner().iter().map(|(k, v)| (k.clone(), tag_of(v))).collect() }
}

/// What `quartz_nbt::snbt::parse` reads from an SNBT text: its root
/// compound (entries in the order of the text, a repeated name keeping its
/// first place and its last value), or `None` when the text is no SNBT.
pub uninterp spec fn snbt_tree(text: Seq<char>) -> Option<Compound>;

/// What `quartz_nbt::io::read_nbt` reads from uncompressed binary NBT: the
/// root compound (entries in the order of the bytes, a repeated name keeping
/// its first place and its last value) and the root name, or `None` when the
/// bytes hold no NBT.
pub uninterp spec fn nbt_tree(bytes: Seq<u8>) -> Option<(Compound, Seq<char>)>;

/// What a `flate2` gzip decoder gives out of `bytes` before its end or its
/// first error.
pub uninterp spec fn gunzipped(bytes: Seq<u8>) -> Seq<u8>;

/// What a `flate2` zlib decoder gives out of `bytes` before its end or its
/// first error.
pub uninterp spec fn unzlibbed(bytes: Seq<u8>) -> Seq<u8>;

/// The tree of an SNBT text whose brackets nest no deeper than
/// `MAX_NBT_DEPTH`, or `None` when it is not SNBT.
///
/// Trusted: `quartz_nbt::snbt::parse`, which recurses once per nesting
/// level (hence the bound), converted by `compound_of`; its result is
/// `snbt_tree` of the text, whose compounds have distinct names.
#[verifier::external_body]
pub(crate) fn parse_snbt_model(text: &str) -> (r: Option<Compound>)
    requires
        max_depth(vstd::utf8::encode_utf8(text@)) <= MAX_NBT_DEPTH,
    ensures
        r == snbt_tree(text@),
        r matches Some(c) ==> well_named(Tag::Compound(c)),
{
    quartz_nbt::snbt::parse(text).ok().map(|c| compound_of(&c))
}

/// The root compound and root name of uncompressed binary NBT that
/// `binary_nbt_end` accepts, or `None` when it cannot be read.
///
/// Trusted: `quartz_nbt::io::read_nbt` with `Flavor::Uncompressed`, which
/// recurses once per nesting level and allocates by the lengths it reads
/// (hence the scan first); its result is `nbt_tree` of the bytes, whose
/// compounds have distinct names.
#[verifier::external_body]
pub(crate) fn read_nbt_model(bytes: &[u8]) -> (r: Option<(Compound, String)>)
    requires
        nbt_scan(bytes@) >= 0,
    ensures
        r is Some <==> nbt_tree(bytes@) is Some,
        r matches Some((c, n)) ==> nbt_tree(bytes@) == Some((c, n@)) && well_named(Tag::Compound(c)),
{
    let flavor = quartz_nbt::io::Flavor::Uncompressed;
    quartz_nbt::io::read_nbt(&mut std::io::Cursor::new(bytes), flavor).ok().map(|(c, name)| (compound_of(&c), name))
}

/// The bytes that a gzip decoder gives out of `bytes`.
///
/// Trusted: `flate2::read::GzDecoder` read to its end with
/// `Read::read_to_end`; what it gave before an error is kept, which is
/// `gunzipped` of the bytes.
#[verifier::external_body]
fn gunzip(bytes: &[u8]) -> (r: Vec<u8>)
    ensures
        r@ == gunzipped(bytes@),
{
    let mut out = Vec::new();
    let _ = std::io::Read::read_to_end(&mut flate2::read::GzDecoder::new(bytes), &mut out);
    out
}

/// The bytes that a zlib decoder gives out of `bytes`.
///
/// Trusted: `flate2::read::ZlibDecoder` read to its end with
/// `Read::read_to_end`; what it gave before an error is kept, which is
/// `unzlibbed` of the bytes.
#[verifier::external_body]
fn unzlib(bytes: &[u8]) -> (r: Vec<u8>)
    ensures
        r@ == unzlibbed(bytes@),
{
    let mut out = Vec::new();
    let _ = std::io::Read::read_to_end(&mut flate2::read::ZlibDecoder::new(bytes), &mut out);
    out
}

/// The uncompressed NBT of a binary file, by the compression that its first
/// bytes announce.
pub open spec fn inflated(bytes: Seq<u8>) -> Seq<u8> {
    match flavor_of(bytes) {
        CompressFlavor::GzCompressed => gunzipped(bytes),
        CompressFlavor::ZlibCompressed => unzlibbed(bytes),
        CompressFlavor::Uncompressed => bytes,
    }
}

/// The tree of uncompressed binary NBT: `None` when the scan refuses the
/// bytes or they hold no NBT.
pub open spec fn binary_tree(data: Seq<u8>) -> Option<(Compound, Seq<char>)> {
    if nbt_scan(data) < 0 {
        None
    } else {
        nbt_tree(data)
    }
}

/// The uncompressed NBT of a binary NBT file.
pub fn inflate(bytes: &[u8]) -> (r: Vec<u8>)
    ensures
        r@ == inflated(bytes@),
{
    match detect_compress_flavor(bytes) {
        CompressFlavor::GzCompressed => gunzip(bytes),
        CompressFlavor::ZlibCompressed => unzlib(bytes),
        CompressFlavor::Uncompressed => vstd::slice::slice_to_vec(bytes),
    }
}

/// The tree of uncompressed binary NBT, read only where `binary_nbt_end`
/// accepts it.
pub fn read_binary_nbt(data: &[u8]) -> (r: Option<(Compound, String)>)
    ensures
        r is Some <==> binary_tree(data@) is Some,
        r matches Some((c, n)) ==> binary_tree(data@) == Some((c, n@)) && well_named(Tag::Compound(c)),
{
    match binary_nbt_end(data) {
        Some(_) => read_nbt_model(data),
        None => None,
    }
}

/// An NBT file read and swapped, to be written back: the swapped tree, the
/// root name and the compression of the file.
#[derive(Debug)]
pub struct SwappedNbt {
    pub tree: Compound,
    pub root_name: String,
    pub flavor: CompressFlavor,
}

/// The brackets of the text of an SNBT file nest deeper than
/// `MAX_NBT_DEPTH`.
pub open spec fn snbt_too_deep(bytes: Seq<u8>) -> bool {
    max_depth(vstd::utf8::encode_utf8(decoded_text(bytes))) > MAX_NBT_DEPTH
}

/// Reads the NBT file `bytes` (SNBT text when `is_snbt`, binary NBT
/// otherwise) and swaps its UUIDs.
///
/// SNBT is decoded in its detected encoding and refused (`TooDeep`) when
/// its brackets nest deeper than Minecraft allows; it has no root name and
/// no compression. Binary NBT is inflated by the compression its first
/// bytes announce and scanned before it is read. `Unparsable` when the text
/// or bytes hold no NBT tree.
pub fn swap_nbt_bytes(bytes: &[u8], is_snbt: bool, swapper: &UuidSwapper) -> (r: Result<SwappedNbt, NbtFileSkip>)
    requires
        swapper.wf(),
    ensures
        is_snbt ==> (r == Err::<SwappedNbt, NbtFileSkip>(NbtFileSkip::TooDeep) <==> snbt_too_deep(bytes@)),
        is_snbt && !snbt_too_deep(bytes@) ==> (r is Ok <==> snbt_tree(decoded_text(bytes@)) is Some),
        is_snbt ==> (r matches Ok(s) ==> (snbt_tree(decoded_text(bytes@)) matches Some(c)
            && s.flavor == CompressFlavor::Uncompressed && s.root_name@.len() == 0
            && compound_swapped(c, s.tree, swapper.table(), swapper.pattern_forms(), swapper.replacement_forms()))),
        !is_snbt ==> (r is Ok <==> binary_tree(inflated(bytes@)) is Some),
        !is_snbt ==> (r matches Ok(s) ==> (binary_tree(inflated(bytes@)) matches Some((c, n))
            && s.flavor == flavor_of(bytes@) && s.root_name@ == n
            && compound_swapped(c, s.tree, swapper.table(), swapper.pattern_forms(), swapper.replacement_forms()))),
        !is_snbt ==> r != Err::<SwappedNbt, NbtFileSkip>(NbtFileSkip::TooDeep),
        r matches Err(e) ==> e == NbtFileSkip::TooDeep || e == NbtFileSkip::Unparsable,
{
    if is_snbt {
        let text = match snbt_text(bytes) {
            Ok(t) => t,
            Err(e) => return Err(e),
        };
        match parse_snbt_model(text.as_str()) {
            Some(c) => {
                let tree = swapper.swap_compound(&c);
                Ok(SwappedNbt { tree, root_name: String::new(), flavor: CompressFlavor::Uncompressed })
            },
            None => Err(NbtFileSkip::Unparsable),
        }
    } else {
        let flavor = detect_compress_flavor(bytes);
        let data = inflate(bytes);
        match read_binary_nbt(data.as_slice()) {
            Some((c, root_name)) => {
                let tree = swapper.swap_compound(&c);
                Ok(SwappedNbt { tree, root_name, flavor })
            },
            None => Err(NbtFileSkip::Unparsable),
        }
    }
}

/// The uncompressed NBT of one chunk of a region file, read and swapped;
/// `Unparsable` when the bytes hold no NBT tree.
pub fn swap_chunk_bytes(data: &[u8], swapper: &UuidSwapper) -> (r: Result<SwappedNbt, NbtFileSkip>)
    requires
        swapper.wf(),
    ensures
        r is Ok <==> binary_tree(data@) is Some,
        r matches Err(e) ==> e == NbtFileSkip::Unparsable,
        r matches Ok(s) ==> (binary_tree(data@) matches Some((c, n))
            && s.flavor == CompressFlavor::Uncompressed && s.root_name@ == n
            && compound_swapped(c, s.tree, swapper.table(), swapper.pattern_forms(), swapper.replacement_forms())),
{
    match read_binary_nbt(data) {
        Some((c, root_name)) => {
            let tree = swapper.swap_compound(&c);
            Ok(SwappedNbt { tree, root_name, flavor: CompressFlavor::Uncompressed })
        },
        None => Err(NbtFileSkip::Unparsable),
    }
}

} // verus!
