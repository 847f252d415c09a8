//! The checks around reading and writing an NBT file: SNBT nesting depth,
//! the compression a binary file uses, and whether anything changed.
use vstd::prelude::*;
use crate::content::{bytes_equal, decoded_text, reencoded_text};

verus! {

/// Minecraft's own limit on NBT nesting depth.
pub const MAX_NBT_DEPTH: usize = 512;

/// The bracket nesting depth after reading all of `b`: `[` and `{` open,
/// `]` and `}` close, and a close at depth zero stays at zero.
pub open spec fn depth_after(b: Seq<u8>) -> nat
    decreases b.len(),
{
    if b.len() == 0 {
        0
    } else {
        let d = depth_after(b.drop_last());
        let c = b.last();
        if c == 0x5B || c == 0x7B {
            d + 1
        } else if c == 0x5D || c == 0x7D {
            if d == 0 { 0 } else { (d - 1) as nat }
        } else {
            d
        }
    }
}

/// The greatest nesting depth reached while reading `b`.
pub open spec fn max_depth(b: Seq<u8>) -> nat
    decreases b.len(),
{
    if b.len() == 0 {
        0
    } else {
        let m = max_depth(b.drop_last());
        let d = depth_after(b);
        if d > m { d } else { m }
    }
}

proof fn lemma_depth_bounded(b: Seq<u8>)
    ensures
        depth_after(b) <= b.len(),
        max_depth(b) <= b.len(),
    decreases b.len(),
{
    if b.len() > 0 {
        lemma_depth_bounded(b.drop_last());
    }
}

/// `[` and `{` open a bracket group.
pub open spec fn opens(c: u8) -> bool {
    c == 0x5B || c == 0x7B
}

/// `]` and `}` close a bracket group.
pub open spec fn closes(c: u8) -> bool {
    c == 0x5D || c == 0x7D
}

/// The openers of `g` less its closers.
pub open spec fn excess(g: Seq<u8>) -> int
    decreases g.len(),
{
    if g.len() == 0 {
        0
    } else {
        excess(g.drop_last()) + if opens(g.last()) {
            1int
        } else if closes(g.last()) {
            -1int
        } else {
            0int
        }
    }
}

/// No prefix of `g` closes more groups than it opens.
pub open spec fn never_below(g: Seq<u8>) -> bool {
    forall|k: int| 0 <= k <= g.len() ==> #[trigger] excess(g.take(k)) >= 0
}

/// `g` is a balanced bracket text: it closes every group it opens, and
/// never one it did not open.
pub open spec fn balanced(g: Seq<u8>) -> bool {
    never_below(g) && excess(g) == 0
}

/// The greatest excess of openers over closers among the prefixes of `g`.
pub open spec fn peak(g: Seq<u8>) -> int
    decreases g.len(),
{
    if g.len() == 0 {
        0
    } else {
        let p = peak(g.drop_last());
        if excess(g) > p { excess(g) } else { p }
    }
}

proof fn lemma_max_at_least_depth(b: Seq<u8>)
    ensures
        max_depth(b) >= depth_after(b),
{
}

proof fn lemma_never_below_drop_last(g: Seq<u8>)
    requires
        never_below(g),
        g.len() > 0,
    ensures
        never_below(g.drop_last()),
{
    assert forall|k: int| 0 <= k <= g.drop_last().len() implies #[trigger] excess(g.drop_last().take(k)) >= 0 by {
        assert(g.drop_last().take(k) =~= g.take(k));
    }
}

/// Reading a text that never closes more groups than it opened moves the
/// depth by exactly its excess of openers over closers, and the greatest
/// depth becomes the greater of the one before and the depth before plus
/// the highest excess over the text's prefixes.
pub proof fn lemma_depth_over(x: Seq<u8>, g: Seq<u8>)
    requires
        never_below(g),
    ensures
        depth_after(x + g) == depth_after(x) + excess(g),
        max_depth(x + g) == if max_depth(x) > depth_after(x) + peak(g) {
            max_depth(x) as int
        } else {
            depth_after(x) + peak(g)
        },
    decreases g.len(),
{
    lemma_max_at_least_depth(x);
    if g.len() == 0 {
        assert(x + g =~= x);
    } else {
        let h = g.drop_last();
        lemma_never_below_drop_last(g);
        lemma_depth_over(x, h);
        assert((x + g).drop_last() =~= x + h);
        assert((x + g).last() == g.last());
        assert(g.take(g.len() as int) =~= g);
        assert(excess(g.take(g.len() as int)) >= 0);
    }
}

/// Both `]` and `}` close a level: a balanced bracket group leaves the
/// depth as it found it, and a second sibling group after it reaches no
/// greater depth than the first, so the greatest depth of a text does not
/// grow with the number of sibling groups it holds.
pub proof fn lemma_balanced_groups(x: Seq<u8>, g: Seq<u8>)
    requires
        balanced(g),
    ensures
        depth_after(x + g) == depth_after(x),
        depth_after(x + g + g) == depth_after(x),
        max_depth(x + g + g) == max_depth(x + g),
{
    lemma_depth_over(x, g);
    lemma_depth_over(x + g, g);
}

/// The greatest bracket nesting depth in `text`, found by one linear scan
/// (so that deeply nested text can be refused before a recursive parser
/// sees it).
pub fn max_bracket_depth(text: &str) -> (r: usize)
    ensures
        r == max_depth(vstd::utf8::encode_utf8(text@)),
{
    let bytes = text.as_bytes();
    let mut depth: usize = 0;
    let mut max: usize = 0;
    let mut i: usize = 0;
    while i < bytes.len()
        invariant
            i <= bytes@.len(),
            depth == depth_after(bytes@.take(i as int)),
            max == max_depth(bytes@.take(i as int)),
        decreases bytes@.len() - i,
    {
        proof {
            lemma_depth_bounded(bytes@.take(i as int));
            assert(bytes@.take(i + 1).drop_last() =~= bytes@.take(i as int));
        }
        let c = bytes[i];
        if c == 0x5B || c == 0x7B {
            depth = depth + 1;
            if depth > max {
                max = depth;
            }
        } else if c == 0x5D || c == 0x7D {
            depth = if depth == 0 { 0 } else { depth - 1 };
        }
        i = i + 1;
    }
    assert(bytes@.take(bytes@.len() as int) =~= bytes@);
    max
}

/// How a binary NBT file is compressed.
#[derive(Debug, Clone, Copy, PartialEq, Eq)]
pub enum CompressFlavor {
    GzCompressed,
    ZlibCompressed,
    Uncompressed,
}

/// The compression that the leading bytes announce: the gzip magic
/// `1f 8b`, or a zlib header `78 01`, `78 9c` or `78 da`.
pub open spec fn flavor_of(data: Seq<u8>) -> CompressFlavor {
    if data.len() >= 2 && data[0] == 0x1F && data[1] == 0x8B {
        CompressFlavor::GzCompressed
    } else if data.len() >= 2 && data[0] == 0x78 && (data[1] == 0x9C || data[1] == 0x01 || data[1] == 0xDA) {
        CompressFlavor::ZlibCompressed
    } else {
        CompressFlavor::Uncompressed
    }
}

/// The compression of a binary NBT file, from its first two bytes.
pub fn detect_compress_flavor(data: &[u8]) -> (r: CompressFlavor)
    ensures
        r == flavor_of(data@),
{
    if data.len() >= 2 && data[0] == 0x1F && data[1] == 0x8B {
        CompressFlavor::GzCompressed
    } else if data.len() >= 2 && data[0] == 0x78 && (data[1] == 0x9C || data[1] == 0x01 || data[1] == 0xDA) {
        CompressFlavor::ZlibCompressed
    } else {
        CompressFlavor::Uncompressed
    }
}

/// Why an NBT file was left as it was.
#[derive(Debug, PartialEq, Eq)]
pub enum NbtFileSkip {
    /// The brackets of an SNBT text nest deeper than `MAX_NBT_DEPTH`.
    TooDeep,
    /// Swapping changed no byte of the file.
    Unchanged,
    /// The file holds no NBT tree.
    Unparsable,
    /// The bytes written for the swapped tree do not read back as it.
    Unwritable,
}

/// The text of an SNBT file, decoded in its detected encoding; refused when
/// its brackets nest deeper than Minecraft allows.
pub fn snbt_text(bytes: &[u8]) -> (r: Result<String, NbtFileSkip>)
    ensures
        match r {
            Ok(text) => text@ == decoded_text(bytes@) && max_depth(vstd::utf8::encode_utf8(text@)) <= MAX_NBT_DEPTH,
            Err(e) => e == NbtFileSkip::TooDeep && max_depth(vstd::utf8::encode_utf8(decoded_text(bytes@))) > MAX_NBT_DEPTH,
        },
{
    let text = crate::content::decode_detected(bytes);
    if max_bracket_depth(text.as_str()) > MAX_NBT_DEPTH {
        Err(NbtFileSkip::TooDeep)
    } else {
        Ok(text)
    }
}

/// The bytes to write back for an SNBT file whose swapped text is
/// `new_text`: encoded in the encoding detected for the original bytes;
/// `Unchanged` when they equal the original.
pub fn snbt_output(original: &[u8], new_text: &str) -> (r: Result<Vec<u8>, NbtFileSkip>)
    ensures
        reencoded_text(original@, new_text@) == original@ <==> r == Err::<Vec<u8>, NbtFileSkip>(NbtFileSkip::Unchanged),
        r matches Err(e) ==> e == NbtFileSkip::Unchanged,
        r matches Ok(out) ==> out@ == reencoded_text(original@, new_text@),
{
    let encoded = crate::content::encode_detected(original, new_text);
    if bytes_equal(encoded.as_slice(), original) {
        Err(NbtFileSkip::Unchanged)
    } else {
        Ok(encoded)
    }
}

/// The bytes to write back for a binary NBT file: `Unchanged` when the
/// newly written bytes equal the original.
pub fn binary_output(original: &[u8], written: Vec<u8>) -> (r: Result<Vec<u8>, NbtFileSkip>)
    ensures
        written@ == original@ <==> r == Err::<Vec<u8>, NbtFileSkip>(NbtFileSkip::Unchanged),
        r matches Err(e) ==> e == NbtFileSkip::Unchanged,
        r matches Ok(out) ==> out@ == written@,
{
    if bytes_equal(written.as_slice(), original) {
        Err(NbtFileSkip::Unchanged)
    } else {
        Ok(written)
    }
}


/// A chunk of a region file can be written back in place only when its
/// rewritten NBT has exactly the length of the original.
pub fn chunk_length_kept(original_len: usize, rewritten_len: usize) -> (r: bool)
    ensures
        r == (original_len == rewritten_len),
{
    original_len == rewritten_len
}

} // verus!
