//! Writing a swapped NBT file back: the bytes that the program writes for
//! a swapped tree are kept only when reading them back gives that tree
//! itself.
use vstd::prelude::*;
use crate::content::{bytes_equal, reencoded_text};
use crate::nbt::{Compound, Tag};
use crate::nbt_file::{CompressFlavor, NbtFileSkip, MAX_NBT_DEPTH, detect_compress_flavor, flavor_of, max_bracket_depth, max_depth, snbt_output};
use crate::nbt_io::{SwappedNbt, binary_tree, inflate, inflated, parse_snbt_model, read_binary_nbt, snbt_tree};
use crate::text::chars_of;

verus! {

/// `b` is the tree `a`, tag for tag and entry for entry, in the same order.
pub open spec fn same_tree(a: Tag, b: Tag) -> bool
    decreases a,
{
    match a {
        Tag::List(x) => b matches Tag::List(y) && y@.len() == x@.len() && forall|i: int|
            0 <= i < x@.len() ==> same_tree(#[trigger] x@[i], y@[i]),
        Tag::Compound(c) => b matches Tag::Compound(e) && e.entries@.len() == c.entries@.len() && forall|i: int|
            0 <= i < c.entries@.len() ==> (#[trigger] c.entries@[i]).0@ == e.entries@[i].0@
                && same_tree(c.entries@[i].1, e.entries@[i].1),
        Tag::ByteArray(x) => b matches Tag::ByteArray(y) && y@ == x@,
        Tag::IntArray(x) => b matches Tag::IntArray(y) && y@ == x@,
        Tag::LongArray(x) => b matches Tag::LongArray(y) && y@ == x@,
        Tag::String(x) => b matches Tag::String(y) && y@ == x@,
        _ => b == a,
    }
}

/// Whether two texts are equal.
pub fn strs_same(a: &str, b: &str) -> (r: bool)
    ensures
        r == (a@ == b@),
{
    let x = chars_of(a);
    let y = chars_of(b);
    if x.len() != y.len() {
        assert(x@.len() != y@.len());
        return false;
    }
    let mut i: usize = 0;
    while i < x.len()
        invariant
            x@ == a@,
            y@ == b@,
            x@.len() == y@.len(),
            i <= x@.len(),
            forall|j: int| 0 <= j < i ==> x@[j] == y@[j],
        decreases x@.len() - i,
    {
        if x[i] != y[i] {
            assert(x@[i as int] != y@[i as int]);
            return false;
        }
        i = i + 1;
    }
    assert(x@ =~= y@);
    true
}

fn i8s_same(a: &Vec<i8>, b: &Vec<i8>) -> (r: bool)
    ensures
        r == (a@ == b@),
{
    if a.len() != b.len() {
        return false;
    }
    let mut i: usize = 0;
    while i < a.len()
        invariant
            a@.len() == b@.len(),
            i <= a@.len(),
            forall|j: int| 0 <= j < i ==> a@[j] == b@[j],
        decreases a@.len() - i,
    {
        if a[i] != b[i] {
            return false;
        }
        i = i + 1;
    }
    assert(a@ =~= b@);
    true
}

fn i32s_same(a: &Vec<i32>, b: &Vec<i32>) -> (r: bool)
    ensures
        r == (a@ == b@),
{
    if a.len() != b.len() {
        return false;
    }
    let mut i: usize = 0;
    while i < a.len()
        invariant
            a@.len() == b@.len(),
            i <= a@.len(),
            forall|j: int| 0 <= j < i ==> a@[j] == b@[j],
        decreases a@.len() - i,
    {
        if a[i] != b[i] {
            return false;
        }
        i = i + 1;
    }
    assert(a@ =~= b@);
    true
}

fn i64s_same(a: &Vec<i64>, b: &Vec<i64>) -> (r: bool)
    ensures
        r == (a@ == b@),
{
    if a.len() != b.len() {
        return false;
    }
    let mut i: usize = 0;
    while i < a.len()
        invariant
            a@.len() == b@.len(),
            i <= a@.len(),
            forall|j: int| 0 <= j < i ==> a@[j] == b@[j],
        decreases a@.len() - i,
    {
        if a[i] != b[i] {
            return false;
        }
        i = i + 1;
    }
    assert(a@ =~= b@);
    true
}

/// Whether `b` is the tree `a`, as `same_tree` says.
pub fn tags_same(a: &Tag, b: &Tag) -> (r: bool)
    ensures
        r == same_tree(*a, *b),
    decreases a,
{
    match a {
        Tag::Byte(x) => match b {
            Tag::Byte(y) => *x == *y,
            _ => false,
        },
        Tag::Short(x) => match b {
            Tag::Short(y) => *x == *y,
            _ => false,
        },
        Tag::Int(x) => match b {
            Tag::Int(y) => *x == *y,
            _ => false,
        },
        Tag::Long(x) => match b {
            Tag::Long(y) => *x == *y,
            _ => false,
        },
        Tag::Float(x) => match b {
            Tag::Float(y) => *x == *y,
            _ => false,
        },
        Tag::Double(x) => match b {
            Tag::Double(y) => *x == *y,
            _ => false,
        },
        Tag::ByteArray(x) => match b {
            Tag::ByteArray(y) => i8s_same(x, y),
            _ => false,
        },
        Tag::IntArray(x) => match b {
            Tag::IntArray(y) => i32s_same(x, y),
            _ => false,
        },
        Tag::LongArray(x) => match b {
            Tag::LongArray(y) => i64s_same(x, y),
            _ => false,
        },
        Tag::String(x) => match b {
            Tag::String(y) => strs_same(x.as_str(), y.as_str()),
            _ => false,
        },
        Tag::List(x) => match b {
            Tag::List(y) => {
                if x.len() != y.len() {
                    return false;
                }
                let mut i: usize = 0;
                while i < x.len()
                    invariant
                        *a == Tag::List(*x),
                        *b == Tag::List(*y),
                        x@.len() == y@.len(),
                        i <= x@.len(),
                        forall|j: int| 0 <= j < i ==> same_tree(#[trigger] x@[j], y@[j]),
                    decreases x@.len() - i,
                {
                    proof {
                        assert(decreases_to!(*a => (*a)->List_0));
                        assert(decreases_to!(*x => x@));
                        assert(decreases_to!(x@ => x@[i as int]));
                    }
                    if !tags_same(&x[i], &y[i]) {
                        return false;
                    }
                    i = i + 1;
                }
                true
            },
            _ => false,
        },
        Tag::Compound(c) => match b {
            Tag::Compound(e) => {
                proof {
                    assert(decreases_to!(*a => (*a)->Compound_0));
                }
                compounds_same(c, e)
            },
            _ => false,
        },
    }
}

/// Whether `e` is the compound `c`, as `same_tree` says.
pub fn compounds_same(c: &Compound, e: &Compound) -> (r: bool)
    ensures
        r == same_tree(Tag::Compound(*c), Tag::Compound(*e)),
    decreases c,
{
    if c.entries.len() != e.entries.len() {
        return false;
    }
    let mut i: usize = 0;
    while i < c.entries.len()
        invariant
            c.entries@.len() == e.entries@.len(),
            i <= c.entries@.len(),
            forall|j: int|
                0 <= j < i ==> (#[trigger] c.entries@[j]).0@ == e.entries@[j].0@ && same_tree(
                    c.entries@[j].1,
                    e.entries@[j].1,
                ),
        decreases c.entries@.len() - i,
    {
        proof {
            assert(decreases_to!(*c => c.entries@[i as int].1));
        }
        if !strs_same(c.entries[i].0.as_str(), e.entries[i].0.as_str()) {
            return false;
        }
        if !tags_same(&c.entries[i].1, &e.entries[i].1) {
            return false;
        }
        i = i + 1;
    }
    true
}

/// `written` is binary NBT compressed as `flavor` that reads back as
/// `tree` under the root name `root_name`.
pub open spec fn reads_back(written: Seq<u8>, tree: Compound, root_name: Seq<char>, flavor: CompressFlavor) -> bool {
    flavor_of(written) == flavor && (binary_tree(inflated(written)) matches Some((c, n)) && n == root_name
        && same_tree(Tag::Compound(c), Tag::Compound(tree)))
}

/// `text` is SNBT that reads back as `tree`.
pub open spec fn snbt_reads_back(text: Seq<char>, tree: Compound) -> bool {
    max_depth(vstd::utf8::encode_utf8(text)) <= MAX_NBT_DEPTH && (snbt_tree(text) matches Some(c) && same_tree(
        Tag::Compound(c),
        Tag::Compound(tree),
    ))
}

fn same_flavor(a: CompressFlavor, b: CompressFlavor) -> (r: bool)
    ensures
        r == (a == b),
{
    match a {
        CompressFlavor::GzCompressed => matches!(b, CompressFlavor::GzCompressed),
        CompressFlavor::ZlibCompressed => matches!(b, CompressFlavor::ZlibCompressed),
        CompressFlavor::Uncompressed => matches!(b, CompressFlavor::Uncompressed),
    }
}

/// Whether `written` reads back as `tree`, as `reads_back` says.
pub fn binary_reads_back(written: &[u8], tree: &Compound, root_name: &str, flavor: CompressFlavor) -> (r: bool)
    ensures
        r == reads_back(written@, *tree, root_name@, flavor),
{
    if !same_flavor(detect_compress_flavor(written), flavor) {
        return false;
    }
    let data = inflate(written);
    match read_binary_nbt(data.as_slice()) {
        Some((c, n)) => strs_same(n.as_str(), root_name) && compounds_same(&c, tree),
        None => false,
    }
}

/// Whether `text` reads back as `tree`, as `snbt_reads_back` says.
pub fn snbt_text_reads_back(text: &str, tree: &Compound) -> (r: bool)
    ensures
        r == snbt_reads_back(text@, *tree),
{
    if max_bracket_depth(text) > MAX_NBT_DEPTH {
        return false;
    }
    match parse_snbt_model(text) {
        Some(c) => compounds_same(&c, tree),
        None => false,
    }
}

/// The bytes `written` for `tree` under the root name `root_name`,
/// compressed as `flavor`, kept only when they read back as it: `None` when
/// nothing was written or the bytes read back otherwise.
pub fn checked_written(tree: &Compound, root_name: &str, flavor: CompressFlavor, written: Option<Vec<u8>>) -> (r:
    Option<Vec<u8>>)
    ensures
        r is Some <==> (written matches Some(w) && reads_back(w@, *tree, root_name@, flavor)),
        r is Some ==> r == written,
{
    match written {
        Some(w) => {
            if binary_reads_back(w.as_slice(), tree, root_name, flavor) {
                Some(w)
            } else {
                None
            }
        },
        None => None,
    }
}

/// The bytes to put in place of the binary NBT file `original`, whose
/// swapped tree is `s`, given the bytes `written` for `s`: `Unwritable` when
/// nothing was written or the bytes do not read back as the swapped tree
/// under its root name and compression, `Unchanged` when they equal the
/// original, and the written bytes otherwise.
pub fn finish_binary_file(original: &[u8], s: &SwappedNbt, written: Option<Vec<u8>>) -> (r: Result<
    Vec<u8>,
    NbtFileSkip,
>)
    ensures
        r == Err::<Vec<u8>, NbtFileSkip>(NbtFileSkip::Unwritable) <==> !(written matches Some(w) && reads_back(
            w@,
            s.tree,
            s.root_name@,
            s.flavor,
        )),
        r == Err::<Vec<u8>, NbtFileSkip>(NbtFileSkip::Unchanged) <==> (written matches Some(w) && reads_back(
            w@,
            s.tree,
            s.root_name@,
            s.flavor,
        ) && w@ == original@),
        r matches Err(e) ==> e == NbtFileSkip::Unwritable || e == NbtFileSkip::Unchanged,
        r matches Ok(out) ==> (written matches Some(w) && out == w),
{
    match checked_written(&s.tree, s.root_name.as_str(), s.flavor, written) {
        Some(w) => {
            if bytes_equal(w.as_slice(), original) {
                Err(NbtFileSkip::Unchanged)
            } else {
                Ok(w)
            }
        },
        None => Err(NbtFileSkip::Unwritable),
    }
}

/// The bytes to put in place of the SNBT file `original`, whose swapped
/// tree is `s`, given the SNBT text `text` written for `s`: `Unwritable`
/// when the text does not read back as the swapped tree, `Unchanged` when,
/// encoded in the encoding detected for the original, it gives the original
/// bytes, and those encoded bytes otherwise.
pub fn finish_snbt_file(original: &[u8], s: &SwappedNbt, text: &str) -> (r: Result<Vec<u8>, NbtFileSkip>)
    ensures
        r == Err::<Vec<u8>, NbtFileSkip>(NbtFileSkip::Unwritable) <==> !snbt_reads_back(text@, s.tree),
        r == Err::<Vec<u8>, NbtFileSkip>(NbtFileSkip::Unchanged) <==> snbt_reads_back(text@, s.tree)
            && reencoded_text(original@, text@) == original@,
        r matches Err(e) ==> e == NbtFileSkip::Unwritable || e == NbtFileSkip::Unchanged,
        r matches Ok(out) ==> out@ == reencoded_text(original@, text@),
{
    if !snbt_text_reads_back(text, &s.tree) {
        return Err(NbtFileSkip::Unwritable);
    }
    snbt_output(original, text)
}

/// The uncompressed bytes to put in place of a region chunk whose swapped
/// tree is `s`, given the bytes `written` for it: `Unwritable` when nothing
/// was written or the bytes do not read back as the swapped tree under its
/// root name, uncompressed; the written bytes otherwise.
pub fn finish_chunk(s: &SwappedNbt, written: Option<Vec<u8>>) -> (r: Result<Vec<u8>, NbtFileSkip>)
    ensures
        r is Err <==> !(written matches Some(w) && reads_back(
            w@,
            s.tree,
            s.root_name@,
            CompressFlavor::Uncompressed,
        )),
        r matches Err(e) ==> e == NbtFileSkip::Unwritable,
        r matches Ok(out) ==> (written matches Some(w) && out == w),
{
    match checked_written(&s.tree, s.root_name.as_str(), CompressFlavor::Uncompressed, written) {
        Some(w) => Ok(w),
        None => Err(NbtFileSkip::Unwritable),
    }
}

} // verus!
