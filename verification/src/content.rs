//! Swapping UUIDs in the raw contents of a text file: detecting text,
//! decoding it in its detected encoding and writing it back the same way.
use vstd::prelude::*;
use crate::swap::replaced_all;
use crate::swapper::UuidSwapper;

verus! {

/// `b` begins with `prefix`.
pub open spec fn starts_with(b: Seq<u8>, prefix: Seq<u8>) -> bool {
    b.len() >= prefix.len() && b.subrange(0, prefix.len() as int) == prefix
}

/// Whether `content_inspector` takes `b` for text: it begins with a byte
/// order mark, or else its first 1024 bytes hold no zero byte and it does
/// not begin with the `%PDF` or PNG magic number.
pub open spec fn inspected_as_text(b: Seq<u8>) -> bool {
    ||| starts_with(b, seq![0xEFu8, 0xBBu8, 0xBFu8])
    ||| starts_with(b, seq![0x00u8, 0x00u8, 0xFEu8, 0xFFu8])
    ||| starts_with(b, seq![0xFFu8, 0xFEu8])
    ||| starts_with(b, seq![0xFEu8, 0xFFu8])
    ||| {
        &&& forall|i: int| 0 <= i < b.len() && i < 1024 ==> b[i] != 0
        &&& !starts_with(b, seq![0x25u8, 0x50u8, 0x44u8, 0x46u8])
        &&& !starts_with(b, seq![0x89u8, 0x50u8, 0x4Eu8, 0x47u8])
    }
}

/// The text that `b` decodes to in the encoding that `chardetng` detects
/// for it (malformed sequences become U+FFFD).
pub uninterp spec fn decoded_text(b: Seq<u8>) -> Seq<char>;

/// `text` encoded in the encoding that `chardetng` detects for `original`.
pub uninterp spec fn reencoded_text(original: Seq<u8>, text: Seq<char>) -> Seq<u8>;

/// Whether the bytes look like text.
///
/// Trusted: `content_inspector::inspect(..).is_text()`, whose whole rule
/// `inspected_as_text` restates.
#[verifier::external_body]
fn looks_like_text(bytes: &[u8]) -> (r: bool)
    ensures
        r == inspected_as_text(bytes@),
{
    content_inspector::inspect(bytes).is_text()
}

/// Decodes `bytes` in the encoding that `chardetng` guesses for them.
///
/// Trusted: `chardetng::EncodingDetector` (ISO-2022-JP detection allowed,
/// fed all of `bytes`, UTF-8 allowed, no top-level domain) and the guessed
/// encoding's `decode`; the result is named, not described.
#[verifier::external_body]
pub(crate) fn decode_detected(bytes: &[u8]) -> (r: String)
    ensures
        r@ == decoded_text(bytes@),
{
    let mut detector = chardetng::EncodingDetector::new(chardetng::Iso2022JpDetection::Allow);
    detector.feed(bytes, true);
    detector.guess(None, chardetng::Utf8Detection::Allow).decode(bytes).0.into_owned()
}

/// Encodes `text` in the encoding that `chardetng` guesses for `original`.
///
/// Trusted: `chardetng::EncodingDetector` as in `decode_detected`, and the
/// guessed encoding's `encode`; the result is named, not described.
#[verifier::external_body]
pub(crate) fn encode_detected(original: &[u8], text: &str) -> (r: Vec<u8>)
    ensures
        r@ == reencoded_text(original@, text@),
{
    let mut detector = chardetng::EncodingDetector::new(chardetng::Iso2022JpDetection::Allow);
    detector.feed(original, true);
    detector.guess(None, chardetng::Utf8Detection::Allow).encode(text).0.into_owned()
}

/// What swapping UUIDs in a file's contents came to.
#[derive(Debug, PartialEq, Eq)]
pub enum FileContentSwapResult {
    IsBinary,
    NoChange,
    Changed,
}

/// Whether two byte strings are equal.
pub fn bytes_equal(a: &[u8], b: &[u8]) -> (r: bool)
    ensures
        r == (a@ == b@),
{
    if a.len() != b.len() {
        return false;
    }
    let mut i: usize = 0;
    while i < a.len()
        invariant
            a@.len() == b@.len(),
            i <= a@.len(),
            forall|j: int| 0 <= j < i ==> a@[j] == b@[j],
        decreases a@.len() - i,
    {
        if a[i] != b[i] {
            return false;
        }
        i = i + 1;
    }
    assert(a@ =~= b@);
    true
}

/// The file contents `bytes` with their UUIDs swapped, when they are text:
/// decoded in their detected encoding, swapped, and encoded back the same
/// way. Binary contents are `IsBinary`; contents that come back byte for
/// byte the same are `NoChange`; otherwise `Changed` with the new bytes.
pub fn swap_uuids_in_content(bytes: &[u8], swapper: &UuidSwapper) -> (r: (FileContentSwapResult, Vec<u8>))
    requires
        swapper.wf(),
    ensures
        !inspected_as_text(bytes@) ==> r.0 == FileContentSwapResult::IsBinary && r.1@.len() == 0,
        inspected_as_text(bytes@) ==> {
            let swapped = replaced_all(
                swapper.pattern_forms(),
                swapper.replacement_forms(),
                decoded_text(bytes@),
            );
            let encoded = reencoded_text(bytes@, swapped);
            if encoded == bytes@ {
                r.0 == FileContentSwapResult::NoChange && r.1@.len() == 0
            } else {
                r.0 == FileContentSwapResult::Changed && r.1@ == encoded
            }
        },
{
    if !looks_like_text(bytes) {
        return (FileContentSwapResult::IsBinary, Vec::new());
    }
    let text = decode_detected(bytes);
    let new_content = swapper.swap_text(text.as_str());
    let encoded = encode_detected(bytes, new_content.as_str());
    if bytes_equal(encoded.as_slice(), bytes) {
        (FileContentSwapResult::NoChange, Vec::new())
    } else {
        (FileContentSwapResult::Changed, encoded)
    }
}


} // verus!
