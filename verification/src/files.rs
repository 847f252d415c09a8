//! Decisions about single files: which files can be skipped, and the new
//! name of a file whose name holds a UUID.
use vstd::prelude::*;
use crate::swap::replaced_all;
use crate::swapper::UuidSwapper;
use crate::text::chars_of;

verus! {

/// The kind of file that `infer` recognises from the leading bytes.
#[derive(Debug, Clone, Copy, PartialEq, Eq)]
pub enum FileKind {
    App,
    Archive,
    Audio,
    Book,
    Doc,
    Font,
    Image,
    Text,
    Video,
    Custom,
}

/// The kind that `infer` recognises from the leading bytes `head`, if any.
pub uninterp spec fn inferred_kind(head: Seq<u8>) -> Option<FileKind>;

/// The kind of file that the leading bytes announce.
///
/// Trusted: `infer::get` and `infer::Type::matcher_type`; the kind is named,
/// not described.
#[verifier::external_body]
fn infer_kind(head: &[u8]) -> (r: Option<FileKind>)
    ensures
        r == inferred_kind(head@),
{
    infer::get(head).map(|t| match t.matcher_type() {
        infer::MatcherType::App => FileKind::App,
        infer::MatcherType::Archive => FileKind::Archive,
        infer::MatcherType::Audio => FileKind::Audio,
        infer::MatcherType::Book => FileKind::Book,
        infer::MatcherType::Doc => FileKind::Doc,
        infer::MatcherType::Font => FileKind::Font,
        infer::MatcherType::Image => FileKind::Image,
        infer::MatcherType::Text => FileKind::Text,
        infer::MatcherType::Video => FileKind::Video,
        infer::MatcherType::Custom => FileKind::Custom,
    })
}

/// Whether two strings hold the same characters.
pub fn str_eq(a: &str, b: &str) -> (r: bool)
    ensures
        r == (a@ == b@),
{
    let x = chars_of(a);
    let y = chars_of(b);
    if x.len() != y.len() {
        return false;
    }
    let mut i: usize = 0;
    while i < x.len()
        invariant
            x@ == a@,
            y@ == b@,
            x@.len() == y@.len(),
            i <= x@.len(),
            forall|j: int| 0 <= j < i ==> x@[j] == y@[j],
        decreases x@.len() - i,
    {
        if x[i] != y[i] {
            return false;
        }
        i = i + 1;
    }
    assert(x@ =~= y@);
    true
}

/// The extension of this tool's own temporary files.
pub open spec fn temp_ext() -> Seq<char> {
    seq!['u', 'u', 'i', 'd', '_', 'r', 'e', 'm', 'a', 'p', '_', 't', 'm', 'p']
}

/// Archive extensions whose files hold no UUID worth swapping.
pub open spec fn is_archive_ext(ext: Seq<char>) -> bool {
    ||| ext == seq!['g', 'z']
    ||| ext == seq!['j', 'a', 'r']
    ||| ext == seq!['z', 'i', 'p']
    ||| ext == seq!['7', 'z']
    ||| ext == seq!['x', 'z']
}

/// A file of the recognised `kind` with extension `ext` can be skipped: a
/// temporary file of this tool; an archive with an archive extension (a
/// `.dat` file looks like an archive but must be processed); or an
/// application, audio, book, document, font, image or video file.
pub open spec fn skippable(kind: Option<FileKind>, ext: Seq<char>) -> bool {
    match kind {
        None => false,
        Some(k) => {
            ||| ext == temp_ext()
            ||| k == FileKind::Archive && is_archive_ext(ext)
            ||| k == FileKind::App || k == FileKind::Audio || k == FileKind::Book || k == FileKind::Doc
                || k == FileKind::Font || k == FileKind::Image || k == FileKind::Video
        },
    }
}

/// Whether a file can be skipped, judged from its leading bytes `head` (at
/// most the first 8 KiB) and its extension (empty when it has none). Gives
/// the extension back when it can.
pub fn can_skip_this_file(head: &[u8], extension: &str) -> (r: Option<String>)
    ensures
        r is Some <==> skippable(inferred_kind(head@), extension@),
        r matches Some(e) ==> e@ == extension@,
{
    let kind = match infer_kind(head) {
        Some(k) => k,
        None => return None,
    };
    proof {
        reveal_strlit("uuid_remap_tmp");
        reveal_strlit("gz");
        reveal_strlit("jar");
        reveal_strlit("zip");
        reveal_strlit("7z");
        reveal_strlit("xz");
    }
    let temp = str_eq(extension, "uuid_remap_tmp");
    assert("uuid_remap_tmp"@ =~= temp_ext());
    let archive_ext = str_eq(extension, "gz") || str_eq(extension, "jar") || str_eq(extension, "zip")
        || str_eq(extension, "7z") || str_eq(extension, "xz");
    assert(archive_ext == is_archive_ext(extension@)) by {
        assert("gz"@ =~= seq!['g', 'z']);
        assert("jar"@ =~= seq!['j', 'a', 'r']);
        assert("zip"@ =~= seq!['z', 'i', 'p']);
        assert("7z"@ =~= seq!['7', 'z']);
        assert("xz"@ =~= seq!['x', 'z']);
    }
    let skip = match kind {
        FileKind::App | FileKind::Audio | FileKind::Book | FileKind::Doc | FileKind::Font
        | FileKind::Image | FileKind::Video => true,
        FileKind::Archive => temp || archive_ext,
        FileKind::Text | FileKind::Custom => temp,
    };
    if skip {
        Some(extension.to_owned())
    } else {
        None
    }
}

/// The new name of a file called `file_name` once the UUIDs in it are
/// swapped, or `None` when the name holds none.
pub fn renamed_file_name(file_name: &str, swapper: &UuidSwapper) -> (r: Option<String>)
    requires
        swapper.wf(),
    ensures
        ({
            let n = replaced_all(swapper.pattern_forms(), swapper.replacement_forms(), file_name@);
            &&& r is None <==> n == file_name@
            &&& r matches Some(s) ==> s@ == n
        }),
{
    let new_name = swapper.swap_text(file_name);
    if str_eq(new_name.as_str(), file_name) {
        None
    } else {
        Some(new_name)
    }
}

} // verus!
