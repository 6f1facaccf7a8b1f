use vstd::prelude::*;
use crate::digest::{sha256_hex, sha256_hex_string};
use crate::domain::action::ArtifactRef;
use crate::text::{chars_of, string_from_chars, truncate_utf8, utf8_fit};

verus! {

/// How many bytes of process output are kept inline in the history.
pub const INLINE_OUTPUT_LIMIT: usize = 65536;

/// The line that ends a preview whose full text went to an artifact.
pub open spec fn truncation_note() -> Seq<char> {
    "\n[output truncated; complete content stored as an artifact]\n"@
}

/// Output too long to keep inline: its preview and the artifact that will hold it all.
#[derive(Clone, Debug)]
pub struct ExternalizedOutput {
    pub preview: String,
    pub artifact: ArtifactRef,
    /// The bytes to store in the artifact.
    pub bytes: Vec<u8>,
}

/// Plans where output goes: inline when its UTF-8 encoding takes at most
/// [`INLINE_OUTPUT_LIMIT`] bytes (`None`), else an artifact `artifacts/<file_name>` with
/// the full text, its size and hex SHA-256, and an inline preview cut at the last character
/// boundary within the limit and followed by a note.
pub fn externalize_text(text: &str, file_name: &str) -> (res: Option<ExternalizedOutput>)
    ensures
        res is None <==> vstd::utf8::encode_utf8(text@).len() <= INLINE_OUTPUT_LIMIT,
        res matches Some(o) ==> {
            &&& o.bytes@ == vstd::utf8::encode_utf8(text@)
            &&& o.preview@ == text@.take(utf8_fit(text@, INLINE_OUTPUT_LIMIT as int)) + truncation_note()
            &&& o.artifact.path@ == "artifacts/"@ + file_name@
            &&& o.artifact.size == o.bytes@.len()
            &&& o.artifact.sha256@ == sha256_hex(o.bytes@)
        },
{
    let raw = text.as_bytes();
    if raw.len() <= INLINE_OUTPUT_LIMIT {
        return None;
    }
    let mut bytes: Vec<u8> = Vec::new();
    let mut i: usize = 0;
    while i < raw.len()
        invariant
            i <= raw@.len(),
            bytes@ == raw@.take(i as int),
        decreases raw.len() - i,
    {
        bytes.push(raw[i]);
        i += 1;
        assert(bytes@ =~= raw@.take(i as int));
    }
    assert(raw@.take(raw@.len() as int) =~= raw@);
    let kept = truncate_utf8(text, INLINE_OUTPUT_LIMIT);
    let mut preview = chars_of(kept.as_str());
    let note = chars_of("\n[output truncated; complete content stored as an artifact]\n");
    let ghost base = preview@;
    let mut k: usize = 0;
    while k < note.len()
        invariant
            k <= note@.len(),
            preview@ == base + note@.take(k as int),
        decreases note.len() - k,
    {
        preview.push(note[k]);
        k += 1;
        assert(preview@ =~= base + note@.take(k as int));
    }
    assert(note@.take(note@.len() as int) =~= note@);
    let mut path = chars_of("artifacts/");
    let name = chars_of(file_name);
    let ghost pbase = path@;
    let mut m: usize = 0;
    while m < name.len()
        invariant
            m <= name@.len(),
            path@ == pbase + name@.take(m as int),
        decreases name.len() - m,
    {
        path.push(name[m]);
        m += 1;
        assert(path@ =~= pbase + name@.take(m as int));
    }
    assert(name@.take(name@.len() as int) =~= name@);
    let size = bytes.len() as u64;
    let sha256 = sha256_hex_string(&bytes);
    Some(ExternalizedOutput {
        preview: string_from_chars(&preview),
        artifact: ArtifactRef { path: string_from_chars(&path), size, sha256 },
        bytes,
    })
}

} // verus!
