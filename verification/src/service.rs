use vstd::prelude::*;
use crate::digest::{push_bytes, sha256_digest, sha256_of};
use crate::paths::{components, path_components, ComponentView, PathComponent};
use crate::text::{chars_of, decimal, decimal_text, str_is, string_from_chars};

verus! {

/// An ASCII letter.
pub open spec fn is_ascii_letter(c: char) -> bool {
    ('a' <= c && c <= 'z') || ('A' <= c && c <= 'Z')
}

/// An ASCII decimal digit.
pub open spec fn is_ascii_digit(c: char) -> bool {
    '0' <= c && c <= '9'
}

/// A portable environment variable name: a letter or `_`, then letters, digits and `_`.
pub open spec fn spec_valid_environment_name(name: Seq<char>) -> bool {
    &&& name.len() > 0
    &&& (name[0] == '_' || is_ascii_letter(name[0]))
    &&& forall|i: int| 1 <= i < name.len() ==> #[trigger] name[i] == '_' || is_ascii_letter(name[i]) || is_ascii_digit(name[i])
}

/// Whether `name` is a portable environment variable name (the variable that holds an API key).
pub fn valid_environment_name(name: &str) -> (res: bool)
    ensures
        res == spec_valid_environment_name(name@),
{
    let chars = chars_of(name);
    if chars.len() == 0 {
        return false;
    }
    let first = chars[0];
    if !(first == '_' || ('a' <= first && first <= 'z') || ('A' <= first && first <= 'Z')) {
        return false;
    }
    let mut i: usize = 1;
    while i < chars.len()
        invariant
            chars@ == name@,
            1 <= i <= chars@.len(),
            forall|j: int| 1 <= j < i ==> #[trigger] chars@[j] == '_' || is_ascii_letter(chars@[j]) || is_ascii_digit(chars@[j]),
        decreases chars.len() - i,
    {
        let c = chars[i];
        if !(c == '_' || ('a' <= c && c <= 'z') || ('A' <= c && c <= 'Z') || ('0' <= c && c <= '9')) {
            return false;
        }
        i += 1;
    }
    true
}

/// The components of `path` lead into the session's `artifacts` directory and go nowhere
/// else: the first is `artifacts`, and every one is a plain name (no root, `.` or `..`).
pub open spec fn spec_safe_artifact_path(path: Seq<char>) -> bool {
    let cs = components(path);
    &&& cs.len() > 0
    &&& cs[0] == ComponentView::Normal("artifacts"@)
    &&& forall|i: int| 0 <= i < cs.len() ==> #[trigger] cs[i] is Normal
}

/// Whether the session-relative `path` names something inside the `artifacts` directory.
pub fn safe_artifact_relative_path(path: &str) -> (res: bool)
    ensures
        res == spec_safe_artifact_path(path@),
{
    let parts = path_components(path);
    let ghost cs = components(path@);
    proof {
        assert(parts@.len() == cs.len()) by {
            assert(parts@.map_values(|c: PathComponent| c@).len() == parts@.len());
        }
        assert forall|i: int| 0 <= i < parts@.len() implies #[trigger] parts@[i]@ == cs[i] by {
            assert(parts@.map_values(|c: PathComponent| c@)[i] == parts@[i]@);
        }
    }
    if parts.len() == 0 {
        return false;
    }
    assert(parts@[0]@ == cs[0]);
    let first_ok = match &parts[0] {
        PathComponent::Normal(name) => str_is(name.as_str(), "artifacts"),
        _ => false,
    };
    if !first_ok {
        return false;
    }
    let mut i: usize = 0;
    while i < parts.len()
        invariant
            i <= parts@.len(),
            parts@.len() == cs.len(),
            cs == components(path@),
            forall|j: int| 0 <= j < parts@.len() ==> #[trigger] parts@[j]@ == cs[j],
            forall|j: int| 0 <= j < i ==> #[trigger] cs[j] is Normal,
        decreases parts.len() - i,
    {
        assert(parts@[i as int]@ == cs[i as int]);
        match &parts[i] {
            PathComponent::Normal(_) => {},
            _ => {
                assert(!(cs[i as int] is Normal));
                return false;
            },
        }
        i += 1;
    }
    true
}

/// The value of the decimal digits `ds`.
pub open spec fn digits_value(ds: Seq<char>) -> nat
    decreases ds.len(),
{
    if ds.len() == 0 {
        0
    } else {
        digits_value(ds.drop_last()) * 10 + (ds.last() as nat - '0' as nat) as nat
    }
}

/// The digits of an unsigned decimal numeral: all after an optional leading `+`.
pub open spec fn numeral_digits(s: Seq<char>) -> Seq<char> {
    if s.len() > 0 && s[0] == '+' {
        s.drop_first()
    } else {
        s
    }
}

/// The `usize` that `s` spells (`str::parse::<usize>`): an optional `+` and at least one
/// decimal digit, of a value that fits.
pub open spec fn spec_parse_usize(s: Seq<char>) -> Option<nat> {
    let ds = numeral_digits(s);
    if ds.len() > 0 && (forall|i: int| 0 <= i < ds.len() ==> #[trigger] is_ascii_digit(ds[i]))
        && digits_value(ds) <= usize::MAX {
        Some(digits_value(ds))
    } else {
        None
    }
}

proof fn lemma_digits_value_grows(ds: Seq<char>, i: int, j: int)
    requires
        0 <= i <= j <= ds.len(),
        forall|k: int| 0 <= k < ds.len() ==> #[trigger] is_ascii_digit(ds[k]),
    ensures
        digits_value(ds.take(i)) <= digits_value(ds.take(j)),
    decreases j - i,
{
    if i < j {
        lemma_digits_value_grows(ds, i, j - 1);
        assert(ds.take(j).drop_last() =~= ds.take(j - 1));
        assert(is_ascii_digit(ds[j - 1]));
    }
}

/// Parses an unsigned decimal numeral as `str::parse::<usize>` does.
pub fn parse_usize(text: &str) -> (res: Option<usize>)
    ensures
        match res {
            Some(n) => spec_parse_usize(text@) == Some(n as nat),
            None => spec_parse_usize(text@) is None,
        },
{
    let chars = chars_of(text);
    let start: usize = if chars.len() > 0 && chars[0] == '+' { 1 } else { 0 };
    let ghost ds = numeral_digits(text@);
    assert(ds =~= chars@.subrange(start as int, chars@.len() as int));
    if start == chars.len() {
        return None;
    }
    let mut i: usize = start;
    while i < chars.len()
        invariant
            chars@ == text@,
            start <= i <= chars@.len(),
            ds == chars@.subrange(start as int, chars@.len() as int),
            ds == numeral_digits(text@),
            forall|k: int| start <= k < i ==> #[trigger] is_ascii_digit(chars@[k]),
        decreases chars.len() - i,
    {
        let c = chars[i];
        if !('0' <= c && c <= '9') {
            assert(!is_ascii_digit(ds[i - start]));
            return None;
        }
        i += 1;
    }
    assert forall|k: int| 0 <= k < ds.len() implies #[trigger] is_ascii_digit(ds[k]) by {
        assert(ds[k] == chars@[start + k]);
    }
    let mut value: usize = 0;
    let mut j: usize = start;
    assert(ds.take(0) =~= Seq::<char>::empty());
    while j < chars.len()
        invariant
            chars@ == text@,
            start <= j <= chars@.len(),
            ds == chars@.subrange(start as int, chars@.len() as int),
            ds == numeral_digits(text@),
            forall|k: int| 0 <= k < ds.len() ==> #[trigger] is_ascii_digit(ds[k]),
            value as nat == digits_value(ds.take(j - start)),
        decreases chars.len() - j,
    {
        let ghost k = j - start;
        assert(ds.take(k + 1).drop_last() =~= ds.take(k));
        assert(ds.take(k + 1).last() == chars@[j as int]);
        assert(is_ascii_digit(ds[k]));
        let digit = chars[j] as u32 - '0' as u32;
        let digit: usize = digit as usize;
        assert(digits_value(ds.take(k + 1)) == value * 10 + digit);
        let next = match value.checked_mul(10) {
            Some(v) => v.checked_add(digit),
            None => None,
        };
        match next {
            Some(v) => {
                value = v;
            },
            None => {
                proof {
                    lemma_digits_value_grows(ds, k + 1, ds.len() as int);
                    assert(ds.take(ds.len() as int) =~= ds);
                }
                return None;
            },
        }
        j += 1;
    }
    assert(ds.take(ds.len() as int) =~= ds);
    Some(value)
}

/// Where a page of results ends, and whether more follow.
#[derive(Clone, Debug)]
pub struct PageInfo {
    pub next_cursor: Option<String>,
    pub has_more: bool,
}

/// Why a page cannot be served.
#[derive(Clone, Debug, PartialEq, Eq, Structural)]
pub enum PageError {
    /// The cursor is not a decimal position.
    InvalidCursor,
    /// The cursor points past the end of the results.
    CursorBeyondEnd,
}

/// Where a page that starts at `start` with room for `limit` items ends among `len`.
pub open spec fn page_end(start: nat, limit: nat, len: nat) -> nat {
    if start + limit < len { start + limit } else { len }
}

/// One page of `items`: the items from the position that `cursor` spells (from the start
/// when there is no cursor), at most `limit` of them, and the position of the next page
/// when more follow.
pub fn paginate<T>(items: Vec<T>, cursor: Option<&str>, limit: usize) -> (res: Result<(Vec<T>, PageInfo), PageError>)
    ensures
        ({
            let start = match cursor {
                Some(c) => spec_parse_usize(c@),
                None => Some(0nat),
            };
            match res {
                Err(e) => match start {
                    None => e == PageError::InvalidCursor,
                    Some(s) => s > items@.len() && e == PageError::CursorBeyondEnd,
                },
                Ok((page, info)) => start matches Some(s) && s <= items@.len() && {
                    let end = page_end(s, limit as nat, items@.len());
                    &&& page@ == items@.subrange(s as int, end as int)
                    &&& info.has_more == (end < items@.len())
                    &&& match info.next_cursor {
                        Some(t) => info.has_more && t@ == decimal(end),
                        None => !info.has_more,
                    }
                },
            }
        }),
{
    let start = match cursor {
        Some(c) => match parse_usize(c) {
            Some(s) => s,
            None => {
                return Err(PageError::InvalidCursor);
            },
        },
        None => 0,
    };
    if start > items.len() {
        return Err(PageError::CursorBeyondEnd);
    }
    let end = if limit < items.len() - start { start + limit } else { items.len() };
    let has_more = end < items.len();
    let mut items = items;
    items.truncate(end);
    let page = items.split_off(start);
    let next_cursor = if has_more {
        Some(string_from_chars(&decimal_text(end as u64)))
    } else {
        None
    };
    Ok((page, PageInfo { next_cursor, has_more }))
}

/// Byte `i` (0 = most significant) of `x` in big-endian order.
pub open spec fn be_byte(x: u128, i: int) -> u8 {
    ((x >> (8 * (15 - i)) as u128) & 0xff) as u8
}

/// The sixteen big-endian bytes of `x` (the bytes of the UUID whose value is `x`).
pub open spec fn u128_be(x: u128) -> Seq<u8> {
    Seq::new(16, |i: int| be_byte(x, i))
}

/// Appends the big-endian bytes of `x`.
fn push_u128_be(out: &mut Vec<u8>, x: u128)
    ensures
        final(out)@ == old(out)@ + u128_be(x),
{
    let ghost start = out@;
    let mut i: u32 = 0;
    while i < 16
        invariant
            i <= 16,
            out@.len() == start.len() + i,
            out@.subrange(0, start.len() as int) == start,
            forall|j: int| 0 <= j < i ==> #[trigger] out@[start.len() + j] == be_byte(x, j),
        decreases 16 - i,
    {
        let b = #[verifier::truncate] (((x >> (8 * (15 - i))) & 0xff) as u8);
        out.push(b);
        i += 1;
    }
    assert forall|k: int| 0 <= k < out@.len() implies out@[k] == (start + u128_be(x))[k] by {
        if k < start.len() {
            assert(out@.subrange(0, start.len() as int)[k] == out@[k]);
        } else {
            assert(out@[start.len() + (k - start.len())] == out@[k]);
        }
    }
    assert(out@ =~= start + u128_be(x));
}

/// What an artifact's identifier is derived from: the session's UUID bytes, a zero byte and
/// the UTF-8 bytes of the artifact's session-relative path.
pub open spec fn artifact_id_input(session_id: u128, path: Seq<char>) -> Seq<u8> {
    u128_be(session_id) + seq![0u8] + vstd::utf8::encode_utf8(path)
}

/// The first sixteen bytes of `digest`, marked as a version-5 UUID of the RFC 4122 variant.
pub open spec fn uuid_from_digest(digest: Seq<u8>) -> Seq<u8> {
    digest.take(16).update(6, (digest[6] & 0x0f) | 0x50).update(8, (digest[8] & 0x3f) | 0x80)
}

/// The stable identifier of the artifact at `path` in the session `session_id`: the UUID
/// bytes made from the SHA-256 digest of [`artifact_id_input`].
pub fn artifact_id(session_id: u128, path: &str) -> (res: Vec<u8>)
    ensures
        res@ == uuid_from_digest(sha256_of(artifact_id_input(session_id, path@))),
        res@.len() == 16,
{
    let mut input: Vec<u8> = Vec::new();
    push_u128_be(&mut input, session_id);
    input.push(0u8);
    push_bytes(&mut input, path.as_bytes());
    assert(input@ =~= artifact_id_input(session_id, path@));
    let digest = sha256_digest(input.as_slice());
    let mut bytes: Vec<u8> = Vec::new();
    let mut i: usize = 0;
    while i < 16
        invariant
            i <= 16,
            digest@.len() == 32,
            bytes@ == digest@.take(i as int),
        decreases 16 - i,
    {
        bytes.push(digest[i]);
        assert(digest@.take(i + 1) =~= digest@.take(i as int).push(digest@[i as int]));
        i += 1;
    }
    let b6 = (digest[6] & 0x0f) | 0x50;
    let b8 = (digest[8] & 0x3f) | 0x80;
    bytes.set(6, b6);
    bytes.set(8, b8);
    bytes
}

} // verus!
