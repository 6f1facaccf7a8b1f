use vstd::prelude::*;

verus! {

/// The SHA-256 digest of `data`.
pub uninterp spec fn sha256_of(data: Seq<u8>) -> Seq<u8>;

/// `sha2::Sha256::digest`: the SHA-256 digest of `data`, which is 32 bytes long.
#[verifier::external_body]
pub(crate) fn sha256_digest(data: &[u8]) -> (res: Vec<u8>)
    ensures
        res@ == sha256_of(data@),
        res@.len() == 32,
{
    <sha2::Sha256 as sha2::Digest>::digest(data).to_vec()
}

/// The lower-case hexadecimal digit for a value below 16.
pub open spec fn hex_digit(n: int) -> char {
    if n < 10 {
        (48 + n) as char
    } else {
        (87 + n) as char
    }
}

/// The lower-case hexadecimal text of `data`, two digits per byte, high nibble first.
pub open spec fn hex_lower(data: Seq<u8>) -> Seq<char>
    decreases data.len(),
{
    if data.len() == 0 {
        Seq::empty()
    } else {
        hex_lower(data.drop_last()) + seq![
            hex_digit(data.last() as int / 16),
            hex_digit(data.last() as int % 16),
        ]
    }
}

/// `hex::encode`: lower-case hexadecimal text of `data`, two digits per byte.
#[verifier::external_body]
pub(crate) fn hex_encode(data: &[u8]) -> (res: String)
    ensures
        res@ == hex_lower(data@),
{
    hex::encode(data)
}

/// The text `hex(sha256(data))` that identifies hashed content.
pub open spec fn sha256_hex(data: Seq<u8>) -> Seq<char> {
    hex_lower(sha256_of(data))
}

/// Lower-case hexadecimal SHA-256 of `data`.
pub fn sha256_hex_string(data: &Vec<u8>) -> (res: String)
    ensures
        res@ == sha256_hex(data@),
{
    let digest = sha256_digest(data.as_slice());
    hex_encode(digest.as_slice())
}

/// Byte `i` (0 = least significant) of `x` in little-endian order.
pub open spec fn le_byte(x: u64, i: int) -> u8 {
    ((x >> (8 * i) as u64) & 0xff) as u8
}

/// The eight little-endian bytes of `x` (`u64::to_le_bytes`).
pub open spec fn u64_le(x: u64) -> Seq<u8> {
    Seq::new(8, |i: int| le_byte(x, i))
}

/// The four little-endian bytes of `x` (`u32::to_le_bytes`).
pub open spec fn u32_le(x: u32) -> Seq<u8> {
    Seq::new(4, |i: int| ((x >> (8 * i) as u32) & 0xff) as u8)
}

/// Appends the little-endian bytes of `x`.
pub fn push_u64_le(out: &mut Vec<u8>, x: u64)
    ensures
        final(out)@ == old(out)@ + u64_le(x),
{
    let ghost start = out@;
    let mut i: u64 = 0;
    while i < 8
        invariant
            i <= 8,
            out@.len() == start.len() + i,
            out@.subrange(0, start.len() as int) == start,
            forall|j: int| 0 <= j < i ==> #[trigger] out@[start.len() + j] == le_byte(x, j),
        decreases 8 - i,
    {
        let b = #[verifier::truncate] (((x >> (8 * i)) & 0xff) as u8);
        out.push(b);
        i += 1;
    }
    assert forall|k: int| 0 <= k < out@.len() implies out@[k] == (start + u64_le(x))[k] by {
        if k < start.len() {
            assert(out@.subrange(0, start.len() as int)[k] == out@[k]);
        } else {
            assert(out@[start.len() + (k - start.len())] == out@[k]);
        }
    }
    assert(out@ =~= start + u64_le(x));
}

/// Appends the little-endian bytes of `x`.
pub fn push_u32_le(out: &mut Vec<u8>, x: u32)
    ensures
        final(out)@ == old(out)@ + u32_le(x),
{
    let ghost start = out@;
    let mut i: u32 = 0;
    while i < 4
        invariant
            i <= 4,
            out@.len() == start.len() + i,
            out@.subrange(0, start.len() as int) == start,
            forall|j: int| 0 <= j < i ==> #[trigger] out@[start.len() + j] == ((x >> (8 * j) as u32) & 0xff) as u8,
        decreases 4 - i,
    {
        let b = #[verifier::truncate] (((x >> (8 * i)) & 0xff) as u8);
        out.push(b);
        i += 1;
    }
    assert forall|k: int| 0 <= k < out@.len() implies out@[k] == (start + u32_le(x))[k] by {
        if k < start.len() {
            assert(out@.subrange(0, start.len() as int)[k] == out@[k]);
        } else {
            assert(out@[start.len() + (k - start.len())] == out@[k]);
        }
    }
    assert(out@ =~= start + u32_le(x));
}

/// Appends all of `bytes`.
pub fn push_bytes(out: &mut Vec<u8>, bytes: &[u8])
    ensures
        final(out)@ == old(out)@ + bytes@,
{
    let ghost start = out@;
    let mut i: usize = 0;
    while i < bytes.len()
        invariant
            i <= bytes@.len(),
            out@ == start + bytes@.subrange(0, i as int),
        decreases bytes.len() - i,
    {
        out.push(bytes[i]);
        assert(bytes@.subrange(0, i + 1) == bytes@.subrange(0, i as int).push(bytes@[i as int]));
        i += 1;
    }
    assert(bytes@.subrange(0, bytes@.len() as int) == bytes@);
}

/// `bytes` preceded by its length as eight little-endian bytes.
pub open spec fn len_prefixed(bytes: Seq<u8>) -> Seq<u8> {
    u64_le(bytes.len() as u64) + bytes
}

/// Appends the UTF-8 bytes of `text` preceded by their length.
pub fn push_len_prefixed(out: &mut Vec<u8>, text: &str)
    ensures
        final(out)@ == old(out)@ + len_prefixed(vstd::utf8::encode_utf8(text@)),
{
    let bytes = text.as_bytes();
    push_u64_le(out, bytes.len() as u64);
    push_bytes(out, bytes);
    assert(old(out)@ + u64_le(bytes@.len() as u64) + bytes@ == old(out)@ + len_prefixed(vstd::utf8::encode_utf8(text@)));
}

/// Optional text: a 0 byte when absent, else a 1 byte and the length-prefixed UTF-8 bytes.
pub open spec fn optional_text(text: Option<Seq<char>>) -> Seq<u8> {
    match text {
        Some(t) => seq![1u8] + len_prefixed(vstd::utf8::encode_utf8(t)),
        None => seq![0u8],
    }
}

} // verus!
