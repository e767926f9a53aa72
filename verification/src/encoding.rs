//! Byte-level encodings shared by the security subsystems: SHA-256 digests,
//! lowercase hex, decimal renderings of identifiers, and ASCII conversions.

use sha2::Digest;
use vstd::prelude::*;

verus! {

// ---------------------------------------------------------------------------
// SHA-256
// ---------------------------------------------------------------------------

/// The 32-byte SHA-256 digest of a byte sequence; a function of the input alone.
pub uninterp spec fn sha256_of(data: Seq<u8>) -> Seq<u8>;

/// Relies on `sha2::Sha256` (through the `Digest` trait): the digest is
/// 32 bytes long and depends only on the input bytes.
#[verifier::external_body]
pub(crate) fn sha256(data: &[u8]) -> (r: Vec<u8>)
    ensures
        r@ == sha256_of(data@),
        r@.len() == 32,
{
    sha2::Sha256::digest(data).to_vec()
}

/// The digest as a sequence known to hold 32 bytes. Every call of `sha256`
/// returns a 32-byte digest, so on real digests this is `sha256_of` itself;
/// the fallback only keeps the spec total.
pub open spec fn digest32(data: Seq<u8>) -> Seq<u8> {
    if sha256_of(data).len() == 32 {
        sha256_of(data)
    } else {
        Seq::new(32, |i: int| 0u8)
    }
}

// ---------------------------------------------------------------------------
// Lowercase hex encoding
// ---------------------------------------------------------------------------

/// The ASCII byte of the lowercase hex digit for a value below 16.
pub open spec fn hex_digit_byte(v: u8) -> u8 {
    if v < 10 {
        (48 + v) as u8
    } else {
        (87 + v) as u8
    }
}

/// The ASCII byte of the lowercase hex digit for a value below 16.
pub fn hex_digit_byte_exec(v: u8) -> (r: u8)
    requires
        v < 16,
    ensures
        r == hex_digit_byte(v),
{
    if v < 10 {
        48 + v
    } else {
        87 + v
    }
}

/// Lowercase hex encoding of a byte sequence, as ASCII bytes.
pub open spec fn hex_bytes_of(data: Seq<u8>) -> Seq<u8>
    decreases data.len(),
{
    if data.len() == 0 {
        Seq::empty()
    } else {
        seq![hex_digit_byte(data[0] / 16), hex_digit_byte(data[0] % 16)] + hex_bytes_of(
            data.drop_first(),
        )
    }
}

/// A byte sequence read as characters, one character per byte.
pub open spec fn ascii_chars_of(bytes: Seq<u8>) -> Seq<char> {
    bytes.map_values(|b: u8| b as char)
}

/// Lowercase hex encoding of a byte sequence, as characters.
pub open spec fn hex_chars_of(data: Seq<u8>) -> Seq<char> {
    ascii_chars_of(hex_bytes_of(data))
}

/// Relies on `hex::encode`: two lowercase hex digits per input byte.
#[verifier::external_body]
pub(crate) fn hex_encode(data: &[u8]) -> (r: String)
    ensures
        r@ == hex_chars_of(data@),
{
    hex::encode(data)
}

pub open spec fn is_hex_digit(c: char) -> bool {
    (48 <= c as u32 && c as u32 <= 57) || (97 <= c as u32 && c as u32 <= 102) || (65 <= c as u32
        && c as u32 <= 70)
}

/// The value of a hex digit character.
pub open spec fn hex_val(c: char) -> u8 {
    if 48 <= c as u32 && c as u32 <= 57 {
        (c as u32 - 48) as u8
    } else if 97 <= c as u32 && c as u32 <= 102 {
        (c as u32 - 87) as u8
    } else {
        (c as u32 - 55) as u8
    }
}

pub open spec fn is_hex_seq(s: Seq<char>) -> bool {
    forall|i: int| 0 <= i < s.len() ==> is_hex_digit(s[i])
}

/// The bytes denoted by a sequence of hex digit pairs.
pub open spec fn hex_decode_of(s: Seq<char>) -> Seq<u8>
    decreases s.len(),
{
    if s.len() < 2 {
        Seq::empty()
    } else {
        seq![(hex_val(s[0]) * 16 + hex_val(s[1])) as u8] + hex_decode_of(s.skip(2))
    }
}

/// Relies on `hex::decode`: accepts upper and lower case digits, rejects an
/// odd-length input and any non-hex character.
#[verifier::external_body]
pub(crate) fn hex_decode(s: &str) -> (r: Option<Vec<u8>>)
    ensures
        r is Some <==> (s@.len() % 2 == 0 && is_hex_seq(s@)),
        r matches Some(v) ==> v@ == hex_decode_of(s@),
{
    match hex::decode(s) {
        Ok(v) => Some(v),
        Err(_) => None,
    }
}

/// Hex output is ASCII digits, so its characters round-trip through bytes.
pub proof fn lemma_hex_bytes_ascii(data: Seq<u8>)
    ensures
        forall|i: int| 0 <= i < hex_bytes_of(data).len() ==> #[trigger] hex_bytes_of(data)[i]
            < 128,
        hex_bytes_of(data).len() == 2 * data.len(),
    decreases data.len(),
{
    if data.len() > 0 {
        lemma_hex_bytes_ascii(data.drop_first());
    }
}

// ---------------------------------------------------------------------------
// ASCII byte / character conversions
// ---------------------------------------------------------------------------

pub open spec fn all_ascii(bytes: Seq<u8>) -> bool {
    forall|i: int| 0 <= i < bytes.len() ==> bytes[i] < 128
}

/// Reading ASCII bytes as characters and encoding them back as UTF-8 is the
/// identity on the bytes.
pub proof fn lemma_ascii_utf8_roundtrip(bytes: Seq<u8>)
    requires
        all_ascii(bytes),
    ensures
        vstd::utf8::is_ascii_chars(ascii_chars_of(bytes)),
        vstd::utf8::encode_utf8(ascii_chars_of(bytes)) == bytes,
{
    let chars = ascii_chars_of(bytes);
    assert forall|i: int| 0 <= i < chars.len() implies '\0' <= #[trigger] chars[i] <= '\u{7f}' by {
        assert(bytes[i] < 128);
    }
    vstd::utf8::is_ascii_chars_encode_utf8(chars);
    assert(vstd::utf8::encode_utf8(chars) =~= bytes);
}

/// Relies on `String::from_utf8`: ASCII bytes form a valid UTF-8 string whose
/// characters are the bytes read one by one.
#[verifier::external_body]
pub(crate) fn string_from_ascii(bytes: Vec<u8>) -> (r: String)
    requires
        all_ascii(bytes@),
    ensures
        r@ == ascii_chars_of(bytes@),
{
    String::from_utf8(bytes).unwrap_or_default()
}

/// Relies on `String::from_utf8`: it succeeds exactly on valid UTF-8 — in
/// particular on the UTF-8 encoding of any character sequence — and the
/// characters of the resulting string encode back to the input bytes.
#[verifier::external_body]
pub(crate) fn string_from_utf8_checked(bytes: Vec<u8>) -> (r: Option<String>)
    ensures
        r matches Some(s) ==> vstd::utf8::encode_utf8(s@) == bytes@,
        (exists|s: Seq<char>| bytes@ == vstd::utf8::encode_utf8(s)) ==> r is Some,
{
    String::from_utf8(bytes).ok()
}

/// Relies on `std::time::SystemTime`: milliseconds since the Unix epoch, or 0
/// for a clock before it. Nothing is promised of the value.
#[verifier::external_body]
pub(crate) fn now_millis() -> u64 {
    match std::time::SystemTime::now().duration_since(std::time::UNIX_EPOCH) {
        Ok(d) => d.as_millis() as u64,
        Err(_) => 0,
    }
}

/// Relies on `str::eq`: string slices compare equal exactly when their
/// characters do.
#[verifier::external_body]
pub(crate) fn str_eq(a: &str, b: &str) -> (r: bool)
    ensures
        r == (a@ == b@),
{
    a == b
}

// ---------------------------------------------------------------------------
// Vec<u8> building blocks
// ---------------------------------------------------------------------------

/// Append a byte slice to a buffer.
pub fn push_bytes(out: &mut Vec<u8>, src: &[u8])
    ensures
        final(out)@ == old(out)@ + src@,
{
    let ghost start = out@;
    let n: usize = src.len();
    let mut i: usize = 0;
    while i < n
        invariant
            n == src@.len(),
            i <= n,
            out@ == start + src@.take(i as int),
        decreases n - i,
    {
        out.push(*vstd::slice::slice_index_get(src, i));
        proof {
            assert(start + src@.take(i as int) + seq![src@[i as int]] =~= start + src@.take(
                i as int + 1,
            ));
        }
        i = i + 1;
    }
    proof {
        assert(src@.take(n as int) =~= src@);
    }
}

/// Append the 8-byte little-endian rendering of a 64-bit value.
pub fn push_u64_le(out: &mut Vec<u8>, n: u64)
    ensures
        final(out)@ == old(out)@ + vstd::bytes::spec_u64_to_le_bytes(n),
{
    let bytes = vstd::bytes::u64_to_le_bytes(n);
    push_bytes(out, bytes.as_slice());
}

// ---------------------------------------------------------------------------
// Decimal renderings
// ---------------------------------------------------------------------------

/// The ASCII decimal digits of a natural number, most significant first.
pub open spec fn dec_bytes(n: nat) -> Seq<u8>
    decreases n,
{
    if n < 10 {
        seq![(48 + n) as u8]
    } else {
        dec_bytes(n / 10).push((48 + n % 10) as u8)
    }
}

pub open spec fn is_digit_seq(s: Seq<u8>) -> bool {
    forall|i: int| 0 <= i < s.len() ==> 48 <= #[trigger] s[i] <= 57
}

/// The value denoted by a sequence of ASCII decimal digits.
pub open spec fn dec_val(s: Seq<u8>) -> int
    decreases s.len(),
{
    if s.len() == 0 {
        0
    } else {
        dec_val(s.drop_last()) * 10 + (s.last() - 48)
    }
}

pub proof fn lemma_dec_bytes_digits(n: nat)
    ensures
        dec_bytes(n).len() >= 1,
        is_digit_seq(dec_bytes(n)),
    decreases n,
{
    if n >= 10 {
        lemma_dec_bytes_digits(n / 10);
    }
}

/// Rendering then reading back a decimal is the identity.
pub proof fn lemma_dec_roundtrip(n: nat)
    ensures
        dec_val(dec_bytes(n)) == n,
    decreases n,
{
    if n < 10 {
        let s = dec_bytes(n);
        assert(s =~= seq![(48 + n) as u8]);
        assert(s.drop_last() =~= Seq::<u8>::empty());
        assert(s.last() == (48 + n) as u8);
        assert((48 + n) as u8 == 48 + n);
        assert(dec_val(s) == dec_val(s.drop_last()) * 10 + (s.last() - 48));
        assert(dec_val(s.drop_last()) == 0);
        assert(dec_val(s) == n);
    } else {
        lemma_dec_roundtrip(n / 10);
        let s = dec_bytes(n);
        assert(s.drop_last() =~= dec_bytes(n / 10));
        assert(s.last() == (48 + n % 10) as u8);
        assert((48 + n % 10) as u8 == 48 + n % 10);
        assert(dec_val(s) == dec_val(dec_bytes(n / 10)) * 10 + n % 10);
        assert(dec_val(s) == (n / 10) * 10 + n % 10);
        vstd::arithmetic::div_mod::lemma_fundamental_div_mod(n as int, 10);
        assert(n == (n / 10) * 10 + n % 10);
    }
}

pub proof fn lemma_dec_val_nonneg(s: Seq<u8>)
    requires
        is_digit_seq(s),
    ensures
        dec_val(s) >= 0,
    decreases s.len(),
{
    if s.len() > 0 {
        assert(is_digit_seq(s.drop_last()));
        lemma_dec_val_nonneg(s.drop_last());
    }
}

/// Extending a digit string only increases its value.
pub proof fn lemma_dec_val_prefix_le(s: Seq<u8>, k: int)
    requires
        is_digit_seq(s),
        0 <= k <= s.len(),
    ensures
        dec_val(s.take(k)) <= dec_val(s),
    decreases s.len() - k,
{
    if k < s.len() {
        lemma_dec_val_prefix_le(s, k + 1);
        let p = s.take(k);
        let q = s.take(k + 1);
        assert(q.drop_last() =~= p);
        assert(is_digit_seq(p));
        lemma_dec_val_nonneg(p);
        assert(dec_val(q) == dec_val(p) * 10 + (s[k] - 48));
        assert(dec_val(p) * 10 >= dec_val(p));
    } else {
        assert(s.take(k) =~= s);
    }
}

/// Append the decimal rendering of a 64-bit value.
pub fn push_dec(out: &mut Vec<u8>, n: u64)
    ensures
        final(out)@ == old(out)@ + dec_bytes(n as nat),
    decreases n,
{
    if n >= 10 {
        push_dec(out, n / 10);
    }
    out.push((48 + (n % 10)) as u8);
    proof {
        if n >= 10 {
            assert(final(out)@ =~= old(out)@ + dec_bytes(n as nat));
        } else {
            assert(final(out)@ =~= old(out)@ + dec_bytes(n as nat));
        }
    }
}

} // verus!
