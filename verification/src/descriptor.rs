//! The descriptor wire format: a JSON object with the module's name, path,
//! hex checksum, requested capability names, and an optional signature.
//!
//! The serializer emits one canonical text per descriptor; the parser accepts
//! exactly the canonical texts and recovers the fields, so parsing a valid
//! descriptor and serializing it again reproduces it byte for byte.

use crate::encoding::hex_digit_byte;
use crate::runtime::{ManifestV, ModuleManifest};
use vstd::prelude::*;
use vstd::utf8::encode_utf8;

verus! {

// ---------------------------------------------------------------------------
// The canonical text
// ---------------------------------------------------------------------------

/// The escape of one byte inside a JSON string: quotes and backslashes are
/// escaped, control bytes become `\u00xx`, and everything else stands as is.
pub open spec fn esc_byte(b: u8) -> Seq<u8> {
    if b == 34 {
        seq![92u8, 34u8]
    } else if b == 92 {
        seq![92u8, 92u8]
    } else if b < 32 {
        seq![92u8, 117u8, 48u8, 48u8, hex_digit_byte(b / 16), hex_digit_byte(b % 16)]
    } else {
        seq![b]
    }
}

/// The escape of a byte sequence.
pub open spec fn esc_bytes(s: Seq<u8>) -> Seq<u8>
    decreases s.len(),
{
    if s.len() == 0 {
        Seq::empty()
    } else {
        esc_byte(s[0]) + esc_bytes(s.drop_first())
    }
}

/// A JSON string: the escaped bytes between quotes.
pub open spec fn quoted(s: Seq<u8>) -> Seq<u8> {
    seq![34u8] + esc_bytes(s) + seq![34u8]
}

/// A comma-separated list of JSON strings.
pub open spec fn strings_json(l: Seq<Seq<u8>>) -> Seq<u8>
    decreases l.len(),
{
    if l.len() == 0 {
        Seq::empty()
    } else if l.len() == 1 {
        quoted(l[0])
    } else {
        quoted(l[0]) + seq![44u8] + strings_json(l.drop_first())
    }
}

/// A quoted object key followed by a colon.
pub open spec fn keyed(name: Seq<u8>) -> Seq<u8> {
    seq![34u8] + name + seq![34u8, 58u8]
}

pub open spec fn key_name() -> Seq<u8> {
    seq![110u8, 97u8, 109u8, 101u8]
}

pub open spec fn key_path() -> Seq<u8> {
    seq![112u8, 97u8, 116u8, 104u8]
}

pub open spec fn key_checksum() -> Seq<u8> {
    seq![99u8, 104u8, 101u8, 99u8, 107u8, 115u8, 117u8, 109u8]
}

pub open spec fn key_capabilities() -> Seq<u8> {
    seq![99u8, 97u8, 112u8, 97u8, 98u8, 105u8, 108u8, 105u8, 116u8, 105u8, 101u8, 115u8]
}

pub open spec fn key_signature() -> Seq<u8> {
    seq![115u8, 105u8, 103u8, 110u8, 97u8, 116u8, 117u8, 114u8, 101u8]
}

/// The UTF-8 byte sequences of a list of strings.
pub open spec fn utf8_list(l: Seq<Seq<char>>) -> Seq<Seq<u8>> {
    l.map_values(|s: Seq<char>| encode_utf8(s))
}

/// The canonical descriptor text.
pub open spec fn manifest_json(m: ManifestV) -> Seq<u8> {
    seq![123u8] + keyed(key_name()) + quoted(encode_utf8(m.name)) + seq![44u8] + keyed(key_path())
        + quoted(encode_utf8(m.path)) + seq![44u8] + keyed(key_checksum()) + quoted(
        encode_utf8(m.checksum),
    ) + seq![44u8] + keyed(key_capabilities()) + seq![91u8] + strings_json(
        utf8_list(m.capabilities),
    ) + seq![93u8] + (match m.signature {
        Some(s) => seq![44u8] + keyed(key_signature()) + quoted(encode_utf8(s)),
        None => Seq::empty(),
    }) + seq![125u8]
}

// ---------------------------------------------------------------------------
// Serialization
// ---------------------------------------------------------------------------

/// Append the escape of a string's bytes.
fn push_escaped(out: &mut Vec<u8>, s: &str)
    ensures
        final(out)@ == old(out)@ + esc_bytes(encode_utf8(s@)),
{
    let bytes = s.as_bytes();
    let n: usize = bytes.len();
    let mut i: usize = 0;
    proof {
        assert(old(out)@ + esc_bytes(bytes@.take(0)) =~= old(out)@);
    }
    while i < n
        invariant
            n == bytes@.len(),
            i <= n,
            out@ == old(out)@ + esc_bytes(bytes@.take(i as int)),
        decreases n - i,
    {
        let ghost pre = bytes@.take(i as int);
        let ghost cur = bytes@.take(i as int + 1);
        proof {
            lemma_esc_bytes_snoc(bytes@, i as int);
        }
        let b = *vstd::slice::slice_index_get(bytes, i);
        if b == 34 {
            out.push(92);
            out.push(34);
        } else if b == 92 {
            out.push(92);
            out.push(92);
        } else if b < 32 {
            out.push(92);
            out.push(117);
            out.push(48);
            out.push(48);
            out.push(crate::encoding::hex_digit_byte_exec(b / 16));
            out.push(crate::encoding::hex_digit_byte_exec(b % 16));
        } else {
            out.push(b);
        }
        proof {
            assert(out@ =~= old(out)@ + esc_bytes(bytes@.take(i as int + 1)));
        }
        i = i + 1;
    }
    proof {
        assert(bytes@.take(n as int) =~= bytes@);
    }
}

/// Escaping distributes over extending the input by one byte.
proof fn lemma_esc_bytes_snoc(s: Seq<u8>, i: int)
    requires
        0 <= i < s.len(),
    ensures
        esc_bytes(s.take(i + 1)) == esc_bytes(s.take(i)) + esc_byte(s[i]),
    decreases i,
{
    if i == 0 {
        assert(s.take(1).drop_first() =~= Seq::<u8>::empty());
        assert(s.take(1)[0] == s[0]);
        assert(s.take(0) =~= Seq::<u8>::empty());
        assert(esc_bytes(s.take(1)) =~= esc_bytes(s.take(0)) + esc_byte(s[0]));
    } else {
        lemma_esc_bytes_snoc(s.drop_first(), i - 1);
        assert(s.take(i + 1).drop_first() =~= s.drop_first().take(i));
        assert(s.take(i).drop_first() =~= s.drop_first().take(i - 1));
        assert(s.take(i + 1)[0] == s[0]);
        assert(s.take(i)[0] == s[0]);
        assert(s.drop_first()[i - 1] == s[i]);
        assert(esc_byte(s[0]) + (esc_bytes(s.drop_first().take(i - 1)) + esc_byte(s[i])) =~= (
        esc_byte(s[0]) + esc_bytes(s.drop_first().take(i - 1))) + esc_byte(s[i]));
    }
}

/// Append a quoted, escaped string.
fn push_quoted(out: &mut Vec<u8>, s: &str)
    ensures
        final(out)@ == old(out)@ + quoted(encode_utf8(s@)),
{
    out.push(34);
    push_escaped(out, s);
    out.push(34);
    proof {
        assert(out@ =~= old(out)@ + quoted(encode_utf8(s@)));
    }
}

/// One string list entry extends the canonical list text.
proof fn lemma_strings_json_snoc(l: Seq<Seq<u8>>, i: int)
    requires
        0 <= i < l.len(),
    ensures
        strings_json(l.take(i + 1)) == strings_json(l.take(i)) + (if i == 0 {
            quoted(l[0])
        } else {
            seq![44u8] + quoted(l[i])
        }),
    decreases i,
{
    if i == 0 {
        assert(l.take(1) =~= seq![l[0]]);
        assert(l.take(0) =~= Seq::<Seq<u8>>::empty());
        assert(strings_json(l.take(1)) =~= strings_json(l.take(0)) + quoted(l[0]));
    } else {
        lemma_strings_json_snoc(l.drop_first(), i - 1);
        assert(l.take(i + 1).drop_first() =~= l.drop_first().take(i));
        assert(l.take(i).drop_first() =~= l.drop_first().take(i - 1));
        assert(l.take(i + 1)[0] == l[0]);
        assert(l.take(i)[0] == l[0]);
        assert(l.drop_first()[i - 1] == l[i]);
        assert(l.take(i + 1).len() == i + 1);
        assert(l.take(i).len() == i);
        if i == 1 {
            assert(strings_json(l.take(2)) == quoted(l[0]) + seq![44u8] + strings_json(
                l.drop_first().take(1),
            ));
            assert(strings_json(l.drop_first().take(1)) == quoted(l[1]));
            assert(strings_json(l.take(1)) == quoted(l[0]));
            assert(strings_json(l.take(2)) =~= strings_json(l.take(1)) + (seq![44u8] + quoted(
                l[1],
            )));
        } else {
            assert(strings_json(l.take(i + 1)) == quoted(l[0]) + seq![44u8] + strings_json(
                l.drop_first().take(i),
            ));
            assert(strings_json(l.take(i)) == quoted(l[0]) + seq![44u8] + strings_json(
                l.drop_first().take(i - 1),
            ));
            assert((quoted(l[0]) + seq![44u8] + (strings_json(l.drop_first().take(i - 1)) + (
            seq![44u8] + quoted(l[i])))) =~= (quoted(l[0]) + seq![44u8] + strings_json(
                l.drop_first().take(i - 1),
            )) + (seq![44u8] + quoted(l[i])));
        }
    }
}

/// Serialize a descriptor to its canonical text.
pub fn serialize_manifest(m: &ModuleManifest) -> (r: Vec<u8>)
    ensures
        r@ == manifest_json(m@),
{
    let mut out: Vec<u8> = Vec::new();
    out.push(123);
    push_key(&mut out, "name");
    push_quoted(&mut out, m.name.as_str());
    out.push(44);
    push_key(&mut out, "path");
    push_quoted(&mut out, m.path.as_str());
    out.push(44);
    push_key(&mut out, "checksum");
    push_quoted(&mut out, m.checksum.as_str());
    out.push(44);
    push_key(&mut out, "capabilities");
    out.push(91);
    let n: usize = m.capabilities.len();
    let ghost caps = utf8_list(crate::audit::strs_view(m.capabilities@));
    let ghost mid = out@;
    let mut i: usize = 0;
    proof {
        assert(mid + strings_json(caps.take(0)) =~= mid);
    }
    while i < n
        invariant
            n == m.capabilities@.len(),
            caps == utf8_list(crate::audit::strs_view(m.capabilities@)),
            caps.len() == n,
            i <= n,
            out@ == mid + strings_json(caps.take(i as int)),
        decreases n - i,
    {
        proof {
            lemma_strings_json_snoc(caps, i as int);
            assert(caps[i as int] == encode_utf8(m.capabilities@[i as int]@));
        }
        if i > 0 {
            out.push(44);
        }
        push_quoted(&mut out, m.capabilities[i].as_str());
        proof {
            assert(out@ =~= mid + strings_json(caps.take(i as int + 1)));
        }
        i = i + 1;
    }
    proof {
        assert(caps.take(n as int) =~= caps);
    }
    out.push(93);
    match &m.signature {
        Some(sig) => {
            out.push(44);
            push_key(&mut out, "signature");
            push_quoted(&mut out, sig.as_str());
        },
        None => {},
    }
    out.push(125);
    proof {
        lemma_key_bytes();
        assert(out@ =~= manifest_json(m@));
    }
    out
}

/// Append a quoted key and a colon.
fn push_key(out: &mut Vec<u8>, name: &str)
    ensures
        final(out)@ == old(out)@ + keyed(encode_utf8(name@)),
{
    out.push(34);
    crate::encoding::push_bytes(out, name.as_bytes());
    out.push(34);
    out.push(58);
    proof {
        assert(out@ =~= old(out)@ + keyed(encode_utf8(name@)));
    }
}

/// The key literals encode to their byte spellings.
proof fn lemma_key_bytes()
    ensures
        encode_utf8("name"@) == key_name(),
        encode_utf8("path"@) == key_path(),
        encode_utf8("checksum"@) == key_checksum(),
        encode_utf8("capabilities"@) == key_capabilities(),
        encode_utf8("signature"@) == key_signature(),
{
    reveal_strlit("name");
    reveal_strlit("path");
    reveal_strlit("checksum");
    reveal_strlit("capabilities");
    reveal_strlit("signature");
    crate::encoding::lemma_ascii_utf8_roundtrip(key_name());
    crate::encoding::lemma_ascii_utf8_roundtrip(key_path());
    crate::encoding::lemma_ascii_utf8_roundtrip(key_checksum());
    crate::encoding::lemma_ascii_utf8_roundtrip(key_capabilities());
    crate::encoding::lemma_ascii_utf8_roundtrip(key_signature());
    assert("name"@ =~= crate::encoding::ascii_chars_of(key_name()));
    assert("path"@ =~= crate::encoding::ascii_chars_of(key_path()));
    assert("checksum"@ =~= crate::encoding::ascii_chars_of(key_checksum()));
    assert("capabilities"@ =~= crate::encoding::ascii_chars_of(key_capabilities()));
    assert("signature"@ =~= crate::encoding::ascii_chars_of(key_signature()));
}

// ---------------------------------------------------------------------------
// Parsing
// ---------------------------------------------------------------------------

/// Escaping distributes over appending one byte.
proof fn lemma_esc_bytes_push(s: Seq<u8>, b: u8)
    ensures
        esc_bytes(s.push(b)) == esc_bytes(s) + esc_byte(b),
    decreases s.len(),
{
    if s.len() == 0 {
        assert(s.push(b).drop_first() =~= Seq::<u8>::empty());
        assert(s.push(b)[0] == b);
        assert(esc_bytes(s) =~= Seq::<u8>::empty());
        assert(esc_bytes(s.push(b)) == esc_byte(b) + esc_bytes(s.push(b).drop_first()));
        assert(esc_bytes(s.push(b).drop_first()) =~= Seq::<u8>::empty());
        assert(esc_bytes(s.push(b)) =~= esc_bytes(s) + esc_byte(b));
    } else {
        lemma_esc_bytes_push(s.drop_first(), b);
        assert(s.push(b).drop_first() =~= s.drop_first().push(b));
        assert(s.push(b)[0] == s[0]);
        assert(esc_byte(s[0]) + (esc_bytes(s.drop_first()) + esc_byte(b)) =~= (esc_byte(s[0])
            + esc_bytes(s.drop_first())) + esc_byte(b));
    }
}

/// The value of one canonical (lowercase) hex digit byte.
fn hex_val_canon(h: u8) -> (r: Option<u8>)
    ensures
        r matches Some(v) ==> v < 16 && hex_digit_byte(v) == h,
        forall|w: u8| w < 16 && hex_digit_byte(w) == h ==> r == Some(w),
{
    if 48 <= h && h <= 57 {
        Some(h - 48)
    } else if 97 <= h && h <= 102 {
        Some(h - 87)
    } else {
        None
    }
}

/// Consume an exact byte pattern: succeeds exactly when the pattern stands
/// at `start`.
fn expect_bytes(input: &Vec<u8>, start: usize, pat: &Vec<u8>) -> (r: Option<usize>)
    ensures
        r matches Some(j) ==> start <= j && j == start + pat@.len(),
        r is Some <==> (start + pat@.len() <= input@.len() && input@.subrange(
            start as int,
            start as int + pat@.len() as int,
        ) == pat@),
{
    let m: usize = pat.len();
    let n: usize = input.len();
    if start > n || m > n - start {
        return None;
    }
    let mut k: usize = 0;
    while k < m
        invariant
            k <= m,
            m == pat@.len(),
            n == input@.len(),
            start + m <= n,
            forall|j: int| 0 <= j < k ==> input@[start + j] == pat@[j],
        decreases m - k,
    {
        if input[start + k] != pat[k] {
            proof {
                if input@.subrange(start as int, start as int + m as int) == pat@ {
                    assert(input@.subrange(start as int, start as int + m as int)[k as int]
                        == pat@[k as int]);
                    assert(false);
                }
            }
            return None;
        }
        k = k + 1;
    }
    proof {
        assert(input@.subrange(start as int, (start + m) as int) =~= pat@);
    }
    Some(start + m)
}

/// Consume one byte: succeeds exactly when that byte stands at `start`.
fn expect_byte(input: &Vec<u8>, start: usize, b: u8) -> (r: Option<usize>)
    ensures
        r matches Some(j) ==> j == start + 1,
        r is Some <==> (start < input@.len() && input@[start as int] == b),
{
    if start < input.len() && input[start] == b {
        Some(start + 1)
    } else {
        None
    }
}

/// Splitting the input of the escape splits its output.
proof fn lemma_esc_bytes_split(v: Seq<u8>, k: int)
    requires
        0 <= k <= v.len(),
    ensures
        esc_bytes(v) == esc_bytes(v.take(k)) + esc_bytes(v.skip(k)),
    decreases k,
{
    if k == 0 {
        assert(v.take(0) =~= Seq::<u8>::empty());
        assert(v.skip(0) =~= v);
        assert(esc_bytes(v) =~= esc_bytes(v.take(0)) + esc_bytes(v.skip(0)));
    } else {
        lemma_esc_bytes_split(v.drop_first(), k - 1);
        assert(v.take(k).drop_first() =~= v.drop_first().take(k - 1));
        assert(v.take(k)[0] == v[0]);
        assert(v.skip(k) =~= v.drop_first().skip(k - 1));
        assert(v.len() > 0);
        assert(esc_bytes(v) == esc_byte(v[0]) + esc_bytes(v.drop_first()));
        assert(esc_bytes(v.take(k)) == esc_byte(v[0]) + esc_bytes(v.drop_first().take(k - 1)));
        assert(esc_byte(v[0]) + (esc_bytes(v.drop_first().take(k - 1)) + esc_bytes(v.skip(k))) =~= (
        esc_byte(v[0]) + esc_bytes(v.drop_first().take(k - 1))) + esc_bytes(v.skip(k)));
    }
}

/// The input holds the canonical quoted form of `s` at `start`.
pub open spec fn has_quoted_at(input: Seq<u8>, start: int, s: Seq<char>) -> bool {
    &&& 0 <= start
    &&& start + quoted(encode_utf8(s)).len() <= input.len()
    &&& input.subrange(start, start + quoted(encode_utf8(s)).len() as int) == quoted(
        encode_utf8(s),
    )
}

/// While scanning a quoted string that the input is known to hold, the cursor
/// sits at an escape-chunk boundary: the next bytes are the escape of the
/// next value byte, or the closing quote once the value is complete.
proof fn lemma_quoted_scan_state(input: Seq<u8>, start: int, s: Seq<char>, val: Seq<u8>, cur: int)
    requires
        has_quoted_at(input, start, s),
        start + 1 <= cur <= input.len(),
        input.subrange(start + 1, cur) == esc_bytes(val),
        val.len() <= encode_utf8(s).len(),
        val == encode_utf8(s).take(val.len() as int),
    ensures
        ({
            let v = encode_utf8(s);
            let k = val.len() as int;
            &&& cur == start + 1 + esc_bytes(val).len()
            &&& esc_bytes(val).len() <= esc_bytes(v).len()
            &&& start + 1 + esc_bytes(v).len() < input.len()
            &&& (k < v.len() ==> cur + esc_byte(v[k]).len() <= start + 1 + esc_bytes(v).len()
                && input.subrange(cur, cur + esc_byte(v[k]).len() as int) == esc_byte(v[k]))
            &&& (k == v.len() ==> cur == start + 1 + esc_bytes(v).len() && input[cur] == 34)
        }),
{
    let v = encode_utf8(s);
    let k = val.len() as int;
    let ql = quoted(v).len() as int;
    lemma_esc_bytes_split(v, k);
    assert(esc_bytes(v) == esc_bytes(val) + esc_bytes(v.skip(k)));
    assert(input.subrange(start, start + ql) == quoted(v));
    assert forall|t: int| 0 <= t < ql implies input[start + t] == quoted(v)[t] by {
        assert(input.subrange(start, start + ql)[t] == input[start + t]);
    }
    assert(cur == start + 1 + esc_bytes(val).len());
    if k < v.len() {
        assert(v.skip(k).len() > 0);
        assert(v.skip(k)[0] == v[k]);
        assert(v.skip(k).drop_first() =~= v.skip(k + 1));
        assert(esc_bytes(v.skip(k)) == esc_byte(v[k]) + esc_bytes(v.skip(k + 1)));
        let cl = esc_byte(v[k]).len() as int;
        assert forall|t: int| 0 <= t < cl implies input[cur + t] == esc_byte(v[k])[t] by {
            assert(quoted(v)[1 + esc_bytes(val).len() + t] == esc_bytes(v)[esc_bytes(val).len()
                + t]);
            assert(esc_bytes(v)[esc_bytes(val).len() + t] == esc_bytes(v.skip(k))[t]);
            assert(esc_bytes(v.skip(k))[t] == esc_byte(v[k])[t]);
        }
        assert(input.subrange(cur, cur + cl) =~= esc_byte(v[k]));
    } else {
        assert(v.skip(k) =~= Seq::<u8>::empty());
        assert(esc_bytes(val).len() == esc_bytes(v).len());
        assert(input[start + 1 + esc_bytes(v).len() as int] == quoted(v)[1 + esc_bytes(
            v,
        ).len() as int]);
        assert(quoted(v)[1 + esc_bytes(v).len() as int] == 34);
    }
}

/// Parse one canonical JSON string starting at `start`: the consumed bytes
/// are exactly the quoted escape of the returned string, and wherever the
/// input holds the quoted form of some string the parse succeeds with it.
#[verifier::rlimit(60)]
fn parse_string(input: &Vec<u8>, start: usize) -> (r: Option<(String, usize)>)
    ensures
        r matches Some(p) ==> start < p.1 <= input@.len() && input@.subrange(
            start as int,
            p.1 as int,
        ) == quoted(encode_utf8(p.0@)),
        forall|s: Seq<char>| #[trigger]
            has_quoted_at(input@, start as int, s) ==> (r matches Some(p) && p.0@ == s && p.1
                == start + quoted(encode_utf8(s)).len()),
{
    let n: usize = input.len();
    if start >= n || input[start] != 34 {
        proof {
            assert forall|s: Seq<char>| #[trigger]
                has_quoted_at(input@, start as int, s) implies false by {
                assert(input@.subrange(
                    start as int,
                    start as int + quoted(encode_utf8(s)).len() as int,
                )[0] == input@[start as int]);
                assert(quoted(encode_utf8(s))[0] == 34);
            }
        }
        return None;
    }
    let mut cur: usize = start + 1;
    let mut val: Vec<u8> = Vec::new();
    proof {
        assert(input@.subrange(start as int + 1, start as int + 1) =~= esc_bytes(val@));
        assert forall|s: Seq<char>| #[trigger]
            has_quoted_at(input@, start as int, s) implies (val@.len() <= encode_utf8(s).len()
            && val@ == encode_utf8(s).take(val@.len() as int)) by {
            assert(val@ =~= encode_utf8(s).take(0));
        }
    }
    while cur < n
        invariant
            start + 1 <= cur <= n,
            n == input@.len(),
            input@[start as int] == 34,
            input@.subrange(start as int + 1, cur as int) == esc_bytes(val@),
            forall|s: Seq<char>| #[trigger]
                has_quoted_at(input@, start as int, s) ==> (val@.len() <= encode_utf8(s).len()
                    && val@ == encode_utf8(s).take(val@.len() as int)),
        decreases n - cur,
    {
        let b = input[cur];
        if b == 34 {
            proof {
                assert forall|s: Seq<char>| #[trigger]
                    has_quoted_at(input@, start as int, s) implies val@ == encode_utf8(s) by {
                    lemma_quoted_scan_state(input@, start as int, s, val@, cur as int);
                    let v = encode_utf8(s);
                    let k = val@.len() as int;
                    if k < v.len() {
                        assert(input@[cur as int] == esc_byte(v[k])[0]);
                        assert(esc_byte(v[k])[0] != 34);
                        assert(false);
                    }
                    assert(val@ =~= v);
                }
            }
            let ghost val_view = val@;
            let out = match crate::encoding::string_from_utf8_checked(val) {
                Some(s) => s,
                None => {
                    proof {
                        assert forall|s: Seq<char>| #[trigger]
                            has_quoted_at(input@, start as int, s) implies false by {
                            assert(val_view == encode_utf8(s));
                        }
                    }
                    return None;
                },
            };
            proof {
                assert(input@.subrange(start as int, cur as int + 1) =~= seq![34u8]
                    + input@.subrange(start as int + 1, cur as int) + seq![34u8]);
                assert forall|s: Seq<char>| #[trigger]
                    has_quoted_at(input@, start as int, s) implies (out@ == s && cur + 1 == start
                    + quoted(encode_utf8(s)).len()) by {
                    assert(encode_utf8(out@) == val_view);
                    assert(val_view == encode_utf8(s));
                    vstd::utf8::encode_utf8_decode_utf8(out@);
                    vstd::utf8::encode_utf8_decode_utf8(s);
                    lemma_quoted_scan_state(input@, start as int, s, val_view, cur as int);
                }
            }
            return Some((out, cur + 1));
        } else if b == 92 {
            if cur + 1 >= n {
                proof {
                    assert forall|s: Seq<char>| #[trigger]
                        has_quoted_at(input@, start as int, s) implies false by {
                        lemma_quoted_scan_state(input@, start as int, s, val@, cur as int);
                        let v = encode_utf8(s);
                        let k = val@.len() as int;
                        if k == v.len() {
                            assert(input@[cur as int] == 34);
                        } else {
                            assert(esc_byte(v[k])[0] == 92);
                            assert(cur + esc_byte(v[k]).len() <= n);
                            assert(esc_byte(v[k]).len() >= 2);
                        }
                    }
                }
                return None;
            }
            let e = input[cur + 1];
            let ghost pre = val@;
            proof {
                assert forall|s: Seq<char>| #[trigger]
                    has_quoted_at(input@, start as int, s) implies ({
                    let v = encode_utf8(s);
                    let k = pre.len() as int;
                    &&& k < v.len()
                    &&& esc_byte(v[k])[0] == 92
                    &&& (v[k] == 34 || v[k] == 92 || v[k] < 32)
                    &&& input@.subrange(cur as int, cur as int + esc_byte(v[k]).len() as int)
                        == esc_byte(v[k])
                    &&& cur + esc_byte(v[k]).len() <= n
                }) by {
                    lemma_quoted_scan_state(input@, start as int, s, pre, cur as int);
                    let v = encode_utf8(s);
                    let k = pre.len() as int;
                    if k == v.len() {
                        assert(input@[cur as int] == 34);
                        assert(false);
                    }
                    assert(input@[cur as int] == esc_byte(v[k])[0]);
                    if !(v[k] == 34 || v[k] == 92 || v[k] < 32) {
                        assert(esc_byte(v[k]) =~= seq![v[k]]);
                        assert(false);
                    }
                }
            }
            if e == 34 {
                val.push(34);
                proof {
                    lemma_esc_bytes_push(pre, 34);
                    assert(esc_byte(34u8) =~= seq![92u8, 34u8]);
                    assert(input@.subrange(start as int + 1, cur as int + 2) =~= input@.subrange(
                        start as int + 1,
                        cur as int,
                    ) + seq![input@[cur as int], input@[cur as int + 1]]);
                    assert forall|s: Seq<char>| #[trigger]
                        has_quoted_at(input@, start as int, s) implies (val@.len() <= encode_utf8(
                        s,
                    ).len() && val@ == encode_utf8(s).take(val@.len() as int)) by {
                        let v = encode_utf8(s);
                        let k = pre.len() as int;
                        assert(input@[cur as int + 1] == esc_byte(v[k])[1]);
                        if v[k] == 92 || v[k] < 32 {
                            assert(esc_byte(v[k])[1] != 34);
                            assert(false);
                        }
                        assert(v[k] == 34);
                        assert(val@ =~= v.take(k + 1));
                    }
                }
                cur = cur + 2;
            } else if e == 92 {
                val.push(92);
                proof {
                    lemma_esc_bytes_push(pre, 92);
                    assert(esc_byte(92u8) =~= seq![92u8, 92u8]);
                    assert(input@.subrange(start as int + 1, cur as int + 2) =~= input@.subrange(
                        start as int + 1,
                        cur as int,
                    ) + seq![input@[cur as int], input@[cur as int + 1]]);
                    assert forall|s: Seq<char>| #[trigger]
                        has_quoted_at(input@, start as int, s) implies (val@.len() <= encode_utf8(
                        s,
                    ).len() && val@ == encode_utf8(s).take(val@.len() as int)) by {
                        let v = encode_utf8(s);
                        let k = pre.len() as int;
                        assert(input@[cur as int + 1] == esc_byte(v[k])[1]);
                        if v[k] == 34 || v[k] < 32 {
                            assert(esc_byte(v[k])[1] != 92);
                            assert(false);
                        }
                        assert(v[k] == 92);
                        assert(val@ =~= v.take(k + 1));
                    }
                }
                cur = cur + 2;
            } else if e == 117 {
                proof {
                    assert forall|s: Seq<char>| #[trigger]
                        has_quoted_at(input@, start as int, s) implies ({
                        let v = encode_utf8(s);
                        let k = pre.len() as int;
                        &&& v[k] < 32
                        &&& cur + 6 <= n
                        &&& input@[cur as int + 2] == 48
                        &&& input@[cur as int + 3] == 48
                        &&& input@[cur as int + 4] == hex_digit_byte(v[k] / 16)
                        &&& input@[cur as int + 5] == hex_digit_byte(v[k] % 16)
                    }) by {
                        let v = encode_utf8(s);
                        let k = pre.len() as int;
                        assert(input@[cur as int + 1] == esc_byte(v[k])[1]);
                        if v[k] == 34 || v[k] == 92 {
                            assert(esc_byte(v[k])[1] != 117);
                            assert(false);
                        }
                        assert(v[k] < 32);
                        assert(esc_byte(v[k]) =~= seq![
                            92u8,
                            117u8,
                            48u8,
                            48u8,
                            hex_digit_byte(v[k] / 16),
                            hex_digit_byte(v[k] % 16),
                        ]);
                        assert(input@[cur as int + 2] == esc_byte(v[k])[2]);
                        assert(input@[cur as int + 3] == esc_byte(v[k])[3]);
                        assert(input@[cur as int + 4] == esc_byte(v[k])[4]);
                        assert(input@[cur as int + 5] == esc_byte(v[k])[5]);
                    }
                }
                if n - cur <= 5 {
                    proof {
                        assert forall|s: Seq<char>| #[trigger]
                            has_quoted_at(input@, start as int, s) implies false by {}
                    }
                    return None;
                }
                if input[cur + 2] != 48 || input[cur + 3] != 48 {
                    proof {
                        assert forall|s: Seq<char>| #[trigger]
                            has_quoted_at(input@, start as int, s) implies false by {}
                    }
                    return None;
                }
                let h1 = input[cur + 4];
                let h2 = input[cur + 5];
                let v1 = match hex_val_canon(h1) {
                    Some(v) => v,
                    None => {
                        proof {
                            assert forall|s: Seq<char>| #[trigger]
                                has_quoted_at(input@, start as int, s) implies false by {
                                let v = encode_utf8(s);
                                let k = pre.len() as int;
                                assert(v[k] / 16 < 16 && hex_digit_byte(v[k] / 16) == h1);
                            }
                        }
                        return None;
                    },
                };
                let v2 = match hex_val_canon(h2) {
                    Some(v) => v,
                    None => {
                        proof {
                            assert forall|s: Seq<char>| #[trigger]
                                has_quoted_at(input@, start as int, s) implies false by {
                                let v = encode_utf8(s);
                                let k = pre.len() as int;
                                assert(v[k] % 16 < 16 && hex_digit_byte(v[k] % 16) == h2);
                            }
                        }
                        return None;
                    },
                };
                let v = v1 * 16 + v2;
                if v >= 32 {
                    proof {
                        assert forall|s: Seq<char>| #[trigger]
                            has_quoted_at(input@, start as int, s) implies false by {
                            let w = encode_utf8(s);
                            let k = pre.len() as int;
                            assert(w[k] / 16 < 16 && hex_digit_byte(w[k] / 16) == h1);
                            assert(w[k] % 16 < 16 && hex_digit_byte(w[k] % 16) == h2);
                            assert(v1 == w[k] / 16 && v2 == w[k] % 16);
                            assert(v == w[k]);
                        }
                    }
                    return None;
                }
                val.push(v);
                proof {
                    lemma_esc_bytes_push(pre, v);
                    assert(v / 16 == v1 && v % 16 == v2);
                    assert(esc_byte(v) =~= seq![
                        92u8,
                        117u8,
                        48u8,
                        48u8,
                        hex_digit_byte(v / 16),
                        hex_digit_byte(v % 16),
                    ]);
                    assert(input@.subrange(start as int + 1, cur as int + 6) =~= input@.subrange(
                        start as int + 1,
                        cur as int,
                    ) + seq![
                        input@[cur as int],
                        input@[cur as int + 1],
                        input@[cur as int + 2],
                        input@[cur as int + 3],
                        input@[cur as int + 4],
                        input@[cur as int + 5],
                    ]);
                    assert forall|s: Seq<char>| #[trigger]
                        has_quoted_at(input@, start as int, s) implies (val@.len() <= encode_utf8(
                        s,
                    ).len() && val@ == encode_utf8(s).take(val@.len() as int)) by {
                        let w = encode_utf8(s);
                        let k = pre.len() as int;
                        assert(w[k] / 16 < 16 && hex_digit_byte(w[k] / 16) == h1);
                        assert(w[k] % 16 < 16 && hex_digit_byte(w[k] % 16) == h2);
                        assert(v1 == w[k] / 16 && v2 == w[k] % 16);
                        assert(v == w[k]);
                        assert(val@ =~= w.take(k + 1));
                    }
                }
                cur = cur + 6;
            } else {
                proof {
                    assert forall|s: Seq<char>| #[trigger]
                        has_quoted_at(input@, start as int, s) implies false by {
                        let v = encode_utf8(s);
                        let k = pre.len() as int;
                        assert(input@[cur as int + 1] == esc_byte(v[k])[1]);
                        if v[k] == 34 {
                            assert(esc_byte(v[k])[1] == 34);
                        } else if v[k] == 92 {
                            assert(esc_byte(v[k])[1] == 92);
                        } else {
                            assert(esc_byte(v[k])[1] == 117);
                        }
                    }
                }
                return None;
            }
        } else {
            let ghost pre = val@;
            proof {
                assert forall|s: Seq<char>| #[trigger]
                    has_quoted_at(input@, start as int, s) implies ({
                    let v = encode_utf8(s);
                    let k = pre.len() as int;
                    k < v.len() && v[k] == b && b >= 32
                }) by {
                    lemma_quoted_scan_state(input@, start as int, s, pre, cur as int);
                    let v = encode_utf8(s);
                    let k = pre.len() as int;
                    if k == v.len() {
                        assert(input@[cur as int] == 34);
                        assert(false);
                    }
                    assert(input@[cur as int] == esc_byte(v[k])[0]);
                    if v[k] == 34 || v[k] == 92 || v[k] < 32 {
                        assert(esc_byte(v[k])[0] == 92);
                        assert(false);
                    }
                    assert(esc_byte(v[k]) =~= seq![v[k]]);
                }
            }
            if b < 32 {
                proof {
                    assert forall|s: Seq<char>| #[trigger]
                        has_quoted_at(input@, start as int, s) implies false by {}
                }
                return None;
            }
            val.push(b);
            proof {
                lemma_esc_bytes_push(pre, b);
                assert(esc_byte(b) =~= seq![b]);
                assert(input@.subrange(start as int + 1, cur as int + 1) =~= input@.subrange(
                    start as int + 1,
                    cur as int,
                ) + seq![input@[cur as int]]);
                assert forall|s: Seq<char>| #[trigger]
                    has_quoted_at(input@, start as int, s) implies (val@.len() <= encode_utf8(
                    s,
                ).len() && val@ == encode_utf8(s).take(val@.len() as int)) by {
                    let v = encode_utf8(s);
                    let k = pre.len() as int;
                    assert(val@ =~= v.take(k + 1));
                }
            }
            cur = cur + 1;
        }
    }
    proof {
        assert forall|s: Seq<char>| #[trigger]
            has_quoted_at(input@, start as int, s) implies false by {
            lemma_quoted_scan_state(input@, start as int, s, val@, cur as int);
        }
    }
    None
}

/// The canonical list text from entry `j` on, each entry preceded by a comma.
pub open spec fn list_rest(l: Seq<Seq<u8>>, j: int) -> Seq<u8>
    decreases l.len() - j,
{
    if j < 0 || j >= l.len() {
        Seq::empty()
    } else {
        seq![44u8] + quoted(l[j]) + list_rest(l, j + 1)
    }
}

/// The canonical list text from entry `k` on, with a comma only before the
/// entries after the first of the whole list.
pub open spec fn list_from(l: Seq<Seq<u8>>, k: int) -> Seq<u8> {
    if k >= l.len() {
        Seq::empty()
    } else if k == 0 {
        quoted(l[0]) + list_rest(l, 1)
    } else {
        list_rest(l, k)
    }
}

/// The canonical list text splits at any entry boundary.
proof fn lemma_strings_json_split(l: Seq<Seq<u8>>, k: int)
    requires
        0 <= k <= l.len(),
    ensures
        strings_json(l) == strings_json(l.take(k)) + list_from(l, k),
    decreases l.len() - k,
{
    if k == l.len() {
        assert(l.take(k) =~= l);
        assert(list_from(l, k) =~= Seq::<u8>::empty());
        assert(strings_json(l) =~= strings_json(l.take(k)) + list_from(l, k));
    } else {
        lemma_strings_json_split(l, k + 1);
        lemma_strings_json_snoc(l, k);
        if k == 0 {
            assert(strings_json(l.take(0)) =~= Seq::<u8>::empty());
            if k + 1 == l.len() {
                assert(list_rest(l, 1) =~= Seq::<u8>::empty());
                assert(list_from(l, 1) =~= Seq::<u8>::empty());
            }
            assert(list_from(l, 0) =~= quoted(l[0]) + list_from(l, 1));
            assert(strings_json(l.take(1)) =~= strings_json(l.take(0)) + quoted(l[0]));
            assert(strings_json(l.take(0)) + (quoted(l[0]) + list_from(l, 1)) =~= (strings_json(
                l.take(0),
            ) + quoted(l[0])) + list_from(l, 1));
        } else {
            if k + 1 == l.len() {
                assert(list_rest(l, k + 1) =~= Seq::<u8>::empty());
                assert(list_from(l, k + 1) =~= Seq::<u8>::empty());
            } else {
                assert(list_from(l, k + 1) =~= list_rest(l, k + 1));
            }
            assert(list_from(l, k) =~= (seq![44u8] + quoted(l[k])) + list_from(l, k + 1));
            assert(strings_json(l.take(k)) + ((seq![44u8] + quoted(l[k])) + list_from(l, k + 1))
                =~= (strings_json(l.take(k)) + (seq![44u8] + quoted(l[k]))) + list_from(l, k + 1));
        }
    }
}

/// Where each piece of a canonical descriptor text stands.
#[verifier::rlimit(100)]
proof fn lemma_manifest_layout(input: Seq<u8>, m: ManifestV)
    requires
        input == manifest_json(m),
    ensures
        ({
            let kn = keyed(key_name());
            let qn = quoted(encode_utf8(m.name));
            let kp = keyed(key_path());
            let qp = quoted(encode_utf8(m.path));
            let kc = keyed(key_checksum());
            let qc = quoted(encode_utf8(m.checksum));
            let kcaps = keyed(key_capabilities());
            let sj = strings_json(utf8_list(m.capabilities));
            let a1 = 1 + kn.len() as int;
            let a2 = a1 + qn.len() as int;
            let a4 = a2 + 1 + kp.len() as int;
            let a5 = a4 + qp.len() as int;
            let a7 = a5 + 1 + kc.len() as int;
            let a8 = a7 + qc.len() as int;
            let a10 = a8 + 1 + kcaps.len() as int;
            let a11 = a10 + 1;
            let a12 = a11 + sj.len() as int;
            &&& input.len() >= 1 && input[0] == 123
            &&& a12 + 1 <= input.len()
            &&& input.subrange(1, a1) == kn
            &&& input.subrange(a1, a2) == qn
            &&& input[a2] == 44
            &&& input.subrange(a2 + 1, a4) == kp
            &&& input.subrange(a4, a5) == qp
            &&& input[a5] == 44
            &&& input.subrange(a5 + 1, a7) == kc
            &&& input.subrange(a7, a8) == qc
            &&& input[a8] == 44
            &&& input.subrange(a8 + 1, a10) == kcaps
            &&& input[a10] == 91
            &&& input.subrange(a11, a12) == sj
            &&& input[a12] == 93
            &&& (match m.signature {
                None => a12 + 2 == input.len() && input[a12 + 1] == 125,
                Some(sg) => {
                    let ks = keyed(key_signature());
                    let qs = quoted(encode_utf8(sg));
                    let a14 = a12 + 2 + ks.len() as int;
                    let a15 = a14 + qs.len() as int;
                    &&& input[a12 + 1] == 44
                    &&& input.subrange(a12 + 2, a14) == ks
                    &&& input.subrange(a14, a15) == qs
                    &&& a15 + 1 == input.len() && input[a15] == 125
                },
            })
        }),
{
    let kn = keyed(key_name());
    let qn = quoted(encode_utf8(m.name));
    let kp = keyed(key_path());
    let qp = quoted(encode_utf8(m.path));
    let kc = keyed(key_checksum());
    let qc = quoted(encode_utf8(m.checksum));
    let kcaps = keyed(key_capabilities());
    let sj = strings_json(utf8_list(m.capabilities));
    let a1 = 1 + kn.len() as int;
    let a2 = a1 + qn.len() as int;
    let a4 = a2 + 1 + kp.len() as int;
    let a5 = a4 + qp.len() as int;
    let a7 = a5 + 1 + kc.len() as int;
    let a8 = a7 + qc.len() as int;
    let a10 = a8 + 1 + kcaps.len() as int;
    let a11 = a10 + 1;
    let a12 = a11 + sj.len() as int;
    assert(input.subrange(1, a1) =~= kn);
    assert(input.subrange(a1, a2) =~= qn);
    assert(input.subrange(a2 + 1, a4) =~= kp);
    assert(input.subrange(a4, a5) =~= qp);
    assert(input.subrange(a5 + 1, a7) =~= kc);
    assert(input.subrange(a7, a8) =~= qc);
    assert(input.subrange(a8 + 1, a10) =~= kcaps);
    assert(input.subrange(a11, a12) =~= sj);
    match m.signature {
        None => {},
        Some(sg) => {
            let ks = keyed(key_signature());
            let qs = quoted(encode_utf8(sg));
            let a14 = a12 + 2 + ks.len() as int;
            let a15 = a14 + qs.len() as int;
            assert(input.subrange(a12 + 2, a14) =~= ks);
            assert(input.subrange(a14, a15) =~= qs);
        },
    }
}

/// Taking a prefix commutes with encoding the list entries.
proof fn lemma_utf8_list_take(l: Seq<Seq<char>>, k: int)
    requires
        0 <= k <= l.len(),
    ensures
        utf8_list(l.take(k)) == utf8_list(l).take(k),
{
    assert(utf8_list(l.take(k)) =~= utf8_list(l).take(k));
}

/// The converse of the layout: a text carrying every piece of a descriptor at
/// its canonical place is the canonical text.
#[verifier::rlimit(100)]
proof fn lemma_manifest_assemble(input: Seq<u8>, m: ManifestV)
    requires
        ({
            let kn = keyed(key_name());
            let qn = quoted(encode_utf8(m.name));
            let kp = keyed(key_path());
            let qp = quoted(encode_utf8(m.path));
            let kc = keyed(key_checksum());
            let qc = quoted(encode_utf8(m.checksum));
            let kcaps = keyed(key_capabilities());
            let sj = strings_json(utf8_list(m.capabilities));
            let a1 = 1 + kn.len() as int;
            let a2 = a1 + qn.len() as int;
            let a4 = a2 + 1 + kp.len() as int;
            let a5 = a4 + qp.len() as int;
            let a7 = a5 + 1 + kc.len() as int;
            let a8 = a7 + qc.len() as int;
            let a10 = a8 + 1 + kcaps.len() as int;
            let a11 = a10 + 1;
            let a12 = a11 + sj.len() as int;
            &&& input.len() >= 1 && input[0] == 123
            &&& input.subrange(1, a1) == kn
            &&& input.subrange(a1, a2) == qn
            &&& a2 < input.len() && input[a2] == 44
            &&& input.subrange(a2 + 1, a4) == kp
            &&& input.subrange(a4, a5) == qp
            &&& a5 < input.len() && input[a5] == 44
            &&& input.subrange(a5 + 1, a7) == kc
            &&& input.subrange(a7, a8) == qc
            &&& a8 < input.len() && input[a8] == 44
            &&& input.subrange(a8 + 1, a10) == kcaps
            &&& a10 < input.len() && input[a10] == 91
            &&& input.subrange(a11, a12) == sj
            &&& a12 < input.len() && input[a12] == 93
            &&& (match m.signature {
                None => a12 + 2 == input.len() && input[a12 + 1] == 125,
                Some(sg) => {
                    let ks = keyed(key_signature());
                    let qs = quoted(encode_utf8(sg));
                    let a14 = a12 + 2 + ks.len() as int;
                    let a15 = a14 + qs.len() as int;
                    &&& a12 + 1 < input.len() && input[a12 + 1] == 44
                    &&& input.subrange(a12 + 2, a14) == ks
                    &&& input.subrange(a14, a15) == qs
                    &&& a15 + 1 == input.len() && input[a15] == 125
                },
            })
        }),
    ensures
        input == manifest_json(m),
{
    match m.signature {
        None => {
            assert(input =~= manifest_json(m));
        },
        Some(_) => {
            assert(input =~= manifest_json(m));
        },
    }
}

/// Within the canonical list text, entry `k` stands quoted right after the
/// text of the first `k` entries (and its separating comma).
#[verifier::rlimit(60)]
proof fn lemma_list_item_at(
    input: Seq<u8>,
    a11: int,
    l: Seq<Seq<u8>>,
    caps_chars: Seq<Seq<char>>,
    k: int,
)
    requires
        0 <= a11,
        a11 + strings_json(l).len() <= input.len(),
        input.subrange(a11, a11 + strings_json(l).len() as int) == strings_json(l),
        l == utf8_list(caps_chars),
        0 <= k < l.len(),
    ensures
        ({
            let sjk = strings_json(l.take(k)).len() as int;
            let sep: int = if k == 0 {
                0int
            } else {
                1int
            };
            &&& (k > 0 ==> input[a11 + sjk] == 44)
            &&& has_quoted_at(input, a11 + sjk + sep, caps_chars[k])
            &&& strings_json(l.take(k + 1)).len() == sjk + sep + quoted(l[k]).len()
        }),
{
    lemma_strings_json_split(l, k);
    lemma_strings_json_snoc(l, k);
    let sj = strings_json(l);
    let sjk = strings_json(l.take(k)).len() as int;
    let sep: int = if k == 0 {
        0int
    } else {
        1int
    };
    let q = quoted(l[k]);
    assert(l[k] == encode_utf8(caps_chars[k]));
    assert forall|t: int| 0 <= t < sj.len() implies input[a11 + t] == sj[t] by {
        assert(input.subrange(a11, a11 + sj.len() as int)[t] == input[a11 + t]);
    }
    if k == 0 {
        if k + 1 == l.len() {
            assert(list_rest(l, 1) =~= Seq::<u8>::empty());
        }
        assert(list_from(l, 0) =~= q + list_rest(l, 1));
        assert(strings_json(l.take(0)) =~= Seq::<u8>::empty());
        assert forall|t: int| 0 <= t < q.len() implies sj[sjk + sep + t] == q[t] by {
            assert(sj[t] == list_from(l, 0)[t]);
        }
    } else {
        assert(list_from(l, k) =~= seq![44u8] + (q + list_rest(l, k + 1)));
        assert(sj[sjk] == list_from(l, k)[0]);
        assert(list_from(l, k)[0] == 44);
        assert forall|t: int| 0 <= t < q.len() implies sj[sjk + sep + t] == q[t] by {
            assert(sj[sjk + 1 + t] == list_from(l, k)[1 + t]);
            assert(list_from(l, k)[1 + t] == (q + list_rest(l, k + 1))[t]);
        }
    }
    assert(strings_json(l.take(k + 1)).len() == sjk + sep + q.len());
    lemma_strings_json_split(l, k + 1);
    assert(strings_json(l.take(k + 1)).len() <= sj.len());
    assert(input.subrange(a11 + sjk + sep, a11 + sjk + sep + q.len() as int) =~= q);
}

/// A key pattern: the quoted key name and a colon.
fn key_pattern(name: &str) -> (r: Vec<u8>)
    ensures
        r@ == keyed(encode_utf8(name@)),
{
    let mut pat: Vec<u8> = Vec::new();
    push_key(&mut pat, name);
    pat
}

/// Parse an exactly canonical descriptor text. On success the input is the
/// canonical serialization of the returned descriptor, so serializing it
/// again reproduces the input byte for byte; and every canonical text — the
/// serialization of any descriptor — parses successfully (the descriptor
/// round trip).
#[verifier::rlimit(100)]
#[verifier::spinoff_prover]
fn parse_canonical(input: &Vec<u8>) -> (r: Option<ModuleManifest>)
    ensures
        r matches Some(m) ==> input@ == manifest_json(m@),
        (exists|m: ManifestV| input@ == manifest_json(m)) ==> r is Some,
{
    let n: usize = input.len();
    let ghost ok = exists|m: ManifestV| input@ == manifest_json(m);
    let ghost m0 = choose|m: ManifestV| input@ == manifest_json(m);
    let ghost lay = utf8_list(m0.capabilities);
    let ghost b1 = 1 + keyed(key_name()).len() as int;
    let ghost b2 = b1 + quoted(encode_utf8(m0.name)).len() as int;
    let ghost b4 = b2 + 1 + keyed(key_path()).len() as int;
    let ghost b5 = b4 + quoted(encode_utf8(m0.path)).len() as int;
    let ghost b7 = b5 + 1 + keyed(key_checksum()).len() as int;
    let ghost b8 = b7 + quoted(encode_utf8(m0.checksum)).len() as int;
    let ghost b10 = b8 + 1 + keyed(key_capabilities()).len() as int;
    let ghost b11 = b10 + 1;
    let ghost b12 = b11 + strings_json(lay).len() as int;
    proof {
        lemma_key_bytes();
        if ok {
            lemma_manifest_layout(input@, m0);
        }
    }
    let i0 = match expect_byte(input, 0, 123) {
        Some(j) => j,
        None => {
            proof {
                if ok {
                    assert(false);
                }
            }
            return None;
        },
    };
    let i1 = match expect_bytes(input, i0, &key_pattern("name")) {
        Some(j) => j,
        None => {
            proof {
                if ok {
                    assert(input@.subrange(1, b1) == keyed(key_name()));
                    assert(false);
                }
            }
            return None;
        },
    };
    proof {
        if ok {
            assert(i1 as int == b1);
            assert(has_quoted_at(input@, b1, m0.name));
        }
    }
    let (name, i2) = match parse_string(input, i1) {
        Some(p) => p,
        None => {
            proof {
                if ok {
                    assert(false);
                }
            }
            return None;
        },
    };
    proof {
        if ok {
            assert(name@ == m0.name && i2 as int == b2);
        }
    }
    let i3 = match expect_byte(input, i2, 44) {
        Some(j) => j,
        None => {
            proof {
                if ok {
                    assert(input@[b2] == 44);
                    assert(false);
                }
            }
            return None;
        },
    };
    let i4 = match expect_bytes(input, i3, &key_pattern("path")) {
        Some(j) => j,
        None => {
            proof {
                if ok {
                    assert(input@.subrange(b2 + 1, b4) == keyed(key_path()));
                    assert(false);
                }
            }
            return None;
        },
    };
    proof {
        if ok {
            assert(i4 as int == b4);
            assert(has_quoted_at(input@, b4, m0.path));
        }
    }
    let (path, i5) = match parse_string(input, i4) {
        Some(p) => p,
        None => {
            proof {
                if ok {
                    assert(false);
                }
            }
            return None;
        },
    };
    proof {
        if ok {
            assert(path@ == m0.path && i5 as int == b5);
        }
    }
    let i6 = match expect_byte(input, i5, 44) {
        Some(j) => j,
        None => {
            proof {
                if ok {
                    assert(input@[b5] == 44);
                    assert(false);
                }
            }
            return None;
        },
    };
    let i7 = match expect_bytes(input, i6, &key_pattern("checksum")) {
        Some(j) => j,
        None => {
            proof {
                if ok {
                    assert(input@.subrange(b5 + 1, b7) == keyed(key_checksum()));
                    assert(false);
                }
            }
            return None;
        },
    };
    proof {
        if ok {
            assert(i7 as int == b7);
            assert(has_quoted_at(input@, b7, m0.checksum));
        }
    }
    let (checksum, i8) = match parse_string(input, i7) {
        Some(p) => p,
        None => {
            proof {
                if ok {
                    assert(false);
                }
            }
            return None;
        },
    };
    proof {
        if ok {
            assert(checksum@ == m0.checksum && i8 as int == b8);
        }
    }
    let i9 = match expect_byte(input, i8, 44) {
        Some(j) => j,
        None => {
            proof {
                if ok {
                    assert(input@[b8] == 44);
                    assert(false);
                }
            }
            return None;
        },
    };
    let i10 = match expect_bytes(input, i9, &key_pattern("capabilities")) {
        Some(j) => j,
        None => {
            proof {
                if ok {
                    assert(input@.subrange(b8 + 1, b10) == keyed(key_capabilities()));
                    assert(false);
                }
            }
            return None;
        },
    };
    let i11 = match expect_byte(input, i10, 91) {
        Some(j) => j,
        None => {
            proof {
                if ok {
                    assert(input@[b10] == 91);
                    assert(false);
                }
            }
            return None;
        },
    };
    proof {
        if ok {
            assert(i11 as int == b11);
            assert(input@.subrange(b11, b12) == strings_json(lay));
            assert(input@[b12] == 93);
            assert(b12 + 1 <= n);
        }
    }
    let mut caps: Vec<String> = Vec::new();
    let mut cur: usize = i11;
    if cur < n && input[cur] != 93 {
        loop
            invariant_except_break
                ok ==> caps@.len() < m0.capabilities.len(),
            invariant
                i11 <= cur <= n,
                n == input@.len(),
                caps@.len() > 0 ==> input@.subrange(i11 as int, cur as int) == strings_json(
                    utf8_list(crate::audit::strs_view(caps@)),
                ),
                caps@.len() == 0 ==> cur == i11,
                ok == exists|m: ManifestV| input@ == manifest_json(m),
                ok ==> input@ == manifest_json(m0),
                lay == utf8_list(m0.capabilities),
                ok ==> {
                    &&& i11 as int + strings_json(lay).len() + 1 <= n
                    &&& input@.subrange(i11 as int, i11 as int + strings_json(lay).len() as int)
                        == strings_json(lay)
                    &&& input@[i11 as int + strings_json(lay).len() as int] == 93
                    &&& crate::audit::strs_view(caps@) == m0.capabilities.take(
                        caps@.len() as int,
                    )
                    &&& caps@.len() <= m0.capabilities.len()
                },
            ensures
                caps@.len() > 0,
                i11 <= cur <= n,
                n == input@.len(),
                input@.subrange(i11 as int, cur as int) == strings_json(
                    utf8_list(crate::audit::strs_view(caps@)),
                ),
                cur < n && input@[cur as int] == 93,
                ok ==> (crate::audit::strs_view(caps@) == m0.capabilities && cur as int
                    == i11 as int + strings_json(lay).len()),
            decreases n - cur,
        {
            let ghost pre_caps = crate::audit::strs_view(caps@);
            let ghost k = pre_caps.len() as int;
            proof {
                if ok {
                    lemma_list_item_at(input@, i11 as int, lay, m0.capabilities, k);
                    lemma_utf8_list_take(m0.capabilities, k);
                    assert(utf8_list(pre_caps) == lay.take(k));
                    if k > 0 {
                        assert(input@.subrange(i11 as int, cur as int).len() == cur - i11);
                        assert(cur as int == i11 as int + strings_json(lay.take(k)).len());
                        assert(input@[cur as int] == 44);
                    } else {
                        assert(cur as int == i11 as int);
                        assert(strings_json(lay.take(0)) =~= Seq::<u8>::empty());
                    }
                }
            }
            let item_start = if caps.len() > 0 {
                match expect_byte(input, cur, 44) {
                    Some(j) => j,
                    None => {
                        proof {
                            if ok {
                                assert(false);
                            }
                        }
                        return None;
                    },
                }
            } else {
                cur
            };
            proof {
                if ok {
                    assert(has_quoted_at(input@, item_start as int, m0.capabilities[k]));
                }
            }
            let (item, after) = match parse_string(input, item_start) {
                Some(p) => p,
                None => {
                    proof {
                        if ok {
                            assert(false);
                        }
                    }
                    return None;
                },
            };
            let ghost item_view = item@;
            proof {
                if ok {
                    assert(item_view == m0.capabilities[k]);
                    assert(after as int == item_start as int + quoted(
                        encode_utf8(m0.capabilities[k]),
                    ).len());
                    assert(lay[k] == encode_utf8(m0.capabilities[k]));
                    assert(after as int == i11 as int + strings_json(lay.take(k + 1)).len());
                }
            }
            caps.push(item);
            proof {
                crate::audit::lemma_strs_view_push(caps@.drop_last(), caps@.last());
                let full = utf8_list(crate::audit::strs_view(caps@));
                assert(crate::audit::strs_view(caps@) =~= pre_caps.push(item_view));
                assert(full.take(k) =~= utf8_list(pre_caps));
                assert(full.take(k + 1) =~= full);
                assert(full[k] == encode_utf8(item_view));
                lemma_strings_json_snoc(full, k);
                if k == 0 {
                    assert(input@.subrange(i11 as int, after as int) =~= input@.subrange(
                        cur as int,
                        after as int,
                    ));
                    assert(strings_json(utf8_list(pre_caps)) =~= Seq::<u8>::empty());
                    assert(input@.subrange(i11 as int, after as int) == strings_json(full));
                } else {
                    assert(input@.subrange(i11 as int, after as int) =~= input@.subrange(
                        i11 as int,
                        cur as int,
                    ) + seq![input@[cur as int]] + input@.subrange(
                        item_start as int,
                        after as int,
                    ));
                    assert(input@.subrange(i11 as int, after as int) == strings_json(full));
                }
                if ok {
                    assert(crate::audit::strs_view(caps@) =~= m0.capabilities.take(k + 1));
                    lemma_utf8_list_take(m0.capabilities, k + 1);
                }
            }
            cur = after;
            proof {
                if ok {
                    if k + 1 == m0.capabilities.len() {
                        assert(lay.take(k + 1) =~= lay);
                        assert(cur as int == i11 as int + strings_json(lay).len());
                        assert(input@[cur as int] == 93);
                        assert(cur < n);
                    } else {
                        lemma_list_item_at(input@, i11 as int, lay, m0.capabilities, k + 1);
                        lemma_utf8_list_take(m0.capabilities, k + 1);
                        assert(input@[cur as int] == 44);
                    }
                }
            }
            if cur < n && input[cur] == 93 {
                proof {
                    if ok {
                        if k + 1 < m0.capabilities.len() {
                            assert(input@[cur as int] == 44);
                            assert(false);
                        }
                        assert(crate::audit::strs_view(caps@) =~= m0.capabilities);
                    }
                }
                break ;
            }
            proof {
                if ok {
                    if k + 1 == m0.capabilities.len() {
                        assert(false);
                    }
                }
            }
        }
    }
    proof {
        if caps@.len() == 0 {
            assert(input@.subrange(i11 as int, cur as int) =~= Seq::<u8>::empty());
            assert(strings_json(utf8_list(crate::audit::strs_view(caps@)))
                =~= Seq::<u8>::empty());
        }
        if ok && caps@.len() == 0 {
            if m0.capabilities.len() > 0 {
                lemma_list_item_at(input@, i11 as int, lay, m0.capabilities, 0);
                assert(strings_json(lay.take(0)) =~= Seq::<u8>::empty());
                assert(input@.subrange(i11 as int, i11 as int + quoted(lay[0]).len() as int)
                    == quoted(lay[0]));
                assert(input@[i11 as int] == quoted(lay[0])[0]);
                assert(input@[i11 as int] == 34);
                assert(input@[i11 as int] == 93 || !(i11 < n));
                assert(false);
            }
            assert(crate::audit::strs_view(caps@) =~= m0.capabilities);
        }
        if ok {
            assert(cur as int == i11 as int + strings_json(lay).len());
            assert(input@[cur as int] == 93);
        }
    }
    let i12 = match expect_byte(input, cur, 93) {
        Some(j) => j,
        None => {
            proof {
                if ok {
                    assert(false);
                }
            }
            return None;
        },
    };
    proof {
        if ok {
            assert(i12 as int == b12 + 1);
        }
    }
    // Optional signature, then the closing brace and the end of the input.
    if i12 < n && input[i12] == 44 {
        proof {
            if ok {
                match m0.signature {
                    Some(_) => {},
                    None => {
                        assert(input@[b12 + 1] == 125);
                        assert(false);
                    },
                }
            }
        }
        let ghost sg0 = m0.signature->Some_0;
        let ghost b14 = b12 + 2 + keyed(key_signature()).len() as int;
        let ghost b15 = b14 + quoted(encode_utf8(sg0)).len() as int;
        let i13 = i12 + 1;
        let i14 = match expect_bytes(input, i13, &key_pattern("signature")) {
            Some(j) => j,
            None => {
                proof {
                    if ok {
                        assert(input@.subrange(b12 + 2, b14) == keyed(key_signature()));
                        assert(false);
                    }
                }
                return None;
            },
        };
        proof {
            if ok {
                assert(i14 as int == b14);
                assert(has_quoted_at(input@, b14, sg0));
            }
        }
        let (sig, i15) = match parse_string(input, i14) {
            Some(p) => p,
            None => {
                proof {
                    if ok {
                        assert(false);
                    }
                }
                return None;
            },
        };
        proof {
            if ok {
                assert(sig@ == sg0 && i15 as int == b15);
            }
        }
        let i16 = match expect_byte(input, i15, 125) {
            Some(j) => j,
            None => {
                proof {
                    if ok {
                        assert(input@[b15] == 125);
                        assert(false);
                    }
                }
                return None;
            },
        };
        if i16 != n {
            proof {
                if ok {
                    assert(b15 + 1 == n);
                    assert(false);
                }
            }
            return None;
        }
        let m = ModuleManifest { name, path, checksum, capabilities: caps, signature: Some(sig) };
        proof {
            assert(i1 as int == 1 + keyed(key_name()).len());
            assert(i2 as int == i1 + quoted(encode_utf8(m@.name)).len());
            assert(i4 as int == i2 + 1 + keyed(key_path()).len());
            assert(i5 as int == i4 + quoted(encode_utf8(m@.path)).len());
            assert(i7 as int == i5 + 1 + keyed(key_checksum()).len());
            assert(i8 as int == i7 + quoted(encode_utf8(m@.checksum)).len());
            assert(i10 as int == i8 + 1 + keyed(key_capabilities()).len());
            assert(utf8_list(m@.capabilities) == utf8_list(crate::audit::strs_view(caps@)));
            assert(cur as int == i11 + strings_json(utf8_list(m@.capabilities)).len());
            assert(i14 as int == i12 + 1 + keyed(key_signature()).len());
            assert(i15 as int == i14 + quoted(encode_utf8(sig@)).len());
            lemma_manifest_assemble(input@, m@);
        }
        return Some(m);
    }
    proof {
        if ok {
            match m0.signature {
                Some(_) => {
                    assert(input@[b12 + 1] == 44);
                    assert(i12 < n);
                    assert(false);
                },
                None => {},
            }
        }
    }
    let i16 = match expect_byte(input, i12, 125) {
        Some(j) => j,
        None => {
            proof {
                if ok {
                    assert(input@[b12 + 1] == 125);
                    assert(false);
                }
            }
            return None;
        },
    };
    if i16 != n {
        proof {
            if ok {
                assert(b12 + 2 == n);
                assert(false);
            }
        }
        return None;
    }
    let m = ModuleManifest { name, path, checksum, capabilities: caps, signature: None };
    proof {
        assert(i1 as int == 1 + keyed(key_name()).len());
        assert(i2 as int == i1 + quoted(encode_utf8(m@.name)).len());
        assert(i4 as int == i2 + 1 + keyed(key_path()).len());
        assert(i5 as int == i4 + quoted(encode_utf8(m@.path)).len());
        assert(i7 as int == i5 + 1 + keyed(key_checksum()).len());
        assert(i8 as int == i7 + quoted(encode_utf8(m@.checksum)).len());
        assert(i10 as int == i8 + 1 + keyed(key_capabilities()).len());
        assert(utf8_list(m@.capabilities) == utf8_list(crate::audit::strs_view(caps@)));
        assert(cur as int == i11 + strings_json(utf8_list(m@.capabilities)).len());
        lemma_manifest_assemble(input@, m@);
    }
    Some(m)
}

// ---------------------------------------------------------------------------
// Leniency: insignificant whitespace and a null signature
// ---------------------------------------------------------------------------

/// The JSON whitespace bytes: space, tab, line feed, carriage return.
pub open spec fn ws_byte(b: u8) -> bool {
    b == 32 || b == 9 || b == 10 || b == 13
}

/// The text from position `i` on with whitespace outside strings removed.
/// `in_str` says whether position `i` sits inside a quoted string and `esc`
/// whether the byte before it was an unconsumed backslash.
pub open spec fn strip_ws_from(s: Seq<u8>, i: int, in_str: bool, esc: bool) -> Seq<u8>
    decreases s.len() - i,
{
    if i < 0 || i >= s.len() {
        Seq::empty()
    } else {
        let b = s[i];
        if in_str {
            seq![b] + strip_ws_from(
                s,
                i + 1,
                !(!esc && b == 34),
                if esc {
                    false
                } else {
                    b == 92
                },
            )
        } else if ws_byte(b) {
            strip_ws_from(s, i + 1, false, false)
        } else if b == 34 {
            seq![b] + strip_ws_from(s, i + 1, true, false)
        } else {
            seq![b] + strip_ws_from(s, i + 1, false, false)
        }
    }
}

/// The text with whitespace outside strings removed.
pub open spec fn strip_ws(s: Seq<u8>) -> Seq<u8> {
    strip_ws_from(s, 0, false, false)
}

/// Remove whitespace outside quoted strings.
fn strip_whitespace(input: &Vec<u8>) -> (r: Vec<u8>)
    ensures
        r@ == strip_ws(input@),
{
    let n: usize = input.len();
    let mut out: Vec<u8> = Vec::new();
    let mut i: usize = 0;
    let mut in_str = false;
    let mut esc = false;
    while i < n
        invariant
            i <= n,
            n == input@.len(),
            strip_ws(input@) == out@ + strip_ws_from(input@, i as int, in_str, esc),
        decreases n - i,
    {
        let b = input[i];
        let ghost pre = out@;
        if in_str {
            out.push(b);
            let was_esc = esc;
            esc = if was_esc {
                false
            } else {
                b == 92
            };
            if !was_esc && b == 34 {
                in_str = false;
            }
            proof {
                assert(pre + (seq![b] + strip_ws_from(input@, i as int + 1, in_str, esc)) =~= (pre
                    + seq![b]) + strip_ws_from(input@, i as int + 1, in_str, esc));
            }
        } else if b == 32 || b == 9 || b == 10 || b == 13 {
        } else if b == 34 {
            out.push(b);
            in_str = true;
            esc = false;
            proof {
                assert(pre + (seq![b] + strip_ws_from(input@, i as int + 1, true, false)) =~= (pre
                    + seq![b]) + strip_ws_from(input@, i as int + 1, true, false));
            }
        } else {
            out.push(b);
            proof {
                assert(pre + (seq![b] + strip_ws_from(input@, i as int + 1, false, false)) =~= (pre
                    + seq![b]) + strip_ws_from(input@, i as int + 1, false, false));
            }
        }
        i = i + 1;
    }
    proof {
        assert(strip_ws_from(input@, n as int, in_str, esc) =~= Seq::<u8>::empty());
        assert(out@ + Seq::<u8>::empty() =~= out@);
    }
    out
}

/// The bytes of a trailing `,"signature":null` member before the closing
/// brace.
pub open spec fn null_signature_suffix() -> Seq<u8> {
    seq![
        44u8,
        34u8,
        115u8,
        105u8,
        103u8,
        110u8,
        97u8,
        116u8,
        117u8,
        114u8,
        101u8,
        34u8,
        58u8,
        110u8,
        117u8,
        108u8,
        108u8,
        125u8,
    ]
}

/// The text with a trailing `,"signature":null}` replaced by `}`: a null
/// signature means no signature.
pub open spec fn drop_null_signature(s: Seq<u8>) -> Seq<u8> {
    if s.len() >= 18 && s.subrange(s.len() - 18, s.len() as int) == null_signature_suffix() {
        s.take(s.len() - 18).push(125u8)
    } else {
        s
    }
}

/// Replace a trailing `,"signature":null}` with `}`.
fn drop_null_signature_text(input: &Vec<u8>) -> (r: Vec<u8>)
    ensures
        r@ == drop_null_signature(input@),
{
    let n: usize = input.len();
    let mut pat: Vec<u8> = Vec::new();
    pat.push(44);
    pat.push(34);
    pat.push(115);
    pat.push(105);
    pat.push(103);
    pat.push(110);
    pat.push(97);
    pat.push(116);
    pat.push(117);
    pat.push(114);
    pat.push(101);
    pat.push(34);
    pat.push(58);
    pat.push(110);
    pat.push(117);
    pat.push(108);
    pat.push(108);
    pat.push(125);
    proof {
        assert(pat@ =~= null_signature_suffix());
    }
    let matched = if n >= 18 {
        match expect_bytes(input, n - 18, &pat) {
            Some(_) => true,
            None => false,
        }
    } else {
        false
    };
    let mut out: Vec<u8> = Vec::new();
    let keep: usize = if matched {
        n - 18
    } else {
        n
    };
    let mut i: usize = 0;
    while i < keep
        invariant
            i <= keep <= n,
            n == input@.len(),
            out@ == input@.take(i as int),
        decreases keep - i,
    {
        out.push(input[i]);
        proof {
            assert(out@ =~= input@.take(i as int + 1));
        }
        i = i + 1;
    }
    if matched {
        out.push(125);
        proof {
            assert(input@.subrange(n as int - 18, n as int) == null_signature_suffix());
        }
    } else {
        proof {
            if input@.len() >= 18 && input@.subrange(n as int - 18, n as int)
                == null_signature_suffix() {
                assert(false);
            }
            assert(input@.take(n as int) =~= input@);
        }
    }
    out
}

/// Parse a descriptor text: the canonical serialization, in which whitespace
/// outside quoted strings is insignificant and `"signature":null` may stand
/// in place of an absent signature. On success the input, normalized that
/// way, is exactly the canonical serialization of the result, so serializing
/// the result reproduces the descriptor; and every canonical text parses back
/// to a descriptor with the same canonical text (the descriptor round trip).
pub fn parse_manifest(input: &Vec<u8>) -> (r: Option<ModuleManifest>)
    ensures
        r matches Some(m) ==> (input@ == manifest_json(m@) || drop_null_signature(
            strip_ws(input@),
        ) == manifest_json(m@)),
        (exists|m: ManifestV| input@ == manifest_json(m)) ==> (r matches Some(p) && input@
            == manifest_json(p@)),
        (exists|m: ManifestV| drop_null_signature(strip_ws(input@)) == manifest_json(m))
            ==> r is Some,
{
    match parse_canonical(input) {
        Some(m) => Some(m),
        None => {
            let stripped = strip_whitespace(input);
            let normalized = drop_null_signature_text(&stripped);
            parse_canonical(&normalized)
        },
    }
}

} // verus!
