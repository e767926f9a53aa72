//! Capability-based access control.
//!
//! Capabilities are unforgeable tokens issued only by the manager; they can be
//! delegated with equal or fewer rights (monotonic attenuation) and revoked in
//! cascade together with their delegated descendants.

use crate::encoding::{
    ascii_chars_of, dec_bytes, dec_val, hex_bytes_of, hex_encode, is_digit_seq,
    lemma_ascii_utf8_roundtrip, lemma_dec_bytes_digits, lemma_dec_roundtrip,
    lemma_dec_val_prefix_le, lemma_hex_bytes_ascii, push_bytes, push_dec, push_u64_le, sha256,
};
use vstd::bytes::spec_u64_to_le_bytes;
use vstd::prelude::*;
use vstd::string::{StrSliceExecFns, StringExecFns};
use vstd::utf8::encode_utf8;

verus! {

// ---------------------------------------------------------------------------
// Errors
// ---------------------------------------------------------------------------

/// Errors that can occur in capability operations.
#[derive(Debug)]
pub enum CapabilityError {
    /// No capability is known under the given token.
    NotFound(String),
    /// The capability has been revoked.
    Revoked,
    /// The capability has expired.
    Expired,
    /// The capability lacks rights that the operation requires.
    InsufficientRights { required: Vec<String>, actual: Vec<String> },
    /// The capability's usage limit has been reached.
    UsageLimitExceeded,
    /// Delegation is not allowed.
    DelegationNotAllowed,
    /// The token is malformed.
    InvalidToken,
    /// The caller is not authorized for this operation.
    Unauthorized,
}

/// The mathematical shape of a capability error.
pub enum ErrV {
    NotFound(Seq<char>),
    Revoked,
    Expired,
    InsufficientRights { required: Seq<Seq<char>>, actual: Seq<Seq<char>> },
    UsageLimitExceeded,
    DelegationNotAllowed,
    InvalidToken,
    Unauthorized,
}

impl View for CapabilityError {
    type V = ErrV;

    open spec fn view(&self) -> ErrV {
        match self {
            CapabilityError::NotFound(t) => ErrV::NotFound(t@),
            CapabilityError::Revoked => ErrV::Revoked,
            CapabilityError::Expired => ErrV::Expired,
            CapabilityError::InsufficientRights { required, actual } => ErrV::InsufficientRights {
                required: crate::audit::strs_view(required@),
                actual: crate::audit::strs_view(actual@),
            },
            CapabilityError::UsageLimitExceeded => ErrV::UsageLimitExceeded,
            CapabilityError::DelegationNotAllowed => ErrV::DelegationNotAllowed,
            CapabilityError::InvalidToken => ErrV::InvalidToken,
            CapabilityError::Unauthorized => ErrV::Unauthorized,
        }
    }
}

/// Result type for capability operations.
pub type CapabilityResult<T> = Result<T, CapabilityError>;

// ---------------------------------------------------------------------------
// Identifiers and rights
// ---------------------------------------------------------------------------

/// Unique identifier for a capability.
#[derive(Debug, Clone, Copy, PartialEq, Eq, Structural)]
pub struct CapabilityId(pub u64);

impl CapabilityId {
    /// Combine a monotonic counter with a creation timestamp: the timestamp
    /// fills the high 32 bits, the counter the low 32.
    pub fn new(counter: u64, timestamp: u64) -> (r: Self)
        ensures
            r.0 == ((timestamp << 32u64) | (counter & 0xFFFF_FFFFu64)),
    {
        CapabilityId((timestamp << 32u64) | (counter & 0xFFFF_FFFFu64))
    }
}

/// The low 32 bits of an identifier: the counter it was minted with.
pub open spec fn low32(x: u64) -> u64 {
    x & 0xFFFF_FFFFu64
}

pub proof fn lemma_id_low32(counter: u64, timestamp: u64)
    requires
        counter < 0x1_0000_0000,
    ensures
        low32((timestamp << 32u64) | (counter & 0xFFFF_FFFFu64)) == counter,
{
    assert(((timestamp << 32u64) | (counter & 0xFFFF_FFFFu64)) & 0xFFFF_FFFFu64 == counter)
        by (bit_vector)
        requires
            counter < 0x1_0000_0000u64,
    ;
}

/// Rights that can be granted by a capability.
#[derive(Debug, Clone, Copy, PartialEq, Eq, Structural)]
pub enum CapabilityRight {
    /// Permission to read a resource.
    Read,
    /// Permission to write or modify a resource.
    Write,
    /// Permission to delete a resource.
    Delete,
    /// Permission to execute code.
    Execute,
    /// Permission to create child resources.
    Create,
    /// Permission to list resources.
    List,
    /// Permission to delegate this capability.
    Delegate,
    /// Permission to revoke delegated capabilities.
    Revoke,
    /// Permission to emit audit events.
    AuditEmit,
    /// Permission to read the persistence layer.
    PersistenceRead,
    /// Permission to write the persistence layer.
    PersistenceWrite,
    /// Permission to log messages.
    Log,
}

/// The name of a right, as parsed and printed.
pub open spec fn right_name(r: CapabilityRight) -> Seq<char> {
    match r {
        CapabilityRight::Read => "read"@,
        CapabilityRight::Write => "write"@,
        CapabilityRight::Delete => "delete"@,
        CapabilityRight::Execute => "execute"@,
        CapabilityRight::Create => "create"@,
        CapabilityRight::List => "list"@,
        CapabilityRight::Delegate => "delegate"@,
        CapabilityRight::Revoke => "revoke"@,
        CapabilityRight::AuditEmit => "audit_emit"@,
        CapabilityRight::PersistenceRead => "persistence_read"@,
        CapabilityRight::PersistenceWrite => "persistence_write"@,
        CapabilityRight::Log => "log"@,
    }
}

/// ASCII lowercase of one character.
pub open spec fn lower_char(c: char) -> char {
    if 65 <= c as u32 && c as u32 <= 90 {
        ((c as u32 + 32) as u8) as char
    } else {
        c
    }
}

/// ASCII lowercase of a character sequence.
pub open spec fn lower_of(s: Seq<char>) -> Seq<char> {
    s.map_values(|c: char| lower_char(c))
}

/// Relies on `str::eq_ignore_ascii_case`: two strings match exactly when they
/// are equal after ASCII lowercasing.
#[verifier::external_body]
fn eq_ignore_case(a: &str, b: &str) -> (r: bool)
    ensures
        r == (lower_of(a@) == lower_of(b@)),
{
    a.eq_ignore_ascii_case(b)
}

/// The right named by a string, compared after ASCII lowercasing.
pub open spec fn right_from_name(s: Seq<char>) -> Option<CapabilityRight> {
    let l = lower_of(s);
    if l == lower_of("read"@) {
        Some(CapabilityRight::Read)
    } else if l == lower_of("write"@) {
        Some(CapabilityRight::Write)
    } else if l == lower_of("delete"@) {
        Some(CapabilityRight::Delete)
    } else if l == lower_of("execute"@) {
        Some(CapabilityRight::Execute)
    } else if l == lower_of("create"@) {
        Some(CapabilityRight::Create)
    } else if l == lower_of("list"@) {
        Some(CapabilityRight::List)
    } else if l == lower_of("delegate"@) {
        Some(CapabilityRight::Delegate)
    } else if l == lower_of("revoke"@) {
        Some(CapabilityRight::Revoke)
    } else if l == lower_of("audit_emit"@) {
        Some(CapabilityRight::AuditEmit)
    } else if l == lower_of("persistence_read"@) {
        Some(CapabilityRight::PersistenceRead)
    } else if l == lower_of("persistence_write"@) {
        Some(CapabilityRight::PersistenceWrite)
    } else if l == lower_of("log"@) {
        Some(CapabilityRight::Log)
    } else {
        None
    }
}

impl CapabilityRight {
    /// Parse a right from its name, ignoring ASCII case.
    pub fn from_str(s: &str) -> (r: Option<Self>)
        ensures
            r == right_from_name(s@),
    {
        if eq_ignore_case(s, "read") {
            Some(CapabilityRight::Read)
        } else if eq_ignore_case(s, "write") {
            Some(CapabilityRight::Write)
        } else if eq_ignore_case(s, "delete") {
            Some(CapabilityRight::Delete)
        } else if eq_ignore_case(s, "execute") {
            Some(CapabilityRight::Execute)
        } else if eq_ignore_case(s, "create") {
            Some(CapabilityRight::Create)
        } else if eq_ignore_case(s, "list") {
            Some(CapabilityRight::List)
        } else if eq_ignore_case(s, "delegate") {
            Some(CapabilityRight::Delegate)
        } else if eq_ignore_case(s, "revoke") {
            Some(CapabilityRight::Revoke)
        } else if eq_ignore_case(s, "audit_emit") {
            Some(CapabilityRight::AuditEmit)
        } else if eq_ignore_case(s, "persistence_read") {
            Some(CapabilityRight::PersistenceRead)
        } else if eq_ignore_case(s, "persistence_write") {
            Some(CapabilityRight::PersistenceWrite)
        } else if eq_ignore_case(s, "log") {
            Some(CapabilityRight::Log)
        } else {
            None
        }
    }

    /// The string representation of the right.
    pub fn as_str(&self) -> (r: &'static str)
        ensures
            r@ == right_name(*self),
    {
        match self {
            CapabilityRight::Read => "read",
            CapabilityRight::Write => "write",
            CapabilityRight::Delete => "delete",
            CapabilityRight::Execute => "execute",
            CapabilityRight::Create => "create",
            CapabilityRight::List => "list",
            CapabilityRight::Delegate => "delegate",
            CapabilityRight::Revoke => "revoke",
            CapabilityRight::AuditEmit => "audit_emit",
            CapabilityRight::PersistenceRead => "persistence_read",
            CapabilityRight::PersistenceWrite => "persistence_write",
            CapabilityRight::Log => "log",
        }
    }
}

/// Whether every right in `a` also stands in `b`.
pub open spec fn rights_subset(a: Seq<CapabilityRight>, b: Seq<CapabilityRight>) -> bool {
    forall|i: int| 0 <= i < a.len() ==> b.contains(#[trigger] a[i])
}

/// Whether a vector of rights holds the given right.
fn contains_right(v: &Vec<CapabilityRight>, r: CapabilityRight) -> (found: bool)
    ensures
        found == v@.contains(r),
{
    let n: usize = v.len();
    let mut i: usize = 0;
    while i < n
        invariant
            n == v@.len(),
            i <= n,
            forall|j: int| 0 <= j < i ==> v@[j] != r,
        decreases n - i,
    {
        if v[i] == r {
            return true;
        }
        i = i + 1;
    }
    false
}

/// An independent copy of a vector of rights.
fn dup_rights(v: &Vec<CapabilityRight>) -> (r: Vec<CapabilityRight>)
    ensures
        r@ == v@,
{
    let n: usize = v.len();
    let mut out: Vec<CapabilityRight> = Vec::new();
    let mut i: usize = 0;
    while i < n
        invariant
            n == v@.len(),
            i <= n,
            out@ == v@.take(i as int),
        decreases n - i,
    {
        out.push(v[i]);
        proof {
            assert(out@ =~= v@.take(i as int + 1));
        }
        i = i + 1;
    }
    proof {
        assert(v@.take(n as int) =~= v@);
    }
    out
}

// ---------------------------------------------------------------------------
// Resources and validity
// ---------------------------------------------------------------------------

/// Resource types that capabilities can reference.
#[derive(Debug)]
pub enum ResourceType {
    /// Memory region.
    Memory,
    /// Message channel.
    Channel,
    /// Guest module.
    Module,
    /// Audit log.
    AuditLog,
    /// Configuration.
    Config,
    /// Process handle.
    Process,
    /// Custom resource type.
    Custom(String),
}

/// The mathematical shape of a resource type.
pub enum ResV {
    Memory,
    Channel,
    Module,
    AuditLog,
    Config,
    Process,
    Custom(Seq<char>),
}

impl View for ResourceType {
    type V = ResV;

    open spec fn view(&self) -> ResV {
        match self {
            ResourceType::Memory => ResV::Memory,
            ResourceType::Channel => ResV::Channel,
            ResourceType::Module => ResV::Module,
            ResourceType::AuditLog => ResV::AuditLog,
            ResourceType::Config => ResV::Config,
            ResourceType::Process => ResV::Process,
            ResourceType::Custom(s) => ResV::Custom(s@),
        }
    }
}

impl ResourceType {
    /// An independent copy, equal at view level.
    pub fn dup(&self) -> (r: ResourceType)
        ensures
            r@ == self@,
    {
        match self {
            ResourceType::Memory => ResourceType::Memory,
            ResourceType::Channel => ResourceType::Channel,
            ResourceType::Module => ResourceType::Module,
            ResourceType::AuditLog => ResourceType::AuditLog,
            ResourceType::Config => ResourceType::Config,
            ResourceType::Process => ResourceType::Process,
            ResourceType::Custom(s) => ResourceType::Custom(s.clone()),
        }
    }
}

/// Validity constraints for a capability.
#[derive(Debug, Clone, Copy)]
pub struct CapabilityValidity {
    /// Expiration timestamp in Unix milliseconds; `None` means never expires.
    pub expires_at: Option<u64>,
    /// Maximum number of uses; `None` means unlimited.
    pub max_uses: Option<u64>,
    /// Current usage count.
    pub use_count: u64,
}

impl Default for CapabilityValidity {
    /// No expiry, no usage limit, no uses yet.
    fn default() -> (r: Self)
        ensures
            r.expires_at is None,
            r.max_uses is None,
            r.use_count == 0,
    {
        CapabilityValidity { expires_at: None, max_uses: None, use_count: 0 }
    }
}

// ---------------------------------------------------------------------------
// Tokens
// ---------------------------------------------------------------------------

/// The ASCII bytes of a token: `cap_<decimal id>_<16 hex chars>`, where the
/// hex characters are the first half of `SHA-256(id_le_bytes ++ secret)`.
pub open spec fn token_bytes(id: u64, secret: Seq<u8>) -> Seq<u8> {
    seq![99u8, 97u8, 112u8, 95u8] + dec_bytes(id as nat) + seq![95u8] + hex_bytes_of(
        crate::encoding::digest32(spec_u64_to_le_bytes(id) + secret),
    ).take(16)
}

/// The characters of a token.
pub open spec fn token_chars(id: u64, secret: Seq<u8>) -> Seq<char> {
    ascii_chars_of(token_bytes(id, secret))
}

/// The position of the first `_` byte at or after `i`, or the length.
pub open spec fn underscore_or_end(bytes: Seq<u8>, i: int) -> int
    decreases bytes.len() - i,
{
    if i < 0 || i >= bytes.len() {
        bytes.len() as int
    } else if bytes[i] == 95 {
        i
    } else {
        underscore_or_end(bytes, i + 1)
    }
}

pub proof fn lemma_underscore_or_end(b: Seq<u8>, s: int, e: int)
    requires
        0 <= s <= e <= b.len(),
        forall|j: int| s <= j < e ==> b[j] != 95,
        e == b.len() || b[e] == 95,
    ensures
        underscore_or_end(b, s) == e,
    decreases e - s,
{
    if s < e {
        lemma_underscore_or_end(b, s + 1, e);
    }
}

/// The identifier carried by a token's bytes: after the `cap_` prefix, the
/// decimal digits up to the next `_` or the end must name a 64-bit value.
pub open spec fn spec_parse_token(bytes: Seq<u8>) -> Option<u64> {
    if bytes.len() < 4 || bytes.take(4) != seq![99u8, 97u8, 112u8, 95u8] {
        None
    } else {
        let e = underscore_or_end(bytes, 4);
        let seg = bytes.subrange(4, e);
        if seg.len() == 0 || !is_digit_seq(seg) || dec_val(seg) > u64::MAX {
            None
        } else {
            Some(dec_val(seg) as u64)
        }
    }
}

/// The identifier a token authentically carries under a manager's secret:
/// its text must parse to an identifier and must equal the token the manager
/// mints for that identifier, so a well-formed text with a forged
/// authenticator suffix carries nothing.
pub open spec fn authentic_token_id(token: Seq<char>, secret: Seq<u8>) -> Option<u64> {
    match spec_parse_token(encode_utf8(token)) {
        None => None,
        Some(id) => if token == token_chars(id, secret) {
            Some(id)
        } else {
            None
        },
    }
}

/// Opaque capability token for external use.
#[derive(Debug, Clone)]
pub struct CapabilityToken {
    text: String,
}

impl View for CapabilityToken {
    type V = Seq<char>;

    closed spec fn view(&self) -> Seq<char> {
        self.text@
    }
}

impl CapabilityToken {
    /// Mint the token for an identifier under the manager's secret.
    fn mint(id: u64, secret: &Vec<u8>) -> (t: CapabilityToken)
        ensures
            t@ == token_chars(id, secret@),
    {
        let mut mac_input: Vec<u8> = Vec::new();
        push_u64_le(&mut mac_input, id);
        push_bytes(&mut mac_input, secret.as_slice());
        let digest = sha256(mac_input.as_slice());
        let hex = hex_encode(digest.as_slice());
        let hex_bytes = hex.as_str().as_bytes_vec();
        proof {
            assert(digest@ == crate::encoding::digest32(mac_input@));
            lemma_hex_bytes_ascii(digest@);
            lemma_ascii_utf8_roundtrip(hex_bytes_of(digest@));
            assert(hex_bytes@ == hex_bytes_of(digest@));
            assert(hex_bytes@.len() == 64);
        }
        let mut bytes: Vec<u8> = Vec::new();
        bytes.push(99u8);
        bytes.push(97u8);
        bytes.push(112u8);
        bytes.push(95u8);
        push_dec(&mut bytes, id);
        bytes.push(95u8);
        let mut i: usize = 0;
        let ghost mid = bytes@;
        while i < 16
            invariant
                i <= 16,
                hex_bytes@.len() == 64,
                bytes@ == mid + hex_bytes@.take(i as int),
            decreases 16 - i,
        {
            bytes.push(hex_bytes[i]);
            proof {
                assert(bytes@ =~= mid + hex_bytes@.take(i as int + 1));
            }
            i = i + 1;
        }
        proof {
            assert(bytes@ =~= token_bytes(id, secret@));
            lemma_dec_bytes_digits(id as nat);
            assert forall|k: int| 0 <= k < bytes@.len() implies bytes@[k] < 128 by {
                lemma_hex_bytes_ascii(digest@);
            }
        }
        let text = crate::encoding::string_from_ascii(bytes);
        CapabilityToken { text }
    }

    /// Extract the capability identifier from the token, if well formed.
    pub fn capability_id(&self) -> (r: Option<CapabilityId>)
        ensures
            r matches Some(c) ==> spec_parse_token(encode_utf8(self@)) == Some(c.0),
            r is None ==> spec_parse_token(encode_utf8(self@)) is None,
    {
        let bytes = self.text.as_str().as_bytes_vec();
        match parse_token_bytes(&bytes) {
            Some(v) => Some(CapabilityId(v)),
            None => None,
        }
    }

    /// The token as a string.
    pub fn as_str(&self) -> (r: &str)
        ensures
            r@ == self@,
    {
        self.text.as_str()
    }

    /// Rebuild a token from the string form that left the kernel. Whether the
    /// text is honored is decided at validation, which re-mints and compares
    /// the token.
    pub fn from_string(text: String) -> (t: CapabilityToken)
        ensures
            t@ == text@,
    {
        CapabilityToken { text }
    }
}

/// Parse a token's bytes into the identifier they carry.
fn parse_token_bytes(bytes: &Vec<u8>) -> (r: Option<u64>)
    ensures
        r == spec_parse_token(bytes@),
{
    let n: usize = bytes.len();
    if n < 4 {
        return None;
    }
    if !(bytes[0] == 99 && bytes[1] == 97 && bytes[2] == 112 && bytes[3] == 95) {
        proof {
            if bytes@.take(4) == seq![99u8, 97u8, 112u8, 95u8] {
                assert(bytes@.take(4)[0] == 99);
                assert(bytes@.take(4)[1] == 97);
                assert(bytes@.take(4)[2] == 112);
                assert(bytes@.take(4)[3] == 95);
                assert(false);
            }
        }
        return None;
    }
    proof {
        assert(bytes@.take(4) =~= seq![99u8, 97u8, 112u8, 95u8]);
    }
    let mut e: usize = 4;
    while e < n && bytes[e] != 95
        invariant
            4 <= e <= n,
            n == bytes@.len(),
            forall|j: int| 4 <= j < e ==> bytes@[j] != 95,
        decreases n - e,
    {
        e = e + 1;
    }
    proof {
        lemma_underscore_or_end(bytes@, 4, e as int);
    }
    let ghost seg = bytes@.subrange(4, e as int);
    if e == 4 {
        return None;
    }
    let mut acc: u64 = 0;
    let mut i: usize = 4;
    while i < e
        invariant
            4 < e <= n,
            4 <= i <= e,
            n == bytes@.len(),
            bytes@.take(4) == seq![99u8, 97u8, 112u8, 95u8],
            underscore_or_end(bytes@, 4) == e as int,
            seg == bytes@.subrange(4, e as int),
            seg.len() == e - 4,
            is_digit_seq(seg.take(i as int - 4)),
            acc == dec_val(seg.take(i as int - 4)),
        decreases e - i,
    {
        let d = bytes[i];
        proof {
            assert(seg[i as int - 4] == bytes@[i as int]);
        }
        if d < 48 || d > 57 {
            proof {
                assert(!is_digit_seq(seg));
            }
            return None;
        }
        let ghost pre = seg.take(i as int - 4);
        let ghost cur = seg.take(i as int - 4 + 1);
        proof {
            assert(cur.drop_last() =~= pre);
            assert(cur.last() == seg[i as int - 4]);
            assert(is_digit_seq(cur));
            assert(dec_val(cur) == dec_val(pre) * 10 + (d - 48));
        }
        let m10 = acc.checked_mul(10);
        match m10 {
            None => {
                proof {
                    assert(dec_val(cur) > u64::MAX);
                    if is_digit_seq(seg) {
                        lemma_dec_val_prefix_le(seg, i as int - 4 + 1);
                        assert(dec_val(seg) > u64::MAX);
                    }
                }
                return None;
            },
            Some(a10) => {
                let a2 = a10.checked_add((d - 48) as u64);
                match a2 {
                    None => {
                        proof {
                            assert(dec_val(cur) > u64::MAX);
                            if is_digit_seq(seg) {
                                lemma_dec_val_prefix_le(seg, i as int - 4 + 1);
                                assert(dec_val(seg) > u64::MAX);
                            }
                        }
                        return None;
                    },
                    Some(v) => {
                        acc = v;
                    },
                }
            },
        }
        i = i + 1;
    }
    proof {
        assert(seg.take(e as int - 4) =~= seg);
        assert(dec_val(seg) == acc);
    }
    Some(acc)
}

/// A minted token parses back to the identifier it was minted for.
pub proof fn lemma_token_roundtrip(id: u64, secret: Seq<u8>)
    ensures
        spec_parse_token(encode_utf8(token_chars(id, secret))) == Some(id),
{
    let tb = token_bytes(id, secret);
    let digest = crate::encoding::digest32(spec_u64_to_le_bytes(id) + secret);
    lemma_dec_bytes_digits(id as nat);
    lemma_hex_bytes_ascii(digest);
    assert(hex_bytes_of(digest).len() == 64);
    assert forall|k: int| 0 <= k < tb.len() implies tb[k] < 128 by {
        let dlen = dec_bytes(id as nat).len() as int;
        let hex16 = hex_bytes_of(digest).take(16);
        if k < 4 {
            assert(tb[k] == seq![99u8, 97u8, 112u8, 95u8][k]);
        } else if k < 4 + dlen {
            assert(tb[k] == dec_bytes(id as nat)[k - 4]);
        } else if k == 4 + dlen {
            assert(tb[k] == seq![95u8][0]);
        } else {
            assert(tb[k] == hex16[k - 5 - dlen]);
            assert(hex16[k - 5 - dlen] == hex_bytes_of(digest)[k - 5 - dlen]);
        }
    }
    lemma_ascii_utf8_roundtrip(tb);
    assert(encode_utf8(token_chars(id, secret)) == tb);
    let dlen = dec_bytes(id as nat).len() as int;
    assert(tb.take(4) =~= seq![99u8, 97u8, 112u8, 95u8]);
    assert forall|j: int| 4 <= j < 4 + dlen implies tb[j] != 95 by {
        assert(tb[j] == dec_bytes(id as nat)[j - 4]);
    }
    assert(tb[4 + dlen] == 95);
    lemma_underscore_or_end(tb, 4, 4 + dlen);
    let seg = tb.subrange(4, 4 + dlen);
    assert(seg =~= dec_bytes(id as nat));
    lemma_dec_roundtrip(id as nat);
    assert(dec_val(seg) == id);
}

// ---------------------------------------------------------------------------
// Capabilities
// ---------------------------------------------------------------------------

/// A capability granting access to a resource.
#[derive(Debug)]
pub struct Capability {
    /// Unique capability identifier.
    pub id: CapabilityId,
    /// Resource this capability grants access to.
    pub resource_type: ResourceType,
    /// Specific resource identifier.
    pub resource_id: String,
    /// Rights granted by this capability.
    pub rights: Vec<CapabilityRight>,
    /// Owner process or module identifier.
    pub owner: String,
    /// The capability this one was delegated from, if any.
    pub parent_id: Option<CapabilityId>,
    /// Validity constraints.
    pub validity: CapabilityValidity,
    /// Whether this capability has been revoked.
    pub revoked: bool,
    /// Creation timestamp in Unix milliseconds.
    pub created_at: u64,
}

/// The mathematical shape of a capability.
pub struct CapV {
    pub id: u64,
    pub resource_type: ResV,
    pub resource_id: Seq<char>,
    pub rights: Seq<CapabilityRight>,
    pub owner: Seq<char>,
    pub parent_id: Option<u64>,
    pub expires_at: Option<u64>,
    pub max_uses: Option<u64>,
    pub use_count: u64,
    pub revoked: bool,
    pub created_at: u64,
}

impl View for Capability {
    type V = CapV;

    open spec fn view(&self) -> CapV {
        CapV {
            id: self.id.0,
            resource_type: self.resource_type@,
            resource_id: self.resource_id@,
            rights: self.rights@,
            owner: self.owner@,
            parent_id: match self.parent_id {
                Some(p) => Some(p.0),
                None => None,
            },
            expires_at: self.validity.expires_at,
            max_uses: self.validity.max_uses,
            use_count: self.validity.use_count,
            revoked: self.revoked,
            created_at: self.created_at,
        }
    }
}

/// The views of a vector of capabilities.
pub open spec fn cap_views(v: Seq<Capability>) -> Seq<CapV> {
    v.map_values(|c: Capability| c@)
}

pub proof fn lemma_cap_views_push(s: Seq<Capability>, c: Capability)
    ensures
        cap_views(s.push(c)) == cap_views(s).push(c@),
{
    assert(cap_views(s.push(c)) =~= cap_views(s).push(c@));
}

/// Why a capability is not currently usable, if it is not.
pub open spec fn validity_err(c: CapV, now: u64) -> Option<ErrV> {
    if c.revoked {
        Some(ErrV::Revoked)
    } else if c.expires_at matches Some(e) && now > e {
        Some(ErrV::Expired)
    } else if c.max_uses matches Some(m) && c.use_count >= m {
        Some(ErrV::UsageLimitExceeded)
    } else {
        None
    }
}

impl Capability {
    /// Whether the capability carries a specific right.
    pub fn has_right(&self, right: CapabilityRight) -> (r: bool)
        ensures
            r == self@.rights.contains(right),
    {
        contains_right(&self.rights, right)
    }

    /// Whether the capability is currently usable: not revoked, not expired
    /// at `now`, and not past its usage limit.
    pub fn is_valid(&self, now: u64) -> (r: CapabilityResult<()>)
        ensures
            r is Ok <==> validity_err(self@, now) is None,
            r matches Err(e) ==> validity_err(self@, now) == Some(e@),
    {
        if self.revoked {
            return Err(CapabilityError::Revoked);
        }
        match self.validity.expires_at {
            Some(expires_at) => {
                if now > expires_at {
                    return Err(CapabilityError::Expired);
                }
            },
            None => {},
        }
        match self.validity.max_uses {
            Some(max_uses) => {
                if self.validity.use_count >= max_uses {
                    return Err(CapabilityError::UsageLimitExceeded);
                }
            },
            None => {},
        }
        Ok(())
    }

    /// An independent copy, equal to the original at view level.
    pub fn dup(&self) -> (r: Capability)
        ensures
            r@ == self@,
    {
        Capability {
            id: self.id,
            resource_type: self.resource_type.dup(),
            resource_id: self.resource_id.clone(),
            rights: dup_rights(&self.rights),
            owner: self.owner.clone(),
            parent_id: self.parent_id,
            validity: self.validity,
            revoked: self.revoked,
            created_at: self.created_at,
        }
    }
}

// ---------------------------------------------------------------------------
// The manager
// ---------------------------------------------------------------------------

/// The transitive revocation closure: position `i` belongs to the closure of
/// `target` when its capability is the target itself or was delegated, in one
/// or more steps, from the target. Delegation parents always sit at earlier
/// positions, so the recursion is well founded.
#[verifier::opaque]
pub open spec fn in_closure(cs: Seq<CapV>, target: u64, i: int) -> bool
    decreases i,
{
    if i < 0 {
        false
    } else if cs[i].id == target {
        true
    } else {
        match cs[i].parent_id {
            Some(p) => exists|j: int|
                0 <= j < i && (#[trigger] cs[j]).id == p && in_closure(cs, target, j),
            None => false,
        }
    }
}

/// Some position below `upto` is in the closure of `target` and carries the
/// identifier `x`.
pub open spec fn marked_sound(cs: Seq<CapV>, target: u64, upto: int, x: u64) -> bool {
    exists|j: int| 0 <= j < upto && in_closure(cs, target, j) && (#[trigger] cs[j]).id == x
}

/// The same capability with its revoked flag raised.
pub open spec fn revoke_mark(c: CapV) -> CapV {
    CapV {
        id: c.id,
        resource_type: c.resource_type,
        resource_id: c.resource_id,
        rights: c.rights,
        owner: c.owner,
        parent_id: c.parent_id,
        expires_at: c.expires_at,
        max_uses: c.max_uses,
        use_count: c.use_count,
        revoked: true,
        created_at: c.created_at,
    }
}

/// The same capability with another use count.
pub open spec fn with_use_count(c: CapV, n: u64) -> CapV {
    CapV {
        id: c.id,
        resource_type: c.resource_type,
        resource_id: c.resource_id,
        rights: c.rights,
        owner: c.owner,
        parent_id: c.parent_id,
        expires_at: c.expires_at,
        max_uses: c.max_uses,
        use_count: n,
        revoked: c.revoked,
        created_at: c.created_at,
    }
}

/// How many of the first `upto` capabilities the closure of `target` newly
/// revokes.
pub open spec fn count_marked(cs: Seq<CapV>, target: u64, upto: int) -> int
    decreases upto,
{
    if upto <= 0 {
        0
    } else {
        count_marked(cs, target, upto - 1) + (if in_closure(cs, target, upto - 1) && !cs[upto
            - 1].revoked {
            1int
        } else {
            0int
        })
    }
}

/// The position of the first capability with the given identifier, or -1.
pub open spec fn id_index(cs: Seq<CapV>, id: u64) -> int
    decreases cs.len(),
{
    if cs.len() == 0 {
        -1
    } else if cs[0].id == id {
        0
    } else {
        let r = id_index(cs.drop_first(), id);
        if r < 0 {
            -1
        } else {
            r + 1
        }
    }
}

pub proof fn lemma_id_index(cs: Seq<CapV>, id: u64)
    ensures
        id_index(cs, id) >= 0 ==> 0 <= id_index(cs, id) < cs.len() && cs[id_index(cs, id)].id
            == id && (forall|j: int| 0 <= j < id_index(cs, id) ==> (#[trigger] cs[j]).id != id),
        id_index(cs, id) < 0 ==> (forall|j: int| 0 <= j < cs.len() ==> (#[trigger] cs[j]).id != id),
    decreases cs.len(),
{
    if cs.len() > 0 && cs[0].id != id {
        let d = cs.drop_first();
        lemma_id_index(d, id);
        assert(forall|j: int| 0 <= j < d.len() ==> #[trigger] d[j] == cs[j + 1]);
        let r = id_index(d, id);
        if r >= 0 {
            assert(id_index(cs, id) == r + 1);
            assert(cs[r + 1] == d[r]);
            assert forall|j: int| 0 <= j < r + 1 implies (#[trigger] cs[j]).id != id by {
                if j > 0 {
                    assert(cs[j] == d[j - 1]);
                }
            }
        } else {
            assert forall|j: int| 0 <= j < cs.len() implies (#[trigger] cs[j]).id != id by {
                if j > 0 {
                    assert(cs[j] == d[j - 1]);
                }
            }
        }
    }
}

/// The outcome validation must have on a given manager state.
pub enum ValidateOutcome {
    Granted(CapV),
    Denied(ErrV),
}

/// What validating a token against required rights returns, as a function of
/// the manager's tables, the token text, and the current time.
pub open spec fn validate_spec(
    cs: Seq<CapV>,
    revoked: Seq<u64>,
    secret: Seq<u8>,
    token: Seq<char>,
    required: Seq<CapabilityRight>,
    now: u64,
) -> ValidateOutcome {
    match authentic_token_id(token, secret) {
        None => ValidateOutcome::Denied(ErrV::InvalidToken),
        Some(id) => {
            if revoked.contains(id) {
                ValidateOutcome::Denied(ErrV::Revoked)
            } else {
                let idx = id_index(cs, id);
                if idx < 0 {
                    ValidateOutcome::Denied(ErrV::NotFound(token))
                } else {
                    let c = cs[idx];
                    match validity_err(c, now) {
                        Some(v) => ValidateOutcome::Denied(v),
                        None => {
                            let missing = required.filter(|x: CapabilityRight| !c.rights.contains(x));
                            if missing.len() > 0 {
                                ValidateOutcome::Denied(
                                    ErrV::InsufficientRights {
                                        required: missing.map_values(
                                            |x: CapabilityRight| right_name(x),
                                        ),
                                        actual: c.rights.map_values(
                                            |x: CapabilityRight| right_name(x),
                                        ),
                                    },
                                )
                            } else {
                                ValidateOutcome::Granted(c)
                            }
                        },
                    }
                }
            }
        },
    }
}

/// Some capability in the table carries the given identifier.
pub open spec fn id_present(cs: Seq<CapV>, x: u64) -> bool {
    exists|i: int| 0 <= i < cs.len() && (#[trigger] cs[i]).id == x
}

/// A delegated capability's parent sits at an earlier position and carries at
/// least the delegated rights.
pub open spec fn parent_linked(cs: Seq<CapV>, i: int) -> bool {
    match cs[i].parent_id {
        Some(p) => exists|j: int|
            0 <= j < i && (#[trigger] cs[j]).id == p && rights_subset(cs[i].rights, cs[j].rights),
        None => true,
    }
}

/// Well-formedness of a manager's tables: counters are within range and
/// strictly increasing in creation order (so identifiers are unique); every
/// delegated capability has its parent at an earlier position with at least
/// its rights; the revocation set lists exactly the identifiers of revoked
/// capabilities.
pub open spec fn tables_wf(cs: Seq<CapV>, revoked: Seq<u64>, counter: u64) -> bool {
    &&& 1 <= counter <= 0x1_0000_0000
    &&& forall|i: int| 0 <= i < cs.len() ==> low32((#[trigger] cs[i]).id) < counter
    &&& forall|i: int, j: int|
        0 <= i < j < cs.len() ==> low32((#[trigger] cs[i]).id) < low32((#[trigger] cs[j]).id)
    &&& forall|i: int| 0 <= i < cs.len() ==> #[trigger] parent_linked(cs, i)
    &&& forall|i: int|
        0 <= i < cs.len() ==> ((#[trigger] cs[i]).revoked <==> revoked.contains(cs[i].id))
    &&& forall|k: int| 0 <= k < revoked.len() ==> id_present(cs, #[trigger] revoked[k])
}

/// Well-formedness only reads identifiers, parents, rights and revocation
/// flags, so it carries over to any table that agrees on those.
#[verifier::rlimit(30)]
pub proof fn lemma_tables_wf_same_skeleton(
    cs: Seq<CapV>,
    cs2: Seq<CapV>,
    revoked: Seq<u64>,
    counter: u64,
)
    requires
        tables_wf(cs, revoked, counter),
        cs2.len() == cs.len(),
        forall|i: int|
            0 <= i < cs.len() ==> (#[trigger] cs2[i]).id == cs[i].id && cs2[i].parent_id
                == cs[i].parent_id && cs2[i].rights == cs[i].rights && cs2[i].revoked
                == cs[i].revoked,
    ensures
        tables_wf(cs2, revoked, counter),
{
    assert forall|i: int| 0 <= i < cs2.len() implies low32((#[trigger] cs2[i]).id) < counter by {
        assert(cs2[i].id == cs[i].id);
    }
    assert forall|i: int, j: int| 0 <= i < j < cs2.len() implies low32((#[trigger] cs2[i]).id)
        < low32((#[trigger] cs2[j]).id) by {
        assert(cs2[i].id == cs[i].id && cs2[j].id == cs[j].id);
        assert(low32(cs[i].id) < low32(cs[j].id));
    }
    assert forall|i: int| 0 <= i < cs2.len() implies #[trigger] parent_linked(cs2, i) by {
        assert(parent_linked(cs, i));
        match cs[i].parent_id {
            Some(p) => {
                let j = choose|j: int|
                    0 <= j < i && (#[trigger] cs[j]).id == p && rights_subset(
                        cs[i].rights,
                        cs[j].rights,
                    );
                assert(0 <= j < i && cs2[j].id == p && rights_subset(cs2[i].rights, cs2[j].rights));
            },
            None => {},
        }
    }
    assert forall|i: int|
        0 <= i < cs2.len() implies ((#[trigger] cs2[i]).revoked <==> revoked.contains(
        cs2[i].id,
    )) by {
        assert(cs2[i].id == cs[i].id && cs2[i].revoked == cs[i].revoked);
    }
    assert forall|k: int| 0 <= k < revoked.len() implies id_present(cs2, #[trigger] revoked[k]) by {
        assert(id_present(cs, revoked[k]));
        let i = choose|i: int| 0 <= i < cs.len() && (#[trigger] cs[i]).id == revoked[k];
        assert(0 <= i < cs2.len() && cs2[i].id == revoked[k]);
    }
}

/// Appending a freshly minted capability preserves well-formedness: its
/// counter is the next one, it is not revoked, and if it has a parent the
/// parent is already in the table with at least its rights.
#[verifier::rlimit(30)]
pub proof fn lemma_tables_wf_push(cs: Seq<CapV>, revoked: Seq<u64>, counter: u64, c: CapV)
    requires
        tables_wf(cs, revoked, counter),
        counter < 0x1_0000_0000,
        low32(c.id) == counter,
        !c.revoked,
        c.parent_id matches Some(p) ==> exists|j: int|
            0 <= j < cs.len() && (#[trigger] cs[j]).id == p && rights_subset(c.rights, cs[j].rights),
    ensures
        tables_wf(cs.push(c), revoked, (counter + 1) as u64),
        !revoked.contains(c.id),
{
    let cs2 = cs.push(c);
    assert(forall|i: int| 0 <= i < cs.len() ==> #[trigger] cs2[i] == cs[i]);
    assert(cs2[cs.len() as int] == c);
    assert forall|k: int| 0 <= k < revoked.len() implies #[trigger] revoked[k] != c.id by {
        assert(id_present(cs, revoked[k]));
        let i = choose|i: int| 0 <= i < cs.len() && (#[trigger] cs[i]).id == revoked[k];
        assert(low32(cs[i].id) < counter);
    }
    if revoked.contains(c.id) {
        let k = choose|k: int| 0 <= k < revoked.len() && revoked[k] == c.id;
        assert(false);
    }
    assert forall|i: int| 0 <= i < cs2.len() implies low32((#[trigger] cs2[i]).id) < counter
        + 1 by {
        if i < cs.len() {
            assert(low32(cs[i].id) < counter);
        }
    }
    assert forall|i: int, j: int| 0 <= i < j < cs2.len() implies low32((#[trigger] cs2[i]).id)
        < low32((#[trigger] cs2[j]).id) by {
        if j < cs.len() {
            assert(low32(cs[i].id) < low32(cs[j].id));
        } else {
            assert(low32(cs[i].id) < counter);
        }
    }
    assert forall|i: int| 0 <= i < cs2.len() implies #[trigger] parent_linked(cs2, i) by {
        if i < cs.len() {
            assert(parent_linked(cs, i));
            match cs[i].parent_id {
                Some(p) => {
                    let j = choose|j: int|
                        0 <= j < i && (#[trigger] cs[j]).id == p && rights_subset(
                            cs[i].rights,
                            cs[j].rights,
                        );
                    assert(0 <= j < i && cs2[j].id == p && rights_subset(
                        cs2[i].rights,
                        cs2[j].rights,
                    ));
                },
                None => {},
            }
        } else {
            match c.parent_id {
                Some(p) => {
                    let j = choose|j: int|
                        0 <= j < cs.len() && (#[trigger] cs[j]).id == p && rights_subset(
                            c.rights,
                            cs[j].rights,
                        );
                    assert(0 <= j < i && cs2[j].id == p && rights_subset(
                        cs2[i].rights,
                        cs2[j].rights,
                    ));
                },
                None => {},
            }
        }
    }
    assert forall|i: int|
        0 <= i < cs2.len() implies ((#[trigger] cs2[i]).revoked <==> revoked.contains(
        cs2[i].id,
    )) by {
        if i < cs.len() {
            assert(cs2[i] == cs[i]);
        } else {
            assert(cs2[i] == c);
        }
    }
    assert forall|k: int| 0 <= k < revoked.len() implies id_present(cs2, #[trigger] revoked[k]) by {
        assert(id_present(cs, revoked[k]));
        let i = choose|i: int| 0 <= i < cs.len() && (#[trigger] cs[i]).id == revoked[k];
        assert(0 <= i < cs2.len() && cs2[i].id == revoked[k]);
    }
}

/// Raising a use count preserves well-formedness: identifiers, parents,
/// rights and revocation flags are untouched.
pub proof fn lemma_tables_wf_update_use(
    cs: Seq<CapV>,
    revoked: Seq<u64>,
    counter: u64,
    idx: int,
    n: u64,
)
    requires
        tables_wf(cs, revoked, counter),
        0 <= idx < cs.len(),
    ensures
        tables_wf(cs.update(idx, with_use_count(cs[idx], n)), revoked, counter),
{
    let cs2 = cs.update(idx, with_use_count(cs[idx], n));
    assert forall|i: int|
        0 <= i < cs.len() implies (#[trigger] cs2[i]).id == cs[i].id && cs2[i].parent_id
            == cs[i].parent_id && cs2[i].rights == cs[i].rights && cs2[i].revoked
            == cs[i].revoked by {
        if i == idx {
            assert(cs2[i] == with_use_count(cs[idx], n));
        } else {
            assert(cs2[i] == cs[i]);
        }
    }
    lemma_tables_wf_same_skeleton(cs, cs2, revoked, counter);
}


/// Marking the revocation closure of a target and recording its identifiers
/// preserves well-formedness.
#[verifier::rlimit(60)]
pub proof fn lemma_tables_wf_revoke(
    cs: Seq<CapV>,
    revoked: Seq<u64>,
    counter: u64,
    target: u64,
    cs2: Seq<CapV>,
    marked: Seq<u64>,
)
    requires
        tables_wf(cs, revoked, counter),
        cs2.len() == cs.len(),
        forall|i: int|
            0 <= i < cs.len() ==> #[trigger] cs2[i] == (if in_closure(cs, target, i) {
                revoke_mark(cs[i])
            } else {
                cs[i]
            }),
        forall|i: int|
            0 <= i < cs.len() ==> (in_closure(cs, target, i) <==> marked.contains(
                (#[trigger] cs[i]).id,
            )),
        forall|k: int|
            0 <= k < marked.len() ==> exists|j: int|
                0 <= j < cs.len() && in_closure(cs, target, j) && (#[trigger] cs[j]).id == #[trigger] marked[k],
    ensures
        tables_wf(cs2, revoked + marked, counter),
{
    let revoked2 = revoked + marked;
    assert(forall|i: int|
        0 <= i < cs.len() ==> (#[trigger] cs2[i]).id == cs[i].id && cs2[i].parent_id
            == cs[i].parent_id && cs2[i].rights == cs[i].rights);
    assert forall|i: int| 0 <= i < cs2.len() implies low32((#[trigger] cs2[i]).id) < counter by {
        assert(cs2[i].id == cs[i].id);
    }
    assert forall|i: int, j: int| 0 <= i < j < cs2.len() implies low32((#[trigger] cs2[i]).id)
        < low32((#[trigger] cs2[j]).id) by {
        assert(cs2[i].id == cs[i].id && cs2[j].id == cs[j].id);
        assert(low32(cs[i].id) < low32(cs[j].id));
    }
    assert forall|i: int| 0 <= i < cs2.len() implies #[trigger] parent_linked(cs2, i) by {
        assert(parent_linked(cs, i));
        match cs[i].parent_id {
            Some(p) => {
                let j = choose|j: int|
                    0 <= j < i && (#[trigger] cs[j]).id == p && rights_subset(
                        cs[i].rights,
                        cs[j].rights,
                    );
                assert(0 <= j < i && cs2[j].id == p && rights_subset(cs2[i].rights, cs2[j].rights));
            },
            None => {},
        }
    }
    assert forall|i: int|
        0 <= i < cs2.len() implies ((#[trigger] cs2[i]).revoked <==> revoked2.contains(
        cs2[i].id,
    )) by {
        if in_closure(cs, target, i) {
            assert(cs2[i].revoked);
            assert(marked.contains(cs[i].id));
            let k = choose|k: int| 0 <= k < marked.len() && marked[k] == cs[i].id;
            assert(revoked2[revoked.len() + k] == cs[i].id);
            assert(revoked2.contains(cs2[i].id));
        } else {
            assert(cs2[i].revoked == cs[i].revoked);
            if cs[i].revoked {
                assert(revoked.contains(cs[i].id));
                let k = choose|k: int| 0 <= k < revoked.len() && revoked[k] == cs[i].id;
                assert(revoked2[k] == cs[i].id);
                assert(revoked2.contains(cs2[i].id));
            } else {
                if revoked2.contains(cs2[i].id) {
                    let k = choose|k: int|
                        0 <= k < revoked2.len() && revoked2[k] == cs2[i].id;
                    if k < revoked.len() {
                        assert(revoked[k] == cs[i].id);
                        assert(revoked.contains(cs[i].id));
                        assert(false);
                    } else {
                        assert(marked[k - revoked.len()] == cs[i].id);
                        assert(marked.contains(cs[i].id));
                        assert(false);
                    }
                }
            }
        }
    }
    assert forall|k: int| 0 <= k < revoked2.len() implies id_present(cs2, #[trigger] revoked2[k]) by {
        if k < revoked.len() {
            assert(revoked2[k] == revoked[k]);
            assert(id_present(cs, revoked[k]));
            let i = choose|i: int| 0 <= i < cs.len() && (#[trigger] cs[i]).id == revoked[k];
            assert(0 <= i < cs2.len() && cs2[i].id == revoked2[k]);
        } else {
            assert(revoked2[k] == marked[k - revoked.len()]);
            let j = choose|j: int|
                0 <= j < cs.len() && in_closure(cs, target, j) && (#[trigger] cs[j]).id == marked[k
                    - revoked.len()];
            assert(0 <= j < cs2.len() && cs2[j].id == revoked2[k]);
        }
    }
}

/// During the revocation sweep, a position joins the closure exactly when it
/// is the target or its parent is already marked.
pub proof fn lemma_closure_step(cs: Seq<CapV>, target: u64, i: int, marked: Seq<u64>)
    requires
        0 <= i < cs.len(),
        forall|j: int|
            0 <= j < i ==> (in_closure(cs, target, j) <==> marked.contains(
                (#[trigger] cs[j]).id,
            )),
        forall|k: int| 0 <= k < marked.len() ==> marked_sound(cs, target, i, #[trigger] marked[k]),
    ensures
        in_closure(cs, target, i) <==> (cs[i].id == target || (cs[i].parent_id matches Some(p)
            && marked.contains(p))),
{
    reveal_with_fuel(in_closure, 2);
    if cs[i].id == target {
        assert(in_closure(cs, target, i));
    } else {
        match cs[i].parent_id {
            Some(p) => {
                if marked.contains(p) {
                    let k = choose|k: int| 0 <= k < marked.len() && marked[k] == p;
                    assert(0 <= k < marked.len());
                    assert(marked[k] == p);
                    assert(marked_sound(cs, target, i, marked[k]));
                    let j = choose|j: int|
                        0 <= j < i && in_closure(cs, target, j) && (#[trigger] cs[j]).id
                            == marked[k];
                    assert(0 <= j < i);
                    assert(in_closure(cs, target, j));
                    assert(cs[j].id == p);
                    assert(in_closure(cs, target, i)) by {
                        reveal_with_fuel(in_closure, 2);
                        assert(0 <= j < i && cs[j].id == p && in_closure(cs, target, j));
                    }
                }
                if in_closure(cs, target, i) {
                    let j = choose|j: int|
                        0 <= j < i && cs[j].id == p && in_closure(cs, target, j);
                    assert(marked.contains(cs[j].id));
                }
            },
            None => {
                assert(!in_closure(cs, target, i));
            },
        }
    }
}

/// Marking a closure member keeps the membership bookkeeping exact.
#[verifier::rlimit(60)]
pub proof fn lemma_marked_push_member(cs: Seq<CapV>, target: u64, i: int, marked: Seq<u64>)
    requires
        0 <= i < cs.len(),
        forall|a: int, b: int|
            0 <= a < b < cs.len() ==> (#[trigger] cs[a]).id != (#[trigger] cs[b]).id,
        in_closure(cs, target, i),
        forall|j: int|
            0 <= j < i ==> (in_closure(cs, target, j) <==> marked.contains(
                (#[trigger] cs[j]).id,
            )),
        forall|k: int|
            0 <= k < marked.len() ==> marked_sound(cs, target, i, #[trigger] marked[k]),
    ensures
        forall|j: int|
            0 <= j < i + 1 ==> (in_closure(cs, target, j) <==> marked.push(cs[i].id).contains(
                (#[trigger] cs[j]).id,
            )),
{
    let m2 = marked.push(cs[i].id);
    assert(m2[marked.len() as int] == cs[i].id);
    assert forall|j: int|
        0 <= j < i + 1 implies (in_closure(cs, target, j) <==> m2.contains(
        (#[trigger] cs[j]).id,
    )) by {
        if j < i {
            if in_closure(cs, target, j) {
                assert(marked.contains(cs[j].id));
                let k = choose|k: int| 0 <= k < marked.len() && marked[k] == cs[j].id;
                assert(m2[k] == cs[j].id);
                assert(m2.contains(cs[j].id));
            } else {
                if m2.contains(cs[j].id) {
                    let k = choose|k: int| 0 <= k < m2.len() && m2[k] == cs[j].id;
                    if k < marked.len() {
                        assert(marked[k] == cs[j].id);
                        assert(marked.contains(cs[j].id));
                        assert(false);
                    } else {
                        assert(cs[j].id == cs[i].id);
                        assert(false);
                    }
                }
            }
        } else {
            assert(m2.contains(cs[i].id));
        }
    }
}

/// Marking a closure member keeps the soundness bookkeeping exact.
#[verifier::rlimit(60)]
pub proof fn lemma_marked_push_sound(cs: Seq<CapV>, target: u64, i: int, marked: Seq<u64>)
    requires
        0 <= i < cs.len(),
        in_closure(cs, target, i),
        forall|k: int|
            0 <= k < marked.len() ==> marked_sound(cs, target, i, #[trigger] marked[k]),
    ensures
        forall|k: int|
            0 <= k < marked.push(cs[i].id).len() ==> marked_sound(
                cs,
                target,
                i + 1,
                #[trigger] marked.push(cs[i].id)[k],
            ),
{
    let m2 = marked.push(cs[i].id);
    assert forall|k: int| 0 <= k < m2.len() implies marked_sound(
        cs,
        target,
        i + 1,
        #[trigger] m2[k],
    ) by {
        if k < marked.len() {
            assert(m2[k] == marked[k]);
            assert(marked_sound(cs, target, i, marked[k]));
            let j = choose|j: int|
                0 <= j < i && in_closure(cs, target, j) && (#[trigger] cs[j]).id == marked[k];
            assert(0 <= j < i + 1 && in_closure(cs, target, j) && cs[j].id == m2[k]);
            assert(marked_sound(cs, target, i + 1, m2[k]));
        } else {
            assert(m2[k] == cs[i].id);
            assert(0 <= i < i + 1 && in_closure(cs, target, i) && cs[i].id == m2[k]);
            assert(marked_sound(cs, target, i + 1, m2[k]));
        }
    }
}

/// Skipping a position outside the closure keeps the sweep's bookkeeping
/// exact.
pub proof fn lemma_marked_skip(cs: Seq<CapV>, target: u64, i: int, marked: Seq<u64>)
    requires
        0 <= i < cs.len(),
        forall|a: int, b: int|
            0 <= a < b < cs.len() ==> (#[trigger] cs[a]).id != (#[trigger] cs[b]).id,
        !in_closure(cs, target, i),
        forall|j: int|
            0 <= j < i ==> (in_closure(cs, target, j) <==> marked.contains(
                (#[trigger] cs[j]).id,
            )),
        forall|k: int| 0 <= k < marked.len() ==> marked_sound(cs, target, i, #[trigger] marked[k]),
    ensures
        forall|j: int|
            0 <= j < i + 1 ==> (in_closure(cs, target, j) <==> marked.contains(
                (#[trigger] cs[j]).id,
            )),
        forall|k: int| 0 <= k < marked.len() ==> marked_sound(cs, target, i + 1, #[trigger] marked[k]),
{
    assert forall|j: int|
        0 <= j < i + 1 implies (in_closure(cs, target, j) <==> marked.contains(
        (#[trigger] cs[j]).id,
    )) by {
        if j == i {
            if marked.contains(cs[i].id) {
                let k = choose|k: int| 0 <= k < marked.len() && marked[k] == cs[i].id;
                assert(marked_sound(cs, target, i, marked[k]));
                let j2 = choose|j2: int|
                    0 <= j2 < i && in_closure(cs, target, j2) && (#[trigger] cs[j2]).id
                        == marked[k];
                assert(cs[j2].id == cs[i].id);
                assert(false);
            }
        }
    }
    assert forall|k: int| 0 <= k < marked.len() implies marked_sound(
        cs,
        target,
        i + 1,
        #[trigger] marked[k],
    ) by {
        assert(marked_sound(cs, target, i, marked[k]));
        let j = choose|j: int|
            0 <= j < i && in_closure(cs, target, j) && (#[trigger] cs[j]).id == marked[k];
        assert(0 <= j < i + 1 && in_closure(cs, target, j) && cs[j].id == marked[k]);
        assert(marked_sound(cs, target, i + 1, marked[k]));
    }
}

/// After the sweep, the revocation set holds exactly the old identifiers and
/// those of the closure.
pub proof fn lemma_revoked_union(cs: Seq<CapV>, target: u64, revoked: Seq<u64>, marked: Seq<u64>)
    requires
        forall|j: int|
            0 <= j < cs.len() ==> (in_closure(cs, target, j) <==> marked.contains(
                (#[trigger] cs[j]).id,
            )),
        forall|k: int|
            0 <= k < marked.len() ==> marked_sound(cs, target, cs.len() as int, #[trigger] marked[k]),
    ensures
        forall|x: u64|
            #[trigger] (revoked + marked).contains(x) <==> (revoked.contains(x) || marked_sound(
                cs,
                target,
                cs.len() as int,
                x,
            )),
{
    let r2 = revoked + marked;
    let n = cs.len() as int;
    assert forall|x: u64|
        #[trigger] r2.contains(x) <==> (revoked.contains(x) || marked_sound(cs, target, n, x)) by {
        if r2.contains(x) {
            let k = choose|k: int| 0 <= k < r2.len() && r2[k] == x;
            if k < revoked.len() {
                assert(revoked[k] == x);
                assert(revoked.contains(x));
            } else {
                assert(marked[k - revoked.len()] == x);
                assert(marked_sound(cs, target, n, marked[k - revoked.len()]));
            }
        }
        if revoked.contains(x) {
            let k = choose|k: int| 0 <= k < revoked.len() && revoked[k] == x;
            assert(r2[k] == x);
            assert(r2.contains(x));
        }
        if marked_sound(cs, target, n, x) {
            let j = choose|j: int|
                0 <= j < n && in_closure(cs, target, j) && (#[trigger] cs[j]).id == x;
            assert(marked.contains(cs[j].id));
            let k = choose|k: int| 0 <= k < marked.len() && marked[k] == cs[j].id;
            assert(r2[revoked.len() + k] == x);
            assert(r2.contains(x));
        }
    }
}

/// Manages all capabilities in the system.
pub struct CapabilityManager {
    caps: Vec<Capability>,
    revocations: Vec<u64>,
    next_counter: u64,
    secret: Vec<u8>,
}

impl CapabilityManager {
    /// The capabilities ever minted, in creation order.
    pub closed spec fn caps_view(&self) -> Seq<CapV> {
        cap_views(self.caps@)
    }

    /// The revocation set, as the list of revoked identifiers.
    pub closed spec fn revoked_view(&self) -> Seq<u64> {
        self.revocations@
    }

    /// The counter the next capability will be minted with.
    pub closed spec fn counter(&self) -> u64 {
        self.next_counter
    }

    /// The token-minting secret. Ghost access only; the secret never leaves
    /// the manager.
    pub closed spec fn secret_view(&self) -> Seq<u8> {
        self.secret@
    }

    /// There is room to mint another capability without reusing a counter.
    pub open spec fn can_mint(&self) -> bool {
        self.counter() < 0x1_0000_0000
    }

    /// Well-formedness of the manager's tables.
    pub open spec fn wf(&self) -> bool {
        tables_wf(self.caps_view(), self.revoked_view(), self.counter())
    }

    /// Identifiers are unique under well-formedness.
    pub proof fn lemma_ids_unique(&self)
        requires
            self.wf(),
        ensures
            forall|i: int, j: int|
                0 <= i < j < self.caps_view().len() ==> (#[trigger] self.caps_view()[i].id)
                    != (#[trigger] self.caps_view()[j].id),
    {
        let cs = self.caps_view();
        assert forall|i: int, j: int| 0 <= i < j < cs.len() implies (#[trigger] cs[i].id)
            != (#[trigger] cs[j].id) by {
            assert(low32(cs[i].id) < low32(cs[j].id));
        }
    }

    /// Create a new capability manager around a token-minting secret, which
    /// should be 32 cryptographically random bytes.
    pub fn new(secret: Vec<u8>) -> (r: Self)
        ensures
            r.wf(),
            r.caps_view().len() == 0,
            r.revoked_view().len() == 0,
            r.counter() == 1,
            r.secret_view() == secret@,
    {
        CapabilityManager { caps: Vec::new(), revocations: Vec::new(), next_counter: 1, secret }
    }

    /// Relies on `ring::rand::SystemRandom` via `ring::rand::generate`: 32
    /// random bytes. Nothing is promised of their values.
    #[verifier::external_body]
    pub fn generate_secret() -> (r: Vec<u8>)
        ensures
            r@.len() == 32,
    {
        let rng = ring::rand::SystemRandom::new();
        let random_bytes: [u8; 32] = ring::rand::generate(&rng).map(|b| b.expose()).unwrap_or(
            [0u8; 32],
        );
        random_bytes.to_vec()
    }

    /// Create a new capability. The new capability has no parent, is not
    /// revoked, starts with a use count of zero, and is indexed under a token
    /// minted from a fresh identifier.
    pub fn create_capability(
        &mut self,
        resource_type: ResourceType,
        resource_id: String,
        rights: Vec<CapabilityRight>,
        owner: String,
        validity: CapabilityValidity,
    ) -> (r: CapabilityResult<CapabilityToken>)
        requires
            old(self).wf(),
            old(self).can_mint(),
        ensures
            final(self).wf(),
            final(self).counter() == old(self).counter() + 1,
            final(self).revoked_view() == old(self).revoked_view(),
            final(self).secret_view() == old(self).secret_view(),
            final(self).caps_view().len() == old(self).caps_view().len() + 1,
            final(self).caps_view().take(old(self).caps_view().len() as int) == old(self).caps_view(),
            ({
                let c = final(self).caps_view().last();
                &&& c.resource_type == resource_type@
                &&& c.resource_id == resource_id@
                &&& c.rights == rights@
                &&& c.owner == owner@
                &&& c.parent_id is None
                &&& !c.revoked
                &&& c.expires_at == validity.expires_at
                &&& c.max_uses == validity.max_uses
                &&& c.use_count == 0
                &&& low32(c.id) == old(self).counter()
            }),
            r matches Ok(t) && t@ == token_chars(
                final(self).caps_view().last().id,
                old(self).secret_view(),
            ),
    {
        let counter = self.next_counter;
        self.next_counter = self.next_counter + 1;
        let timestamp = crate::encoding::now_millis();
        let id = CapabilityId::new(counter, timestamp);
        proof {
            lemma_id_low32(counter, timestamp);
        }
        let cap = Capability {
            id,
            resource_type,
            resource_id,
            rights,
            owner,
            parent_id: None,
            validity: CapabilityValidity {
                expires_at: validity.expires_at,
                max_uses: validity.max_uses,
                use_count: 0,
            },
            revoked: false,
            created_at: timestamp,
        };
        let token = CapabilityToken::mint(id.0, &self.secret);
        let ghost pre = self.caps@;
        self.caps.push(cap);
        proof {
            lemma_cap_views_push(pre, cap);
            lemma_tables_wf_push(cap_views(pre), self.revoked_view(), counter, cap@);
            assert(self.caps_view().take(cap_views(pre).len() as int) =~= cap_views(pre));
        }
        Ok(token)
    }

    /// Look up the position of a capability by identifier.
    fn find_index(&self, id: u64) -> (r: Option<usize>)
        ensures
            r matches Some(i) ==> id_index(self.caps_view(), id) == i && i < self.caps_view().len()
                && self.caps_view()[i as int].id == id,
            r is None ==> id_index(self.caps_view(), id) < 0,
    {
        proof {
            lemma_id_index(self.caps_view(), id);
        }
        let n: usize = self.caps.len();
        let mut i: usize = 0;
        while i < n
            invariant
                n == self.caps@.len(),
                i <= n,
                forall|j: int| 0 <= j < i ==> self.caps_view()[j].id != id,
            decreases n - i,
        {
            if self.caps[i].id.0 == id {
                proof {
                    lemma_id_index(self.caps_view(), id);
                    assert(self.caps_view()[i as int].id == id);
                    let k = id_index(self.caps_view(), id);
                    if k != i as int {
                        if k < 0 {
                            assert(self.caps_view()[i as int].id != id);
                        } else if k < i as int {
                            assert(self.caps_view()[k].id != id);
                        } else {
                            assert(self.caps_view()[i as int].id != id);
                        }
                        assert(false);
                    }
                }
                return Some(i);
            }
            proof {
                assert(self.caps_view()[i as int].id != id);
            }
            i = i + 1;
        }
        proof {
            lemma_id_index(self.caps_view(), id);
            if id_index(self.caps_view(), id) >= 0 {
                assert(self.caps_view()[id_index(self.caps_view(), id)].id == id);
                assert(false);
            }
        }
        None
    }

    /// Whether an identifier stands in the revocation set.
    fn is_revoked_id(&self, id: u64) -> (r: bool)
        ensures
            r == self.revoked_view().contains(id),
    {
        let n: usize = self.revocations.len();
        let mut i: usize = 0;
        while i < n
            invariant
                n == self.revocations@.len(),
                i <= n,
                forall|j: int| 0 <= j < i ==> self.revocations@[j] != id,
            decreases n - i,
        {
            if self.revocations[i] == id {
                return true;
            }
            i = i + 1;
        }
        false
    }

    /// The identifier a token authentically carries: the embedded identifier,
    /// with the token re-minted under the manager's secret and compared, so a
    /// forged authenticator suffix is rejected.
    fn authenticate(&self, token: &CapabilityToken) -> (r: Option<u64>)
        ensures
            r == authentic_token_id(token@, self.secret_view()),
    {
        let id = match token.capability_id() {
            Some(c) => c,
            None => {
                return None;
            },
        };
        let minted = CapabilityToken::mint(id.0, &self.secret);
        if crate::encoding::str_eq(token.as_str(), minted.as_str()) {
            Some(id.0)
        } else {
            None
        }
    }

    /// Validate a capability token against required rights at an explicit
    /// time. The result is exactly what `validate_spec` prescribes: the token
    /// must parse, must not be revoked, must name a known capability that is
    /// unexpired and under its usage limit, and the capability must carry
    /// every required right; a snapshot of the capability is returned.
    pub fn validate_at(
        &self,
        token: &CapabilityToken,
        required_rights: &[CapabilityRight],
        now: u64,
    ) -> (r: CapabilityResult<Capability>)
        ensures
            r matches Ok(c) ==> validate_spec(
                self.caps_view(),
                self.revoked_view(),
                self.secret_view(),
                token@,
                required_rights@,
                now,
            ) == ValidateOutcome::Granted(c@),
            r matches Err(e) ==> validate_spec(
                self.caps_view(),
                self.revoked_view(),
                self.secret_view(),
                token@,
                required_rights@,
                now,
            ) == ValidateOutcome::Denied(e@),
    {
        let cap_id = match self.authenticate(token) {
            Some(id) => id,
            None => {
                return Err(CapabilityError::InvalidToken);
            },
        };
        if self.is_revoked_id(cap_id) {
            return Err(CapabilityError::Revoked);
        }
        let idx = match self.find_index(cap_id) {
            Some(i) => i,
            None => {
                return Err(CapabilityError::NotFound(String::from_str(token.as_str())));
            },
        };
        let cap = &self.caps[idx];
        proof {
            assert(self.caps_view()[idx as int] == self.caps@[idx as int]@);
        }
        match cap.is_valid(now) {
            Ok(()) => {},
            Err(e) => {
                return Err(e);
            },
        }
        let missing = missing_rights(required_rights, &cap.rights);
        if missing.len() > 0 {
            let required = right_names(&missing);
            let actual = right_names(&cap.rights);
            proof {
                assert(crate::audit::strs_view(required@) =~= required_rights@.filter(
                    |x: CapabilityRight| !self.caps_view()[idx as int].rights.contains(x),
                ).map_values(|x: CapabilityRight| right_name(x)));
                assert(crate::audit::strs_view(actual@) =~= self.caps_view()[
                    idx as int
                ].rights.map_values(|x: CapabilityRight| right_name(x)));
            }
            return Err(CapabilityError::InsufficientRights { required, actual });
        }
        proof {
            assert(required_rights@.filter(
                |x: CapabilityRight| !self.caps_view()[idx as int].rights.contains(x),
            ).len() == 0);
        }
        Ok(cap.dup())
    }

    /// Validate a capability token against required rights at the current
    /// time. On success the returned capability carries every required right,
    /// is not revoked, and is under its usage limit; a malformed token is
    /// rejected whatever the time.
    pub fn validate(&self, token: &CapabilityToken, required_rights: &[CapabilityRight]) -> (r:
        CapabilityResult<Capability>)
        ensures
            r matches Ok(c) ==> {
                &&& rights_subset(required_rights@, c@.rights)
                &&& !c@.revoked
                &&& !self.revoked_view().contains(c@.id)
                &&& (c@.max_uses matches Some(m) ==> c@.use_count < m)
                &&& id_index(self.caps_view(), c@.id) >= 0 && self.caps_view()[
                    id_index(self.caps_view(), c@.id)
                ] == c@
            },
            r matches Err(e) && e@ == ErrV::InvalidToken <==> authentic_token_id(
                token@,
                self.secret_view(),
            ) is None,
            (authentic_token_id(token@, self.secret_view()) matches Some(id)
                && !self.revoked_view().contains(id) && id_index(self.caps_view(), id) >= 0 && {
                let c = self.caps_view()[id_index(self.caps_view(), id)];
                &&& !c.revoked
                &&& c.expires_at is None
                &&& (c.max_uses matches Some(mu) ==> c.use_count < mu)
                &&& rights_subset(required_rights@, c.rights)
            }) ==> r is Ok,
    {
        let now = crate::encoding::now_millis();
        let r = self.validate_at(token, required_rights, now);
        proof {
            if r is Ok {
                lemma_validate_grant_conditions(
                    self.caps_view(),
                    self.revoked_view(),
                    self.secret_view(),
                    token@,
                    required_rights@,
                    now,
                );
            }
            match authentic_token_id(token@, self.secret_view()) {
                Some(id) => {
                    let idx = id_index(self.caps_view(), id);
                    if !self.revoked_view().contains(id) && idx >= 0 {
                        lemma_id_index(self.caps_view(), id);
                        let c = self.caps_view()[idx];
                        if !c.revoked && c.expires_at is None && (c.max_uses matches Some(mu)
                            ==> c.use_count < mu) && rights_subset(required_rights@, c.rights) {
                            lemma_subset_filter_empty(required_rights@, c.rights);
                            assert(validity_err(c, now) is None);
                            assert(validate_spec(
                                self.caps_view(),
                                self.revoked_view(),
                                self.secret_view(),
                                token@,
                                required_rights@,
                                now,
                            ) == ValidateOutcome::Granted(c));
                            assert(r is Ok);
                        }
                    }
                },
                None => {},
            }
        }
        r
    }

    /// Record a use of a capability: its use count goes up by one (it
    /// saturates at the maximum, which is unreachable in practice).
    pub fn record_usage(&mut self, token: &CapabilityToken) -> (r: CapabilityResult<()>)
        requires
            old(self).wf(),
        ensures
            final(self).wf(),
            final(self).counter() == old(self).counter(),
            final(self).revoked_view() == old(self).revoked_view(),
            final(self).secret_view() == old(self).secret_view(),
            authentic_token_id(token@, old(self).secret_view()) is None ==> (r matches Err(e)
                && e@ == ErrV::InvalidToken && final(self).caps_view() == old(self).caps_view()),
            authentic_token_id(token@, old(self).secret_view()) matches Some(id) ==> {
                let idx = id_index(old(self).caps_view(), id);
                if idx < 0 {
                    r matches Err(e) && e@ == ErrV::NotFound(token@) && final(self).caps_view()
                        == old(self).caps_view()
                } else {
                    r is Ok && final(self).caps_view() == old(self).caps_view().update(
                        idx,
                        with_use_count(
                            old(self).caps_view()[idx],
                            if old(self).caps_view()[idx].use_count < u64::MAX {
                                (old(self).caps_view()[idx].use_count + 1) as u64
                            } else {
                                u64::MAX
                            },
                        ),
                    )
                }
            },
    {
        let cap_id = match self.authenticate(token) {
            Some(id) => id,
            None => {
                return Err(CapabilityError::InvalidToken);
            },
        };
        let idx = match self.find_index(cap_id) {
            Some(i) => i,
            None => {
                return Err(CapabilityError::NotFound(String::from_str(token.as_str())));
            },
        };
        proof {
            assert(self.caps_view()[idx as int] == self.caps@[idx as int]@);
        }
        let current = self.caps[idx].validity.use_count;
        let bumped = if current < u64::MAX {
            current + 1
        } else {
            u64::MAX
        };
        let mut c = self.caps.remove(idx);
        c.validity.use_count = bumped;
        self.caps.insert(idx, c);
        proof {
            assert(self.caps@ =~= old(self).caps@.update(idx as int, c));
            assert(self.caps_view() =~= old(self).caps_view().update(
                idx as int,
                with_use_count(old(self).caps_view()[idx as int], bumped),
            ));
            lemma_tables_wf_update_use(
                old(self).caps_view(),
                self.revoked_view(),
                self.counter(),
                idx as int,
                bumped,
            );
        }
        Ok(())
    }

    /// Delegate a capability to another owner with equal or fewer rights, at
    /// an explicit time. The parent must validate with the `Delegate` right;
    /// the requested rights must all be held by the parent (monotonic
    /// attenuation); the new capability copies the parent's resource and
    /// records the parent's identifier.
    pub fn delegate_at(
        &mut self,
        token: &CapabilityToken,
        new_owner: String,
        rights: Vec<CapabilityRight>,
        validity: CapabilityValidity,
        now: u64,
    ) -> (r: CapabilityResult<CapabilityToken>)
        requires
            old(self).wf(),
            old(self).can_mint(),
        ensures
            final(self).wf(),
            final(self).secret_view() == old(self).secret_view(),
            final(self).revoked_view() == old(self).revoked_view(),
            r is Err ==> final(self).caps_view() == old(self).caps_view() && final(self).counter()
                == old(self).counter(),
            ({
                let vo = validate_spec(
                    old(self).caps_view(),
                    old(self).revoked_view(),
                    old(self).secret_view(),
                    token@,
                    seq![CapabilityRight::Delegate],
                    now,
                );
                match vo {
                    ValidateOutcome::Denied(d) => r matches Err(e) && e@ == d,
                    ValidateOutcome::Granted(p) => {
                        let bad = rights@.filter(|x: CapabilityRight| !p.rights.contains(x));
                        if bad.len() > 0 {
                            r matches Err(e) && e@ == (ErrV::InsufficientRights {
                                required: bad.map_values(|x: CapabilityRight| right_name(x)),
                                actual: p.rights.map_values(|x: CapabilityRight| right_name(x)),
                            })
                        } else {
                            &&& r is Ok
                            &&& final(self).counter() == old(self).counter() + 1
                            &&& final(self).caps_view().len() == old(self).caps_view().len() + 1
                            &&& final(self).caps_view().take(old(self).caps_view().len() as int)
                                == old(self).caps_view()
                            &&& ({
                                let c = final(self).caps_view().last();
                                &&& c.resource_type == p.resource_type
                                &&& c.resource_id == p.resource_id
                                &&& c.rights == rights@
                                &&& rights_subset(c.rights, p.rights)
                                &&& c.owner == new_owner@
                                &&& c.parent_id == Some(p.id)
                                &&& !c.revoked
                                &&& c.expires_at == validity.expires_at
                                &&& c.max_uses == validity.max_uses
                                &&& c.use_count == validity.use_count
                                &&& low32(c.id) == old(self).counter()
                                &&& (r matches Ok(t) && t@ == token_chars(
                                    c.id,
                                    old(self).secret_view(),
                                ))
                            })
                        }
                    },
                }
            }),
    {
        let mut delegate_req: Vec<CapabilityRight> = Vec::new();
        delegate_req.push(CapabilityRight::Delegate);
        proof {
            assert(delegate_req@ =~= seq![CapabilityRight::Delegate]);
        }
        let parent = match self.validate_at(token, delegate_req.as_slice(), now) {
            Ok(p) => p,
            Err(e) => {
                return Err(e);
            },
        };
        let bad = missing_rights(rights.as_slice(), &parent.rights);
        if bad.len() > 0 {
            let required = right_names(&bad);
            let actual = right_names(&parent.rights);
            proof {
                assert(crate::audit::strs_view(required@) =~= rights@.filter(
                    |x: CapabilityRight| !parent@.rights.contains(x),
                ).map_values(|x: CapabilityRight| right_name(x)));
                assert(crate::audit::strs_view(actual@) =~= parent@.rights.map_values(
                    |x: CapabilityRight| right_name(x),
                ));
            }
            return Err(CapabilityError::InsufficientRights { required, actual });
        }
        proof {
            lemma_filter_empty_is_subset(rights@, parent@.rights);
            lemma_validate_grant_conditions(
                self.caps_view(),
                self.revoked_view(),
                self.secret_view(),
                token@,
                seq![CapabilityRight::Delegate],
                now,
            );
        }
        let counter = self.next_counter;
        self.next_counter = self.next_counter + 1;
        let timestamp = crate::encoding::now_millis();
        let id = CapabilityId::new(counter, timestamp);
        proof {
            lemma_id_low32(counter, timestamp);
        }
        let cap = Capability {
            id,
            resource_type: parent.resource_type.dup(),
            resource_id: parent.resource_id.clone(),
            rights,
            owner: new_owner,
            parent_id: Some(parent.id),
            validity,
            revoked: false,
            created_at: timestamp,
        };
        let new_token = CapabilityToken::mint(id.0, &self.secret);
        let ghost pre = self.caps@;
        self.caps.push(cap);
        proof {
            lemma_cap_views_push(pre, cap);
            assert(cap_views(pre) == old(self).caps_view());
            lemma_validate_grant_conditions(
                cap_views(pre),
                self.revoked_view(),
                self.secret_view(),
                token@,
                seq![CapabilityRight::Delegate],
                now,
            );
            lemma_id_index(cap_views(pre), parent@.id);
            let pidx = id_index(cap_views(pre), parent@.id);
            assert(0 <= pidx < cap_views(pre).len());
            assert(cap_views(pre)[pidx] == parent@);
            assert(cap@.parent_id == Some(parent@.id));
            assert(cap@.rights == rights@);
            assert(rights_subset(cap@.rights, cap_views(pre)[pidx].rights));
            lemma_tables_wf_push(cap_views(pre), self.revoked_view(), counter, cap@);
            assert(self.caps_view().take(cap_views(pre).len() as int) =~= cap_views(pre));
        }
        Ok(new_token)
    }

    /// Delegate a capability to another owner with equal or fewer rights. On
    /// success the new capability carries exactly the requested rights, all of
    /// them held by the parent, and records the parent as its origin.
    pub fn delegate(
        &mut self,
        token: &CapabilityToken,
        new_owner: String,
        rights: Vec<CapabilityRight>,
        validity: CapabilityValidity,
    ) -> (r: CapabilityResult<CapabilityToken>)
        requires
            old(self).wf(),
            old(self).can_mint(),
        ensures
            final(self).wf(),
            final(self).secret_view() == old(self).secret_view(),
            final(self).revoked_view() == old(self).revoked_view(),
            r is Err ==> final(self).caps_view() == old(self).caps_view() && final(self).counter()
                == old(self).counter(),
            r is Ok ==> {
                &&& final(self).counter() == old(self).counter() + 1
                &&& final(self).caps_view().len() == old(self).caps_view().len() + 1
                &&& final(self).caps_view().take(old(self).caps_view().len() as int) == old(self).caps_view()
                &&& ({
                    let c = final(self).caps_view().last();
                    &&& c.rights == rights@
                    &&& c.owner == new_owner@
                    &&& c.parent_id is Some
                    &&& !c.revoked
                    &&& parent_linked(final(self).caps_view(), final(self).caps_view().len() - 1)
                })
            },
            (authentic_token_id(token@, old(self).secret_view()) matches Some(id) && !old(
                self,
            ).revoked_view().contains(id) && id_index(old(self).caps_view(), id) >= 0 && {
                let c = old(self).caps_view()[id_index(old(self).caps_view(), id)];
                &&& !c.revoked
                &&& c.expires_at is None
                &&& (c.max_uses matches Some(mu) ==> c.use_count < mu)
                &&& c.rights.contains(CapabilityRight::Delegate)
                &&& rights_subset(rights@, c.rights)
            }) ==> r is Ok,
    {
        let ghost requested = rights@;
        let now = crate::encoding::now_millis();
        let r = self.delegate_at(token, new_owner, rights, validity, now);
        proof {
            if r is Ok {
                assert(parent_linked(self.caps_view(), self.caps_view().len() - 1));
            }
            match authentic_token_id(token@, old(self).secret_view()) {
                Some(id) => {
                    let idx = id_index(old(self).caps_view(), id);
                    if !old(self).revoked_view().contains(id) && idx >= 0 {
                        lemma_id_index(old(self).caps_view(), id);
                        let c = old(self).caps_view()[idx];
                        if !c.revoked && c.expires_at is None && (c.max_uses matches Some(mu)
                            ==> c.use_count < mu) && c.rights.contains(CapabilityRight::Delegate)
                            && rights_subset(requested, c.rights) {
                            lemma_subset_filter_empty(seq![CapabilityRight::Delegate], c.rights);
                            lemma_subset_filter_empty(requested, c.rights);
                            assert(validity_err(c, now) is None);
                            assert(validate_spec(
                                old(self).caps_view(),
                                old(self).revoked_view(),
                                old(self).secret_view(),
                                token@,
                                seq![CapabilityRight::Delegate],
                                now,
                            ) == ValidateOutcome::Granted(c));
                            assert(r is Ok);
                        }
                    }
                },
                None => {},
            }
        }
        r
    }

    /// Revoke a capability together with every capability delegated from it,
    /// directly or transitively. Each capability in that closure has its
    /// revoked flag raised and its identifier added to the revocation set; the
    /// count of newly revoked capabilities is returned, so revoking an already
    /// revoked capability reports zero.
    #[verifier::rlimit(100)]
    pub fn revoke(&mut self, token: &CapabilityToken) -> (r: CapabilityResult<usize>)
        requires
            old(self).wf(),
        ensures
            final(self).wf(),
            final(self).counter() == old(self).counter(),
            final(self).secret_view() == old(self).secret_view(),
            authentic_token_id(token@, old(self).secret_view()) is None ==> (r matches Err(e)
                && e@ == ErrV::InvalidToken && final(self).caps_view() == old(self).caps_view()
                && final(self).revoked_view() == old(self).revoked_view()),
            authentic_token_id(token@, old(self).secret_view()) matches Some(id) ==> {
                let cs = old(self).caps_view();
                &&& r is Ok
                &&& final(self).caps_view().len() == cs.len()
                &&& forall|i: int|
                    0 <= i < cs.len() ==> #[trigger] final(self).caps_view()[i] == (if in_closure(
                        cs,
                        id,
                        i,
                    ) {
                        revoke_mark(cs[i])
                    } else {
                        cs[i]
                    })
                &&& (r matches Ok(n) && n == count_marked(cs, id, cs.len() as int))
                &&& forall|x: u64|
                    #[trigger] final(self).revoked_view().contains(x) <==> (old(self).revoked_view().contains(x) || marked_sound(cs, id, cs.len() as int, x))
            },
    {
        let target = match self.authenticate(token) {
            Some(id) => id,
            None => {
                return Err(CapabilityError::InvalidToken);
            },
        };
        let ghost cs = self.caps_view();
        proof {
            self.lemma_ids_unique();
        }
        let n: usize = self.caps.len();
        let mut new_caps: Vec<Capability> = Vec::new();
        let mut marked: Vec<u64> = Vec::new();
        let mut count: usize = 0;
        let mut i: usize = 0;
        while i < n
            invariant
                i <= n,
                n == self.caps@.len(),
                cs == self.caps_view(),
                self.caps_view() == old(self).caps_view(),
                self.revocations@ == old(self).revocations@,
                self.next_counter == old(self).next_counter,
                self.secret@ == old(self).secret@,
                tables_wf(cs, self.revocations@, self.next_counter),
                forall|a: int, b: int|
                    0 <= a < b < cs.len() ==> (#[trigger] cs[a]).id != (#[trigger] cs[b]).id,
                new_caps@.len() == i,
                forall|j: int|
                    0 <= j < i ==> #[trigger] cap_views(new_caps@)[j] == (if in_closure(
                        cs,
                        target,
                        j,
                    ) {
                        revoke_mark(cs[j])
                    } else {
                        cs[j]
                    }),
                forall|j: int|
                    0 <= j < i ==> (in_closure(cs, target, j) <==> marked@.contains(
                        (#[trigger] cs[j]).id,
                    )),
                forall|k: int|
                    0 <= k < marked@.len() ==> marked_sound(
                        cs,
                        target,
                        i as int,
                        #[trigger] marked@[k],
                    ),
                count <= i,
                count == count_marked(cs, target, i as int),
            decreases n - i,
        {
            proof {
                assert(cs[i as int] == self.caps@[i as int]@);
            }
            let c = &self.caps[i];
            let from_parent: bool = match c.parent_id {
                Some(p) => contains_u64(&marked, p.0),
                None => false,
            };
            let hit = c.id.0 == target || from_parent;
            proof {
                lemma_closure_step(cs, target, i as int, marked@);
                assert(hit == in_closure(cs, target, i as int));
            }
            let ghost caps_pre = new_caps@;
            let ghost marked_pre = marked@;
            if hit {
                if !c.revoked {
                    count = count + 1;
                }
                let mut d = c.dup();
                d.revoked = true;
                new_caps.push(d);
                marked.push(c.id.0);
                proof {
                    lemma_cap_views_push(caps_pre, d);
                    assert(d@ == revoke_mark(cs[i as int]));
                    lemma_marked_push_member(cs, target, i as int, marked_pre);
                    lemma_marked_push_sound(cs, target, i as int, marked_pre);
                }
            } else {
                let d = c.dup();
                new_caps.push(d);
                proof {
                    lemma_cap_views_push(caps_pre, d);
                    assert(d@ == cs[i as int]);
                    lemma_marked_skip(cs, target, i as int, marked_pre);
                }
            }
            i = i + 1;
        }
        let ghost final_marked = marked@;
        let ghost newv = cap_views(new_caps@);
        proof {
            assert(old(self).revocations@ + final_marked.take(0) =~= old(self).revocations@);
        }
        self.caps = new_caps;
        let m: usize = marked.len();
        let mut k: usize = 0;
        while k < m
            invariant
                k <= m,
                m == final_marked.len(),
                marked@ == final_marked,
                self.caps_view() == newv,
                self.revocations@ == old(self).revocations@ + final_marked.take(k as int),
                self.next_counter == old(self).next_counter,
                self.secret@ == old(self).secret@,
            decreases m - k,
        {
            let x = marked[k];
            self.revocations.push(x);
            proof {
                assert(self.revocations@ =~= old(self).revocations@ + final_marked.take(
                    k as int + 1,
                ));
            }
            k = k + 1;
        }
        proof {
            assert(final_marked.take(m as int) =~= final_marked);
            assert(self.revocations@ == old(self).revocations@ + final_marked);
            lemma_tables_wf_revoke(
                cs,
                old(self).revocations@,
                self.next_counter,
                target,
                newv,
                final_marked,
            );
            lemma_revoked_union(cs, target, old(self).revocations@, final_marked);
        }
        Ok(count)
    }


    /// A snapshot of the non-revoked capabilities held by an owner.
    pub fn list_capabilities(&self, owner: &str) -> (r: Vec<Capability>)
        ensures
            cap_views(r@) == self.caps_view().filter(
                |c: CapV| c.owner == owner@ && !c.revoked,
            ),
    {
        let mut out: Vec<Capability> = Vec::new();
        let n: usize = self.caps.len();
        let mut i: usize = 0;
        while i < n
            invariant
                n == self.caps@.len(),
                i <= n,
                cap_views(out@) == self.caps_view().take(i as int).filter(
                    |c: CapV| c.owner == owner@ && !c.revoked,
                ),
            decreases n - i,
        {
            proof {
                broadcast use Seq::lemma_filter_push;

                assert(self.caps_view()[i as int] == self.caps@[i as int]@);
                assert(self.caps_view().take(i as int + 1) =~= self.caps_view().take(i as int).push(
                    self.caps_view()[i as int],
                ));
            }
            if !self.caps[i].revoked && crate::encoding::str_eq(self.caps[i].owner.as_str(), owner)
                {
                let d = self.caps[i].dup();
                let ghost pre = out@;
                out.push(d);
                proof {
                    lemma_cap_views_push(pre, d);
                }
            }
            proof {
                assert(cap_views(out@) =~= self.caps_view().take(i as int + 1).filter(
                    |c: CapV| c.owner == owner@ && !c.revoked,
                ));
            }
            i = i + 1;
        }
        proof {
            assert(self.caps_view().take(n as int) =~= self.caps_view());
        }
        out
    }

    /// Statistics about the capability system.
    pub fn stats(&self) -> (r: CapabilityStats)
        ensures
            r.total_count == self.caps_view().len(),
            r.active_count == self.caps_view().filter(|c: CapV| !c.revoked).len(),
            r.revoked_count == self.revoked_view().len(),
    {
        let n: usize = self.caps.len();
        let mut active: usize = 0;
        let mut i: usize = 0;
        while i < n
            invariant
                n == self.caps@.len(),
                i <= n,
                active == self.caps_view().take(i as int).filter(|c: CapV| !c.revoked).len(),
            decreases n - i,
        {
            proof {
                broadcast use Seq::lemma_filter_push;
                broadcast use Seq::lemma_filter_len;

                assert(self.caps_view()[i as int] == self.caps@[i as int]@);
                assert(self.caps_view().take(i as int + 1) =~= self.caps_view().take(i as int).push(
                    self.caps_view()[i as int],
                ));
                self.caps_view().take(i as int).lemma_filter_len(|c: CapV| !c.revoked);
            }
            if !self.caps[i].revoked {
                active = active + 1;
            }
            i = i + 1;
        }
        proof {
            assert(self.caps_view().take(n as int) =~= self.caps_view());
        }
        CapabilityStats {
            active_count: active,
            total_count: n,
            revoked_count: self.revocations.len(),
        }
    }

    /// Create a capability carrying the `Read` and `List` rights.
    pub fn create_read_only(
        &mut self,
        resource_type: ResourceType,
        resource_id: String,
        owner: String,
    ) -> (r: CapabilityResult<CapabilityToken>)
        requires
            old(self).wf(),
            old(self).can_mint(),
        ensures
            final(self).wf(),
            r is Ok,
            final(self).caps_view().len() == old(self).caps_view().len() + 1,
            final(self).caps_view().take(old(self).caps_view().len() as int) == old(self).caps_view(),
            final(self).caps_view().last().rights == seq![
                CapabilityRight::Read,
                CapabilityRight::List,
            ],
            final(self).caps_view().last().owner == owner@,
            final(self).caps_view().last().resource_id == resource_id@,
            !final(self).caps_view().last().revoked,
            final(self).caps_view().last().parent_id is None,
            final(self).caps_view().last().expires_at is None,
            final(self).caps_view().last().max_uses is None,
            final(self).caps_view().last().use_count == 0,
            final(self).counter() == old(self).counter() + 1,
            final(self).revoked_view() == old(self).revoked_view(),
            final(self).secret_view() == old(self).secret_view(),
            r matches Ok(t) && t@ == token_chars(
                final(self).caps_view().last().id,
                old(self).secret_view(),
            ),
    {
        let mut rights: Vec<CapabilityRight> = Vec::new();
        rights.push(CapabilityRight::Read);
        rights.push(CapabilityRight::List);
        proof {
            assert(rights@ =~= seq![CapabilityRight::Read, CapabilityRight::List]);
        }
        self.create_capability(
            resource_type,
            resource_id,
            rights,
            owner,
            CapabilityValidity { expires_at: None, max_uses: None, use_count: 0 },
        )
    }

    /// Create a capability carrying the `Read`, `Write`, `Create` and `List`
    /// rights.
    pub fn create_read_write(
        &mut self,
        resource_type: ResourceType,
        resource_id: String,
        owner: String,
    ) -> (r: CapabilityResult<CapabilityToken>)
        requires
            old(self).wf(),
            old(self).can_mint(),
        ensures
            final(self).wf(),
            r is Ok,
            final(self).caps_view().len() == old(self).caps_view().len() + 1,
            final(self).caps_view().take(old(self).caps_view().len() as int) == old(self).caps_view(),
            final(self).caps_view().last().rights == seq![
                CapabilityRight::Read,
                CapabilityRight::Write,
                CapabilityRight::Create,
                CapabilityRight::List,
            ],
            final(self).caps_view().last().owner == owner@,
            !final(self).caps_view().last().revoked,
            final(self).caps_view().last().parent_id is None,
            final(self).caps_view().last().expires_at is None,
            final(self).caps_view().last().max_uses is None,
            final(self).caps_view().last().use_count == 0,
            final(self).counter() == old(self).counter() + 1,
            final(self).revoked_view() == old(self).revoked_view(),
            final(self).secret_view() == old(self).secret_view(),
            r matches Ok(t) && t@ == token_chars(
                final(self).caps_view().last().id,
                old(self).secret_view(),
            ),
    {
        let mut rights: Vec<CapabilityRight> = Vec::new();
        rights.push(CapabilityRight::Read);
        rights.push(CapabilityRight::Write);
        rights.push(CapabilityRight::Create);
        rights.push(CapabilityRight::List);
        proof {
            assert(rights@ =~= seq![
                CapabilityRight::Read,
                CapabilityRight::Write,
                CapabilityRight::Create,
                CapabilityRight::List,
            ]);
        }
        self.create_capability(
            resource_type,
            resource_id,
            rights,
            owner,
            CapabilityValidity { expires_at: None, max_uses: None, use_count: 0 },
        )
    }

    /// Create a capability carrying every non-audit right, including
    /// `Delegate` and `Revoke`.
    pub fn create_full_access(
        &mut self,
        resource_type: ResourceType,
        resource_id: String,
        owner: String,
    ) -> (r: CapabilityResult<CapabilityToken>)
        requires
            old(self).wf(),
            old(self).can_mint(),
        ensures
            final(self).wf(),
            r is Ok,
            final(self).caps_view().len() == old(self).caps_view().len() + 1,
            final(self).caps_view().take(old(self).caps_view().len() as int) == old(self).caps_view(),
            final(self).caps_view().last().rights == seq![
                CapabilityRight::Read,
                CapabilityRight::Write,
                CapabilityRight::Delete,
                CapabilityRight::Execute,
                CapabilityRight::Create,
                CapabilityRight::List,
                CapabilityRight::Delegate,
                CapabilityRight::Revoke,
            ],
            final(self).caps_view().last().owner == owner@,
            !final(self).caps_view().last().revoked,
            final(self).caps_view().last().parent_id is None,
            final(self).caps_view().last().expires_at is None,
            final(self).caps_view().last().max_uses is None,
            final(self).caps_view().last().use_count == 0,
            final(self).counter() == old(self).counter() + 1,
            final(self).revoked_view() == old(self).revoked_view(),
            final(self).secret_view() == old(self).secret_view(),
            r matches Ok(t) && t@ == token_chars(
                final(self).caps_view().last().id,
                old(self).secret_view(),
            ),
    {
        let mut rights: Vec<CapabilityRight> = Vec::new();
        rights.push(CapabilityRight::Read);
        rights.push(CapabilityRight::Write);
        rights.push(CapabilityRight::Delete);
        rights.push(CapabilityRight::Execute);
        rights.push(CapabilityRight::Create);
        rights.push(CapabilityRight::List);
        rights.push(CapabilityRight::Delegate);
        rights.push(CapabilityRight::Revoke);
        proof {
            assert(rights@ =~= seq![
                CapabilityRight::Read,
                CapabilityRight::Write,
                CapabilityRight::Delete,
                CapabilityRight::Execute,
                CapabilityRight::Create,
                CapabilityRight::List,
                CapabilityRight::Delegate,
                CapabilityRight::Revoke,
            ]);
        }
        self.create_capability(
            resource_type,
            resource_id,
            rights,
            owner,
            CapabilityValidity { expires_at: None, max_uses: None, use_count: 0 },
        )
    }
}

/// Statistics about the capability system.
#[derive(Debug, Clone, Copy)]
pub struct CapabilityStats {
    pub active_count: usize,
    pub total_count: usize,
    pub revoked_count: usize,
}

/// Whether a vector of identifiers holds the given one.
fn contains_u64(v: &Vec<u64>, x: u64) -> (found: bool)
    ensures
        found == v@.contains(x),
{
    let n: usize = v.len();
    let mut i: usize = 0;
    while i < n
        invariant
            n == v@.len(),
            i <= n,
            forall|j: int| 0 <= j < i ==> v@[j] != x,
        decreases n - i,
    {
        if v[i] == x {
            return true;
        }
        i = i + 1;
    }
    false
}

/// A subset filters to nothing by absence from its superset.
pub proof fn lemma_subset_filter_empty(a: Seq<CapabilityRight>, b: Seq<CapabilityRight>)
    requires
        rights_subset(a, b),
    ensures
        a.filter(|x: CapabilityRight| !b.contains(x)).len() == 0,
    decreases a.len(),
{
    broadcast use Seq::lemma_filter_push;

    if a.len() > 0 {
        let p = a.drop_last();
        assert(rights_subset(p, b));
        lemma_subset_filter_empty(p, b);
        assert(a =~= p.push(a.last()));
        assert(b.contains(a.last()));
    }
}

/// When filtering `a` by absence from `b` leaves nothing, `a` is a subset of
/// `b`.
pub proof fn lemma_filter_empty_is_subset(a: Seq<CapabilityRight>, b: Seq<CapabilityRight>)
    requires
        a.filter(|x: CapabilityRight| !b.contains(x)).len() == 0,
    ensures
        rights_subset(a, b),
{
    assert forall|i: int| 0 <= i < a.len() implies b.contains(#[trigger] a[i]) by {
        if !b.contains(a[i]) {
            a.lemma_filter_contains(|x: CapabilityRight| !b.contains(x), i);
        }
    }
}

/// The rights in `required` that `held` lacks.
fn missing_rights(required: &[CapabilityRight], held: &Vec<CapabilityRight>) -> (r: Vec<
    CapabilityRight,
>)
    ensures
        r@ == required@.filter(|x: CapabilityRight| !held@.contains(x)),
{
    let n: usize = required.len();
    let mut out: Vec<CapabilityRight> = Vec::new();
    let mut i: usize = 0;
    proof {
        assert(required@.take(0) =~= Seq::<CapabilityRight>::empty());
    }
    while i < n
        invariant
            n == required@.len(),
            i <= n,
            out@ == required@.take(i as int).filter(|x: CapabilityRight| !held@.contains(x)),
        decreases n - i,
    {
        proof {
            broadcast use Seq::lemma_filter_push;

            assert(required@.take(i as int + 1) =~= required@.take(i as int).push(
                required@[i as int],
            ));
        }
        let x = *vstd::slice::slice_index_get(required, i);
        if !contains_right(held, x) {
            out.push(x);
        }
        i = i + 1;
    }
    proof {
        assert(required@.take(n as int) =~= required@);
    }
    out
}

/// The names of a list of rights.
fn right_names(v: &Vec<CapabilityRight>) -> (r: Vec<String>)
    ensures
        crate::audit::strs_view(r@) == v@.map_values(|x: CapabilityRight| right_name(x)),
{
    let n: usize = v.len();
    let mut out: Vec<String> = Vec::new();
    let mut i: usize = 0;
    while i < n
        invariant
            n == v@.len(),
            i <= n,
            crate::audit::strs_view(out@) == v@.take(i as int).map_values(
                |x: CapabilityRight| right_name(x),
            ),
        decreases n - i,
    {
        let name = String::from_str(v[i].as_str());
        let ghost pre = out@;
        out.push(name);
        proof {
            crate::audit::lemma_strs_view_push(pre, name);
            assert(crate::audit::strs_view(out@) =~= v@.take(i as int + 1).map_values(
                |x: CapabilityRight| right_name(x),
            ));
        }
        i = i + 1;
    }
    proof {
        assert(v@.take(n as int) =~= v@);
    }
    out
}

/// If validation grants a capability, the grant implies every required right
/// is held, the capability is not in the revocation set, it is unexpired at
/// the time of the check, and it is under its usage limit.
pub proof fn lemma_validate_grant_conditions(
    cs: Seq<CapV>,
    revoked: Seq<u64>,
    secret: Seq<u8>,
    token: Seq<char>,
    required: Seq<CapabilityRight>,
    now: u64,
)
    requires
        validate_spec(cs, revoked, secret, token, required, now) is Granted,
    ensures
        ({
            let c = validate_spec(cs, revoked, secret, token, required, now)->Granted_0;
            &&& rights_subset(required, c.rights)
            &&& !c.revoked
            &&& !revoked.contains(c.id)
            &&& (c.expires_at matches Some(e) ==> now <= e)
            &&& (c.max_uses matches Some(m) ==> c.use_count < m)
            &&& id_index(cs, c.id) >= 0 && cs[id_index(cs, c.id)] == c
        }),
{
    let id = authentic_token_id(token, secret)->Some_0;
    let idx = id_index(cs, id);
    lemma_id_index(cs, id);
    let c = cs[idx];
    let missing = required.filter(|x: CapabilityRight| !c.rights.contains(x));
    assert(missing.len() == 0);
    assert forall|i: int| 0 <= i < required.len() implies c.rights.contains(
        #[trigger] required[i],
    ) by {
        if !c.rights.contains(required[i]) {
            required.lemma_filter_contains(|x: CapabilityRight| !c.rights.contains(x), i);
        }
    }
}

// ---------------------------------------------------------------------------
// Laws of delegation and revocation
// ---------------------------------------------------------------------------

/// Delegation attenuation: in a well-formed manager, every delegated
/// capability's rights are a subset of its parent's rights.
pub proof fn lemma_delegation_attenuation(m: &CapabilityManager, i: int)
    requires
        m.wf(),
        0 <= i < m.caps_view().len(),
        m.caps_view()[i].parent_id is Some,
    ensures
        exists|j: int|
            0 <= j < i && (#[trigger] m.caps_view()[j]).id == m.caps_view()[i].parent_id->Some_0
                && rights_subset(m.caps_view()[i].rights, m.caps_view()[j].rights),
{
    let cs = m.caps_view();
    assert(parent_linked(cs, i));
    match cs[i].parent_id {
        Some(p) => {
            let j = choose|j: int|
                0 <= j < i && (#[trigger] cs[j]).id == p && rights_subset(
                    cs[i].rights,
                    cs[j].rights,
                );
            assert(0 <= j < i && cs[j].id == cs[i].parent_id->Some_0 && rights_subset(
                cs[i].rights,
                cs[j].rights,
            ));
        },
        None => {},
    }
}

/// A revoked capability never validates: whatever rights are asked and
/// whatever the time, validating its token reports it revoked.
pub proof fn lemma_revoked_capability_denied(
    m: &CapabilityManager,
    i: int,
    required: Seq<CapabilityRight>,
    now: u64,
)
    requires
        m.wf(),
        0 <= i < m.caps_view().len(),
        m.caps_view()[i].revoked,
    ensures
        validate_spec(
            m.caps_view(),
            m.revoked_view(),
            m.secret_view(),
            token_chars(m.caps_view()[i].id, m.secret_view()),
            required,
            now,
        ) == ValidateOutcome::Denied(ErrV::Revoked),
{
    let cs = m.caps_view();
    let id = cs[i].id;
    lemma_token_roundtrip(id, m.secret_view());
    assert(authentic_token_id(token_chars(id, m.secret_view()), m.secret_view()) == Some(id));
    assert(m.revoked_view().contains(id));
}

/// Cascading revocation: after a revocation sweep for `target`, every
/// capability in the target's closure is revoked, so by
/// `lemma_revoked_capability_denied` none of them validates.
pub proof fn lemma_cascade_revokes_closure(
    old_cs: Seq<CapV>,
    new_cs: Seq<CapV>,
    target: u64,
    i: int,
)
    requires
        0 <= i < old_cs.len(),
        new_cs.len() == old_cs.len(),
        forall|j: int|
            0 <= j < old_cs.len() ==> #[trigger] new_cs[j] == (if in_closure(old_cs, target, j) {
                revoke_mark(old_cs[j])
            } else {
                old_cs[j]
            }),
        in_closure(old_cs, target, i),
    ensures
        new_cs[i].revoked,
{
}

/// The sweep only reads identifiers and parents, which revocation does not
/// change, so the closure is the same before and after.
pub proof fn lemma_in_closure_same(cs: Seq<CapV>, cs2: Seq<CapV>, target: u64, i: int)
    requires
        cs2.len() == cs.len(),
        forall|j: int|
            0 <= j < cs.len() ==> (#[trigger] cs2[j]).id == cs[j].id && cs2[j].parent_id
                == cs[j].parent_id,
        0 <= i < cs.len(),
    ensures
        in_closure(cs2, target, i) == in_closure(cs, target, i),
    decreases i,
{
    reveal_with_fuel(in_closure, 2);
    if in_closure(cs, target, i) && cs[i].id != target {
        match cs[i].parent_id {
            Some(p) => {
                let j = choose|j: int|
                    0 <= j < i && (#[trigger] cs[j]).id == p && in_closure(cs, target, j);
                lemma_in_closure_same(cs, cs2, target, j);
                assert(0 <= j < i && cs2[j].id == p && in_closure(cs2, target, j));
            },
            None => {},
        }
    }
    if in_closure(cs2, target, i) && cs2[i].id != target {
        match cs2[i].parent_id {
            Some(p) => {
                let j = choose|j: int|
                    0 <= j < i && (#[trigger] cs2[j]).id == p && in_closure(cs2, target, j);
                lemma_in_closure_same(cs, cs2, target, j);
                assert(0 <= j < i && cs[j].id == p && in_closure(cs, target, j));
            },
            None => {},
        }
    }
}

/// Double revocation is idempotent in effect: once every capability in the
/// closure is revoked, a second sweep for the same target newly revokes
/// nothing, so it reports zero.
pub proof fn lemma_double_revoke_reports_zero(cs: Seq<CapV>, target: u64, upto: int)
    requires
        0 <= upto <= cs.len(),
        forall|i: int| 0 <= i < cs.len() && in_closure(cs, target, i) ==> (#[trigger] cs[i]).revoked,
    ensures
        count_marked(cs, target, upto) == 0,
    decreases upto,
{
    if upto > 0 {
        lemma_double_revoke_reports_zero(cs, target, upto - 1);
    }
}

} // verus!
