//! Append-only, hash-chained audit log.
//!
//! Every entry carries the SHA-256 digest of its own fields together with the
//! digest of the entry before it, anchored at a fixed genesis digest, so any
//! in-place change to a recorded entry is detectable. The log keeps a bounded
//! ring of the most recent entries; the sequence counter and the running hash
//! survive trimming.

use crate::encoding::{hex_chars_of, hex_encode, push_bytes, push_u64_le, sha256, sha256_of};
use vstd::bytes::spec_u64_to_le_bytes;
use vstd::prelude::*;
use vstd::string::StringExecFns;
use vstd::utf8::encode_utf8;

verus! {

// ---------------------------------------------------------------------------
// Event vocabulary
// ---------------------------------------------------------------------------

/// Types of audit events.
#[derive(Debug)]
pub enum AuditEventType {
    ModuleLoaded { module_name: String, checksum: String },
    ModuleUnloaded { module_name: String },
    ModuleStarted { module_name: String },
    ModuleStopped { module_name: String, exit_code: i32 },
    ModuleCrashed { module_name: String, error: String },
    ModuleRestarted { module_name: String, attempt: u32 },
    CapabilityCreated { cap_id: String, owner: String, rights: Vec<String> },
    CapabilityValidated { cap_id: String, operation: String },
    CapabilityDenied { cap_id: String, reason: String },
    CapabilityDelegated { parent_id: String, new_id: String, new_owner: String },
    CapabilityRevoked { cap_id: String, cascade_count: usize },
    SignatureVerified { module_name: String },
    SignatureFailed { module_name: String, error: String },
    ExecutionStarted { module_name: String, function: String },
    ExecutionCompleted { module_name: String, function: String, fuel_used: u64 },
    ExecutionFailed { module_name: String, function: String, error: String },
    FuelExhausted { module_name: String, fuel_limit: u64 },
    MemoryLimitExceeded { module_name: String, limit: u64 },
    KernelStarted { version: String },
    KernelShutdown { reason: String },
    SupervisorEscalation { module_name: String, level: u32 },
    Custom { category: String, message: String },
}

/// The mathematical shape of an event: the same variants over character
/// sequences. Contracts and invariants speak of this type.
pub enum EventV {
    ModuleLoaded { module_name: Seq<char>, checksum: Seq<char> },
    ModuleUnloaded { module_name: Seq<char> },
    ModuleStarted { module_name: Seq<char> },
    ModuleStopped { module_name: Seq<char>, exit_code: i32 },
    ModuleCrashed { module_name: Seq<char>, error: Seq<char> },
    ModuleRestarted { module_name: Seq<char>, attempt: u32 },
    CapabilityCreated { cap_id: Seq<char>, owner: Seq<char>, rights: Seq<Seq<char>> },
    CapabilityValidated { cap_id: Seq<char>, operation: Seq<char> },
    CapabilityDenied { cap_id: Seq<char>, reason: Seq<char> },
    CapabilityDelegated { parent_id: Seq<char>, new_id: Seq<char>, new_owner: Seq<char> },
    CapabilityRevoked { cap_id: Seq<char>, cascade_count: usize },
    SignatureVerified { module_name: Seq<char> },
    SignatureFailed { module_name: Seq<char>, error: Seq<char> },
    ExecutionStarted { module_name: Seq<char>, function: Seq<char> },
    ExecutionCompleted { module_name: Seq<char>, function: Seq<char>, fuel_used: u64 },
    ExecutionFailed { module_name: Seq<char>, function: Seq<char>, error: Seq<char> },
    FuelExhausted { module_name: Seq<char>, fuel_limit: u64 },
    MemoryLimitExceeded { module_name: Seq<char>, limit: u64 },
    KernelStarted { version: Seq<char> },
    KernelShutdown { reason: Seq<char> },
    SupervisorEscalation { module_name: Seq<char>, level: u32 },
    Custom { category: Seq<char>, message: Seq<char> },
}

impl View for AuditEventType {
    type V = EventV;

    open spec fn view(&self) -> EventV {
        match self {
            AuditEventType::ModuleLoaded { module_name, checksum } => EventV::ModuleLoaded {
                module_name: module_name@,
                checksum: checksum@,
            },
            AuditEventType::ModuleUnloaded { module_name } => EventV::ModuleUnloaded {
                module_name: module_name@,
            },
            AuditEventType::ModuleStarted { module_name } => EventV::ModuleStarted {
                module_name: module_name@,
            },
            AuditEventType::ModuleStopped { module_name, exit_code } => EventV::ModuleStopped {
                module_name: module_name@,
                exit_code: *exit_code,
            },
            AuditEventType::ModuleCrashed { module_name, error } => EventV::ModuleCrashed {
                module_name: module_name@,
                error: error@,
            },
            AuditEventType::ModuleRestarted { module_name, attempt } => EventV::ModuleRestarted {
                module_name: module_name@,
                attempt: *attempt,
            },
            AuditEventType::CapabilityCreated { cap_id, owner, rights } => EventV::CapabilityCreated {
                cap_id: cap_id@,
                owner: owner@,
                rights: strs_view(rights@),
            },
            AuditEventType::CapabilityValidated { cap_id, operation } => EventV::CapabilityValidated {
                cap_id: cap_id@,
                operation: operation@,
            },
            AuditEventType::CapabilityDenied { cap_id, reason } => EventV::CapabilityDenied {
                cap_id: cap_id@,
                reason: reason@,
            },
            AuditEventType::CapabilityDelegated { parent_id, new_id, new_owner } => EventV::CapabilityDelegated {
                parent_id: parent_id@,
                new_id: new_id@,
                new_owner: new_owner@,
            },
            AuditEventType::CapabilityRevoked { cap_id, cascade_count } => EventV::CapabilityRevoked {
                cap_id: cap_id@,
                cascade_count: *cascade_count,
            },
            AuditEventType::SignatureVerified { module_name } => EventV::SignatureVerified {
                module_name: module_name@,
            },
            AuditEventType::SignatureFailed { module_name, error } => EventV::SignatureFailed {
                module_name: module_name@,
                error: error@,
            },
            AuditEventType::ExecutionStarted { module_name, function } => EventV::ExecutionStarted {
                module_name: module_name@,
                function: function@,
            },
            AuditEventType::ExecutionCompleted { module_name, function, fuel_used } => EventV::ExecutionCompleted {
                module_name: module_name@,
                function: function@,
                fuel_used: *fuel_used,
            },
            AuditEventType::ExecutionFailed { module_name, function, error } => EventV::ExecutionFailed {
                module_name: module_name@,
                function: function@,
                error: error@,
            },
            AuditEventType::FuelExhausted { module_name, fuel_limit } => EventV::FuelExhausted {
                module_name: module_name@,
                fuel_limit: *fuel_limit,
            },
            AuditEventType::MemoryLimitExceeded { module_name, limit } => EventV::MemoryLimitExceeded {
                module_name: module_name@,
                limit: *limit,
            },
            AuditEventType::KernelStarted { version } => EventV::KernelStarted {
                version: version@,
            },
            AuditEventType::KernelShutdown { reason } => EventV::KernelShutdown {
                reason: reason@,
            },
            AuditEventType::SupervisorEscalation { module_name, level } => EventV::SupervisorEscalation {
                module_name: module_name@,
                level: *level,
            },
            AuditEventType::Custom { category, message } => EventV::Custom {
                category: category@,
                message: message@,
            },
        }
    }
}

// ---------------------------------------------------------------------------
// Canonical event encoding
// ---------------------------------------------------------------------------

/// A string field: its UTF-8 length as 8 little-endian bytes, then its bytes.
pub open spec fn str_enc(s: Seq<char>) -> Seq<u8> {
    spec_u64_to_le_bytes(encode_utf8(s).len() as u64) + encode_utf8(s)
}

/// The views of a vector of strings.
pub open spec fn strs_view(v: Seq<String>) -> Seq<Seq<char>> {
    v.map_values(|s: String| s@)
}

/// The views of a vector of entries.
pub open spec fn entry_views(v: Seq<AuditEntry>) -> Seq<EntryV> {
    v.map_values(|e: AuditEntry| e@)
}

pub proof fn lemma_strs_view_push(s: Seq<String>, x: String)
    ensures
        strs_view(s.push(x)) == strs_view(s).push(x@),
{
    assert(strs_view(s.push(x)) =~= strs_view(s).push(x@));
}

pub proof fn lemma_entry_views_push(s: Seq<AuditEntry>, e: AuditEntry)
    ensures
        entry_views(s.push(e)) == entry_views(s).push(e@),
{
    assert(entry_views(s.push(e)) =~= entry_views(s).push(e@));
}

/// A list of string fields, one after the other.
pub open spec fn str_list_enc(l: Seq<Seq<char>>) -> Seq<u8>
    decreases l.len(),
{
    if l.len() == 0 {
        Seq::empty()
    } else {
        str_enc(l[0]) + str_list_enc(l.drop_first())
    }
}

pub proof fn lemma_str_list_enc_take(l: Seq<Seq<char>>, k: int)
    requires
        0 <= k < l.len(),
    ensures
        str_list_enc(l.take(k + 1)) == str_list_enc(l.take(k)) + str_enc(l[k]),
    decreases k,
{
    if k == 0 {
        let t1 = l.take(1);
        assert(t1.len() == 1);
        assert(t1[0] == l[0]);
        assert(t1.drop_first() =~= Seq::<Seq<char>>::empty());
        assert(str_list_enc(t1) == str_enc(l[0]) + str_list_enc(Seq::<Seq<char>>::empty()));
        assert(l.take(0) =~= Seq::<Seq<char>>::empty());
        assert(str_list_enc(l.take(1)) =~= str_list_enc(l.take(0)) + str_enc(l[0]));
    } else {
        lemma_str_list_enc_take(l.drop_first(), k - 1);
        assert(l.take(k + 1).drop_first() =~= l.drop_first().take(k));
        assert(l.take(k).drop_first() =~= l.drop_first().take(k - 1));
        assert(l.take(k + 1)[0] == l[0]);
        assert(l.take(k)[0] == l[0]);
        assert(l.drop_first()[k - 1] == l[k]);
        assert(str_list_enc(l.take(k + 1)) == str_enc(l[0]) + str_list_enc(l.drop_first().take(
            k,
        )));
        assert(str_list_enc(l.take(k)) == str_enc(l[0]) + str_list_enc(l.drop_first().take(
            k - 1,
        )));
        assert(str_enc(l[0]) + (str_list_enc(l.drop_first().take(k - 1)) + str_enc(l[k])) =~= (
        str_enc(l[0]) + str_list_enc(l.drop_first().take(k - 1))) + str_enc(l[k]));
    }
}

/// The canonical bytes of an event: a tag byte, then each field; strings are
/// length-prefixed, numbers are 8 little-endian bytes.
pub open spec fn spec_event_bytes(e: EventV) -> Seq<u8> {
    match e {
        EventV::ModuleLoaded { module_name, checksum } => seq![1u8] + str_enc(module_name)
            + str_enc(checksum),
        EventV::ModuleUnloaded { module_name } => seq![2u8] + str_enc(module_name),
        EventV::ModuleStarted { module_name } => seq![3u8] + str_enc(module_name),
        EventV::ModuleStopped { module_name, exit_code } => seq![4u8] + str_enc(module_name)
            + spec_u64_to_le_bytes(exit_code as u64),
        EventV::ModuleCrashed { module_name, error } => seq![5u8] + str_enc(module_name) + str_enc(
            error,
        ),
        EventV::ModuleRestarted { module_name, attempt } => seq![6u8] + str_enc(module_name)
            + spec_u64_to_le_bytes(attempt as u64),
        EventV::CapabilityCreated { cap_id, owner, rights } => seq![7u8] + str_enc(cap_id)
            + str_enc(owner) + spec_u64_to_le_bytes(rights.len() as u64) + str_list_enc(rights),
        EventV::CapabilityValidated { cap_id, operation } => seq![8u8] + str_enc(cap_id) + str_enc(
            operation,
        ),
        EventV::CapabilityDenied { cap_id, reason } => seq![9u8] + str_enc(cap_id) + str_enc(
            reason,
        ),
        EventV::CapabilityDelegated { parent_id, new_id, new_owner } => seq![10u8] + str_enc(
            parent_id,
        ) + str_enc(new_id) + str_enc(new_owner),
        EventV::CapabilityRevoked { cap_id, cascade_count } => seq![11u8] + str_enc(cap_id)
            + spec_u64_to_le_bytes(cascade_count as u64),
        EventV::SignatureVerified { module_name } => seq![12u8] + str_enc(module_name),
        EventV::SignatureFailed { module_name, error } => seq![13u8] + str_enc(module_name)
            + str_enc(error),
        EventV::ExecutionStarted { module_name, function } => seq![14u8] + str_enc(module_name)
            + str_enc(function),
        EventV::ExecutionCompleted { module_name, function, fuel_used } => seq![15u8] + str_enc(
            module_name,
        ) + str_enc(function) + spec_u64_to_le_bytes(fuel_used),
        EventV::ExecutionFailed { module_name, function, error } => seq![16u8] + str_enc(
            module_name,
        ) + str_enc(function) + str_enc(error),
        EventV::FuelExhausted { module_name, fuel_limit } => seq![17u8] + str_enc(module_name)
            + spec_u64_to_le_bytes(fuel_limit),
        EventV::MemoryLimitExceeded { module_name, limit } => seq![18u8] + str_enc(module_name)
            + spec_u64_to_le_bytes(limit),
        EventV::KernelStarted { version } => seq![19u8] + str_enc(version),
        EventV::KernelShutdown { reason } => seq![20u8] + str_enc(reason),
        EventV::SupervisorEscalation { module_name, level } => seq![21u8] + str_enc(module_name)
            + spec_u64_to_le_bytes(level as u64),
        EventV::Custom { category, message } => seq![22u8] + str_enc(category) + str_enc(message),
    }
}

/// Append one length-prefixed string field.
fn push_str_enc(out: &mut Vec<u8>, s: &str)
    ensures
        final(out)@ == old(out)@ + str_enc(s@),
{
    let bytes = s.as_bytes();
    push_u64_le(out, bytes.len() as u64);
    push_bytes(out, bytes);
    proof {
        assert(final(out)@ =~= old(out)@ + str_enc(s@));
    }
}

/// Append a counted list of length-prefixed string fields.
fn push_str_list(out: &mut Vec<u8>, l: &Vec<String>)
    ensures
        final(out)@ == old(out)@ + spec_u64_to_le_bytes(l@.len() as u64) + str_list_enc(
            strs_view(l@),
        ),
{
    push_u64_le(out, l.len() as u64);
    let ghost mid = out@;
    let n: usize = l.len();
    let mut i: usize = 0;
    while i < n
        invariant
            n == l@.len(),
            i <= n,
            strs_view(l@).len() == n,
            out@ == mid + str_list_enc(strs_view(l@).take(i as int)),
        decreases n - i,
    {
        proof {
            lemma_str_list_enc_take(strs_view(l@), i as int);
            assert(strs_view(l@)[i as int] == l@[i as int]@);
        }
        push_str_enc(out, l[i].as_str());
        i = i + 1;
    }
    proof {
        assert(strs_view(l@).take(n as int) =~= strs_view(l@));
        assert(out@ =~= old(out)@ + spec_u64_to_le_bytes(l@.len() as u64) + str_list_enc(
            strs_view(l@),
        ));
    }
}

/// The canonical bytes of an event, as hashed into the chain.
pub fn event_bytes(e: &AuditEventType) -> (r: Vec<u8>)
    ensures
        r@ == spec_event_bytes(e@),
{
    let mut out: Vec<u8> = Vec::new();
    match e {
        AuditEventType::ModuleLoaded { module_name, checksum } => {
            out.push(1u8);
            push_str_enc(&mut out, module_name.as_str());
            push_str_enc(&mut out, checksum.as_str());
        },
        AuditEventType::ModuleUnloaded { module_name } => {
            out.push(2u8);
            push_str_enc(&mut out, module_name.as_str());
        },
        AuditEventType::ModuleStarted { module_name } => {
            out.push(3u8);
            push_str_enc(&mut out, module_name.as_str());
        },
        AuditEventType::ModuleStopped { module_name, exit_code } => {
            out.push(4u8);
            push_str_enc(&mut out, module_name.as_str());
            push_u64_le(&mut out, *exit_code as u64);
        },
        AuditEventType::ModuleCrashed { module_name, error } => {
            out.push(5u8);
            push_str_enc(&mut out, module_name.as_str());
            push_str_enc(&mut out, error.as_str());
        },
        AuditEventType::ModuleRestarted { module_name, attempt } => {
            out.push(6u8);
            push_str_enc(&mut out, module_name.as_str());
            push_u64_le(&mut out, *attempt as u64);
        },
        AuditEventType::CapabilityCreated { cap_id, owner, rights } => {
            out.push(7u8);
            push_str_enc(&mut out, cap_id.as_str());
            push_str_enc(&mut out, owner.as_str());
            push_str_list(&mut out, rights);
        },
        AuditEventType::CapabilityValidated { cap_id, operation } => {
            out.push(8u8);
            push_str_enc(&mut out, cap_id.as_str());
            push_str_enc(&mut out, operation.as_str());
        },
        AuditEventType::CapabilityDenied { cap_id, reason } => {
            out.push(9u8);
            push_str_enc(&mut out, cap_id.as_str());
            push_str_enc(&mut out, reason.as_str());
        },
        AuditEventType::CapabilityDelegated { parent_id, new_id, new_owner } => {
            out.push(10u8);
            push_str_enc(&mut out, parent_id.as_str());
            push_str_enc(&mut out, new_id.as_str());
            push_str_enc(&mut out, new_owner.as_str());
        },
        AuditEventType::CapabilityRevoked { cap_id, cascade_count } => {
            out.push(11u8);
            push_str_enc(&mut out, cap_id.as_str());
            push_u64_le(&mut out, *cascade_count as u64);
        },
        AuditEventType::SignatureVerified { module_name } => {
            out.push(12u8);
            push_str_enc(&mut out, module_name.as_str());
        },
        AuditEventType::SignatureFailed { module_name, error } => {
            out.push(13u8);
            push_str_enc(&mut out, module_name.as_str());
            push_str_enc(&mut out, error.as_str());
        },
        AuditEventType::ExecutionStarted { module_name, function } => {
            out.push(14u8);
            push_str_enc(&mut out, module_name.as_str());
            push_str_enc(&mut out, function.as_str());
        },
        AuditEventType::ExecutionCompleted { module_name, function, fuel_used } => {
            out.push(15u8);
            push_str_enc(&mut out, module_name.as_str());
            push_str_enc(&mut out, function.as_str());
            push_u64_le(&mut out, *fuel_used);
        },
        AuditEventType::ExecutionFailed { module_name, function, error } => {
            out.push(16u8);
            push_str_enc(&mut out, module_name.as_str());
            push_str_enc(&mut out, function.as_str());
            push_str_enc(&mut out, error.as_str());
        },
        AuditEventType::FuelExhausted { module_name, fuel_limit } => {
            out.push(17u8);
            push_str_enc(&mut out, module_name.as_str());
            push_u64_le(&mut out, *fuel_limit);
        },
        AuditEventType::MemoryLimitExceeded { module_name, limit } => {
            out.push(18u8);
            push_str_enc(&mut out, module_name.as_str());
            push_u64_le(&mut out, *limit);
        },
        AuditEventType::KernelStarted { version } => {
            out.push(19u8);
            push_str_enc(&mut out, version.as_str());
        },
        AuditEventType::KernelShutdown { reason } => {
            out.push(20u8);
            push_str_enc(&mut out, reason.as_str());
        },
        AuditEventType::SupervisorEscalation { module_name, level } => {
            out.push(21u8);
            push_str_enc(&mut out, module_name.as_str());
            push_u64_le(&mut out, *level as u64);
        },
        AuditEventType::Custom { category, message } => {
            out.push(22u8);
            push_str_enc(&mut out, category.as_str());
            push_str_enc(&mut out, message.as_str());
        },
    }
    proof {
        assert(out@ =~= spec_event_bytes(e@));
    }
    out
}

/// An independent copy of an event, equal to the original at view level.
pub fn event_dup(e: &AuditEventType) -> (r: AuditEventType)
    ensures
        r@ == e@,
{
    match e {
        AuditEventType::ModuleLoaded { module_name, checksum } => AuditEventType::ModuleLoaded {
            module_name: module_name.clone(),
            checksum: checksum.clone(),
        },
        AuditEventType::ModuleUnloaded { module_name } => AuditEventType::ModuleUnloaded {
            module_name: module_name.clone(),
        },
        AuditEventType::ModuleStarted { module_name } => AuditEventType::ModuleStarted {
            module_name: module_name.clone(),
        },
        AuditEventType::ModuleStopped { module_name, exit_code } => AuditEventType::ModuleStopped {
            module_name: module_name.clone(),
            exit_code: *exit_code,
        },
        AuditEventType::ModuleCrashed { module_name, error } => AuditEventType::ModuleCrashed {
            module_name: module_name.clone(),
            error: error.clone(),
        },
        AuditEventType::ModuleRestarted { module_name, attempt } => AuditEventType::ModuleRestarted {
            module_name: module_name.clone(),
            attempt: *attempt,
        },
        AuditEventType::CapabilityCreated { cap_id, owner, rights } => {
            let mut rs: Vec<String> = Vec::new();
            let n: usize = rights.len();
            let mut i: usize = 0;
            while i < n
                invariant
                    n == rights@.len(),
                    i <= n,
                    strs_view(rs@) == strs_view(rights@).take(i as int),
                decreases n - i,
            {
                let c = rights[i].clone();
                let ghost pre = rs@;
                rs.push(c);
                proof {
                    lemma_strs_view_push(pre, c);
                    assert(strs_view(rights@)[i as int] == rights@[i as int]@);
                    assert(strs_view(rights@).take(i as int + 1) =~= strs_view(rights@).take(
                        i as int,
                    ).push(strs_view(rights@)[i as int]));
                    assert(strs_view(rs@) == strs_view(rights@).take(i as int + 1));
                }
                i = i + 1;
            }
            proof {
                assert(strs_view(rights@).take(n as int) =~= strs_view(rights@));
                assert(strs_view(rs@) == strs_view(rights@));
            }
            AuditEventType::CapabilityCreated {
                cap_id: cap_id.clone(),
                owner: owner.clone(),
                rights: rs,
            }
        },
        AuditEventType::CapabilityValidated { cap_id, operation } => AuditEventType::CapabilityValidated {
            cap_id: cap_id.clone(),
            operation: operation.clone(),
        },
        AuditEventType::CapabilityDenied { cap_id, reason } => AuditEventType::CapabilityDenied {
            cap_id: cap_id.clone(),
            reason: reason.clone(),
        },
        AuditEventType::CapabilityDelegated { parent_id, new_id, new_owner } => AuditEventType::CapabilityDelegated {
            parent_id: parent_id.clone(),
            new_id: new_id.clone(),
            new_owner: new_owner.clone(),
        },
        AuditEventType::CapabilityRevoked { cap_id, cascade_count } => AuditEventType::CapabilityRevoked {
            cap_id: cap_id.clone(),
            cascade_count: *cascade_count,
        },
        AuditEventType::SignatureVerified { module_name } => AuditEventType::SignatureVerified {
            module_name: module_name.clone(),
        },
        AuditEventType::SignatureFailed { module_name, error } => AuditEventType::SignatureFailed {
            module_name: module_name.clone(),
            error: error.clone(),
        },
        AuditEventType::ExecutionStarted { module_name, function } => AuditEventType::ExecutionStarted {
            module_name: module_name.clone(),
            function: function.clone(),
        },
        AuditEventType::ExecutionCompleted { module_name, function, fuel_used } => AuditEventType::ExecutionCompleted {
            module_name: module_name.clone(),
            function: function.clone(),
            fuel_used: *fuel_used,
        },
        AuditEventType::ExecutionFailed { module_name, function, error } => AuditEventType::ExecutionFailed {
            module_name: module_name.clone(),
            function: function.clone(),
            error: error.clone(),
        },
        AuditEventType::FuelExhausted { module_name, fuel_limit } => AuditEventType::FuelExhausted {
            module_name: module_name.clone(),
            fuel_limit: *fuel_limit,
        },
        AuditEventType::MemoryLimitExceeded { module_name, limit } => AuditEventType::MemoryLimitExceeded {
            module_name: module_name.clone(),
            limit: *limit,
        },
        AuditEventType::KernelStarted { version } => AuditEventType::KernelStarted {
            version: version.clone(),
        },
        AuditEventType::KernelShutdown { reason } => AuditEventType::KernelShutdown {
            reason: reason.clone(),
        },
        AuditEventType::SupervisorEscalation { module_name, level } => AuditEventType::SupervisorEscalation {
            module_name: module_name.clone(),
            level: *level,
        },
        AuditEventType::Custom { category, message } => AuditEventType::Custom {
            category: category.clone(),
            message: message.clone(),
        },
    }
}

// ---------------------------------------------------------------------------
// Entries
// ---------------------------------------------------------------------------

/// The bytes whose SHA-256 digest is an entry's hash.
pub open spec fn entry_input(
    sequence: u64,
    timestamp: u64,
    event: EventV,
    source: Seq<char>,
    prev_hash: Seq<char>,
) -> Seq<u8> {
    spec_u64_to_le_bytes(sequence) + spec_u64_to_le_bytes(timestamp) + spec_event_bytes(event)
        + encode_utf8(source) + encode_utf8(prev_hash)
}

/// An entry's hash: the hex digest over its fields and its predecessor's hash.
pub open spec fn entry_hash_chars(
    sequence: u64,
    timestamp: u64,
    event: EventV,
    source: Seq<char>,
    prev_hash: Seq<char>,
) -> Seq<char> {
    hex_chars_of(sha256_of(entry_input(sequence, timestamp, event, source, prev_hash)))
}

/// The hex digest that anchors the chain before the first entry.
pub open spec fn genesis_hash() -> Seq<char> {
    hex_chars_of(sha256_of(encode_utf8("ESTA-KERNEL-GENESIS"@)))
}

/// A single audit log entry.
#[derive(Debug)]
pub struct AuditEntry {
    /// Sequence number (monotonically increasing, starting at 1).
    pub sequence: u64,
    /// Timestamp in milliseconds since the Unix epoch.
    pub timestamp: u64,
    /// The event type and data.
    pub event: AuditEventType,
    /// Source component that generated the event.
    pub source: String,
    /// Hash of the previous entry.
    pub prev_hash: String,
    /// Hash of this entry.
    pub hash: String,
}

/// The mathematical shape of an entry.
pub struct EntryV {
    pub sequence: u64,
    pub timestamp: u64,
    pub event: EventV,
    pub source: Seq<char>,
    pub prev_hash: Seq<char>,
    pub hash: Seq<char>,
}

impl View for AuditEntry {
    type V = EntryV;

    open spec fn view(&self) -> EntryV {
        EntryV {
            sequence: self.sequence,
            timestamp: self.timestamp,
            event: self.event@,
            source: self.source@,
            prev_hash: self.prev_hash@,
            hash: self.hash@,
        }
    }
}

impl EntryV {
    /// The stored hash is the digest of the stored fields.
    pub open spec fn hash_ok(self) -> bool {
        self.hash == entry_hash_chars(
            self.sequence,
            self.timestamp,
            self.event,
            self.source,
            self.prev_hash,
        )
    }
}

impl AuditEntry {
    /// Compute the hash an entry with these fields must carry.
    pub fn compute_hash(
        sequence: u64,
        timestamp: u64,
        event: &AuditEventType,
        source: &str,
        prev_hash: &str,
    ) -> (r: String)
        ensures
            r@ == entry_hash_chars(sequence, timestamp, event@, source@, prev_hash@),
    {
        let mut input: Vec<u8> = Vec::new();
        push_u64_le(&mut input, sequence);
        push_u64_le(&mut input, timestamp);
        let mut ev = event_bytes(event);
        input.append(&mut ev);
        push_bytes(&mut input, source.as_bytes());
        push_bytes(&mut input, prev_hash.as_bytes());
        proof {
            assert(input@ =~= entry_input(sequence, timestamp, event@, source@, prev_hash@));
        }
        let digest = sha256(input.as_slice());
        hex_encode(digest.as_slice())
    }

    /// Recompute this entry's hash and compare it with the stored one.
    pub fn verify(&self) -> (r: bool)
        ensures
            r == self@.hash_ok(),
    {
        let computed = Self::compute_hash(
            self.sequence,
            self.timestamp,
            &self.event,
            self.source.as_str(),
            self.prev_hash.as_str(),
        );
        computed == self.hash
    }

    /// An independent copy, equal to the original at view level.
    pub fn dup(&self) -> (r: AuditEntry)
        ensures
            r@ == self@,
    {
        AuditEntry {
            sequence: self.sequence,
            timestamp: self.timestamp,
            event: event_dup(&self.event),
            source: self.source.clone(),
            prev_hash: self.prev_hash.clone(),
            hash: self.hash.clone(),
        }
    }
}

/// An event before it has been logged.
#[derive(Debug)]
pub struct AuditEvent {
    pub event_type: AuditEventType,
    pub source: String,
}

impl AuditEvent {
    pub fn new(event_type: AuditEventType, source: &str) -> (r: AuditEvent)
        ensures
            r.event_type@ == event_type@,
            r.source@ == source@,
    {
        AuditEvent { event_type, source: String::from_str(source) }
    }
}

// ---------------------------------------------------------------------------
// The log
// ---------------------------------------------------------------------------

/// Configuration for the audit log.
#[derive(Clone, Copy, Debug)]
pub struct AuditLogConfig {
    /// Maximum number of entries kept in memory.
    pub max_entries: usize,
    /// Whether verbose logging is enabled.
    pub verbose: bool,
}

impl Default for AuditLogConfig {
    /// Keep the most recent 10,000 entries; not verbose.
    fn default() -> (r: Self)
        ensures
            r.max_entries == 10000,
            !r.verbose,
    {
        AuditLogConfig { max_entries: 10000, verbose: false }
    }
}

/// The append-only audit log.
pub struct AuditLog {
    entries: Vec<AuditEntry>,
    sequence: u64,
    last_hash: String,
    config: AuditLogConfig,
}

impl AuditLog {
    /// The entries currently held, oldest first.
    pub closed spec fn entries_view(&self) -> Seq<EntryV> {
        entry_views(self.entries@)
    }

    /// The number of entries ever appended; the next entry gets this plus one.
    pub closed spec fn seq_no(&self) -> u64 {
        self.sequence
    }

    /// The hash of the most recently appended entry, or the genesis hash.
    pub closed spec fn last_hash_view(&self) -> Seq<char> {
        self.last_hash@
    }

    pub closed spec fn spec_max_entries(&self) -> usize {
        self.config.max_entries
    }

    pub closed spec fn spec_verbose(&self) -> bool {
        self.config.verbose
    }

    /// Well-formedness: the ring is bounded, sequences count up to `seq_no`,
    /// every entry's hash recomputes, and consecutive entries are chained.
    pub open spec fn wf(&self) -> bool {
        let es = self.entries_view();
        &&& self.spec_max_entries() >= 1
        &&& es.len() <= self.spec_max_entries()
        &&& es.len() <= self.seq_no()
        &&& forall|i: int|
            0 <= i < es.len() ==> (#[trigger] es[i].sequence) == self.seq_no() - es.len() + 1 + i
        &&& forall|i: int| 0 <= i < es.len() ==> (#[trigger] es[i]).hash_ok()
        &&& forall|i: int|
            0 < i < es.len() ==> (#[trigger] es[i].prev_hash) == es[i - 1].hash
        &&& es.len() > 0 ==> self.last_hash_view() == es.last().hash
        &&& es.len() == 0 ==> self.last_hash_view() == genesis_hash()
        &&& es.len() > 0 && es[0].sequence == 1 ==> es[0].prev_hash == genesis_hash()
    }

    /// Create a new audit log. The chain starts at the genesis hash.
    pub fn new(config: AuditLogConfig) -> (r: Self)
        requires
            config.max_entries >= 1,
        ensures
            r.wf(),
            r.entries_view().len() == 0,
            r.seq_no() == 0,
            r.spec_max_entries() == config.max_entries,
            r.spec_verbose() == config.verbose,
    {
        let genesis = sha256("ESTA-KERNEL-GENESIS".as_bytes());
        let last_hash = hex_encode(genesis.as_slice());
        AuditLog { entries: Vec::new(), sequence: 0, last_hash, config }
    }

    /// Create with the default configuration.
    pub fn with_defaults() -> (r: Self)
        ensures
            r.wf(),
            r.entries_view().len() == 0,
            r.seq_no() == 0,
            r.spec_max_entries() == 10000,
    {
        Self::new(AuditLogConfig { max_entries: 10000, verbose: false })
    }

    /// Append a new event to the log. This is the only way entries are added;
    /// recorded entries are never modified. The new entry takes the next
    /// sequence number and chains to the previous hash; when the ring is full
    /// the oldest entry is dropped.
    pub fn append(&mut self, event: AuditEvent) -> (r: AuditEntry)
        requires
            old(self).wf(),
            old(self).seq_no() < u64::MAX,
        ensures
            final(self).wf(),
            r.sequence == old(self).seq_no() + 1,
            r@.event == event.event_type@,
            r@.source == event.source@,
            r@.prev_hash == old(self).last_hash_view(),
            r@.hash_ok(),
            final(self).seq_no() == old(self).seq_no() + 1,
            final(self).last_hash_view() == r@.hash,
            final(self).entries_view() == (if old(self).entries_view().len()
                >= old(self).spec_max_entries() {
                old(self).entries_view().drop_first()
            } else {
                old(self).entries_view()
            }).push(r@),
            final(self).spec_max_entries() == old(self).spec_max_entries(),
            final(self).spec_verbose() == old(self).spec_verbose(),
    {
        let sequence = self.sequence + 1;
        self.sequence = sequence;
        let timestamp = crate::encoding::now_millis();
        let hash = AuditEntry::compute_hash(
            sequence,
            timestamp,
            &event.event_type,
            event.source.as_str(),
            self.last_hash.as_str(),
        );
        let entry = AuditEntry {
            sequence,
            timestamp,
            event: event.event_type,
            source: event.source,
            prev_hash: self.last_hash.clone(),
            hash: hash.clone(),
        };
        self.last_hash = hash;
        if self.entries.len() >= self.config.max_entries {
            self.entries.remove(0);
        }
        let r = entry.dup();
        self.entries.push(entry);
        proof {
            let old_es = old(self).entries_view();
            let dropped = if old_es.len() >= old(self).spec_max_entries() {
                old_es.drop_first()
            } else {
                old_es
            };
            assert(self.entries_view() =~= dropped.push(r@));
        }
        r
    }

    /// Log a module loaded event.
    pub fn log_module_loaded(&mut self, module_name: &str, checksum: &str, source: &str) -> (r:
        AuditEntry)
        requires
            old(self).wf(),
            old(self).seq_no() < u64::MAX,
        ensures
            final(self).wf(),
            final(self).seq_no() == old(self).seq_no() + 1,
            final(self).spec_max_entries() == old(self).spec_max_entries(),
            final(self).entries_view() == (if old(self).entries_view().len()
                >= old(self).spec_max_entries() {
                old(self).entries_view().drop_first()
            } else {
                old(self).entries_view()
            }).push(r@),
            final(self).entries_view().len() > 0 && final(self).entries_view().last() == r@,
            final(self).last_hash_view() == r@.hash,
            r.sequence == old(self).seq_no() + 1,
            r@.prev_hash == old(self).last_hash_view(),
            r@.hash_ok(),
            r.sequence == old(self).seq_no() + 1,
            r@.event == (EventV::ModuleLoaded { module_name: module_name@, checksum: checksum@ }),
            r@.source == source@,
            r@.hash_ok(),
    {
        let event = AuditEvent::new(
            AuditEventType::ModuleLoaded {
                module_name: String::from_str(module_name),
                checksum: String::from_str(checksum),
            },
            source,
        );
        self.append(event)
    }

    /// Log a module crashed event.
    pub fn log_module_crashed(&mut self, module_name: &str, error: &str, source: &str) -> (r:
        AuditEntry)
        requires
            old(self).wf(),
            old(self).seq_no() < u64::MAX,
        ensures
            final(self).wf(),
            final(self).seq_no() == old(self).seq_no() + 1,
            final(self).spec_max_entries() == old(self).spec_max_entries(),
            final(self).entries_view() == (if old(self).entries_view().len()
                >= old(self).spec_max_entries() {
                old(self).entries_view().drop_first()
            } else {
                old(self).entries_view()
            }).push(r@),
            final(self).entries_view().len() > 0 && final(self).entries_view().last() == r@,
            final(self).last_hash_view() == r@.hash,
            r.sequence == old(self).seq_no() + 1,
            r@.prev_hash == old(self).last_hash_view(),
            r@.hash_ok(),
            r@.event == (EventV::ModuleCrashed { module_name: module_name@, error: error@ }),
            r@.source == source@,
    {
        let event = AuditEvent::new(
            AuditEventType::ModuleCrashed {
                module_name: String::from_str(module_name),
                error: String::from_str(error),
            },
            source,
        );
        self.append(event)
    }

    /// Log a capability created event.
    pub fn log_capability_created(
        &mut self,
        cap_id: &str,
        owner: &str,
        rights: Vec<String>,
        source: &str,
    ) -> (r: AuditEntry)
        requires
            old(self).wf(),
            old(self).seq_no() < u64::MAX,
        ensures
            final(self).wf(),
            final(self).seq_no() == old(self).seq_no() + 1,
            final(self).spec_max_entries() == old(self).spec_max_entries(),
            final(self).entries_view() == (if old(self).entries_view().len()
                >= old(self).spec_max_entries() {
                old(self).entries_view().drop_first()
            } else {
                old(self).entries_view()
            }).push(r@),
            final(self).entries_view().len() > 0 && final(self).entries_view().last() == r@,
            final(self).last_hash_view() == r@.hash,
            r.sequence == old(self).seq_no() + 1,
            r@.prev_hash == old(self).last_hash_view(),
            r@.hash_ok(),
            r@.event == (EventV::CapabilityCreated {
                cap_id: cap_id@,
                owner: owner@,
                rights: strs_view(rights@),
            }),
            r@.source == source@,
    {
        let event = AuditEvent::new(
            AuditEventType::CapabilityCreated {
                cap_id: String::from_str(cap_id),
                owner: String::from_str(owner),
                rights,
            },
            source,
        );
        self.append(event)
    }

    /// Log a capability denied event.
    pub fn log_capability_denied(&mut self, cap_id: &str, reason: &str, source: &str) -> (r:
        AuditEntry)
        requires
            old(self).wf(),
            old(self).seq_no() < u64::MAX,
        ensures
            final(self).wf(),
            final(self).seq_no() == old(self).seq_no() + 1,
            final(self).spec_max_entries() == old(self).spec_max_entries(),
            final(self).entries_view() == (if old(self).entries_view().len()
                >= old(self).spec_max_entries() {
                old(self).entries_view().drop_first()
            } else {
                old(self).entries_view()
            }).push(r@),
            final(self).entries_view().len() > 0 && final(self).entries_view().last() == r@,
            final(self).last_hash_view() == r@.hash,
            r.sequence == old(self).seq_no() + 1,
            r@.prev_hash == old(self).last_hash_view(),
            r@.hash_ok(),
            r@.event == (EventV::CapabilityDenied { cap_id: cap_id@, reason: reason@ }),
            r@.source == source@,
    {
        let event = AuditEvent::new(
            AuditEventType::CapabilityDenied {
                cap_id: String::from_str(cap_id),
                reason: String::from_str(reason),
            },
            source,
        );
        self.append(event)
    }

    /// Log a fuel exhausted event.
    pub fn log_fuel_exhausted(&mut self, module_name: &str, fuel_limit: u64, source: &str) -> (r:
        AuditEntry)
        requires
            old(self).wf(),
            old(self).seq_no() < u64::MAX,
        ensures
            final(self).wf(),
            final(self).seq_no() == old(self).seq_no() + 1,
            final(self).spec_max_entries() == old(self).spec_max_entries(),
            final(self).entries_view() == (if old(self).entries_view().len()
                >= old(self).spec_max_entries() {
                old(self).entries_view().drop_first()
            } else {
                old(self).entries_view()
            }).push(r@),
            final(self).entries_view().len() > 0 && final(self).entries_view().last() == r@,
            final(self).last_hash_view() == r@.hash,
            r.sequence == old(self).seq_no() + 1,
            r@.prev_hash == old(self).last_hash_view(),
            r@.hash_ok(),
            r@.event == (EventV::FuelExhausted { module_name: module_name@, fuel_limit }),
            r@.source == source@,
    {
        let event = AuditEvent::new(
            AuditEventType::FuelExhausted {
                module_name: String::from_str(module_name),
                fuel_limit,
            },
            source,
        );
        self.append(event)
    }

    /// Log an execution completed event.
    pub fn log_execution_completed(
        &mut self,
        module_name: &str,
        function: &str,
        fuel_used: u64,
        source: &str,
    ) -> (r: AuditEntry)
        requires
            old(self).wf(),
            old(self).seq_no() < u64::MAX,
        ensures
            final(self).wf(),
            final(self).seq_no() == old(self).seq_no() + 1,
            final(self).spec_max_entries() == old(self).spec_max_entries(),
            final(self).entries_view() == (if old(self).entries_view().len()
                >= old(self).spec_max_entries() {
                old(self).entries_view().drop_first()
            } else {
                old(self).entries_view()
            }).push(r@),
            final(self).entries_view().len() > 0 && final(self).entries_view().last() == r@,
            final(self).last_hash_view() == r@.hash,
            r.sequence == old(self).seq_no() + 1,
            r@.prev_hash == old(self).last_hash_view(),
            r@.hash_ok(),
            r@.event == (EventV::ExecutionCompleted {
                module_name: module_name@,
                function: function@,
                fuel_used,
            }),
            r@.source == source@,
    {
        let event = AuditEvent::new(
            AuditEventType::ExecutionCompleted {
                module_name: String::from_str(module_name),
                function: String::from_str(function),
                fuel_used,
            },
            source,
        );
        self.append(event)
    }

    /// Log a custom event.
    pub fn log_custom(&mut self, category: &str, message: &str, source: &str) -> (r: AuditEntry)
        requires
            old(self).wf(),
            old(self).seq_no() < u64::MAX,
        ensures
            final(self).wf(),
            final(self).seq_no() == old(self).seq_no() + 1,
            final(self).spec_max_entries() == old(self).spec_max_entries(),
            final(self).entries_view() == (if old(self).entries_view().len()
                >= old(self).spec_max_entries() {
                old(self).entries_view().drop_first()
            } else {
                old(self).entries_view()
            }).push(r@),
            final(self).entries_view().len() > 0 && final(self).entries_view().last() == r@,
            final(self).last_hash_view() == r@.hash,
            r.sequence == old(self).seq_no() + 1,
            r@.prev_hash == old(self).last_hash_view(),
            r@.hash_ok(),
            r@.event == (EventV::Custom { category: category@, message: message@ }),
            r@.source == source@,
    {
        let event = AuditEvent::new(
            AuditEventType::Custom {
                category: String::from_str(category),
                message: String::from_str(message),
            },
            source,
        );
        self.append(event)
    }

    /// All entries currently held, as independent copies.
    pub fn get_all_entries(&self) -> (r: Vec<AuditEntry>)
        ensures
            entry_views(r@) == self.entries_view(),
    {
        let mut out: Vec<AuditEntry> = Vec::new();
        let n: usize = self.entries.len();
        let mut i: usize = 0;
        while i < n
            invariant
                n == self.entries@.len(),
                i <= n,
                entry_views(out@) == self.entries_view().take(i as int),
            decreases n - i,
        {
            let d = self.entries[i].dup();
            let ghost pre = out@;
            out.push(d);
            proof {
                lemma_entry_views_push(pre, d);
                assert(self.entries_view()[i as int] == self.entries@[i as int]@);
                assert(self.entries_view().take(i as int + 1) =~= self.entries_view().take(
                    i as int,
                ).push(self.entries_view()[i as int]));
            }
            i = i + 1;
        }
        proof {
            assert(self.entries_view().take(n as int) =~= self.entries_view());
        }
        out
    }

    /// Entries with a sequence strictly greater than `after_sequence`.
    pub fn get_entries_after(&self, after_sequence: u64) -> (r: Vec<AuditEntry>)
        ensures
            entry_views(r@) == self.entries_view().filter(
                |e: EntryV| e.sequence > after_sequence,
            ),
    {
        let mut out: Vec<AuditEntry> = Vec::new();
        let n: usize = self.entries.len();
        let mut i: usize = 0;
        proof {
            broadcast use Seq::lemma_filter_push;

        }
        while i < n
            invariant
                n == self.entries@.len(),
                i <= n,
                entry_views(out@) == self.entries_view().take(i as int).filter(
                    |e: EntryV| e.sequence > after_sequence,
                ),
            decreases n - i,
        {
            proof {
                broadcast use Seq::lemma_filter_push;

                assert(self.entries_view().take(i as int + 1) =~= self.entries_view().take(
                    i as int,
                ).push(self.entries_view()[i as int]));
            }
            if self.entries[i].sequence > after_sequence {
                let d = self.entries[i].dup();
                let ghost pre = out@;
                out.push(d);
                proof {
                    lemma_entry_views_push(pre, d);
                }
            }
            proof {
                broadcast use Seq::lemma_filter_push;

                assert(self.entries_view()[i as int] == self.entries@[i as int]@);
                assert(entry_views(out@) =~= self.entries_view().take(
                    i as int + 1,
                ).filter(|e: EntryV| e.sequence > after_sequence));
            }
            i = i + 1;
        }
        proof {
            assert(self.entries_view().take(n as int) =~= self.entries_view());
        }
        out
    }

    /// Entries whose timestamps lie within `[start, end]`.
    pub fn get_entries_in_range(&self, start: u64, end: u64) -> (r: Vec<AuditEntry>)
        ensures
            entry_views(r@) == self.entries_view().filter(
                |e: EntryV| start <= e.timestamp && e.timestamp <= end,
            ),
    {
        let mut out: Vec<AuditEntry> = Vec::new();
        let n: usize = self.entries.len();
        let mut i: usize = 0;
        while i < n
            invariant
                n == self.entries@.len(),
                i <= n,
                entry_views(out@) == self.entries_view().take(i as int).filter(
                    |e: EntryV| start <= e.timestamp && e.timestamp <= end,
                ),
            decreases n - i,
        {
            proof {
                broadcast use Seq::lemma_filter_push;

                assert(self.entries_view().take(i as int + 1) =~= self.entries_view().take(
                    i as int,
                ).push(self.entries_view()[i as int]));
            }
            if self.entries[i].timestamp >= start && self.entries[i].timestamp <= end {
                let d = self.entries[i].dup();
                let ghost pre = out@;
                out.push(d);
                proof {
                    lemma_entry_views_push(pre, d);
                }
            }
            proof {
                broadcast use Seq::lemma_filter_push;

                assert(self.entries_view()[i as int] == self.entries@[i as int]@);
                assert(entry_views(out@) =~= self.entries_view().take(
                    i as int + 1,
                ).filter(|e: EntryV| start <= e.timestamp && e.timestamp <= end));
            }
            i = i + 1;
        }
        proof {
            assert(self.entries_view().take(n as int) =~= self.entries_view());
        }
        out
    }

    /// Entries recorded by the given source.
    pub fn get_entries_by_source(&self, source: &str) -> (r: Vec<AuditEntry>)
        ensures
            entry_views(r@) == self.entries_view().filter(
                |e: EntryV| e.source == source@,
            ),
    {
        let mut out: Vec<AuditEntry> = Vec::new();
        let n: usize = self.entries.len();
        let mut i: usize = 0;
        while i < n
            invariant
                n == self.entries@.len(),
                i <= n,
                entry_views(out@) == self.entries_view().take(i as int).filter(
                    |e: EntryV| e.source == source@,
                ),
            decreases n - i,
        {
            proof {
                broadcast use Seq::lemma_filter_push;

                assert(self.entries_view().take(i as int + 1) =~= self.entries_view().take(
                    i as int,
                ).push(self.entries_view()[i as int]));
            }
            if crate::encoding::str_eq(self.entries[i].source.as_str(), source) {
                let d = self.entries[i].dup();
                let ghost pre = out@;
                out.push(d);
                proof {
                    lemma_entry_views_push(pre, d);
                }
            }
            proof {
                broadcast use Seq::lemma_filter_push;

                assert(self.entries_view()[i as int] == self.entries@[i as int]@);
                assert(entry_views(out@) =~= self.entries_view().take(
                    i as int + 1,
                ).filter(|e: EntryV| e.source == source@));
            }
            i = i + 1;
        }
        proof {
            assert(self.entries_view().take(n as int) =~= self.entries_view());
        }
        out
    }

    /// Verify the integrity of the whole chain currently in memory.
    pub fn verify_chain(&self) -> (r: ChainVerification)
        ensures
            r.valid <==> chain_first_bad(self.entries_view()) is None,
            r.valid ==> r.entries_checked == self.entries_view().len() && r.first_invalid is None,
            !r.valid ==> (chain_first_bad(self.entries_view()) matches Some(k) && r.first_invalid
                == Some(self.entries_view()[k].sequence) && r.entries_checked
                == self.entries_view()[k].sequence),
    {
        verify_entries(&self.entries)
    }

    /// Statistics about the log.
    pub fn stats(&self) -> (r: AuditStats)
        ensures
            r.total_entries == self.seq_no(),
            r.entries_in_memory == self.entries_view().len(),
            r.max_entries == self.spec_max_entries(),
    {
        AuditStats {
            total_entries: self.sequence,
            entries_in_memory: self.entries.len(),
            max_entries: self.config.max_entries,
        }
    }
}

// ---------------------------------------------------------------------------
// Chain verification
// ---------------------------------------------------------------------------

/// Whether entry `i` of a chain is sound: its hash recomputes from its fields,
/// it chains to its predecessor, and a chain that starts at sequence 1 is
/// anchored at the genesis hash.
pub open spec fn chain_ok_at(es: Seq<EntryV>, i: int) -> bool {
    &&& es[i].hash_ok()
    &&& (i == 0 ==> (es[0].sequence == 1 ==> es[0].prev_hash == genesis_hash()))
    &&& (i > 0 ==> es[i].prev_hash == es[i - 1].hash)
}

/// The first unsound position of a chain, if any.
pub open spec fn chain_first_bad(es: Seq<EntryV>) -> Option<int> {
    if exists|i: int| 0 <= i < es.len() && !chain_ok_at(es, i) {
        let k = choose|k: int|
            0 <= k < es.len() && !chain_ok_at(es, k) && forall|j: int|
                0 <= j < k ==> chain_ok_at(es, j);
        Some(k)
    } else {
        None
    }
}

proof fn lemma_chain_first_bad_is(es: Seq<EntryV>, w: int)
    requires
        0 <= w < es.len(),
        !chain_ok_at(es, w),
        forall|j: int| 0 <= j < w ==> chain_ok_at(es, j),
    ensures
        chain_first_bad(es) == Some(w),
{
    assert(exists|i: int| 0 <= i < es.len() && !chain_ok_at(es, i));
    assert(0 <= w < es.len() && !chain_ok_at(es, w) && (forall|j: int|
        0 <= j < w ==> chain_ok_at(es, j)));
    let k = choose|k: int|
        0 <= k < es.len() && !chain_ok_at(es, k) && forall|j: int|
            0 <= j < k ==> chain_ok_at(es, j);
    if k < w {
        assert(chain_ok_at(es, k));
        assert(false);
    }
    if k > w {
        assert(chain_ok_at(es, w));
        assert(false);
    }
}

/// Walk a sequence of entries and check per-entry integrity and chain
/// continuity. The first entry's `prev_hash` is accepted as the anchor unless
/// the chain claims to start at sequence 1, in which case it must be the
/// genesis hash.
pub fn verify_entries(entries: &Vec<AuditEntry>) -> (r: ChainVerification)
    ensures
        r.valid <==> chain_first_bad(entry_views(entries@)) is None,
        r.valid ==> r.entries_checked == entries@.len() && r.first_invalid is None,
        !r.valid ==> (chain_first_bad(entry_views(entries@)) matches Some(k)
            && r.first_invalid == Some(entry_views(entries@)[k].sequence)
            && r.entries_checked == entry_views(entries@)[k].sequence),
{
    let ghost es = entry_views(entries@);
    let n: usize = entries.len();
    if n == 0 {
        return ChainVerification { valid: true, entries_checked: 0, first_invalid: None };
    }
    let genesis_digest = sha256("ESTA-KERNEL-GENESIS".as_bytes());
    let genesis = hex_encode(genesis_digest.as_slice());
    let mut i: usize = 0;
    while i < n
        invariant
            n == entries@.len(),
            es == entry_views(entries@),
            genesis@ == genesis_hash(),
            i <= n,
            forall|j: int| 0 <= j < i ==> chain_ok_at(es, j),
        decreases n - i,
    {
        let entry = &entries[i];
        proof {
            assert(es[i as int] == entries@[i as int]@);
        }
        if !entry.verify() {
            proof {
                assert(!chain_ok_at(es, i as int));
                lemma_chain_first_bad_is(es, i as int);
            }
            return ChainVerification {
                valid: false,
                entries_checked: entry.sequence,
                first_invalid: Some(entry.sequence),
            };
        }
        let continuity_ok: bool = if i == 0 {
            if entry.sequence == 1 {
                entry.prev_hash == genesis
            } else {
                true
            }
        } else {
            proof {
                assert(es[i as int - 1] == entries@[i as int - 1]@);
            }
            entry.prev_hash == entries[i - 1].hash
        };
        if !continuity_ok {
            proof {
                assert(!chain_ok_at(es, i as int));
                lemma_chain_first_bad_is(es, i as int);
            }
            return ChainVerification {
                valid: false,
                entries_checked: entry.sequence,
                first_invalid: Some(entry.sequence),
            };
        }
        proof {
            assert(chain_ok_at(es, i as int));
        }
        i = i + 1;
    }
    proof {
        assert(chain_first_bad(es) is None);
    }
    ChainVerification { valid: true, entries_checked: n as u64, first_invalid: None }
}

/// A well-formed log's chain always verifies.
pub proof fn lemma_wf_chain_valid(log: &AuditLog)
    requires
        log.wf(),
    ensures
        chain_first_bad(log.entries_view()) is None,
{
    let es = log.entries_view();
    assert forall|i: int| 0 <= i < es.len() implies chain_ok_at(es, i) by {
        if i == 0 && es[0].sequence == 1 {
            assert(log.seq_no() == es.len());
        }
    }
}

/// Result of chain verification.
#[derive(Clone, Copy, Debug)]
pub struct ChainVerification {
    pub valid: bool,
    pub entries_checked: u64,
    pub first_invalid: Option<u64>,
}

/// Statistics about the audit log.
#[derive(Clone, Copy, Debug)]
pub struct AuditStats {
    pub total_entries: u64,
    pub entries_in_memory: usize,
    pub max_entries: usize,
}

// ---------------------------------------------------------------------------
// Laws of the sequence numbers and of the chain
// ---------------------------------------------------------------------------

/// Audit sequences are strictly monotonic, so no two held entries share one;
/// an untrimmed log starts at sequence 1.
pub proof fn lemma_sequences_strictly_monotonic(log: &AuditLog)
    requires
        log.wf(),
    ensures
        forall|i: int, j: int|
            0 <= i < j < log.entries_view().len() ==> #[trigger] log.entries_view()[i].sequence
                < #[trigger] log.entries_view()[j].sequence,
        log.seq_no() == log.entries_view().len() && log.entries_view().len() > 0
            ==> log.entries_view()[0].sequence == 1,
{
}

/// Every held entry's hash recomputes from its stored fields.
pub proof fn lemma_entries_hash_ok(log: &AuditLog)
    requires
        log.wf(),
    ensures
        forall|i: int|
            0 <= i < log.entries_view().len() ==> (#[trigger] log.entries_view()[i]).hash_ok(),
{
}

/// Every held entry's `prev_hash` is its predecessor's `hash`.
pub proof fn lemma_chain_continuity(log: &AuditLog)
    requires
        log.wf(),
    ensures
        forall|i: int|
            0 < i < log.entries_view().len() ==> (#[trigger] log.entries_view()[i]).prev_hash
                == log.entries_view()[i - 1].hash,
{
}

} // verus!
