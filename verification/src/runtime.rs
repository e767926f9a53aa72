//! The kernel core: module loading with checksum and signature verification,
//! capability parsing against the closed vocabulary, the module registry, and
//! validation of guest-supplied host-call parameters.
//!
//! Reading descriptors and payloads, instantiating and running guest code,
//! and scheduling are the embedding host's job; every decision they depend on
//! is made here.

use crate::audit::{AuditEvent, AuditEventType, AuditLog, EventV};
use crate::encoding::{hex_chars_of, hex_decode_of, hex_encode, is_hex_seq, sha256, sha256_of};
use crate::sig::{module_verified, SignatureVerifier};
use vstd::prelude::*;
use vstd::string::StringExecFns;

verus! {

/// Maximum allowed size in bytes for guest memory reads by host functions.
pub const MAX_WASM_MEMORY_SIZE: i32 = 1048576;

/// Mandatory validation of guest-supplied host-call parameters: a pointer and
/// length are usable only when both are non-negative and the length is at
/// most a mebibyte.
pub fn host_params_valid(ptr: i32, len: i32) -> (r: bool)
    ensures
        r == (ptr >= 0 && len >= 0 && len <= 1048576),
{
    ptr >= 0 && len >= 0 && len <= MAX_WASM_MEMORY_SIZE
}

// ---------------------------------------------------------------------------
// Configuration and statistics
// ---------------------------------------------------------------------------

/// Configuration for deterministic guest execution.
#[derive(Debug, Clone, Copy)]
pub struct ExecutionConfig {
    /// Maximum fuel (instructions) per invocation.
    pub max_fuel: u64,
    /// Maximum linear memory in bytes.
    pub max_memory_bytes: usize,
    /// Minimum linear memory in bytes.
    pub min_memory_bytes: usize,
    /// Maximum number of guest tables.
    pub max_tables: u32,
    /// Maximum number of guest instances.
    pub max_instances: u32,
    /// Whether to enforce signature verification.
    pub require_signatures: bool,
}

impl Default for ExecutionConfig {
    /// Twenty million instructions per invocation, 32 MiB of memory, and
    /// advisory signatures.
    fn default() -> (r: Self)
        ensures
            r.max_fuel == 20000000,
            r.max_memory_bytes == 33554432,
            r.min_memory_bytes == 4194304,
            r.max_tables == 10,
            r.max_instances == 10,
            !r.require_signatures,
    {
        ExecutionConfig {
            max_fuel: 20000000,
            max_memory_bytes: 33554432,
            min_memory_bytes: 4194304,
            max_tables: 10,
            max_instances: 10,
            require_signatures: false,
        }
    }
}

/// Module execution statistics.
#[derive(Debug, Clone, Copy, PartialEq, Eq, Structural)]
pub struct ModuleStats {
    /// Total fuel consumed.
    pub fuel_consumed: u64,
    /// Number of invocations.
    pub invocation_count: u64,
    /// Number of traps or errors.
    pub error_count: u64,
    /// Peak memory usage in bytes.
    pub peak_memory_bytes: usize,
}

impl Default for ModuleStats {
    /// All counters start at zero.
    fn default() -> (r: Self)
        ensures
            r == (ModuleStats {
                fuel_consumed: 0,
                invocation_count: 0,
                error_count: 0,
                peak_memory_bytes: 0,
            }),
    {
        ModuleStats { fuel_consumed: 0, invocation_count: 0, error_count: 0, peak_memory_bytes: 0 }
    }
}

// ---------------------------------------------------------------------------
// Manifests and capabilities
// ---------------------------------------------------------------------------

/// A module descriptor: name, payload location, integrity digest, requested
/// capability names, and an optional signature.
#[derive(Debug)]
pub struct ModuleManifest {
    pub name: String,
    pub path: String,
    pub checksum: String,
    pub capabilities: Vec<String>,
    /// Ed25519 signature (hex-encoded) over `checksum ++ module bytes`.
    pub signature: Option<String>,
}

/// The mathematical shape of a manifest.
pub struct ManifestV {
    pub name: Seq<char>,
    pub path: Seq<char>,
    pub checksum: Seq<char>,
    pub capabilities: Seq<Seq<char>>,
    pub signature: Option<Seq<char>>,
}

impl View for ModuleManifest {
    type V = ManifestV;

    open spec fn view(&self) -> ManifestV {
        ManifestV {
            name: self.name@,
            path: self.path@,
            checksum: self.checksum@,
            capabilities: crate::audit::strs_view(self.capabilities@),
            signature: match &self.signature {
                Some(s) => Some(s@),
                None => None,
            },
        }
    }
}

/// Capabilities that can be granted to guest modules.
#[derive(Debug, Clone, Copy, PartialEq, Eq, Structural)]
pub enum Capability {
    Log,
    AuditEmit,
    PersistenceRead,
    PersistenceWrite,
}

/// The capability named by a string, from the closed vocabulary; unknown
/// names yield nothing.
pub open spec fn cap_from_name(s: Seq<char>) -> Option<Capability> {
    if s == "log"@ {
        Some(Capability::Log)
    } else if s == "audit_emit"@ {
        Some(Capability::AuditEmit)
    } else if s == "persistence_read"@ {
        Some(Capability::PersistenceRead)
    } else if s == "persistence_write"@ {
        Some(Capability::PersistenceWrite)
    } else {
        None
    }
}

impl Capability {
    /// Parse a capability name from the closed vocabulary.
    pub fn from_str(s: &str) -> (r: Option<Self>)
        ensures
            r == cap_from_name(s@),
    {
        if crate::encoding::str_eq(s, "log") {
            Some(Capability::Log)
        } else if crate::encoding::str_eq(s, "audit_emit") {
            Some(Capability::AuditEmit)
        } else if crate::encoding::str_eq(s, "persistence_read") {
            Some(Capability::PersistenceRead)
        } else if crate::encoding::str_eq(s, "persistence_write") {
            Some(Capability::PersistenceWrite)
        } else {
            None
        }
    }
}

/// The capabilities granted for a list of requested names: recognized names
/// in order, unknown names silently dropped.
pub open spec fn granted_caps(names: Seq<Seq<char>>) -> Seq<Capability>
    decreases names.len(),
{
    if names.len() == 0 {
        Seq::empty()
    } else {
        let rest = granted_caps(names.drop_last());
        match cap_from_name(names.last()) {
            Some(c) => rest.push(c),
            None => rest,
        }
    }
}

/// Parse and validate capabilities from a manifest: the granted set is the
/// recognized subset of the requested names, in order.
pub fn parse_capabilities(manifest: &ModuleManifest) -> (r: Vec<Capability>)
    ensures
        r@ == granted_caps(manifest@.capabilities),
{
    let names = &manifest.capabilities;
    let n: usize = names.len();
    let mut out: Vec<Capability> = Vec::new();
    let mut i: usize = 0;
    while i < n
        invariant
            n == names@.len(),
            i <= n,
            out@ == granted_caps(crate::audit::strs_view(names@).take(i as int)),
        decreases n - i,
    {
        let ghost pre = crate::audit::strs_view(names@).take(i as int);
        let ghost cur = crate::audit::strs_view(names@).take(i as int + 1);
        proof {
            assert(cur.drop_last() =~= pre);
            assert(cur.last() == names@[i as int]@);
        }
        match Capability::from_str(names[i].as_str()) {
            Some(c) => {
                out.push(c);
            },
            None => {},
        }
        i = i + 1;
    }
    proof {
        assert(crate::audit::strs_view(names@).take(n as int) =~= crate::audit::strs_view(names@));
    }
    out
}

/// An independent copy of a capability list.
pub fn dup_caps(v: &Vec<Capability>) -> (r: Vec<Capability>)
    ensures
        r@ == v@,
{
    let n: usize = v.len();
    let mut out: Vec<Capability> = Vec::new();
    let mut i: usize = 0;
    while i < n
        invariant
            n == v@.len(),
            i <= n,
            out@ == v@.take(i as int),
        decreases n - i,
    {
        out.push(v[i]);
        proof {
            assert(out@ =~= v@.take(i as int + 1));
        }
        i = i + 1;
    }
    proof {
        assert(v@.take(n as int) =~= v@);
    }
    out
}

// ---------------------------------------------------------------------------
// Errors
// ---------------------------------------------------------------------------

/// Errors of the module loading pipeline.
#[derive(Debug)]
pub enum KernelError {
    /// The descriptor is malformed.
    BadDescriptor,
    /// The payload's SHA-256 does not match the descriptor's digest.
    ChecksumMismatch,
    /// Signatures are required but the descriptor carries none.
    SignatureMissing,
    /// Signatures are required but no verifier is configured.
    VerifierMissing,
    /// The signature does not verify.
    SignatureInvalid,
    /// Guest-supplied parameters are out of range.
    InvalidParameters,
}

impl KernelError {
    /// A human-readable description.
    pub fn message(&self) -> (r: String)
        ensures
            true,
    {
        match self {
            KernelError::BadDescriptor => String::from_str("malformed module descriptor"),
            KernelError::ChecksumMismatch => String::from_str("checksum mismatch"),
            KernelError::SignatureMissing => String::from_str(
                "signature required but not provided",
            ),
            KernelError::VerifierMissing => String::from_str(
                "signature required but no verifier configured",
            ),
            KernelError::SignatureInvalid => String::from_str("signature verification failed"),
            KernelError::InvalidParameters => String::from_str("invalid host call parameters"),
        }
    }
}

/// The reason string recorded with a `SignatureFailed` audit event for a
/// strict-mode failure of the given kind.
pub open spec fn signature_failure_reason(e: KernelError) -> Seq<char> {
    match e {
        KernelError::SignatureMissing => "signature required but not provided"@,
        KernelError::VerifierMissing => "signature required but no verifier configured"@,
        _ => "signature verification failed"@,
    }
}

/// Verify that a payload's SHA-256 digest matches the expected hex digest.
pub fn verify_checksum(module_bytes: &Vec<u8>, expected_checksum: &str) -> (r: Result<
    (),
    KernelError,
>)
    ensures
        r is Ok <==> hex_chars_of(sha256_of(module_bytes@)) == expected_checksum@,
        r is Err ==> r == Err::<(), KernelError>(KernelError::ChecksumMismatch),
{
    let digest = sha256(module_bytes.as_slice());
    let actual = hex_encode(digest.as_slice());
    if actual == String::from_str(expected_checksum) {
        Ok(())
    } else {
        Err(KernelError::ChecksumMismatch)
    }
}

// ---------------------------------------------------------------------------
// Module registry
// ---------------------------------------------------------------------------

/// A registered module: its name, the capabilities it was granted, and its
/// running statistics. The host keeps the corresponding task handle.
#[derive(Debug)]
pub struct ModuleEntry {
    pub name: String,
    pub capabilities: Vec<Capability>,
    pub stats: ModuleStats,
}

/// The mathematical shape of a registry entry.
pub struct ModuleEntryV {
    pub name: Seq<char>,
    pub capabilities: Seq<Capability>,
    pub stats: ModuleStats,
}

impl View for ModuleEntry {
    type V = ModuleEntryV;

    open spec fn view(&self) -> ModuleEntryV {
        ModuleEntryV { name: self.name@, capabilities: self.capabilities@, stats: self.stats }
    }
}

/// The views of a vector of entries.
pub open spec fn entry_views(v: Seq<ModuleEntry>) -> Seq<ModuleEntryV> {
    v.map_values(|e: ModuleEntry| e@)
}

/// The position of the first module with the given name, or -1.
pub open spec fn module_index(ms: Seq<ModuleEntryV>, name: Seq<char>) -> int
    decreases ms.len(),
{
    if ms.len() == 0 {
        -1
    } else if ms[0].name == name {
        0
    } else {
        let r = module_index(ms.drop_first(), name);
        if r < 0 {
            -1
        } else {
            r + 1
        }
    }
}

pub proof fn lemma_module_index(ms: Seq<ModuleEntryV>, name: Seq<char>)
    ensures
        module_index(ms, name) >= 0 ==> 0 <= module_index(ms, name) < ms.len() && ms[module_index(
            ms,
            name,
        )].name == name && (forall|j: int|
            0 <= j < module_index(ms, name) ==> (#[trigger] ms[j]).name != name),
        module_index(ms, name) < 0 ==> (forall|j: int|
            0 <= j < ms.len() ==> (#[trigger] ms[j]).name != name),
    decreases ms.len(),
{
    if ms.len() > 0 && ms[0].name != name {
        let d = ms.drop_first();
        lemma_module_index(d, name);
        assert(forall|j: int| 0 <= j < d.len() ==> #[trigger] d[j] == ms[j + 1]);
        let r = module_index(d, name);
        if r >= 0 {
            assert forall|j: int| 0 <= j < r + 1 implies (#[trigger] ms[j]).name != name by {
                if j > 0 {
                    assert(ms[j] == d[j - 1]);
                }
            }
        } else {
            assert forall|j: int| 0 <= j < ms.len() implies (#[trigger] ms[j]).name != name by {
                if j > 0 {
                    assert(ms[j] == d[j - 1]);
                }
            }
        }
    }
}

/// Module registry: a module name maps to at most one live entry.
#[derive(Debug)]
pub struct ModuleRegistry {
    modules: Vec<ModuleEntry>,
}

impl ModuleRegistry {
    /// The registered modules, in registration order.
    pub closed spec fn modules_view(&self) -> Seq<ModuleEntryV> {
        entry_views(self.modules@)
    }

    /// Well-formedness: module names are unique.
    pub open spec fn wf(&self) -> bool {
        forall|a: int, b: int|
            0 <= a < b < self.modules_view().len() ==> (#[trigger] self.modules_view()[a]).name
                != (#[trigger] self.modules_view()[b]).name
    }

    /// An empty registry.
    pub fn new() -> (r: Self)
        ensures
            r.wf(),
            r.modules_view().len() == 0,
    {
        ModuleRegistry { modules: Vec::new() }
    }

    /// Look up the position of a module by name.
    fn find_module(&self, name: &str) -> (r: Option<usize>)
        ensures
            r matches Some(i) ==> module_index(self.modules_view(), name@) == i && i
                < self.modules_view().len() && self.modules_view()[i as int].name == name@,
            r is None ==> module_index(self.modules_view(), name@) < 0,
    {
        proof {
            lemma_module_index(self.modules_view(), name@);
        }
        let n: usize = self.modules.len();
        let mut i: usize = 0;
        while i < n
            invariant
                n == self.modules@.len(),
                i <= n,
                forall|j: int| 0 <= j < i ==> (#[trigger] self.modules_view()[j]).name != name@,
            decreases n - i,
        {
            proof {
                assert(self.modules_view()[i as int] == self.modules@[i as int]@);
            }
            if crate::encoding::str_eq(self.modules[i].name.as_str(), name) {
                proof {
                    lemma_module_index(self.modules_view(), name@);
                    let k = module_index(self.modules_view(), name@);
                    if k != i as int {
                        if k < 0 {
                            assert(self.modules_view()[i as int].name != name@);
                        } else if k < i as int {
                            assert(self.modules_view()[k].name != name@);
                        } else {
                            assert(self.modules_view()[i as int].name != name@);
                        }
                        assert(false);
                    }
                }
                return Some(i);
            }
            i = i + 1;
        }
        proof {
            lemma_module_index(self.modules_view(), name@);
            if module_index(self.modules_view(), name@) >= 0 {
                assert(self.modules_view()[module_index(self.modules_view(), name@)].name
                    == name@);
                assert(false);
            }
        }
        None
    }

    /// Register a module under its name with the granted capabilities and
    /// fresh statistics; an existing entry of the same name is replaced.
    pub fn register(&mut self, name: String, capabilities: Vec<Capability>)
        requires
            old(self).wf(),
        ensures
            final(self).wf(),
            module_index(final(self).modules_view(), name@) >= 0,
            ({
                let e = final(self).modules_view()[module_index(
                    final(self).modules_view(),
                    name@,
                )];
                e.name == name@ && e.capabilities == capabilities@ && e.stats == (ModuleStats {
                    fuel_consumed: 0,
                    invocation_count: 0,
                    error_count: 0,
                    peak_memory_bytes: 0,
                })
            }),
            module_index(old(self).modules_view(), name@) < 0 ==> final(self).modules_view().len()
                == old(self).modules_view().len() + 1 && final(self).modules_view().take(
                old(self).modules_view().len() as int,
            ) == old(self).modules_view(),
            module_index(old(self).modules_view(), name@) >= 0 ==> final(self).modules_view()
                == old(self).modules_view().update(
                module_index(old(self).modules_view(), name@),
                final(self).modules_view()[module_index(old(self).modules_view(), name@)],
            ),
    {
        let entry = ModuleEntry {
            name,
            capabilities,
            stats: ModuleStats {
                fuel_consumed: 0,
                invocation_count: 0,
                error_count: 0,
                peak_memory_bytes: 0,
            },
        };
        match self.find_module(entry.name.as_str()) {
            Some(i) => {
                self.modules.remove(i);
                self.modules.insert(i, entry);
                proof {
                    assert(self.modules_view() =~= old(self).modules_view().update(
                        i as int,
                        self.modules_view()[i as int],
                    ));
                    assert forall|a: int, b: int|
                        0 <= a < b < self.modules_view().len() implies (
                    #[trigger] self.modules_view()[a]).name != (#[trigger] self.modules_view()[
                        b
                    ]).name by {
                        assert(self.modules_view()[a].name == old(self).modules_view()[a].name);
                        assert(self.modules_view()[b].name == old(self).modules_view()[b].name);
                    }
                    lemma_module_index(self.modules_view(), self.modules_view()[i as int].name);
                    let k = module_index(self.modules_view(), self.modules_view()[i as int].name);
                    if k != i as int {
                        if k < i as int {
                            assert(old(self).modules_view()[k].name == old(self).modules_view()[
                                i as int
                            ].name);
                        }
                        assert(false);
                    }
                }
            },
            None => {
                let ghost pre = self.modules@;
                self.modules.push(entry);
                proof {
                    assert(entry_views(pre.push(entry)) =~= entry_views(pre).push(entry@));
                    assert(self.modules_view().take(entry_views(pre).len() as int) =~= entry_views(
                        pre,
                    ));
                    lemma_module_index(entry_views(pre), entry@.name);
                    assert forall|a: int, b: int|
                        0 <= a < b < self.modules_view().len() implies (
                    #[trigger] self.modules_view()[a]).name != (#[trigger] self.modules_view()[
                        b
                    ]).name by {
                        if b < entry_views(pre).len() {
                            assert(entry_views(pre)[a].name != entry_views(pre)[b].name);
                        } else {
                            assert(entry_views(pre)[a].name != entry@.name);
                        }
                    }
                    lemma_module_index(self.modules_view(), entry@.name);
                    let k = module_index(self.modules_view(), entry@.name);
                    if k != entry_views(pre).len() as int {
                        if k < 0 {
                            assert(self.modules_view()[entry_views(pre).len() as int].name
                                == entry@.name);
                        } else if k < entry_views(pre).len() {
                            assert(entry_views(pre)[k].name == entry@.name);
                        }
                        assert(false);
                    }
                }
            },
        }
    }

    /// Remove a module by name; reports whether one was removed.
    pub fn unregister(&mut self, name: &str) -> (r: bool)
        requires
            old(self).wf(),
        ensures
            final(self).wf(),
            r <==> module_index(old(self).modules_view(), name@) >= 0,
            r ==> final(self).modules_view() == old(self).modules_view().remove(
                module_index(old(self).modules_view(), name@),
            ),
            !r ==> final(self).modules_view() == old(self).modules_view(),
    {
        match self.find_module(name) {
            Some(i) => {
                self.modules.remove(i);
                proof {
                    assert(self.modules_view() =~= old(self).modules_view().remove(i as int));
                    assert forall|a: int, b: int|
                        0 <= a < b < self.modules_view().len() implies (
                    #[trigger] self.modules_view()[a]).name != (#[trigger] self.modules_view()[
                        b
                    ]).name by {
                        let olda = if a < i as int {
                            a
                        } else {
                            a + 1
                        };
                        let oldb = if b < i as int {
                            b
                        } else {
                            b + 1
                        };
                        assert(self.modules_view()[a] == old(self).modules_view()[olda]);
                        assert(self.modules_view()[b] == old(self).modules_view()[oldb]);
                        assert(old(self).modules_view()[olda].name != old(self).modules_view()[
                            oldb
                        ].name);
                    }
                }
                true
            },
            None => false,
        }
    }

    /// The capabilities granted to a module, if registered.
    pub fn get_module_capabilities(&self, name: &str) -> (r: Option<Vec<Capability>>)
        ensures
            module_index(self.modules_view(), name@) < 0 ==> r is None,
            module_index(self.modules_view(), name@) >= 0 ==> (r matches Some(v) && v@
                == self.modules_view()[module_index(self.modules_view(), name@)].capabilities),
    {
        match self.find_module(name) {
            Some(i) => {
                proof {
                    assert(self.modules_view()[i as int] == self.modules@[i as int]@);
                }
                Some(dup_caps(&self.modules[i].capabilities))
            },
            None => None,
        }
    }

    /// The statistics of a module, if registered.
    pub fn get_module_stats(&self, name: &str) -> (r: Option<ModuleStats>)
        ensures
            module_index(self.modules_view(), name@) < 0 ==> r is None,
            module_index(self.modules_view(), name@) >= 0 ==> r == Some(
                self.modules_view()[module_index(self.modules_view(), name@)].stats,
            ),
    {
        match self.find_module(name) {
            Some(i) => {
                proof {
                    assert(self.modules_view()[i as int] == self.modules@[i as int]@);
                }
                Some(self.modules[i].stats)
            },
            None => None,
        }
    }

    /// Record a finished invocation: fuel consumed is added, the invocation
    /// count goes up by one, and failures bump the error count; the counters
    /// saturate.
    pub fn record_execution(&mut self, name: &str, fuel_used: u64, failed: bool) -> (r: bool)
        requires
            old(self).wf(),
        ensures
            final(self).wf(),
            r <==> module_index(old(self).modules_view(), name@) >= 0,
            final(self).modules_view().len() == old(self).modules_view().len(),
            forall|j: int|
                0 <= j < old(self).modules_view().len() && j != module_index(
                    old(self).modules_view(),
                    name@,
                ) ==> #[trigger] final(self).modules_view()[j] == old(self).modules_view()[j],
            r ==> {
                let idx = module_index(old(self).modules_view(), name@);
                let e = old(self).modules_view()[idx];
                let e2 = final(self).modules_view()[idx];
                &&& e2.name == e.name
                &&& e2.capabilities == e.capabilities
                &&& e2.stats.fuel_consumed == (if e.stats.fuel_consumed + fuel_used <= u64::MAX {
                    (e.stats.fuel_consumed + fuel_used) as u64
                } else {
                    u64::MAX
                })
                &&& e2.stats.invocation_count == (if e.stats.invocation_count < u64::MAX {
                    (e.stats.invocation_count + 1) as u64
                } else {
                    u64::MAX
                })
                &&& (failed ==> e2.stats.error_count == (if e.stats.error_count < u64::MAX {
                    (e.stats.error_count + 1) as u64
                } else {
                    u64::MAX
                }))
                &&& (!failed ==> e2.stats.error_count == e.stats.error_count)
            },
    {
        match self.find_module(name) {
            Some(i) => {
                let mut entry = self.modules.remove(i);
                entry.stats.fuel_consumed = entry.stats.fuel_consumed.saturating_add(fuel_used);
                entry.stats.invocation_count = if entry.stats.invocation_count < u64::MAX {
                    entry.stats.invocation_count + 1
                } else {
                    u64::MAX
                };
                if failed {
                    entry.stats.error_count = if entry.stats.error_count < u64::MAX {
                        entry.stats.error_count + 1
                    } else {
                        u64::MAX
                    };
                }
                self.modules.insert(i, entry);
                proof {
                    assert forall|j: int|
                        0 <= j < old(self).modules_view().len() && j != i as int
                            implies #[trigger] final(self).modules_view()[j] == old(self).modules_view()[j] by {
                        assert(self.modules@[j] == old(self).modules@[j]);
                    }
                    assert forall|a: int, b: int|
                        0 <= a < b < self.modules_view().len() implies (
                    #[trigger] self.modules_view()[a]).name != (#[trigger] self.modules_view()[
                        b
                    ]).name by {
                        assert(self.modules_view()[a].name == old(self).modules_view()[a].name);
                        assert(self.modules_view()[b].name == old(self).modules_view()[b].name);
                    }
                }
                true
            },
            None => false,
        }
    }

    /// The names of all registered modules, in registration order.
    pub fn list_modules(&self) -> (r: Vec<String>)
        ensures
            r@.len() == self.modules_view().len(),
            forall|i: int|
                0 <= i < r@.len() ==> (#[trigger] r@[i])@ == self.modules_view()[i].name,
    {
        let mut out: Vec<String> = Vec::new();
        let n: usize = self.modules.len();
        let mut i: usize = 0;
        while i < n
            invariant
                n == self.modules@.len(),
                i <= n,
                out@.len() == i,
                forall|j: int|
                    0 <= j < i ==> (#[trigger] out@[j])@ == self.modules_view()[j].name,
            decreases n - i,
        {
            proof {
                assert(self.modules_view()[i as int] == self.modules@[i as int]@);
            }
            out.push(self.modules[i].name.clone());
            i = i + 1;
        }
        out
    }

    /// The number of registered modules.
    pub fn len(&self) -> (r: usize)
        ensures
            r == self.modules_view().len(),
    {
        self.modules.len()
    }

    /// Drop every entry; the host aborts the corresponding tasks.
    pub fn shutdown_all(&mut self)
        ensures
            final(self).wf(),
            final(self).modules_view().len() == 0,
    {
        self.modules.clear();
    }
}

impl Default for ModuleRegistry {
    /// An empty registry.
    fn default() -> (r: Self)
        ensures
            r.wf(),
            r.modules_view().len() == 0,
    {
        ModuleRegistry { modules: Vec::new() }
    }
}

// ---------------------------------------------------------------------------
// The kernel
// ---------------------------------------------------------------------------

/// The kernel core: configuration, the module registry, the signature
/// verifier, and the audit log. Guest execution itself is carried out by the
/// embedding host against the decisions made here.
pub struct Kernel {
    /// Execution configuration.
    pub config: ExecutionConfig,
    /// The module registry.
    pub registry: ModuleRegistry,
    /// The trusted verifier, when signatures are checked.
    pub verifier: Option<SignatureVerifier>,
    /// The audit log.
    pub audit: AuditLog,
}

/// Kernel status information.
#[derive(Debug)]
pub struct KernelStatus {
    pub version: String,
    pub modules_loaded: usize,
    pub module_names: Vec<String>,
    pub max_fuel_per_call: u64,
    pub max_memory_bytes: usize,
    pub require_signatures: bool,
    pub audit_entries: u64,
}

impl Kernel {
    /// Well-formedness of the kernel's tables.
    pub open spec fn wf(&self) -> bool {
        &&& self.registry.wf()
        &&& self.audit.wf()
    }

    /// Create a new kernel with the default configuration.
    pub fn new() -> (r: Self)
        ensures
            r.wf(),
            r.registry.modules_view().len() == 0,
            r.audit.seq_no() == 0,
            r.config.max_fuel == 20000000,
            !r.config.require_signatures,
            r.verifier is None,
    {
        Self::with_config(
            ExecutionConfig {
                max_fuel: 20000000,
                max_memory_bytes: 33554432,
                min_memory_bytes: 4194304,
                max_tables: 10,
                max_instances: 10,
                require_signatures: false,
            },
        )
    }

    /// Create a new kernel with a custom configuration.
    pub fn with_config(config: ExecutionConfig) -> (r: Self)
        ensures
            r.wf(),
            r.registry.modules_view().len() == 0,
            r.audit.seq_no() == 0,
            r.config == config,
            r.verifier is None,
    {
        Kernel {
            config,
            registry: ModuleRegistry::new(),
            verifier: None,
            audit: AuditLog::with_defaults(),
        }
    }

    /// Set the signature verifier from a hex-encoded public key: succeeds
    /// exactly when the key is 64 hex characters decoding to 32 bytes, and
    /// changes nothing else of the kernel.
    pub fn with_signature_verifier(self, public_key_hex: &str) -> (r: Result<
        Kernel,
        crate::sig::SignatureError,
    >)
        ensures
            r is Ok <==> (public_key_hex@.len() % 2 == 0 && is_hex_seq(public_key_hex@)
                && hex_decode_of(public_key_hex@).len() == 32),
            r matches Ok(k) ==> {
                &&& (k.verifier matches Some(v) && v.wf() && v@ == hex_decode_of(public_key_hex@))
                &&& k.config == self.config
                &&& k.registry == self.registry
                &&& k.audit == self.audit
            },
    {
        let verifier = match SignatureVerifier::new(public_key_hex) {
            Ok(v) => v,
            Err(e) => {
                return Err(e);
            },
        };
        Ok(Kernel { verifier: Some(verifier), ..self })
    }

    /// The audit log.
    pub fn audit_log(&self) -> (r: &AuditLog)
        ensures
            r == &self.audit,
    {
        &self.audit
    }

    /// Whether an advisory-mode verification is attempted and fails: the
    /// kernel does not require signatures, one is present, a verifier is
    /// configured, and the signature does not verify the module.
    pub open spec fn advisory_check_failed(
        &self,
        manifest: ManifestV,
        module_bytes: Seq<u8>,
    ) -> bool {
        &&& !self.config.require_signatures
        &&& manifest.signature is Some
        &&& self.verifier is Some
        &&& !(module_verified(
            (self.verifier->Some_0)@,
            module_bytes,
            manifest.checksum,
            manifest.signature->Some_0,
        ) && hex_decode_of(manifest.signature->Some_0).len() == 64)
    }

    /// Whether a manifest passes the signature policy: in strict mode a
    /// signature and a verifier must be present and the signature must
    /// verify; in advisory mode everything passes (failures are at most
    /// logged by the host).
    pub open spec fn signature_policy_ok(
        &self,
        manifest: ManifestV,
        module_bytes: Seq<u8>,
    ) -> bool {
        self.config.require_signatures ==> {
            &&& manifest.signature is Some
            &&& self.verifier is Some
            &&& (manifest.signature matches Some(sig) && self.verifier matches Some(v)
                ==> module_verified(v@, module_bytes, manifest.checksum, sig)
                    && crate::encoding::hex_decode_of(sig).len() == 64)
        }
    }

    /// Verify a module's signature per the configured policy.
    pub fn verify_signature(&self, module_bytes: &Vec<u8>, manifest: &ModuleManifest) -> (r:
        Result<(), KernelError>)
        ensures
            r is Ok <==> self.signature_policy_ok(manifest@, module_bytes@),
            r matches Err(e) ==> (e == KernelError::SignatureMissing || e
                == KernelError::VerifierMissing || e == KernelError::SignatureInvalid),
    {
        if !self.config.require_signatures {
            return Ok(());
        }
        let signature = match &self.signature_of(manifest) {
            Some(s) => s.clone(),
            None => {
                return Err(KernelError::SignatureMissing);
            },
        };
        let verifier = match &self.verifier {
            Some(v) => v,
            None => {
                return Err(KernelError::VerifierMissing);
            },
        };
        match verifier.verify_module(module_bytes, manifest.checksum.as_str(), signature.as_str())
            {
            Ok(()) => Ok(()),
            Err(_) => Err(KernelError::SignatureInvalid),
        }
    }

    /// The manifest's signature, if any.
    fn signature_of(&self, manifest: &ModuleManifest) -> (r: Option<String>)
        ensures
            r matches Some(s) ==> manifest@.signature == Some(s@),
            r is None <==> manifest@.signature is None,
    {
        match &manifest.signature {
            Some(s) => Some(s.clone()),
            None => None,
        }
    }

    /// Load a module whose descriptor and payload the host has already read:
    /// verify the checksum, apply the signature policy, grant the recognized
    /// capabilities, record a `ModuleLoaded` audit event, and register the
    /// module. A checksum failure changes nothing. A strict-mode signature
    /// failure records a `SignatureFailed` audit event and registers nothing.
    /// In advisory mode a present signature is still verified when a verifier
    /// is configured; a failure is recorded as a `SignatureFailed` event —
    /// the tamper-evident form of a warning — and loading goes on.
    /// Advisory-mode verification: when signatures are not required but one
    /// is present and a verifier is configured, check it; a failure is
    /// recorded as a `SignatureFailed` audit event and loading goes on.
    fn advisory_check(&mut self, manifest: &ModuleManifest, module_bytes: &Vec<u8>)
        requires
            old(self).wf(),
            old(self).audit.seq_no() < u64::MAX,
        ensures
            final(self).wf(),
            final(self).config == old(self).config,
            final(self).verifier == old(self).verifier,
            final(self).registry == old(self).registry,
            final(self).audit.spec_max_entries() == old(self).audit.spec_max_entries(),
            old(self).advisory_check_failed(manifest@, module_bytes@) ==> {
                &&& final(self).audit.seq_no() == old(self).audit.seq_no() + 1
                &&& final(self).audit.entries_view().len() > 0
                &&& final(self).audit.entries_view().last().event == (EventV::SignatureFailed {
                    module_name: manifest@.name,
                    error: "signature verification failed"@,
                })
            },
            !old(self).advisory_check_failed(manifest@, module_bytes@) ==> final(self).audit.entries_view() == old(self).audit.entries_view() && final(self).audit.seq_no()
                == old(self).audit.seq_no(),
    {
        let mut advisory_failed = false;
        if !self.config.require_signatures {
            match &manifest.signature {
                Some(sg) => {
                    match &self.verifier {
                        Some(v) => {
                            match v.verify_module(
                                module_bytes,
                                manifest.checksum.as_str(),
                                sg.as_str(),
                            ) {
                                Ok(()) => {},
                                Err(_) => {
                                    advisory_failed = true;
                                },
                            }
                        },
                        None => {},
                    }
                },
                None => {},
            }
        }
        proof {
            assert(advisory_failed == old(self).advisory_check_failed(manifest@, module_bytes@));
        }
        if advisory_failed {
            self.audit.append(
                AuditEvent::new(
                    AuditEventType::SignatureFailed {
                        module_name: manifest.name.clone(),
                        error: String::from_str("signature verification failed"),
                    },
                    "kernel",
                ),
            );
        }
    }

    /// Record a strict-mode signature failure as a `SignatureFailed` audit
    /// event carrying the failure's reason.
    fn record_signature_failure(&mut self, name: &str, e: &KernelError)
        requires
            old(self).wf(),
            old(self).audit.seq_no() < u64::MAX,
        ensures
            final(self).wf(),
            final(self).config == old(self).config,
            final(self).verifier == old(self).verifier,
            final(self).registry == old(self).registry,
            final(self).audit.seq_no() == old(self).audit.seq_no() + 1,
            final(self).audit.entries_view().len() > 0,
            final(self).audit.entries_view().last().event == (EventV::SignatureFailed {
                module_name: name@,
                error: signature_failure_reason(*e),
            }),
    {
        let reason = match e {
            KernelError::SignatureMissing => "signature required but not provided",
            KernelError::VerifierMissing => "signature required but no verifier configured",
            _ => "signature verification failed",
        };
        self.audit.append(
            AuditEvent::new(
                AuditEventType::SignatureFailed {
                    module_name: String::from_str(name),
                    error: String::from_str(reason),
                },
                "kernel",
            ),
        );
    }

    #[verifier::rlimit(100)]
    #[verifier::spinoff_prover]
    pub fn launch_module_bytes(&mut self, manifest: &ModuleManifest, module_bytes: &Vec<u8>) -> (r:
        Result<Vec<Capability>, KernelError>)
        requires
            old(self).wf(),
            old(self).audit.seq_no() + 2 <= u64::MAX,
        ensures
            final(self).wf(),
            final(self).config == old(self).config,
            r is Ok <==> (hex_chars_of(sha256_of(module_bytes@)) == manifest@.checksum && old(self).signature_policy_ok(manifest@, module_bytes@)),
            r matches Ok(caps) ==> {
                &&& caps@ == granted_caps(manifest@.capabilities)
                &&& final(self).audit.entries_view().len() > 0
                &&& final(self).audit.entries_view().last().event == (EventV::ModuleLoaded {
                    module_name: manifest@.name,
                    checksum: manifest@.checksum,
                })
                &&& module_index(final(self).registry.modules_view(), manifest@.name) >= 0
                &&& final(self).registry.modules_view()[module_index(
                    final(self).registry.modules_view(),
                    manifest@.name,
                )].capabilities == granted_caps(manifest@.capabilities)
                &&& (old(self).advisory_check_failed(manifest@, module_bytes@) ==> final(self).audit.seq_no() == old(self).audit.seq_no() + 2 && (final(self).audit.entries_view().len() >= 2 ==> final(self).audit.entries_view()[final(self).audit.entries_view().len() - 2].event == (EventV::SignatureFailed {
                    module_name: manifest@.name,
                    error: "signature verification failed"@,
                })))
                &&& (!old(self).advisory_check_failed(manifest@, module_bytes@) ==> final(self).audit.seq_no() == old(self).audit.seq_no() + 1)
            },
            r is Err ==> final(self).registry.modules_view() == old(self).registry.modules_view(),
            (r matches Err(e) && e == KernelError::ChecksumMismatch) <==> hex_chars_of(
                sha256_of(module_bytes@),
            ) != manifest@.checksum,
            (r matches Err(e) && e == KernelError::ChecksumMismatch) ==> final(self).audit.entries_view() == old(self).audit.entries_view() && final(self).audit.seq_no()
                == old(self).audit.seq_no(),
            r matches Err(e) ==> (e == KernelError::ChecksumMismatch || {
                &&& old(self).config.require_signatures
                &&& (e == KernelError::SignatureMissing || e == KernelError::VerifierMissing || e
                    == KernelError::SignatureInvalid)
                &&& final(self).audit.seq_no() == old(self).audit.seq_no() + 1
                &&& final(self).audit.entries_view().len() > 0
                &&& final(self).audit.entries_view().last().event == (EventV::SignatureFailed {
                    module_name: manifest@.name,
                    error: signature_failure_reason(e),
                })
            }),
    {
        match verify_checksum(module_bytes, self.checksum_of(manifest).as_str()) {
            Ok(()) => {},
            Err(e) => {
                return Err(e);
            },
        }
        self.advisory_check(manifest, module_bytes);
        let ghost after_warning = self.audit.entries_view();
        match self.verify_signature(module_bytes, manifest) {
            Ok(()) => {},
            Err(e) => {
                self.record_signature_failure(manifest.name.as_str(), &e);
                return Err(e);
            },
        }
        let capabilities = parse_capabilities(manifest);
        let granted = dup_caps(&capabilities);
        self.audit.log_module_loaded(
            manifest.name.as_str(),
            manifest.checksum.as_str(),
            "kernel",
        );
        proof {
            if old(self).advisory_check_failed(manifest@, module_bytes@) {
                let es2 = self.audit.entries_view();
                if es2.len() >= 2 {
                    if after_warning.len() >= self.audit.spec_max_entries() {
                        assert(es2[es2.len() - 2] == after_warning.drop_first()[after_warning.len()
                            - 2]);
                        assert(after_warning.drop_first()[after_warning.len() - 2]
                            == after_warning.last());
                    } else {
                        assert(es2[es2.len() - 2] == after_warning.last());
                    }
                }
            }
        }
        self.registry.register(manifest.name.clone(), capabilities);
        Ok(granted)
    }

    /// The manifest's checksum field.
    fn checksum_of(&self, manifest: &ModuleManifest) -> (r: String)
        ensures
            r@ == manifest@.checksum,
    {
        manifest.checksum.clone()
    }

    /// Direct function execution is carried out by the host, which resolves
    /// the export and runs it under the same fuel and memory budgets as the
    /// start export; here only the guest-supplied parameters are validated.
    pub fn execute_function(
        &self,
        module_name: &str,
        function_name: &str,
        input_ptr: i32,
        input_len: i32,
    ) -> (r: Result<i32, KernelError>)
        ensures
            r == (if input_ptr >= 0 && input_len >= 0 && input_len <= 1048576 {
                Ok::<i32, KernelError>(0)
            } else {
                Err::<i32, KernelError>(KernelError::InvalidParameters)
            }),
    {
        if host_params_valid(input_ptr, input_len) {
            Ok(0)
        } else {
            Err(KernelError::InvalidParameters)
        }
    }

    /// Kernel status: version, loaded modules, limits, and the audit count.
    pub fn get_status(&self) -> (r: KernelStatus)
        ensures
            r.version@ == "0.1.0"@,
            r.modules_loaded == self.registry.modules_view().len(),
            r.module_names@.len() == self.registry.modules_view().len(),
            r.max_fuel_per_call == self.config.max_fuel,
            r.max_memory_bytes == self.config.max_memory_bytes,
            r.require_signatures == self.config.require_signatures,
            r.audit_entries == self.audit.seq_no(),
    {
        let module_names = self.registry.list_modules();
        let stats = self.audit.stats();
        KernelStatus {
            version: String::from_str("0.1.0"),
            modules_loaded: self.registry.len(),
            module_names,
            max_fuel_per_call: self.config.max_fuel,
            max_memory_bytes: self.config.max_memory_bytes,
            require_signatures: self.config.require_signatures,
            audit_entries: stats.total_entries,
        }
    }

    /// Shut down the kernel: record a `KernelShutdown` event and drop every
    /// registry entry; the host aborts the running tasks.
    pub fn shutdown(&mut self)
        requires
            old(self).wf(),
            old(self).audit.seq_no() < u64::MAX,
        ensures
            final(self).wf(),
            final(self).registry.modules_view().len() == 0,
            final(self).audit.seq_no() == old(self).audit.seq_no() + 1,
            final(self).audit.entries_view().len() > 0,
            final(self).audit.entries_view().last().event == (EventV::KernelShutdown {
                reason: "normal shutdown"@,
            }),
    {
        self.audit.append(
            AuditEvent::new(
                AuditEventType::KernelShutdown { reason: String::from_str("normal shutdown") },
                "kernel",
            ),
        );
        self.registry.shutdown_all();
    }

    /// The names of all running modules.
    pub fn list_modules(&self) -> (r: Vec<String>)
        ensures
            r@.len() == self.registry.modules_view().len(),
            forall|i: int|
                0 <= i < r@.len() ==> (#[trigger] r@[i])@ == self.registry.modules_view()[i].name,
    {
        self.registry.list_modules()
    }
}

} // verus!
