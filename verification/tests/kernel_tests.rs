//! Tests for the kernel core: checksum verification, capability parsing,
//! the registry, the load pipeline, and host-parameter validation.

use esta_kernel::accrual::calculate_accrual;
use sha2::Digest;
use esta_kernel::audit::AuditEventType;
use esta_kernel::runtime::{
    host_params_valid, parse_capabilities, verify_checksum, Capability, ExecutionConfig, Kernel,
    KernelError, ModuleManifest, ModuleRegistry,
};

fn checksum_of(bytes: &[u8]) -> String {
    hex::encode(sha2::Sha256::digest(bytes))
}

#[test]
fn test_checksum_verification() {
    let data = b"test module bytes".to_vec();
    let checksum = checksum_of(&data);

    assert!(verify_checksum(&data, &checksum).is_ok());
    assert!(verify_checksum(&data, "invalid").is_err());
}

#[test]
fn test_capability_parsing() {
    let manifest = ModuleManifest {
        name: "test".to_string(),
        path: "test.wasm".to_string(),
        checksum: "abc".to_string(),
        capabilities: vec!["log".to_string(), "audit_emit".to_string(), "unknown".to_string()],
        signature: None,
    };
    let caps = parse_capabilities(&manifest);
    assert_eq!(caps.len(), 2);
    assert!(caps.contains(&Capability::Log));
    assert!(caps.contains(&Capability::AuditEmit));
}

#[test]
fn test_execution_config_default() {
    let config = ExecutionConfig::default();
    assert_eq!(config.max_fuel, 20_000_000);
    assert_eq!(config.max_memory_bytes, 32 * 1024 * 1024);
    assert!(!config.require_signatures);
}

#[test]
fn test_new_kernel() {
    let k = Kernel::new();
    let modules = k.list_modules();
    assert!(modules.is_empty());
}

#[test]
fn test_kernel_with_config() {
    let config = ExecutionConfig {
        max_fuel: 10_000_000,
        max_memory_bytes: 16 * 1024 * 1024,
        require_signatures: false,
        ..ExecutionConfig::default()
    };
    let k = Kernel::with_config(config);
    let status = k.get_status();
    assert_eq!(status.max_fuel_per_call, 10_000_000);
}

#[test]
fn test_kernel_status() {
    let k = Kernel::new();
    let status = k.get_status();

    assert_eq!(status.modules_loaded, 0);
    assert_eq!(status.max_fuel_per_call, 20_000_000);
}

#[test]
fn test_kernel_audit_log() {
    let mut k = Kernel::new();

    // Log a test event.
    k.audit.log_custom("test", "test message", "test");

    let stats = k.audit.stats();
    assert_eq!(stats.total_entries, 1);
}

#[test]
fn test_module_registry() {
    let mut registry = ModuleRegistry::new();

    registry.register("test".to_string(), vec![Capability::Log]);

    assert_eq!(registry.list_modules(), vec!["test"]);

    registry.shutdown_all();
    assert!(registry.list_modules().is_empty());
}

#[test]
fn happy_load_scenario() {
    // Descriptor {name: "m1", checksum: SHA256("hello"), capabilities: ["log"]},
    // payload "hello", signatures not required: the launch succeeds, the
    // registry lists ["m1"], and the audit log holds a ModuleLoaded event.
    let payload = b"hello".to_vec();
    let manifest = ModuleManifest {
        name: "m1".to_string(),
        path: "m1.wasm".to_string(),
        checksum: checksum_of(&payload),
        capabilities: vec!["log".to_string()],
        signature: None,
    };
    let mut k = Kernel::new();
    let granted = k.launch_module_bytes(&manifest, &payload).unwrap();
    assert_eq!(granted, vec![Capability::Log]);
    assert_eq!(k.list_modules(), vec!["m1"]);

    let entries = k.audit.get_all_entries();
    assert!(entries.iter().any(|e| matches!(
        &e.event,
        AuditEventType::ModuleLoaded { module_name, .. } if module_name == "m1"
    )));
}

#[test]
fn checksum_mismatch_scenario() {
    // The same descriptor but payload "world": the launch fails with a
    // checksum mismatch, the registry is unchanged, and no ModuleLoaded
    // event is recorded.
    let hello = b"hello".to_vec();
    let manifest = ModuleManifest {
        name: "m1".to_string(),
        path: "m1.wasm".to_string(),
        checksum: checksum_of(&hello),
        capabilities: vec!["log".to_string()],
        signature: None,
    };
    let mut k = Kernel::new();
    let payload = b"world".to_vec();
    let result = k.launch_module_bytes(&manifest, &payload);
    assert!(matches!(result, Err(KernelError::ChecksumMismatch)));
    assert!(k.list_modules().is_empty());
    assert_eq!(k.audit.stats().total_entries, 0);
}

#[test]
fn strict_mode_requires_signature() {
    let payload = b"hello".to_vec();
    let manifest = ModuleManifest {
        name: "m1".to_string(),
        path: "m1.wasm".to_string(),
        checksum: checksum_of(&payload),
        capabilities: vec![],
        signature: None,
    };
    let config = ExecutionConfig { require_signatures: true, ..ExecutionConfig::default() };
    let mut k = Kernel::with_config(config);
    let result = k.launch_module_bytes(&manifest, &payload);
    assert!(matches!(result, Err(KernelError::SignatureMissing)));
}

#[test]
fn strict_mode_accepts_signed_module() {
    let signer = esta_kernel::sig::ModuleSigner::generate().unwrap();
    let payload = b"signed module".to_vec();
    let checksum = checksum_of(&payload);
    let signature = signer.sign_module(&payload, &checksum);
    let manifest = ModuleManifest {
        name: "m1".to_string(),
        path: "m1.wasm".to_string(),
        checksum,
        capabilities: vec!["log".to_string()],
        signature: Some(signature),
    };
    let config = ExecutionConfig { require_signatures: true, ..ExecutionConfig::default() };
    let k = Kernel::with_config(config);
    let mut k = k.with_signature_verifier(&signer.public_key_hex()).unwrap();
    let result = k.launch_module_bytes(&manifest, &payload);
    assert!(result.is_ok());

    // A tampered payload is rejected even with the same signature.
    let manifest2 = ModuleManifest {
        name: "m2".to_string(),
        path: "m2.wasm".to_string(),
        checksum: checksum_of(b"signed module"),
        capabilities: vec![],
        signature: Some(signer.sign_module(&payload, &checksum_of(b"signed module"))),
    };
    let tampered = b"tampered module".to_vec();
    let result2 = k.launch_module_bytes(&manifest2, &tampered);
    assert!(result2.is_err());
}

#[test]
fn advisory_mode_records_signature_warning() {
    // Signatures not required, but one is present and a verifier is
    // configured: a bad signature is recorded as a SignatureFailed event and
    // the module still loads.
    let signer = esta_kernel::sig::ModuleSigner::generate().unwrap();
    let payload = b"advisory module".to_vec();
    let manifest = ModuleManifest {
        name: "m1".to_string(),
        path: "m1.wasm".to_string(),
        checksum: checksum_of(&payload),
        capabilities: vec![],
        signature: Some("ab".repeat(64)),
    };
    let k = Kernel::new();
    let mut k = k.with_signature_verifier(&signer.public_key_hex()).unwrap();
    let result = k.launch_module_bytes(&manifest, &payload);
    assert!(result.is_ok());
    let entries = k.audit.get_all_entries();
    assert_eq!(entries.len(), 2);
    assert!(matches!(
        &entries[0].event,
        AuditEventType::SignatureFailed { module_name, .. } if module_name == "m1"
    ));
    assert!(matches!(&entries[1].event, AuditEventType::ModuleLoaded { .. }));

    // A correctly signed module in advisory mode records no warning.
    let payload2 = b"good advisory module".to_vec();
    let checksum2 = checksum_of(&payload2);
    let manifest2 = ModuleManifest {
        name: "m2".to_string(),
        path: "m2.wasm".to_string(),
        checksum: checksum2.clone(),
        capabilities: vec![],
        signature: Some(signer.sign_module(&payload2, &checksum2)),
    };
    let before = k.audit.stats().total_entries;
    assert!(k.launch_module_bytes(&manifest2, &payload2).is_ok());
    assert_eq!(k.audit.stats().total_entries, before + 1);
}

#[test]
fn strict_failure_records_signature_event() {
    let payload = b"hello".to_vec();
    let manifest = ModuleManifest {
        name: "m1".to_string(),
        path: "m1.wasm".to_string(),
        checksum: checksum_of(&payload),
        capabilities: vec![],
        signature: None,
    };
    let config = ExecutionConfig { require_signatures: true, ..ExecutionConfig::default() };
    let mut k = Kernel::with_config(config);
    let result = k.launch_module_bytes(&manifest, &payload);
    assert!(matches!(result, Err(KernelError::SignatureMissing)));
    assert!(k.list_modules().is_empty());
    let entries = k.audit.get_all_entries();
    assert_eq!(entries.len(), 1);
    assert!(matches!(
        &entries[0].event,
        AuditEventType::SignatureFailed { module_name, .. } if module_name == "m1"
    ));
}

#[test]
fn host_parameter_validation() {
    // A negative length, a negative pointer, or a length above a mebibyte is
    // rejected; in-range parameters pass.
    assert!(host_params_valid(0, 0));
    assert!(host_params_valid(16, 1_048_576));
    assert!(!host_params_valid(-1, 10));
    assert!(!host_params_valid(10, -1));
    assert!(!host_params_valid(10, 1_048_577));
}

#[test]
fn execute_function_validates_parameters() {
    let k = Kernel::new();
    assert_eq!(k.execute_function("m", "f", 0, 16).unwrap(), 0);
    assert!(matches!(
        k.execute_function("m", "f", -5, 16),
        Err(KernelError::InvalidParameters)
    ));
}

#[test]
fn shutdown_records_event_and_clears_registry() {
    let payload = b"hello".to_vec();
    let manifest = ModuleManifest {
        name: "m1".to_string(),
        path: "m1.wasm".to_string(),
        checksum: checksum_of(&payload),
        capabilities: vec![],
        signature: None,
    };
    let mut k = Kernel::new();
    k.launch_module_bytes(&manifest, &payload).unwrap();
    assert_eq!(k.list_modules().len(), 1);
    k.shutdown();
    assert!(k.list_modules().is_empty());
    let entries = k.audit.get_all_entries();
    assert!(entries
        .iter()
        .any(|e| matches!(&e.event, AuditEventType::KernelShutdown { .. })));
}

#[test]
fn registry_tracks_stats() {
    let mut registry = ModuleRegistry::new();
    registry.register("m".to_string(), vec![Capability::Log]);
    assert!(registry.record_execution("m", 1234, false));
    assert!(registry.record_execution("m", 6, true));
    let stats = registry.get_module_stats("m").unwrap();
    assert_eq!(stats.fuel_consumed, 1240);
    assert_eq!(stats.invocation_count, 2);
    assert_eq!(stats.error_count, 1);
    assert!(registry.get_module_stats("absent").is_none());
    let caps = registry.get_module_capabilities("m").unwrap();
    assert_eq!(caps, vec![Capability::Log]);
}

#[test]
fn test_calculate_accrual() {
    assert_eq!(calculate_accrual(60, "small"), 2); // 60/30 = 2
    assert_eq!(calculate_accrual(120, "large"), 4); // 120/30 = 4
    assert_eq!(calculate_accrual(0, "small"), 0);
    assert_eq!(calculate_accrual(29, "small"), 0); // < 30 = 0
}
