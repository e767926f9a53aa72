//! Tests for the hash-chained audit log.

use esta_kernel::audit::{AuditEventType, AuditLog, AuditLogConfig};

#[test]
fn test_append_and_retrieve() {
    let mut log = AuditLog::with_defaults();

    let entry = log.log_module_loaded("test-module", "abc123", "kernel");

    assert_eq!(entry.sequence, 1);
    assert!(entry.verify());

    let all = log.get_all_entries();
    assert_eq!(all.len(), 1);
}

#[test]
fn test_chain_integrity() {
    let mut log = AuditLog::with_defaults();

    log.log_module_loaded("mod1", "hash1", "kernel");
    log.log_module_loaded("mod2", "hash2", "kernel");
    log.log_module_loaded("mod3", "hash3", "kernel");

    let verification = log.verify_chain();
    assert!(verification.valid);
    assert_eq!(verification.entries_checked, 3);
}

#[test]
fn test_tamper_detection() {
    let mut log = AuditLog::with_defaults();

    log.log_module_loaded("mod1", "hash1", "kernel");

    // Tamper with a copy of the entries; the log itself cannot be mutated.
    let mut entries = log.get_all_entries();
    entries[0].source = "tampered".to_string();

    let verification = esta_kernel::audit::verify_entries(&entries);
    assert!(!verification.valid);
}

#[test]
fn tamper_detection_reports_first_entry() {
    let mut log = AuditLog::with_defaults();

    log.log_module_loaded("mod1", "hash1", "kernel");
    log.log_module_loaded("mod2", "hash2", "kernel");
    log.log_module_loaded("mod3", "hash3", "kernel");

    let mut entries = log.get_all_entries();
    entries[0].source = "tampered".to_string();

    let verification = esta_kernel::audit::verify_entries(&entries);
    assert!(!verification.valid);
    assert_eq!(verification.first_invalid, Some(1));
}

#[test]
fn test_query_by_source() {
    let mut log = AuditLog::with_defaults();

    log.log_module_loaded("mod1", "hash1", "kernel");
    log.log_module_loaded("mod2", "hash2", "supervisor");
    log.log_module_loaded("mod3", "hash3", "kernel");

    let kernel_entries = log.get_entries_by_source("kernel");
    assert_eq!(kernel_entries.len(), 2);

    let supervisor_entries = log.get_entries_by_source("supervisor");
    assert_eq!(supervisor_entries.len(), 1);
}

#[test]
fn test_sequence_monotonic() {
    let mut log = AuditLog::with_defaults();

    let e1 = log.log_module_loaded("mod1", "hash1", "kernel");
    let e2 = log.log_module_loaded("mod2", "hash2", "kernel");
    let e3 = log.log_module_loaded("mod3", "hash3", "kernel");

    assert_eq!(e1.sequence, 1);
    assert_eq!(e2.sequence, 2);
    assert_eq!(e3.sequence, 3);
}

#[test]
fn test_bounded_size() {
    let config = AuditLogConfig { max_entries: 5, verbose: false };
    let mut log = AuditLog::new(config);

    for i in 0..10 {
        let name = format!("mod{}", i);
        log.log_module_loaded(&name, "hash", "kernel");
    }

    let entries = log.get_all_entries();
    assert_eq!(entries.len(), 5);
    // Should have entries 6-10 (the most recent 5).
    assert_eq!(entries[0].sequence, 6);
    assert_eq!(entries[4].sequence, 10);
}

#[test]
fn test_various_event_types() {
    let mut log = AuditLog::with_defaults();

    log.log_capability_created("cap1", "owner1", vec!["read".to_string()], "kernel");
    log.log_capability_denied("cap2", "insufficient rights", "kernel");
    log.log_fuel_exhausted("module1", 1000000, "supervisor");
    log.log_execution_completed("module2", "_start", 500000, "kernel");
    log.log_custom("test", "custom message", "test-source");

    let entries = log.get_all_entries();
    assert_eq!(entries.len(), 5);

    // Verify the chain is still valid.
    let verification = log.verify_chain();
    assert!(verification.valid);
}

#[test]
fn entries_after_and_in_range() {
    let mut log = AuditLog::with_defaults();

    log.log_module_loaded("mod1", "hash1", "kernel");
    log.log_module_loaded("mod2", "hash2", "kernel");
    log.log_module_loaded("mod3", "hash3", "kernel");

    let after = log.get_entries_after(1);
    assert_eq!(after.len(), 2);
    assert_eq!(after[0].sequence, 2);

    let all = log.get_entries_in_range(0, u64::MAX);
    assert_eq!(all.len(), 3);
}

#[test]
fn trimmed_log_chain_still_verifies() {
    let config = AuditLogConfig { max_entries: 3, verbose: false };
    let mut log = AuditLog::new(config);
    for i in 0..7 {
        let name = format!("mod{}", i);
        log.log_module_loaded(&name, "hash", "kernel");
    }
    let verification = log.verify_chain();
    assert!(verification.valid);
    let entries = log.get_all_entries();
    assert_eq!(entries[0].sequence, 5);
}

#[test]
fn event_variants_verify_individually() {
    let mut log = AuditLog::with_defaults();
    let e = log.append(esta_kernel::audit::AuditEvent::new(
        AuditEventType::SupervisorEscalation { module_name: "m".to_string(), level: 3 },
        "supervisor",
    ));
    assert!(e.verify());
    let e2 = log.append(esta_kernel::audit::AuditEvent::new(
        AuditEventType::ModuleStopped { module_name: "m".to_string(), exit_code: -1 },
        "kernel",
    ));
    assert!(e2.verify());
    assert_eq!(e2.prev_hash, e.hash);
}
