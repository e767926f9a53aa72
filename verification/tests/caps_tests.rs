//! Tests for the capability manager.

use esta_kernel::caps::{
    CapabilityError, CapabilityManager, CapabilityRight, CapabilityToken, CapabilityValidity,
    ResourceType,
};

#[test]
fn test_create_and_validate() {
    let mut manager = CapabilityManager::new(CapabilityManager::generate_secret());

    let token = manager
        .create_read_only(ResourceType::Module, "test-module".to_string(), "owner1".to_string())
        .expect("Should create capability");

    let cap = manager.validate(&token, &[CapabilityRight::Read]).expect("Should validate");

    assert_eq!(cap.resource_id, "test-module");
    assert!(cap.has_right(CapabilityRight::Read));
}

#[test]
fn test_insufficient_rights() {
    let mut manager = CapabilityManager::new(CapabilityManager::generate_secret());

    let token = manager
        .create_read_only(ResourceType::Module, "test-module".to_string(), "owner1".to_string())
        .expect("Should create capability");

    let result = manager.validate(&token, &[CapabilityRight::Write]);
    assert!(matches!(result, Err(CapabilityError::InsufficientRights { .. })));
}

#[test]
fn test_delegation() {
    let mut manager = CapabilityManager::new(CapabilityManager::generate_secret());

    // Create a capability with the delegate right.
    let token = manager
        .create_full_access(ResourceType::Module, "test-module".to_string(), "owner1".to_string())
        .expect("Should create capability");

    // Delegate with reduced rights.
    let delegated_rights = vec![CapabilityRight::Read];

    let delegated_token = manager
        .delegate(&token, "owner2".to_string(), delegated_rights, CapabilityValidity::default())
        .expect("Should delegate");

    // Verify the delegated capability.
    let cap = manager
        .validate(&delegated_token, &[CapabilityRight::Read])
        .expect("Should validate delegated");

    assert_eq!(cap.owner, "owner2");
    assert!(!cap.has_right(CapabilityRight::Write));
}

#[test]
fn test_delegation_monotonic_attenuation() {
    let mut manager = CapabilityManager::new(CapabilityManager::generate_secret());

    // Create a read-only capability.
    let token = manager
        .create_read_only(ResourceType::Module, "test-module".to_string(), "owner1".to_string())
        .expect("Should create capability");

    // Try to delegate with more rights (should fail).
    let requested_rights = vec![CapabilityRight::Write, CapabilityRight::Delegate];

    let result = manager.delegate(
        &token,
        "owner2".to_string(),
        requested_rights,
        CapabilityValidity::default(),
    );

    assert!(matches!(result, Err(CapabilityError::InsufficientRights { .. })));
}

#[test]
fn test_revocation() {
    let mut manager = CapabilityManager::new(CapabilityManager::generate_secret());

    let token = manager
        .create_read_only(ResourceType::Module, "test-module".to_string(), "owner1".to_string())
        .expect("Should create capability");

    // Revoke.
    let count = manager.revoke(&token).expect("Should revoke");
    assert_eq!(count, 1);

    // Try to use the revoked capability.
    let result = manager.validate(&token, &[CapabilityRight::Read]);
    assert!(matches!(result, Err(CapabilityError::Revoked)));
}

#[test]
fn test_usage_limit() {
    let mut manager = CapabilityManager::new(CapabilityManager::generate_secret());

    let rights = vec![CapabilityRight::Read];

    let validity = CapabilityValidity { expires_at: None, max_uses: Some(2), use_count: 0 };

    let token = manager
        .create_capability(
            ResourceType::Module,
            "test-module".to_string(),
            rights,
            "owner1".to_string(),
            validity,
        )
        .expect("Should create");

    // Use twice.
    manager.record_usage(&token).unwrap();
    manager.record_usage(&token).unwrap();

    // The third use should fail.
    let result = manager.validate(&token, &[CapabilityRight::Read]);
    assert!(matches!(result, Err(CapabilityError::UsageLimitExceeded)));
}

#[test]
fn test_list_capabilities() {
    let mut manager = CapabilityManager::new(CapabilityManager::generate_secret());

    manager
        .create_read_only(ResourceType::Module, "mod1".to_string(), "owner1".to_string())
        .unwrap();
    manager
        .create_read_only(ResourceType::Module, "mod2".to_string(), "owner1".to_string())
        .unwrap();
    manager
        .create_read_only(ResourceType::Module, "mod3".to_string(), "owner2".to_string())
        .unwrap();

    let owner1_caps = manager.list_capabilities("owner1");
    assert_eq!(owner1_caps.len(), 2);

    let owner2_caps = manager.list_capabilities("owner2");
    assert_eq!(owner2_caps.len(), 1);
}

#[test]
fn capability_attenuation_scenario() {
    // A parent with {Read, Write, Delegate}: delegating {Read} succeeds,
    // delegating {Read, Execute} fails with insufficient rights.
    let mut manager = CapabilityManager::new(CapabilityManager::generate_secret());
    let parent = manager
        .create_capability(
            ResourceType::Module,
            "m".to_string(),
            vec![CapabilityRight::Read, CapabilityRight::Write, CapabilityRight::Delegate],
            "owner1".to_string(),
            CapabilityValidity::default(),
        )
        .unwrap();

    let ok = manager.delegate(
        &parent,
        "owner2".to_string(),
        vec![CapabilityRight::Read],
        CapabilityValidity::default(),
    );
    assert!(ok.is_ok());

    let bad = manager.delegate(
        &parent,
        "owner3".to_string(),
        vec![CapabilityRight::Read, CapabilityRight::Execute],
        CapabilityValidity::default(),
    );
    assert!(matches!(bad, Err(CapabilityError::InsufficientRights { .. })));
}

#[test]
fn cascading_revocation_scenario() {
    // Parent -> child A -> grandchild B; revoking the parent revokes all
    // three and none of them validates afterwards.
    let mut manager = CapabilityManager::new(CapabilityManager::generate_secret());
    let parent = manager
        .create_capability(
            ResourceType::Module,
            "m".to_string(),
            vec![CapabilityRight::Read, CapabilityRight::Delegate],
            "owner1".to_string(),
            CapabilityValidity::default(),
        )
        .unwrap();
    let child_a = manager
        .delegate(
            &parent,
            "owner2".to_string(),
            vec![CapabilityRight::Read, CapabilityRight::Delegate],
            CapabilityValidity::default(),
        )
        .unwrap();
    let child_b = manager
        .delegate(
            &child_a,
            "owner3".to_string(),
            vec![CapabilityRight::Read],
            CapabilityValidity::default(),
        )
        .unwrap();

    let count = manager.revoke(&parent).unwrap();
    assert!(count >= 2);

    for token in [&parent, &child_a, &child_b] {
        let result = manager.validate(token, &[CapabilityRight::Read]);
        assert!(matches!(result, Err(CapabilityError::Revoked)));
    }
}

#[test]
fn double_revoke_idempotent() {
    let mut manager = CapabilityManager::new(CapabilityManager::generate_secret());
    let token = manager
        .create_read_only(ResourceType::Module, "m".to_string(), "owner1".to_string())
        .unwrap();

    let first = manager.revoke(&token).unwrap();
    assert_eq!(first, 1);
    let second = manager.revoke(&token).unwrap();
    assert_eq!(second, 0);

    let result = manager.validate(&token, &[CapabilityRight::Read]);
    assert!(matches!(result, Err(CapabilityError::Revoked)));
}

#[test]
fn expired_token_rejected() {
    let mut manager = CapabilityManager::new(CapabilityManager::generate_secret());
    let validity = CapabilityValidity { expires_at: Some(1), max_uses: None, use_count: 0 };
    let token = manager
        .create_capability(
            ResourceType::Module,
            "m".to_string(),
            vec![CapabilityRight::Read],
            "owner1".to_string(),
            validity,
        )
        .unwrap();
    let result = manager.validate(&token, &[CapabilityRight::Read]);
    assert!(matches!(result, Err(CapabilityError::Expired)));
}

#[test]
fn forged_token_suffix_rejected() {
    // A well-formed token with a forged authenticator suffix carries nothing:
    // validation re-mints the token and rejects the text as invalid.
    let mut manager = CapabilityManager::new(CapabilityManager::generate_secret());
    let token = manager
        .create_read_only(ResourceType::Module, "m".to_string(), "owner1".to_string())
        .unwrap();

    let text = token.as_str().to_string();
    let sep = text.rfind('_').unwrap();
    let mut forged_text = text[..sep + 1].to_string();
    for c in text[sep + 1..].chars() {
        forged_text.push(if c == '0' { '1' } else { '0' });
    }
    let forged = CapabilityToken::from_string(forged_text);
    let result = manager.validate(&forged, &[CapabilityRight::Read]);
    assert!(matches!(result, Err(CapabilityError::InvalidToken)));

    // The genuine text round-trips through its string form and validates.
    let genuine = CapabilityToken::from_string(text);
    assert!(manager.validate(&genuine, &[CapabilityRight::Read]).is_ok());
}

#[test]
fn issuance_starts_use_count_at_zero() {
    // Whatever use count a caller passes, issuance starts counting at zero.
    let mut manager = CapabilityManager::new(CapabilityManager::generate_secret());
    let validity = CapabilityValidity { expires_at: None, max_uses: Some(2), use_count: 7 };
    let token = manager
        .create_capability(
            ResourceType::Module,
            "m".to_string(),
            vec![CapabilityRight::Read],
            "owner1".to_string(),
            validity,
        )
        .unwrap();
    assert!(manager.validate(&token, &[CapabilityRight::Read]).is_ok());
    manager.record_usage(&token).unwrap();
    manager.record_usage(&token).unwrap();
    let result = manager.validate(&token, &[CapabilityRight::Read]);
    assert!(matches!(result, Err(CapabilityError::UsageLimitExceeded)));
}

#[test]
fn token_carries_its_identifier() {
    let mut manager = CapabilityManager::new(CapabilityManager::generate_secret());
    let token = manager
        .create_read_only(ResourceType::Module, "m".to_string(), "owner1".to_string())
        .unwrap();
    // A minted token parses back to an identifier and names itself `cap_...`.
    assert!(token.capability_id().is_some());
    assert!(token.as_str().starts_with("cap_"));
}

#[test]
fn rights_parse_and_print() {
    assert_eq!(CapabilityRight::from_str("read"), Some(CapabilityRight::Read));
    assert_eq!(CapabilityRight::from_str("READ"), Some(CapabilityRight::Read));
    assert_eq!(CapabilityRight::from_str("persistence_write"), Some(CapabilityRight::PersistenceWrite));
    assert_eq!(CapabilityRight::from_str("nonsense"), None);
    assert_eq!(CapabilityRight::Log.as_str(), "log");
    assert_eq!(CapabilityRight::AuditEmit.as_str(), "audit_emit");
}

#[test]
fn stats_counts_active_and_revoked() {
    let mut manager = CapabilityManager::new(CapabilityManager::generate_secret());
    let t1 = manager
        .create_read_only(ResourceType::Module, "a".to_string(), "o".to_string())
        .unwrap();
    manager
        .create_read_only(ResourceType::Module, "b".to_string(), "o".to_string())
        .unwrap();
    manager.revoke(&t1).unwrap();
    let stats = manager.stats();
    assert_eq!(stats.total_count, 2);
    assert_eq!(stats.active_count, 1);
    assert_eq!(stats.revoked_count, 1);
}
