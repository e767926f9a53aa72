//! Tests for the supervisor's crash decisions.

use esta_kernel::supervisor::{
    ChildSpec, EscalationLevel, RestartStrategy, Supervisor, SupervisorAction,
};

#[test]
fn test_register_and_start() {
    let mut supervisor = Supervisor::new_noop();

    let spec = ChildSpec {
        id: "test-module".to_string(),
        manifest_path: "/path/to/module-descriptor.json".to_string(),
        ..Default::default()
    };

    supervisor.register_child(spec).unwrap();
    supervisor.report_started("test-module").unwrap();

    let status = supervisor.get_child_status("test-module").unwrap();
    assert!(status.state.contains("Running"));
}

#[test]
fn test_crash_and_restart() {
    let mut supervisor = Supervisor::new_noop();

    let spec = ChildSpec {
        id: "test-module".to_string(),
        manifest_path: "/path/to/module-descriptor.json".to_string(),
        max_restarts: 5,
        base_restart_delay_ms: 100,
        ..Default::default()
    };

    supervisor.register_child(spec).unwrap();
    supervisor.report_started("test-module").unwrap();

    // Simulate a crash.
    let action = supervisor.report_crash("test-module", "test error").unwrap();

    match action {
        SupervisorAction::Restart { delay_ms, .. } => {
            assert!(delay_ms >= 100);
        },
        _ => panic!("Expected Restart action"),
    }
}

#[test]
fn test_temporary_no_restart() {
    let mut supervisor = Supervisor::new_noop();

    let spec = ChildSpec {
        id: "temp-module".to_string(),
        manifest_path: "/path/to/module-descriptor.json".to_string(),
        restart: RestartStrategy::Temporary,
        ..Default::default()
    };

    supervisor.register_child(spec).unwrap();
    supervisor.report_started("temp-module").unwrap();

    let action = supervisor.report_crash("temp-module", "error").unwrap();

    assert!(matches!(action, SupervisorAction::Stop));
}

#[test]
fn test_transient_normal_exit() {
    let mut supervisor = Supervisor::new_noop();

    let spec = ChildSpec {
        id: "transient-module".to_string(),
        manifest_path: "/path/to/module-descriptor.json".to_string(),
        restart: RestartStrategy::Transient,
        ..Default::default()
    };

    supervisor.register_child(spec).unwrap();
    supervisor.report_started("transient-module").unwrap();

    // Normal termination should not restart.
    let action = supervisor.report_crash("transient-module", "normal").unwrap();
    assert!(matches!(action, SupervisorAction::Stop));
}

#[test]
fn transient_abnormal_exit_restarts() {
    let mut supervisor = Supervisor::new_noop();

    let spec = ChildSpec {
        id: "transient-module".to_string(),
        manifest_path: "/path/to/module-descriptor.json".to_string(),
        restart: RestartStrategy::Transient,
        ..Default::default()
    };

    supervisor.register_child(spec).unwrap();
    supervisor.report_started("transient-module").unwrap();

    let action = supervisor.report_crash("transient-module", "segfault").unwrap();
    assert!(matches!(action, SupervisorAction::Restart { .. }));
}

#[test]
fn test_escalation_on_restart_limit() {
    let mut supervisor = Supervisor::new_noop();

    let spec = ChildSpec {
        id: "crash-module".to_string(),
        manifest_path: "/path/to/module-descriptor.json".to_string(),
        max_restarts: 2,
        restart_intensity_window: 60,
        base_restart_delay_ms: 1,
        ..Default::default()
    };

    supervisor.register_child(spec).unwrap();
    supervisor.report_started("crash-module").unwrap();

    // First crash.
    supervisor.report_crash("crash-module", "error").unwrap();
    // Second crash.
    supervisor.report_crash("crash-module", "error").unwrap();
    // Third crash - should trigger escalation.
    let action = supervisor.report_crash("crash-module", "error").unwrap();

    match action {
        SupervisorAction::Restart { escalation, .. } => {
            assert!(escalation.number() >= 2);
        },
        _ => panic!("Expected Restart with escalation"),
    }
}

#[test]
fn escalation_resets_restart_count() {
    let mut supervisor = Supervisor::new_noop();

    let spec = ChildSpec {
        id: "crash-module".to_string(),
        manifest_path: "/path/to/module-descriptor.json".to_string(),
        max_restarts: 2,
        ..Default::default()
    };

    supervisor.register_child(spec).unwrap();
    supervisor.report_crash("crash-module", "error").unwrap();
    supervisor.report_crash("crash-module", "error").unwrap();
    // This crash exceeds the limit: the level advances once and the count
    // resets before the restart is counted.
    supervisor.report_crash("crash-module", "error").unwrap();

    let status = supervisor.get_child_status("crash-module").unwrap();
    assert_eq!(status.restart_count, 1);
    assert_eq!(status.escalation_level, EscalationLevel::Level2RestartClean);
    assert_eq!(status.total_crashes, 3);
}

#[test]
fn test_backoff_delay() {
    let mut supervisor = Supervisor::new_noop();

    let spec = ChildSpec {
        id: "backoff-module".to_string(),
        manifest_path: "/path/to/module-descriptor.json".to_string(),
        max_restarts: 10,
        base_restart_delay_ms: 100,
        max_restart_delay_ms: 10000,
        backoff_factor: 2,
        ..Default::default()
    };

    supervisor.register_child(spec).unwrap();
    supervisor.report_started("backoff-module").unwrap();

    let action1 = supervisor.report_crash("backoff-module", "error").unwrap();
    let action2 = supervisor.report_crash("backoff-module", "error").unwrap();
    let action3 = supervisor.report_crash("backoff-module", "error").unwrap();

    match (action1, action2, action3) {
        (
            SupervisorAction::Restart { delay_ms: d1, .. },
            SupervisorAction::Restart { delay_ms: d2, .. },
            SupervisorAction::Restart { delay_ms: d3, .. },
        ) => {
            assert!(d2 > d1, "Second delay should be greater");
            assert!(d3 > d2, "Third delay should be greater");
        },
        _ => panic!("Expected all Restart actions"),
    }
}

#[test]
fn backoff_progression_doubles() {
    // base=100ms, factor=2: three consecutive crashes produce delays
    // 100, 200, 400, monotonically increasing and capped at the maximum.
    let mut supervisor = Supervisor::new_noop();

    let spec = ChildSpec {
        id: "m".to_string(),
        manifest_path: "p".to_string(),
        max_restarts: 10,
        base_restart_delay_ms: 100,
        max_restart_delay_ms: 10000,
        backoff_factor: 2,
        ..Default::default()
    };

    supervisor.register_child(spec).unwrap();

    let mut delays = Vec::new();
    for _ in 0..3 {
        match supervisor.report_crash("m", "error").unwrap() {
            SupervisorAction::Restart { delay_ms, .. } => delays.push(delay_ms),
            _ => panic!("Expected Restart"),
        }
    }
    assert_eq!(delays, vec![100, 200, 400]);
}

#[test]
fn backoff_caps_at_max_delay() {
    let mut supervisor = Supervisor::new_noop();
    let spec = ChildSpec {
        id: "m".to_string(),
        manifest_path: "p".to_string(),
        max_restarts: 20,
        base_restart_delay_ms: 100,
        max_restart_delay_ms: 500,
        backoff_factor: 2,
        ..Default::default()
    };
    supervisor.register_child(spec).unwrap();
    let mut last: u64 = 0;
    for _ in 0..6 {
        match supervisor.report_crash("m", "error").unwrap() {
            SupervisorAction::Restart { delay_ms, .. } => last = delay_ms,
            _ => panic!("Expected Restart"),
        }
    }
    assert_eq!(last, 500);
}

#[test]
fn test_shutdown_all() {
    let mut supervisor = Supervisor::new_noop();

    for i in 0..3 {
        let spec = ChildSpec {
            id: format!("module-{}", i),
            manifest_path: "/path/to/module-descriptor.json".to_string(),
            ..Default::default()
        };
        supervisor.register_child(spec).unwrap();
        let id = format!("module-{}", i);
        supervisor.report_started(&id).unwrap();
    }

    supervisor.shutdown_all();

    let status = supervisor.get_status();
    for s in status {
        assert!(s.state.contains("Terminated"));
    }
}

#[test]
fn duplicate_registration_rejected() {
    let mut supervisor = Supervisor::new_noop();
    let make = || ChildSpec {
        id: "dup".to_string(),
        manifest_path: "p".to_string(),
        ..Default::default()
    };
    supervisor.register_child(make()).unwrap();
    assert!(supervisor.register_child(make()).is_err());
    supervisor.unregister_child("dup").unwrap();
    assert!(supervisor.register_child(make()).is_ok());
}

#[test]
fn escalation_ladder_tops_out() {
    assert_eq!(
        EscalationLevel::Level1RestartWithState.next(),
        EscalationLevel::Level2RestartClean
    );
    assert_eq!(EscalationLevel::Level4RestartSupervisor.next(), EscalationLevel::Level5SystemRestart);
    assert_eq!(EscalationLevel::Level5SystemRestart.next(), EscalationLevel::Level5SystemRestart);
    assert_eq!(EscalationLevel::Level3ReloadModule.number(), 3);
}
