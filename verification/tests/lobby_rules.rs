use manifold::lobby::rules::{
    blocked_upstream_v1, circular_dependency_v1, missing_environment_v1, schedule_contention_v1,
    undocumented_interface_v1, watershed_mismatch_v1, run_all_rules, all_rules, exposers_index, Severity,
};
use manifold::lobby::snapshot::{
    ChangeRequest, Dependency, Deployable, DeploymentPlan, Exposes, GraphSnapshot, PlanStepLite, Service,
    TestEnvironment,
};

fn dep(id: &str, name: &str, team: Option<&str>) -> Deployable {
    Deployable {
        id: id.into(),
        name: name.into(),
        description: None,
        team_id: team.map(String::from),
        deployment_status: None,
    }
}

fn edge(id: &str, from: &str, to_svc: &str, crit: Option<&str>) -> Dependency {
    Dependency {
        id: id.into(),
        deployable_id: from.into(),
        service_id: to_svc.into(),
        criticality: crit.map(String::from),
    }
}

fn exposes(id: &str, dep: &str, svc: &str) -> Exposes {
    Exposes { id: id.into(), deployable_id: dep.into(), service_id: svc.into() }
}

#[test]
fn blocked_upstream_emits_one_per_dependent() {
    let mut snap = GraphSnapshot::default();
    snap.deployables = vec![dep("auth", "Auth", None), dep("invoice", "Invoice", None), dep("oms", "OMS", None)];
    snap.exposes = vec![exposes("e1", "auth", "auth-svc")];
    snap.dependencies = vec![
        edge("d1", "invoice", "auth-svc", Some("high")),
        edge("d2", "oms", "auth-svc", Some("medium")),
    ];
    snap.change_requests = vec![ChangeRequest {
        id: "cr1".into(),
        summary: Some("Auth MFA rollout".into()),
        status: Some("blocked".into()),
        tier: None,
        target_deployables: Some("auth".into()),
    }];
    let advisories = blocked_upstream_v1(&snap);
    assert_eq!(advisories.len(), 2);
    assert!(advisories.iter().any(|a| a.subject_id == "invoice" && a.severity == Severity::Critical));
    assert!(advisories.iter().any(|a| a.subject_id == "oms" && a.severity == Severity::Warn));
    assert!(advisories[0].explain.contains("blocked CR"));
}

#[test]
fn circular_dependency_detects_two_cycle() {
    let mut snap = GraphSnapshot::default();
    snap.deployables = vec![dep("a", "A", None), dep("b", "B", None)];
    snap.exposes = vec![exposes("e1", "a", "a-svc"), exposes("e2", "b", "b-svc")];
    snap.dependencies = vec![edge("d1", "a", "b-svc", None), edge("d2", "b", "a-svc", None)];
    let advisories = circular_dependency_v1(&snap);
    assert_eq!(advisories.len(), 1);
    assert_eq!(advisories[0].kind, "CircularDependency");
    assert!(advisories[0].caused_by.contains(&"a".to_string()));
    assert!(advisories[0].caused_by.contains(&"b".to_string()));
}

#[test]
fn circular_dependency_ignores_non_cycle_chain() {
    let mut snap = GraphSnapshot::default();
    snap.deployables = vec![dep("a", "A", None), dep("b", "B", None), dep("c", "C", None)];
    snap.exposes = vec![exposes("e1", "a", "a-svc"), exposes("e2", "b", "b-svc"), exposes("e3", "c", "c-svc")];
    snap.dependencies = vec![edge("d1", "a", "b-svc", None), edge("d2", "b", "c-svc", None)];
    assert!(circular_dependency_v1(&snap).is_empty());
}

#[test]
fn undocumented_interface_only_fires_when_dependents_exist_and_no_contract() {
    let mut snap = GraphSnapshot::default();
    snap.services = vec![
        Service { id: "svc1".into(), name: "Public API".into(), kind: Some("rest".into()), description: None },
        Service { id: "svc2".into(), name: "Lonely API".into(), kind: Some("rest".into()), description: None },
    ];
    snap.dependencies = vec![edge("d1", "x", "svc1", None), edge("d2", "y", "svc1", None)];
    snap.contracts = vec![];
    let advisories = undocumented_interface_v1(&snap);
    assert_eq!(advisories.len(), 1);
    assert_eq!(advisories[0].subject_id, "svc1");
}

#[test]
fn watershed_mismatch_fires_when_prod_like_lacks_sync() {
    let mut snap = GraphSnapshot::default();
    snap.test_environments = vec![
        TestEnvironment {
            id: "env1".into(),
            name: "OMS UAT".into(),
            kind: Some("multi-tenant".into()),
            deployable_id: None,
            watershed: Some("prod-like".into()),
        },
        TestEnvironment {
            id: "env2".into(),
            name: "OMS Sandbox".into(),
            kind: Some("sandbox".into()),
            deployable_id: None,
            watershed: Some("path-to-prod".into()),
        },
    ];
    let advisories = watershed_mismatch_v1(&snap);
    assert_eq!(advisories.len(), 1);
    assert_eq!(advisories[0].subject_id, "env1");
}

#[test]
fn missing_environment_fires_per_cr_targeting_unknown_deployable() {
    let mut snap = GraphSnapshot::default();
    snap.deployables = vec![dep("d1", "X", None), dep("d2", "Y", None)];
    snap.test_environments = vec![TestEnvironment {
        id: "e1".into(),
        name: "X sandbox".into(),
        kind: Some("sandbox".into()),
        deployable_id: Some("d1".into()),
        watershed: None,
    }];
    snap.change_requests = vec![ChangeRequest {
        id: "cr1".into(),
        summary: Some("Ship Y".into()),
        status: Some("approved".into()),
        tier: Some("staging".into()),
        target_deployables: Some("d2".into()),
    }];
    let advisories = missing_environment_v1(&snap);
    assert_eq!(advisories.len(), 1);
    assert_eq!(advisories[0].subject_id, "cr1");
    assert!(advisories[0].explain.contains("Y"));
}

fn step(dep_id: &str, name: &str, start: &str, end: &str) -> PlanStepLite {
    PlanStepLite {
        deployable_id: dep_id.into(),
        deployable_name: name.into(),
        order: 0,
        window_start: Some(start.into()),
        window_end: Some(end.into()),
        test_environment_id: None,
    }
}

#[test]
fn schedule_contention_pairs_overlapping_cr_windows_on_same_deployable() {
    let mut snap = GraphSnapshot::default();
    snap.change_requests = vec![
        ChangeRequest { id: "cr1".into(), summary: Some("Release v1".into()), ..Default::default() },
        ChangeRequest { id: "cr2".into(), summary: Some("Hotfix v2".into()), ..Default::default() },
    ];
    snap.deployment_plans = vec![
        DeploymentPlan {
            id: "p1".into(),
            change_request_id: "cr1".into(),
            steps: vec![step("d1", "OMS", "2026-05-13T10:00:00Z", "2026-05-13T10:30:00Z")],
        },
        DeploymentPlan {
            id: "p2".into(),
            change_request_id: "cr2".into(),
            steps: vec![step("d1", "OMS", "2026-05-13T10:15:00Z", "2026-05-13T10:45:00Z")],
        },
    ];
    let advisories = schedule_contention_v1(&snap);
    assert_eq!(advisories.len(), 1);
    assert_eq!(advisories[0].kind, "ScheduleContention");
    assert_eq!(advisories[0].subject_id, "cr1");
    assert!(advisories[0].caused_by.contains(&"cr2".to_string()));
}

#[test]
fn schedule_contention_ignores_touching_windows() {
    let mut snap = GraphSnapshot::default();
    snap.change_requests = vec![
        ChangeRequest { id: "cr-b".into(), summary: Some("B".into()), ..Default::default() },
        ChangeRequest { id: "cr-a".into(), summary: Some("A".into()), ..Default::default() },
    ];
    snap.deployment_plans = vec![
        DeploymentPlan {
            id: "p1".into(),
            change_request_id: "cr-b".into(),
            steps: vec![step("d1", "OMS", "2026-05-13T10:00:00Z", "2026-05-13T10:30:00Z")],
        },
        DeploymentPlan {
            id: "p2".into(),
            change_request_id: "cr-a".into(),
            steps: vec![step("d1", "OMS", "2026-05-13T10:30:00Z", "2026-05-13T11:00:00Z")],
        },
    ];
    assert!(schedule_contention_v1(&snap).is_empty());
}

#[test]
fn severity_names_are_lower_case() {
    assert_eq!(Severity::Info.as_str(), "info");
    assert_eq!(Severity::Warn.as_str(), "warn");
    assert_eq!(Severity::Critical.as_str(), "critical");
}

#[test]
fn exposers_index_lists_publishers_in_edge_order() {
    let ex = vec![exposes("e1", "a", "s"), exposes("e2", "b", "t"), exposes("e3", "c", "s")];
    assert_eq!(exposers_index(&ex, &"s".to_string()), vec!["a".to_string(), "c".to_string()]);
    assert!(exposers_index(&ex, &"u".to_string()).is_empty());
}

#[test]
fn all_rules_run_together() {
    assert_eq!(all_rules().len(), 6);
    let mut snap = GraphSnapshot::default();
    snap.deployables = vec![dep("a", "A", None), dep("b", "B", None)];
    snap.exposes = vec![exposes("e1", "a", "a-svc"), exposes("e2", "b", "b-svc")];
    snap.dependencies = vec![edge("d1", "a", "b-svc", None), edge("d2", "b", "a-svc", None)];
    let all = run_all_rules(&snap);
    assert!(all.iter().any(|a| a.kind == "CircularDependency"));
}

#[test]
fn contention_is_on_the_smaller_change_request_and_reported_once() {
    let mut snap = GraphSnapshot::default();
    snap.change_requests = vec![
        ChangeRequest { id: "cr-b".into(), summary: Some("B".into()), ..Default::default() },
        ChangeRequest { id: "cr-a".into(), summary: Some("A".into()), ..Default::default() },
    ];
    snap.deployment_plans = vec![
        DeploymentPlan {
            id: "p1".into(),
            change_request_id: "cr-b".into(),
            steps: vec![
                step("d1", "OMS", "2026-05-13T10:00:00Z", "2026-05-13T10:30:00Z"),
                step("d2", "Billing", "2026-05-13T12:00:00Z", "2026-05-13T13:00:00Z"),
            ],
        },
        DeploymentPlan {
            id: "p2".into(),
            change_request_id: "cr-a".into(),
            steps: vec![
                step("d1", "OMS", "2026-05-13T10:10:00Z", "2026-05-13T10:20:00Z"),
                step("d2", "Billing", "2026-05-13T12:30:00Z", "2026-05-13T12:40:00Z"),
            ],
        },
    ];
    let advisories = schedule_contention_v1(&snap);
    assert_eq!(advisories.len(), 1);
    assert_eq!(advisories[0].subject_id, "cr-a");
    assert_eq!(advisories[0].subject_name, "A");
    assert_eq!(advisories[0].caused_by, vec!["cr-a".to_string(), "cr-b".to_string(), "d1".to_string()]);
    assert_eq!(advisories[0].explain, "A and B both claim OMS during overlapping windows.");
}

#[test]
fn a_cycle_is_named_after_its_first_member_by_name() {
    let mut snap = GraphSnapshot::default();
    snap.deployables = vec![dep("x1", "Zeta", None), dep("x2", "Alpha", None), dep("x3", "Mid", None)];
    snap.exposes = vec![exposes("e1", "x1", "s1"), exposes("e2", "x2", "s2"), exposes("e3", "x3", "s3")];
    snap.dependencies = vec![
        edge("d1", "x1", "s2", None),
        edge("d2", "x2", "s3", None),
        edge("d3", "x3", "s1", None),
    ];
    let advisories = circular_dependency_v1(&snap);
    assert_eq!(advisories.len(), 1);
    assert_eq!(advisories[0].subject_id, "x2");
    assert_eq!(advisories[0].subject_name, "Alpha");
    assert_eq!(advisories[0].caused_by, vec!["x2".to_string(), "x3".to_string(), "x1".to_string()]);
}
