use manifold::groundwork::graph::{Dependency, Deployable, DeploymentPlanResult, Exposes, Service, Snapshot};

fn fixture() -> Snapshot {
    Snapshot::synthetic(
        vec![
            Deployable { id: "d-checkout".into(), name: "checkout".into() },
            Deployable { id: "d-auth".into(), name: "auth".into() },
        ],
        vec![
            Service { id: "s-auth-api".into(), name: "auth-api".into() },
            Service { id: "s-stripe".into(), name: "stripe".into() },
        ],
        vec![Exposes { deployable_id: "d-auth".into(), service_id: "s-auth-api".into() }],
        vec![
            Dependency { deployable_id: "d-checkout".into(), service_id: "s-auth-api".into() },
            Dependency { deployable_id: "d-checkout".into(), service_id: "s-stripe".into() },
        ],
    )
}

#[test]
fn deployment_plan_orders_deps_first() {
    let snap = fixture();
    match snap.deployment_plan("d-checkout") {
        DeploymentPlanResult::Ordered { ordered_deployments, .. } => {
            let names: Vec<&str> = ordered_deployments.iter().map(|s| s.deployable_name.as_str()).collect();
            assert_eq!(names, vec!["auth", "checkout"]);
        }
        other => panic!("unexpected {other:?}"),
    }
}

#[test]
fn deployment_plan_surfaces_external_prerequisites() {
    let snap = fixture();
    match snap.deployment_plan("d-checkout") {
        DeploymentPlanResult::Ordered { external_prerequisites, .. } => {
            let names: Vec<&str> = external_prerequisites.iter().map(|s| s.service_name.as_str()).collect();
            assert_eq!(names, vec!["stripe"]);
        }
        other => panic!("unexpected {other:?}"),
    }
}

#[test]
fn blast_radius_finds_dependents() {
    let snap = fixture();
    let blast = snap.blast_radius("s-auth-api", 5);
    assert_eq!(blast.direct_dependents.len(), 1);
    assert_eq!(blast.direct_dependents[0].deployable_name, "checkout");
}

#[test]
fn dependencies_of_walks_forward() {
    let snap = fixture();
    let tree = snap.dependencies_of("d-checkout", 5);
    let top: Vec<_> = tree.depends_on.iter().filter(|e| e.level == 0).collect();
    assert_eq!(top.len(), 2);
    let ext_count = top.iter().filter(|e| e.publisher.is_none()).count();
    assert_eq!(ext_count, 1);
}

#[test]
fn deployment_plan_reports_cycle_members() {
    let snap = Snapshot::synthetic(
        vec![Deployable { id: "a".into(), name: "A".into() }, Deployable { id: "b".into(), name: "B".into() }],
        vec![],
        vec![
            Exposes { deployable_id: "a".into(), service_id: "sa".into() },
            Exposes { deployable_id: "b".into(), service_id: "sb".into() },
        ],
        vec![
            Dependency { deployable_id: "a".into(), service_id: "sb".into() },
            Dependency { deployable_id: "b".into(), service_id: "sa".into() },
        ],
    );
    match snap.deployment_plan("a") {
        DeploymentPlanResult::Cycle { cycle_members, deployable_name, .. } => {
            assert_eq!(cycle_members, vec!["a".to_string(), "b".to_string()]);
            assert_eq!(deployable_name, "A");
        }
        other => panic!("unexpected {other:?}"),
    }
}

#[test]
fn depth_is_clamped_and_transitive_dependents_found() {
    // c consumes s-b (published by b), b consumes s-a (published by a).
    let snap = Snapshot::synthetic(
        vec![
            Deployable { id: "a".into(), name: "A".into() },
            Deployable { id: "b".into(), name: "B".into() },
            Deployable { id: "c".into(), name: "C".into() },
        ],
        vec![Service { id: "s-a".into(), name: "sa".into() }, Service { id: "s-b".into(), name: "sb".into() }],
        vec![
            Exposes { deployable_id: "a".into(), service_id: "s-a".into() },
            Exposes { deployable_id: "b".into(), service_id: "s-b".into() },
        ],
        vec![
            Dependency { deployable_id: "b".into(), service_id: "s-a".into() },
            Dependency { deployable_id: "c".into(), service_id: "s-b".into() },
        ],
    );
    let one = snap.blast_radius("s-a", 0);
    assert_eq!(one.depth, 1);
    assert_eq!(one.direct_dependents.len(), 1);
    assert!(one.transitive_dependents.is_empty());
    let deep = snap.blast_radius("s-a", 99);
    assert_eq!(deep.depth, 10);
    assert_eq!(deep.transitive_dependents.len(), 1);
    assert_eq!(deep.transitive_dependents[0].deployable_id, "c");
    assert_eq!(deep.transitive_dependents[0].depth, 2);
    assert_eq!(deep.transitive_dependents[0].via_service_name, "sb");
    let deps = snap.dependencies_of("c", 5);
    let ids: Vec<(usize, String)> = deps
        .depends_on
        .iter()
        .map(|e| (e.level, e.publisher.as_ref().map(|p| p.id.clone()).unwrap_or_default()))
        .collect();
    assert_eq!(ids, vec![(0, "b".to_string()), (1, "a".to_string())]);
}

#[test]
fn snapshot_lookups_take_the_last_entry_and_skip_blank_rows() {
    let snap = Snapshot::from_rows(
        &vec![("d1".into(), "old".into()), ("".into(), "nameless".into()), ("d1".into(), "new".into())],
        &vec![("s1".into(), "svc".into())],
        &vec![("d1".into(), "s1".into()), ("".into(), "s1".into())],
        &vec![("d1".into(), "".into())],
    );
    assert_eq!(snap.deployables.len(), 2);
    assert_eq!(snap.exposes.len(), 1);
    assert!(snap.dependencies.is_empty());
    assert_eq!(snap.deployable_name("d1"), "new");
    assert_eq!(snap.service_name("s1"), "svc");
    assert_eq!(snap.service_name("nope"), "");
    assert_eq!(snap.deployable_exposes("d1"), vec!["s1".to_string()]);
}
