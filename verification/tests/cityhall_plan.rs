use manifold::cityhall::bylaw::{
    check_bylaw, check_org_node, check_base_schema, effective_bylaws, leaf_for_team, AncestorWalk, BylawRecord,
    EffectiveBylaw, FieldValue, OrgNodeRecord, Payload, SchemaRules,
};
use manifold::cityhall::inputs::{parse_target_deployables, resolve_tier, target_deployables_from};
use manifold::cityhall::plan::{
    assemble_plan, plan_gate_from_bylaw, plan_teams, reachable_nontrivial, render_cycle_mermaid, topo_sort, Blocker,
    DeployableSummary, PlanGate, PlanWalk,
};

fn summary(id: &str, name: &str, depends_on: &[&str]) -> (String, DeployableSummary) {
    (
        id.to_string(),
        DeployableSummary {
            id: id.to_string(),
            name: name.to_string(),
            team_id: Some("t".into()),
            depends_on: depends_on.iter().map(|s| s.to_string()).collect(),
        },
    )
}

#[test]
fn cycle_mermaid_highlights_only_real_cyclic_nodes_and_edges() {
    let summaries = vec![summary("a", "A", &["b"]), summary("b", "B", &["c"]), summary("c", "C", &["b"])];
    let cycle_ids = vec!["a".to_string(), "b".to_string(), "c".to_string()];
    let out = render_cycle_mermaid(&cycle_ids, &summaries);
    assert!(out.starts_with("graph LR\n"), "got: {out}");
    assert!(out.contains("n0[\"A\"]\n"), "a should be unclassed: {out}");
    assert!(out.contains("n1[\"B\"]:::cyclic\n"), "b should be cyclic: {out}");
    assert!(out.contains("n2[\"C\"]:::cyclic\n"), "c should be cyclic: {out}");
    assert!(out.contains("n0 --> n1\n"), "a→b edge missing: {out}");
    assert!(out.contains("n1 --> n2\n"), "b→c edge missing: {out}");
    assert!(out.contains("n2 --> n1\n"), "c→b edge missing: {out}");
    assert!(out.contains("linkStyle 1 stroke:#dc2626"), "b→c edge should be styled: {out}");
    assert!(out.contains("linkStyle 2 stroke:#dc2626"), "c→b edge should be styled: {out}");
    assert!(!out.contains("linkStyle 0"), "a→b edge must not be styled: {out}");
    assert_eq!(out.matches("classDef cyclic").count(), 1, "classDef must appear once: {out}");
}

#[test]
fn cycle_mermaid_with_no_actual_cycle_emits_no_classdef() {
    let summaries = vec![summary("a", "A", &["b"]), summary("b", "B", &[])];
    let out = render_cycle_mermaid(&vec!["a".to_string(), "b".to_string()], &summaries);
    assert!(out.contains("n0[\"A\"]\n"));
    assert!(out.contains("n1[\"B\"]\n"));
    assert!(out.contains("n0 --> n1\n"));
    assert!(!out.contains("classDef cyclic"), "no classDef expected: {out}");
    assert!(!out.contains("linkStyle"), "no linkStyle expected: {out}");
}

#[test]
fn topo_sort_orders_dependencies_first() {
    let summaries = vec![summary("a", "A", &["b"]), summary("b", "B", &["c"]), summary("c", "C", &[])];
    let mut blockers: Vec<Blocker> = Vec::new();
    let order = topo_sort(&summaries, &mut blockers);
    assert_eq!(order, vec!["c".to_string(), "b".to_string(), "a".to_string()]);
    assert!(blockers.is_empty());
}

#[test]
fn topo_sort_counts_a_repeated_dependency_once() {
    let summaries = vec![summary("a", "A", &["b", "b"]), summary("b", "B", &[])];
    let mut blockers: Vec<Blocker> = Vec::new();
    let order = topo_sort(&summaries, &mut blockers);
    assert_eq!(order, vec!["b".to_string(), "a".to_string()]);
    assert!(blockers.is_empty());
}

#[test]
fn topo_sort_reports_a_cycle_and_appends_it() {
    let summaries = vec![summary("a", "A", &["b"]), summary("b", "B", &["a"]), summary("c", "C", &[])];
    let mut blockers: Vec<Blocker> = Vec::new();
    let order = topo_sort(&summaries, &mut blockers);
    assert_eq!(order, vec!["c".to_string(), "a".to_string(), "b".to_string()]);
    assert_eq!(blockers.len(), 1);
    assert_eq!(blockers[0].kind, "dependency_cycle");
    assert_eq!(blockers[0].message, "dependency cycle involving: A, B");
    assert!(blockers[0].mermaid.as_ref().unwrap().contains("classDef cyclic"));
}

#[test]
fn reachable_nontrivial_needs_a_step() {
    let g = vec![vec![1], vec![0], vec![]];
    assert!(reachable_nontrivial(&g, 0, 0));
    assert!(reachable_nontrivial(&g, 0, 1));
    assert!(!reachable_nontrivial(&g, 2, 2));
    assert!(!reachable_nontrivial(&g, 0, 2));
}

fn bylaw(gate: &str, node: &str) -> EffectiveBylaw {
    EffectiveBylaw {
        bylaw_id: "b1".into(),
        org_node_id: "n1".into(),
        org_node_name: node.into(),
        gate_type: gate.into(),
        priority: None,
        description: Some("d".into()),
        conditions: None,
        window: Some("w".into()),
        quiesce_for: None,
        approvers: None,
    }
}

#[test]
fn plan_gate_takes_the_bylaw_fields() {
    let g = plan_gate_from_bylaw(bylaw("WindowGate", "Acme"));
    assert_eq!(g.gate_type, "WindowGate");
    assert_eq!(g.source_org_node, "Acme");
    assert_eq!(g.description, Some("d".to_string()));
    assert_eq!(g.window, Some("w".to_string()));
    assert_eq!(g.approvers, None);
}

fn walk(targets: &[&str], catalogue: &[(String, DeployableSummary)]) -> (Vec<(String, DeployableSummary)>, Vec<Blocker>) {
    let mut w = PlanWalk::new(&targets.iter().map(|s| s.to_string()).collect());
    while let Some(id) = w.next_request() {
        let found = catalogue.iter().find(|(k, _)| *k == id).map(|(_, s)| s.clone());
        w.receive(id, found);
    }
    w.into_parts()
}

#[test]
fn walk_collects_dependencies_once_and_reports_unknowns() {
    let catalogue = vec![summary("a", "A", &["b", "x"]), summary("b", "B", &["a"])];
    let (entries, blockers) = walk(&["a", "a"], &catalogue);
    let keys: Vec<&str> = entries.iter().map(|(k, _)| k.as_str()).collect();
    assert_eq!(keys, vec!["a", "b"]);
    assert_eq!(blockers.len(), 1);
    assert_eq!(blockers[0].kind, "unknown_deployable");
    assert_eq!(blockers[0].message, "unknown deployable: x");
}

#[test]
fn walk_requests_only_what_the_targets_reach() {
    let catalogue = vec![
        summary("a", "A", &["c"]),
        summary("b", "B", &["d"]),
        summary("c", "C", &["ghost"]),
        summary("d", "D", &[]),
    ];
    let mut w = PlanWalk::new(&vec!["a".to_string()]);
    let mut requested: Vec<String> = Vec::new();
    while let Some(id) = w.next_request() {
        requested.push(id.clone());
        let found = catalogue.iter().find(|(k, _)| *k == id).map(|(_, s)| s.clone());
        w.receive(id, found);
    }
    assert_eq!(requested, vec!["a", "c", "ghost"]);
    let (entries, blockers) = w.into_parts();
    let keys: Vec<&str> = entries.iter().map(|(k, _)| k.as_str()).collect();
    assert_eq!(keys, vec!["a", "c"]);
    assert_eq!(blockers.len(), 1);
    assert_eq!(blockers[0].message, "unknown deployable: ghost");
}

#[test]
fn assembled_plan_orders_steps_and_attaches_team_gates() {
    let mut a = summary("a", "A", &["b"]);
    a.1.team_id = Some("team-1".into());
    let mut b = summary("b", "B", &[]);
    b.1.team_id = None;
    let gate = PlanGate {
        gate_type: "ApprovalGate".into(),
        source_org_node: "Acme".into(),
        description: None,
        window: None,
        approvers: Some("cab".into()),
        quiesce_for: None,
    };
    let team_gates = vec![("team-1".to_string(), vec![gate])];
    let plan = assemble_plan(
        "cr-1".into(),
        "ship".into(),
        "prod".into(),
        vec![a, b],
        Vec::new(),
        &team_gates,
        "2026-01-01T00:00:00Z".into(),
    );
    assert_eq!(plan.steps.len(), 2);
    assert_eq!(plan.steps[0].deployable_id, "b");
    assert_eq!(plan.steps[1].deployable_id, "a");
    assert_eq!(plan.steps[1].predecessor_orders, vec![0]);
    assert_eq!(plan.steps[1].gates.len(), 1);
    assert!(plan.steps[0].gates.is_empty());
    assert_eq!(plan.steps[0].action, "deploy");
    assert_eq!(plan.steps[0].estimated_minutes, 10);
    assert_eq!(plan.blockers.len(), 1);
    assert_eq!(plan.blockers[0].kind, "orphan");
    assert_eq!(plan.blockers[0].message, "orphan: B");
}

fn payload(fields: &[(&str, Option<&str>)]) -> Payload {
    Payload {
        fields: fields
            .iter()
            .map(|(k, v)| {
                (k.to_string(), match v {
                    Some(s) => FieldValue::Text(s.to_string()),
                    None => FieldValue::Other,
                })
            })
            .collect(),
    }
}

fn rules() -> SchemaRules {
    SchemaRules {
        required: vec!["name".into(), "kind".into()],
        enums: vec![("kind".into(), vec!["enterprise".into(), "domain".into(), "team".into()])],
    }
}

#[test]
fn base_check_reports_missing_blank_and_unknown_values() {
    let r = rules();
    assert_eq!(check_base_schema(&r, &payload(&[("kind", Some("team"))])), Err("Required field 'name' is missing".to_string()));
    assert_eq!(
        check_base_schema(&r, &payload(&[("name", Some("  ")), ("kind", Some("team"))])),
        Err("Required field 'name' cannot be empty".to_string())
    );
    assert_eq!(
        check_base_schema(&r, &payload(&[("name", Some("Acme")), ("kind", Some("galaxy"))])),
        Err("Field 'kind' must be one of [\"enterprise\", \"domain\", \"team\"], got \"galaxy\"".to_string())
    );
    assert_eq!(check_base_schema(&r, &payload(&[("name", None), ("kind", Some("team"))])), Ok(()));
}

#[test]
fn org_node_parent_rule() {
    let r = rules();
    assert_eq!(check_org_node(&r, &payload(&[("name", Some("Acme")), ("kind", Some("enterprise"))])), Ok(()));
    assert_eq!(
        check_org_node(&r, &payload(&[("name", Some("Acme")), ("kind", Some("enterprise")), ("parent_id", Some("p"))])),
        Err("Enterprise OrgNode must not have a parent_id".to_string())
    );
    assert_eq!(
        check_org_node(&r, &payload(&[("name", Some("Acme")), ("kind", Some("enterprise")), ("parent_id", Some(" "))])),
        Err("Enterprise OrgNode must not have a parent_id".to_string())
    );
    assert_eq!(
        check_org_node(&r, &payload(&[("name", Some("Acme")), ("kind", Some("enterprise")), ("parent_id", None)])),
        Err("Enterprise OrgNode must not have a parent_id".to_string())
    );
    assert_eq!(
        check_org_node(&r, &payload(&[("name", Some("Pay")), ("kind", Some("team")), ("parent_id", Some(" "))])),
        Err("OrgNode kind 'team' must have a parent_id".to_string())
    );
    assert_eq!(
        check_org_node(&r, &payload(&[("name", Some("Pay")), ("kind", Some("team")), ("parent_id", Some("p"))])),
        Ok(())
    );
}

#[test]
fn bylaw_gate_requirements() {
    let r = SchemaRules { required: vec![], enums: vec![] };
    assert_eq!(
        check_bylaw(&r, &payload(&[("gate_type", Some("WindowGate"))])),
        Err("Bylaw gate_type 'WindowGate' requires field 'window'".to_string())
    );
    assert_eq!(check_bylaw(&r, &payload(&[("gate_type", Some("FreezePeriod")), ("window", Some("fri"))])), Ok(()));
    assert_eq!(
        check_bylaw(&r, &payload(&[("gate_type", Some("QuiesceGate"))])),
        Err("Bylaw gate_type 'QuiesceGate' requires field 'quiesce_for'".to_string())
    );
    assert_eq!(
        check_bylaw(&r, &payload(&[("gate_type", Some("ApprovalGate")), ("approvers", None)])),
        Err("Bylaw gate_type 'ApprovalGate' requires field 'approvers'".to_string())
    );
    assert_eq!(check_bylaw(&r, &payload(&[("gate_type", Some("AutoGate"))])), Ok(()));
}

fn node(id: &str, name: &str, parent: &str, team: Option<&str>) -> OrgNodeRecord {
    OrgNodeRecord { id: id.into(), name: name.into(), parent_id: parent.into(), team_id: team.map(String::from) }
}

#[test]
fn ancestors_walk_up_and_come_back_root_first() {
    let nodes = vec![node("root", "Acme", "", None), node("dom", "Payments", "root", None), node("leaf", "Pay Team", "dom", Some("t1"))];
    let mut w = AncestorWalk::new("leaf");
    while let Some(id) = w.next_request() {
        w.receive(nodes.iter().find(|n| n.id == id).cloned());
    }
    let chain = w.into_chain();
    let ids: Vec<&str> = chain.iter().map(|(i, _)| i.as_str()).collect();
    assert_eq!(ids, vec!["root", "dom", "leaf"]);
    assert_eq!(chain[0].1, "Acme");
    assert_eq!(leaf_for_team(&nodes, "t1"), Some("leaf".to_string()));
    assert_eq!(leaf_for_team(&nodes, "t9"), None);
}

fn record(id: &str, node: &str, gate: &str) -> BylawRecord {
    BylawRecord {
        id: id.into(),
        org_node_id: node.into(),
        gate_type: gate.into(),
        priority: None,
        description: None,
        conditions: None,
        window: None,
        quiesce_for: None,
        approvers: None,
    }
}

#[test]
fn effective_bylaws_follow_the_chain_root_first() {
    let chain = vec![("root".to_string(), "Acme".to_string()), ("leaf".to_string(), "Pay".to_string())];
    let bylaws = vec![record("b1", "leaf", "ApprovalGate"), record("b2", "root", "FreezePeriod"), record("b3", "other", "AutoGate"), record("b4", "leaf", "WindowGate")];
    let out = effective_bylaws(&chain, &bylaws);
    let ids: Vec<&str> = out.iter().map(|b| b.bylaw_id.as_str()).collect();
    assert_eq!(ids, vec!["b2", "b1", "b4"]);
    assert_eq!(out[0].org_node_name, "Acme");
    assert_eq!(out[1].org_node_id, "leaf");
}

#[test]
fn target_deployables_accept_json_or_commas() {
    assert_eq!(parse_target_deployables("  "), Vec::<String>::new());
    assert_eq!(parse_target_deployables("[\"a\",\"b\"]"), vec!["a".to_string(), "b".to_string()]);
    assert_eq!(parse_target_deployables("a, b,, c "), vec!["a".to_string(), "b".to_string(), "c".to_string()]);
    assert_eq!(target_deployables_from("x,y", None), vec!["x".to_string(), "y".to_string()]);
    assert_eq!(target_deployables_from("[\"q\"]", Some(vec!["q".to_string()])), vec!["q".to_string()]);
}

#[test]
fn tier_falls_back_to_the_change_request_then_dev() {
    assert_eq!(resolve_tier(Some("prod".into()), Some("staging".into())), "prod");
    assert_eq!(resolve_tier(None, Some("staging".into())), "staging");
    assert_eq!(resolve_tier(None, None), "dev");
}

#[test]
fn plan_teams_lists_each_team_once_in_order() {
    let mut a = summary("a", "A", &[]);
    a.1.team_id = Some("t2".into());
    let mut b = summary("b", "B", &[]);
    b.1.team_id = None;
    let mut c = summary("c", "C", &[]);
    c.1.team_id = Some(String::new());
    let d = summary("d", "D", &[]);
    let mut f = summary("f", "F", &[]);
    f.1.team_id = Some("t2".into());
    assert_eq!(plan_teams(&vec![a, b, c, d, f]), vec!["t2".to_string(), "t".to_string()]);
}
