use manifold::cityhall::gantt::{format_predecessors, render_gantt};
use manifold::cityhall::plan::{ComputedPlan, PlanGate, PlanStep};

fn step(order: usize, deployable_name: &str, preds: Vec<usize>, gates: Vec<PlanGate>) -> PlanStep {
    PlanStep {
        order,
        deployable_id: format!("dep-{order}"),
        deployable_name: deployable_name.to_string(),
        action: "deploy".to_string(),
        predecessor_orders: preds,
        gates,
        estimated_minutes: 10,
    }
}

fn gate(gate_type: &str, source: &str) -> PlanGate {
    PlanGate {
        gate_type: gate_type.to_string(),
        source_org_node: source.to_string(),
        description: None,
        window: None,
        approvers: None,
        quiesce_for: None,
    }
}

fn plan_with(steps: Vec<PlanStep>) -> ComputedPlan {
    ComputedPlan {
        change_request_id: "cr-1".to_string(),
        change_request_summary: "ship it".to_string(),
        tier: "prod".to_string(),
        steps,
        blockers: Vec::new(),
        computed_at: "2026-04-29T00:00:00Z".to_string(),
    }
}

#[test]
fn one_step_no_gates_no_preds() {
    let p = plan_with(vec![step(0, "checkout", vec![], vec![])]);
    let g = render_gantt(&p);
    assert!(g.contains("section checkout"), "missing section: {g}");
    assert!(g.contains("deploy checkout :step_0, after start, 10min"), "got: {g}");
    assert!(g.contains("dateFormat HH:mm"));
}

#[test]
fn two_steps_same_section_with_predecessor() {
    let p = plan_with(vec![step(0, "checkout", vec![], vec![]), step(1, "checkout", vec![0], vec![])]);
    let g = render_gantt(&p);
    assert!(g.contains("step_0, after start"));
    assert!(g.contains("step_1, after step_0"));
    assert_eq!(g.matches("section checkout").count(), 1, "got: {g}");
}

#[test]
fn two_steps_in_different_sections() {
    let p = plan_with(vec![step(0, "auth", vec![], vec![]), step(1, "checkout", vec![0], vec![])]);
    let g = render_gantt(&p);
    assert!(g.contains("section auth"));
    assert!(g.contains("section checkout"));
    let auth_pos = g.find("section auth").unwrap();
    let checkout_pos = g.find("section checkout").unwrap();
    assert!(auth_pos < checkout_pos, "auth must come before checkout: {g}");
}

#[test]
fn step_with_two_gates_renders_both_milestones_first() {
    let p = plan_with(vec![step(
        0,
        "billing",
        vec![],
        vec![gate("ApprovalGate", "Acme"), gate("WindowGate", "Payments-Domain")],
    )]);
    let g = render_gantt(&p);
    assert!(g.contains("ApprovalGate (Acme) :crit, milestone, gate_0_0,"));
    assert!(g.contains("WindowGate (Payments-Domain) :crit, milestone, gate_0_1,"));
    assert!(g.contains("deploy billing :step_0, after gate_0_0 gate_0_1, 10min"), "got: {g}");
}

#[test]
fn forward_refs_from_cycles_are_dropped() {
    let p = plan_with(vec![
        step(0, "auth", vec![5], vec![]),
        step(1, "checkout", vec![0, 3], vec![]),
        step(2, "billing", vec![1], vec![]),
        step(3, "ledger", vec![2], vec![]),
        step(5, "audit", vec![0], vec![]),
    ]);
    let g = render_gantt(&p);
    assert!(g.contains("deploy auth :step_0, after start, 10min"), "got: {g}");
    assert!(g.contains("deploy checkout :step_1, after step_0, 10min"), "got: {g}");
    assert!(g.contains("deploy audit :step_5, after step_0, 10min"), "got: {g}");
    assert!(!g.contains("after step_5"), "forward ref leaked: {g}");
}

#[test]
fn determinism() {
    let p = plan_with(vec![
        step(0, "auth", vec![], vec![gate("ApprovalGate", "Acme")]),
        step(1, "checkout", vec![0], vec![]),
    ]);
    assert_eq!(render_gantt(&p), render_gantt(&p));
}

#[test]
fn gantt_full_text_for_a_gated_step() {
    let p = plan_with(vec![step(0, "auth", vec![], vec![gate("ApprovalGate", "Acme")]), step(1, "auth", vec![0], vec![])]);
    let expected = "gantt\n    title ChangeRequest ship it \u{2014} prod\n    dateFormat HH:mm\n    axisFormat %H:%M\n    section auth\n    ApprovalGate (Acme) :crit, milestone, gate_0_0, after start, 0min\n    deploy auth :step_0, after gate_0_0, 10min\n    deploy auth :step_1, after step_0, 10min\n";
    assert_eq!(render_gantt(&p), expected);
}

#[test]
fn format_predecessors_keeps_only_earlier_steps() {
    assert_eq!(format_predecessors(3, &[0, 1, 4]), "after step_0 step_1");
    assert_eq!(format_predecessors(0, &[2]), "after start");
    assert_eq!(format_predecessors(7, &[]), "after start");
    assert_eq!(format_predecessors(12, &[10, 11]), "after step_10 step_11");
}
