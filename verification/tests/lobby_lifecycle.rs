use manifold::lobby::engine::{reconcile_plan, ExistingAdvisory, ReconcileAction};
use manifold::lobby::lifecycle::{
    acknowledge_fields, assign_fields, comment_fields, dismiss_fields, escalate_fields, last_action, lifecycle_fields,
    raise_fields, re_raise_fields, refresh_fields, resolve_fields,
};
use manifold::lobby::rules::{DerivedAdvisory, Severity};

fn adv(subject: &str, explain: &str, caused_by: &[&str]) -> DerivedAdvisory {
    DerivedAdvisory {
        kind: "BlockedUpstream",
        subject_type: "deployable",
        subject_id: subject.to_string(),
        subject_name: format!("{subject} name"),
        severity: Severity::Critical,
        rule: "blocked-upstream@v1",
        explain: explain.to_string(),
        caused_by: caused_by.iter().map(|s| s.to_string()).collect(),
    }
}

fn f(k: &str, v: &str) -> (String, Option<String>) {
    (k.to_string(), Some(v.to_string()))
}

const NOW: &str = "2026-01-02T03:04:05+00:00";

#[test]
fn last_action_joins_action_and_time() {
    assert_eq!(last_action("raise", NOW), "raise@2026-01-02T03:04:05+00:00");
}

#[test]
fn a_raise_writes_the_whole_advisory() {
    let r = raise_fields(&adv("d1", "why", &["d2", "d3"]), NOW);
    assert_eq!(
        r,
        vec![
            f("kind", "BlockedUpstream"),
            f("subject_type", "deployable"),
            f("subject_id", "d1"),
            f("subject_name", "d1 name"),
            f("severity", "critical"),
            f("state", "raised"),
            f("rule", "blocked-upstream@v1"),
            f("explain", "why"),
            f("caused_by", "d2,d3"),
            f("raised_at", NOW),
            f("re_raise_count", "0"),
            f("last_action", "raise@2026-01-02T03:04:05+00:00"),
        ]
    );
}

#[test]
fn a_refresh_touches_only_explanation_and_causes() {
    assert_eq!(refresh_fields(&adv("d1", "new", &["x"])), vec![f("explain", "new"), f("caused_by", "x")]);
}

#[test]
fn a_re_raise_clears_the_closing_times_and_counts_up() {
    let r = re_raise_fields(&adv("d1", "again", &[]), NOW, &Some("2".to_string()));
    assert_eq!(
        r,
        vec![
            f("state", "raised"),
            f("explain", "again"),
            f("caused_by", ""),
            f("raised_at", NOW),
            ("dismissed_at".to_string(), None),
            ("resolved_at".to_string(), None),
            f("re_raise_count", "3"),
            f("last_action", "re-raise@2026-01-02T03:04:05+00:00"),
        ]
    );
    let first = re_raise_fields(&adv("d1", "again", &[]), NOW, &None);
    assert_eq!(first[6], f("re_raise_count", "1"));
}

#[test]
fn resolve_and_acknowledge_set_state_and_time() {
    assert_eq!(
        resolve_fields(NOW),
        vec![f("state", "resolved"), f("resolved_at", NOW), f("last_action", "resolve@2026-01-02T03:04:05+00:00")]
    );
    assert_eq!(
        acknowledge_fields(NOW),
        vec![
            f("state", "acknowledged"),
            f("acknowledged_at", NOW),
            f("last_action", "acknowledge@2026-01-02T03:04:05+00:00")
        ]
    );
}

#[test]
fn a_dismissal_keeps_its_reason_and_note() {
    assert_eq!(
        dismiss_fields(NOW, "noise", Some("seen it")),
        vec![
            f("state", "dismissed"),
            f("dismissed_at", NOW),
            f("dismiss_reason", "noise"),
            f("dismiss_note", "seen it"),
            f("last_action", "dismiss@2026-01-02T03:04:05+00:00"),
        ]
    );
    assert_eq!(dismiss_fields(NOW, "noise", None).len(), 4);
}

#[test]
fn escalate_and_assign_leave_state_alone() {
    assert_eq!(
        escalate_fields(NOW, "oncall"),
        vec![f("escalated_to", "oncall"), f("last_action", "escalate@2026-01-02T03:04:05+00:00")]
    );
    assert_eq!(
        assign_fields(NOW, "ana"),
        vec![f("assignee", "ana"), f("last_action", "assign@2026-01-02T03:04:05+00:00")]
    );
}

#[test]
fn lifecycle_entries_and_comments() {
    assert_eq!(
        lifecycle_fields("a1", NOW, "user", "u9", "dismiss", Some("noise"), None),
        vec![
            f("advisory_id", "a1"),
            f("at", NOW),
            f("actor_type", "user"),
            f("actor_id", "u9"),
            f("action", "dismiss"),
            f("reason", "noise"),
        ]
    );
    assert_eq!(lifecycle_fields("a1", NOW, "system", "lobby-system", "raise", None, None).len(), 5);
    assert_eq!(
        comment_fields("a1", "u9", "hello", NOW),
        vec![f("advisory_id", "a1"), f("author", "u9"), f("body", "hello"), f("at", NOW)]
    );
}

#[test]
fn every_wanted_key_is_acted_on_once() {
    let want = vec![adv("a", "1", &[]), adv("b", "2", &[]), adv("a", "3", &[]), adv("c", "4", &[])];
    let have = vec![
        ExistingAdvisory { deleted: false, rule: "blocked-upstream@v1".into(), subject_id: "b".into(), state: None },
        ExistingAdvisory { deleted: false, rule: "blocked-upstream@v1".into(), subject_id: "b".into(), state: None },
    ];
    let plan = reconcile_plan(&want, &have);
    assert_eq!(
        plan,
        vec![
            ReconcileAction::Refresh { existing: 0, advisory: 1 },
            ReconcileAction::CheckResolve { existing: 1 },
            ReconcileAction::Raise { advisory: 2 },
            ReconcileAction::Raise { advisory: 3 },
        ]
    );
}
