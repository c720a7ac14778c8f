use manifold::lobby::engine::{
    next_re_raise_count, quiet_window_fits, quiet_window_key, quiet_window_minutes, reconcile_plan, resolve_due,
    should_auto_resolve, stored_re_raise_count,
    ExistingAdvisory, ReconcileAction, TickReport,
};
use manifold::lobby::rules::{DerivedAdvisory, Severity};
use manifold::lobby::seed::{programs, seed_memberships, SeedReport};

fn derived(rule: &'static str, subject: &str) -> DerivedAdvisory {
    DerivedAdvisory {
        kind: "K",
        subject_type: "deployable",
        subject_id: subject.to_string(),
        subject_name: subject.to_string(),
        severity: Severity::Warn,
        rule,
        explain: "because".to_string(),
        caused_by: vec![],
    }
}

fn existing(rule: &str, subject: &str, state: Option<&str>, deleted: bool) -> ExistingAdvisory {
    ExistingAdvisory { deleted, rule: rule.to_string(), subject_id: subject.to_string(), state: state.map(String::from) }
}

#[test]
fn reconcile_matches_wanted_against_recorded() {
    let want = vec![derived("r@v1", "a"), derived("r@v1", "b"), derived("r@v1", "c"), derived("r@v1", "a")];
    let have = vec![
        existing("r@v1", "a", Some("acknowledged"), false),
        existing("r@v1", "b", Some("dismissed"), false),
        existing("r@v1", "z", None, false),
        existing("r@v1", "y", Some("resolved"), false),
        existing("r@v1", "c", Some("raised"), true),
    ];
    let plan = reconcile_plan(&want, &have);
    assert_eq!(
        plan,
        vec![
            ReconcileAction::Refresh { existing: 0, advisory: 3 },
            ReconcileAction::ReRaise { existing: 1, advisory: 1 },
            ReconcileAction::CheckResolve { existing: 2 },
            ReconcileAction::Raise { advisory: 2 },
        ]
    );
}

#[test]
fn each_new_key_is_raised_once() {
    let want = vec![derived("r@v1", "a"), derived("r@v1", "b"), derived("r@v1", "a"), derived("r@v1", "c")];
    let have = vec![existing("r@v1", "c", Some("raised"), false), existing("r@v1", "b", None, true)];
    let plan = reconcile_plan(&want, &have);
    let raised: Vec<&ReconcileAction> = plan.iter().filter(|a| matches!(a, ReconcileAction::Raise { .. })).collect();
    assert_eq!(raised, vec![&ReconcileAction::Raise { advisory: 2 }, &ReconcileAction::Raise { advisory: 1 }]);
}

#[test]
fn a_key_is_taken_by_its_first_record_only() {
    let want = vec![derived("r@v1", "a")];
    let have = vec![existing("r@v1", "a", Some("raised"), false), existing("r@v1", "a", Some("raised"), false)];
    assert_eq!(
        reconcile_plan(&want, &have),
        vec![ReconcileAction::Refresh { existing: 0, advisory: 0 }, ReconcileAction::CheckResolve { existing: 1 }]
    );
}

#[test]
fn quiet_window_passes_after_the_configured_minutes() {
    assert!(resolve_due(None, 60, (0, 0)));
    assert!(!resolve_due(Some((1000, 0)), 60, (1000 + 3599, 999_999_999)));
    assert!(resolve_due(Some((1000, 0)), 60, (1000 + 3600, 0)));
    let last = Some("raise@2026-05-13T10:00:00Z".to_string());
    // 2026-05-13T10:00:00Z is 1778666400 seconds after the epoch.
    assert!(!should_auto_resolve(&last, &None, 60, (1778666400 + 60, 0)));
    assert!(should_auto_resolve(&last, &None, 60, (1778666400 + 3600, 0)));
    assert!(should_auto_resolve(&Some("garbage".into()), &None, 60, (0, 0)));
    assert!(!should_auto_resolve(&Some("garbage".into()), &Some("2026-05-13T10:00:00+00:00".into()), 1, (1778666400, 0)));
}

#[test]
fn quiet_window_settings() {
    assert_eq!(quiet_window_key("blocked-upstream@v1"), "LOBBY_QUIET_WINDOW_MINUTES_BLOCKED_UPSTREAM_V1");
    assert_eq!(quiet_window_minutes(&Some("15".into())), 15);
    assert_eq!(quiet_window_minutes(&Some("soon".into())), 60);
    assert_eq!(quiet_window_minutes(&None), 60);
}

#[test]
fn re_raise_counts_up_from_the_stored_text() {
    assert_eq!(next_re_raise_count(&None), "1");
    assert_eq!(next_re_raise_count(&Some("4".into())), "5");
    assert_eq!(next_re_raise_count(&Some("+2".into())), "3");
    assert_eq!(next_re_raise_count(&Some("-1".into())), "1");
    assert_eq!(next_re_raise_count(&Some("x".into())), "1");
}

#[test]
fn reports_start_empty() {
    let t = TickReport::default();
    assert_eq!((t.raised, t.resolved, t.re_raised), (0, 0, 0));
    let s = SeedReport::default();
    assert_eq!((s.programs_created, s.memberships_created), (0, 0));
}

#[test]
fn seeding_matches_names_by_keyword() {
    let p = programs();
    assert_eq!(p.len(), 5);
    assert_eq!(p[0].name, "STREAMS");
    let deployables = vec![
        ("d1".to_string(), "customer portal web".to_string()),
        ("d2".to_string(), "Route Planner".to_string()),
        ("d3".to_string(), "Unrelated".to_string()),
        ("d4".to_string(), "Auth Tracking".to_string()),
    ];
    let m = seed_memberships(&deployables, &p);
    assert_eq!(
        m,
        vec![(0, "d1".to_string()), (1, "d2".to_string()), (0, "d4".to_string()), (3, "d4".to_string())]
    );
}

#[test]
fn stored_counts_and_window_bounds_are_checked() {
    assert_eq!(stored_re_raise_count(&Some("7".to_string())), 7);
    assert_eq!(stored_re_raise_count(&Some("-1".to_string())), 0);
    assert_eq!(stored_re_raise_count(&Some("x".to_string())), 0);
    assert_eq!(stored_re_raise_count(&None), 0);
    assert_eq!(stored_re_raise_count(&Some("4294967295".to_string())), u32::MAX);
    assert!(quiet_window_fits(60));
    assert!(quiet_window_fits(-60));
    assert!(!quiet_window_fits(i64::MAX));
    assert!(quiet_window_fits(153_722_867_280_912));
    assert!(!quiet_window_fits(153_722_867_280_913));
}
