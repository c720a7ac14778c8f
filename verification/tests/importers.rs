use manifold::adapters::importers::{
    github_environment_request, github_infrastructure_request, github_run_request, github_suite_request,
    gitlab_deployable_request, gitlab_environment_request, gitlab_infrastructure_request, gitlab_run_request,
    gitlab_suite_request, keep_project, okta_membership_request, okta_person_request, okta_team_request, run_in_range,
    GithubRun, GithubWorkflow, GitlabPipeline, GitlabProject, OktaGroup, OktaUser, PlainValue,
};

fn text(name: &str, value: &str) -> (String, PlainValue) {
    (name.to_string(), PlainValue::Text(value.to_string()))
}

fn number(name: &str, n: u64) -> (String, PlainValue) {
    (name.to_string(), PlainValue::Number(n))
}

fn null(name: &str) -> (String, PlainValue) {
    (name.to_string(), PlainValue::Null)
}

#[test]
fn github_infrastructure_is_one_shared_record() {
    let r = github_infrastructure_request();
    assert_eq!(r.natural_key, "_github_actions");
    assert_eq!(r.external_system, "github");
    assert_eq!(r.entity_path, "/test_infrastructure/api");
    assert_eq!(r.target_domain, "yard.test_infrastructure");
    assert_eq!(r.payload[1], text("provider", "github_actions"));
    assert_eq!(r.raw, vec![text("source", "github")]);
}

#[test]
fn github_environment_links_runners_and_deployable() {
    let r = github_environment_request("octo/hello", "infra-1", &Some("dep-9".to_string()));
    assert_eq!(r.natural_key, "octo/hello:_ci");
    assert_eq!(
        r.payload,
        vec![
            text("name", "octo/hello / CI (GitHub Actions)"),
            text("kind", "ci"),
            text("infrastructure_id", "infra-1"),
            text("deployable_id", "dep-9"),
            text("notes", "Auto-imported from GitHub Actions."),
        ]
    );
    let unlinked = github_environment_request("octo/hello", "infra-1", &None);
    assert_eq!(unlinked.payload[3], text("deployable_id", ""));
}

#[test]
fn github_suite_per_workflow() {
    let w = GithubWorkflow { id: 42, name: "CI".to_string(), path: ".github/workflows/ci.yml".to_string() };
    let r = github_suite_request("octo/hello", &w, &None);
    assert_eq!(r.natural_key, "octo/hello:_workflow_42");
    assert_eq!(r.payload[4], text("description", "GitHub workflow at .github/workflows/ci.yml"));
    assert_eq!(r.raw[1], number("workflow_id", 42));
}

#[test]
fn github_run_finds_its_suite_and_minutes() {
    let run = GithubRun {
        id: 7001,
        workflow_id: 42,
        status: Some("completed".to_string()),
        conclusion: Some("success".to_string()),
        run_started_at: Some("2026-05-13T15:23:04Z".to_string()),
        updated_at: Some("2026-05-13T15:35:10Z".to_string()),
    };
    assert!(run_in_range(&run));
    let suites = vec![(41u64, "s-41".to_string()), (42u64, "s-42".to_string())];
    let r = github_run_request("octo/hello", "env-1", &suites, &run);
    assert_eq!(r.natural_key, "octo/hello:_run_7001");
    assert_eq!(r.target_domain, "yard.test_run");
    assert_eq!(
        r.payload,
        vec![
            text("test_environment_id", "env-1"),
            text("test_suite_id", "s-42"),
            text("status", "passed"),
            text("started_at", "2026-05-13T15:23:04Z"),
            text("finished_at", "2026-05-13T15:35:10Z"),
            text("duration_minutes", "12"),
        ]
    );
    assert_eq!(r.raw[3], text("github_status", "completed"));
    let pending = GithubRun { conclusion: None, status: None, workflow_id: 99, ..run };
    let p = github_run_request("octo/hello", "env-1", &suites, &pending);
    assert_eq!(p.payload[1], text("test_suite_id", ""));
    assert_eq!(p.payload[2], text("status", "pending"));
    assert_eq!(p.raw[4], null("github_conclusion"));
}

#[test]
fn reimporting_a_changed_run_keeps_its_key() {
    let first = GithubRun {
        id: 5,
        workflow_id: 1,
        status: Some("in_progress".to_string()),
        conclusion: None,
        run_started_at: None,
        updated_at: None,
    };
    let later = GithubRun { status: Some("completed".to_string()), conclusion: Some("failure".to_string()), ..first.clone() };
    let a = github_run_request("o/r", "env-a", &vec![], &first);
    let b = github_run_request("o/r", "env-b", &vec![(1, "s".to_string())], &later);
    assert_eq!(a.natural_key, b.natural_key);
    assert_ne!(a.payload, b.payload);
    let other = GithubRun { id: 50, ..first };
    assert_ne!(github_run_request("o/r", "env-a", &vec![], &other).natural_key, a.natural_key);
}

#[test]
fn gitlab_pipeline_records() {
    let infra = gitlab_infrastructure_request("https://gitlab.example");
    assert_eq!(infra.natural_key, "_gitlab_pipelines");
    assert_eq!(infra.raw, vec![text("source", "gitlab"), text("base_url", "https://gitlab.example")]);
    let env = gitlab_environment_request("grp/proj", 12, "infra-2", &None);
    assert_eq!(env.natural_key, "grp/proj:_ci");
    assert_eq!(env.payload[0], text("name", "grp/proj / CI (GitLab Pipelines)"));
    assert_eq!(env.raw, vec![text("project", "grp/proj"), number("project_id", 12)]);
    let suite = gitlab_suite_request("grp/proj", 12, &Some("d".to_string()));
    assert_eq!(suite.natural_key, "grp/proj:_pipeline_def");
    assert_eq!(suite.payload[0], text("name", "grp/proj — .gitlab-ci.yml"));
    let p = GitlabPipeline {
        id: 900,
        status: Some("failed".to_string()),
        created_at: Some("2026-01-01T00:00:00Z".to_string()),
        updated_at: None,
        git_ref: Some("main".to_string()),
        source: None,
    };
    let run = gitlab_run_request("grp/proj", "env-3", "suite-3", &p);
    assert_eq!(run.natural_key, "grp/proj:_pipeline_900");
    assert_eq!(run.payload[2], text("status", "failed"));
    assert_eq!(run.payload[4], text("finished_at", ""));
    assert_eq!(run.raw, vec![text("project", "grp/proj"), number("pipeline_id", 900), text("ref", "main"), null("source")]);
}

#[test]
fn archived_projects_are_skipped() {
    assert!(keep_project(None));
    assert!(keep_project(Some(false)));
    assert!(!keep_project(Some(true)));
    let mut p = GitlabProject {
        path_with_namespace: "grp/svc".to_string(),
        name: "svc".to_string(),
        description: None,
        web_url: "https://gitlab.example/grp/svc".to_string(),
        archived: Some(false),
    };
    let r = gitlab_deployable_request(&p).unwrap();
    assert_eq!(r.natural_key, "grp/svc");
    assert_eq!(r.target_domain, "groundwork.deployable");
    assert_eq!(
        r.payload,
        vec![text("name", "svc"), text("description", ""), text("repo_url", "https://gitlab.example/grp/svc")]
    );
    p.archived = Some(true);
    assert!(gitlab_deployable_request(&p).is_none());
}

fn user(id: &str, status: Option<&str>) -> OktaUser {
    OktaUser {
        id: id.to_string(),
        status: status.map(String::from),
        first_name: Some("Ada".to_string()),
        last_name: Some("Lovelace".to_string()),
        email: Some("ada@example.dev".to_string()),
        title: None,
    }
}

#[test]
fn only_active_okta_users_become_people() {
    let r = okta_person_request(&user("00u1", Some("ACTIVE"))).unwrap();
    assert_eq!(r.natural_key, "okta_user_00u1");
    assert_eq!(
        r.payload,
        vec![text("name", "Ada Lovelace"), text("contact", "ada@example.dev"), text("role", "")]
    );
    assert_eq!(r.raw, vec![text("okta_id", "00u1"), text("status", "ACTIVE")]);
    assert!(okta_person_request(&user("00u2", Some("SUSPENDED"))).is_none());
    assert!(okta_person_request(&user("00u3", None)).is_none());
}

#[test]
fn okta_groups_and_memberships() {
    let g = OktaGroup { id: "00g1".to_string(), name: "Payments".to_string(), description: None };
    let team = okta_team_request(&g);
    assert_eq!(team.natural_key, "okta_group_00g1");
    assert_eq!(team.payload, vec![text("name", "Payments"), text("kind", "domain"), text("description", "")]);
    let persons = vec![("00u1".to_string(), "person-1".to_string())];
    let m = okta_membership_request("00u1", "00g1", &persons, "team-1").unwrap();
    assert_eq!(m.natural_key, "okta_membership_00u1_00g1");
    assert_eq!(m.payload, vec![text("person_id", "person-1"), text("team_id", "team-1"), text("role", "member")]);
    assert_eq!(m.raw, vec![text("okta_user_id", "00u1"), text("okta_group_id", "00g1")]);
    assert!(okta_membership_request("00u9", "00g1", &persons, "team-1").is_none());
}

#[test]
fn a_reimported_okta_user_links_its_latest_person() {
    let persons = vec![("00u1".to_string(), "person-old".to_string()), ("00u1".to_string(), "person-new".to_string())];
    let m = okta_membership_request("00u1", "00g1", &persons, "team-1").unwrap();
    assert_eq!(m.payload[0], text("person_id", "person-new"));
}
