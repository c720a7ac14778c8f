//! What the importers write: one idempotent upsert request per imported
//! item, keyed by the item's natural key in its source system, with the
//! payload and the provenance record it carries.
//!
//! GitHub Actions and GitLab CI feed Yard's test entities (one
//! infrastructure, an environment per repository, suites, runs); GitLab
//! projects feed Groundwork deployables; Okta feeds Union's people, teams
//! and memberships.

use vstd::prelude::*;
use crate::text::{decimal, opt_view, owned, append, push_decimal, eq_str};
use crate::adapters::github::{github_status_text, github_status_to_yard, duration_text, duration_fits, compute_duration_minutes};
use crate::adapters::gitlab::{gitlab_status_text, gitlab_status_to_yard};
use crate::adapters::okta::{display_text, display_name};

verus! {

/// A plain JSON value of a payload or provenance field.
#[derive(Debug, Clone, PartialEq, Eq)]
pub enum PlainValue {
    Text(String),
    Number(u64),
    Null,
}

/// A plain value with its text as characters.
pub enum ValueView {
    Text(Seq<char>),
    Number(u64),
    Null,
}

pub open spec fn value_view(v: PlainValue) -> ValueView {
    match v {
        PlainValue::Text(s) => ValueView::Text(s@),
        PlainValue::Number(n) => ValueView::Number(n),
        PlainValue::Null => ValueView::Null,
    }
}

/// Named fields with their values, as characters.
pub open spec fn entries_view(f: Seq<(String, PlainValue)>) -> Seq<(Seq<char>, ValueView)> {
    f.map_values(|e: (String, PlainValue)| (e.0@, value_view(e.1)))
}

/// One idempotent write: the entity's API path, its domain, the source
/// system and the item's natural key there, the payload, and the raw
/// source fields kept with the provenance record.
#[derive(Debug, Clone, PartialEq, Eq)]
pub struct UpsertRequest {
    pub entity_path: String,
    pub target_domain: String,
    pub external_system: String,
    pub natural_key: String,
    pub payload: Vec<(String, PlainValue)>,
    pub raw: Vec<(String, PlainValue)>,
}

/// An upsert request as characters.
pub struct UpsertView {
    pub entity_path: Seq<char>,
    pub target_domain: Seq<char>,
    pub external_system: Seq<char>,
    pub natural_key: Seq<char>,
    pub payload: Seq<(Seq<char>, ValueView)>,
    pub raw: Seq<(Seq<char>, ValueView)>,
}

pub open spec fn upsert_view(r: UpsertRequest) -> UpsertView {
    UpsertView {
        entity_path: r.entity_path@,
        target_domain: r.target_domain@,
        external_system: r.external_system@,
        natural_key: r.natural_key@,
        payload: entries_view(r.payload@),
        raw: entries_view(r.raw@),
    }
}

/// A text field.
pub open spec fn text_field(name: Seq<char>, value: Seq<char>) -> (Seq<char>, ValueView) {
    (name, ValueView::Text(value))
}

/// A field holding the text when there is one, else `null`.
pub open spec fn opt_field(name: Seq<char>, value: Option<Seq<char>>) -> (Seq<char>, ValueView) {
    match value {
        Some(s) => (name, ValueView::Text(s)),
        None => (name, ValueView::Null),
    }
}

/// An optional text, or empty.
pub open spec fn or_empty(o: Option<Seq<char>>) -> Seq<char> {
    match o {
        Some(s) => s,
        None => Seq::empty(),
    }
}

fn text_entry(name: &str, value: &str) -> (e: (String, PlainValue))
    ensures
        (e.0@, value_view(e.1)) == text_field(name@, value@),
{
    (owned(name), PlainValue::Text(owned(value)))
}

fn number_entry(name: &str, n: u64) -> (e: (String, PlainValue))
    ensures
        (e.0@, value_view(e.1)) == (name@, ValueView::Number(n)),
{
    (owned(name), PlainValue::Number(n))
}

fn opt_entry(name: &str, value: &Option<String>) -> (e: (String, PlainValue))
    ensures
        (e.0@, value_view(e.1)) == opt_field(name@, opt_view(*value)),
{
    match value {
        Some(s) => (owned(name), PlainValue::Text(s.clone())),
        None => (owned(name), PlainValue::Null),
    }
}

fn text_or_empty(o: &Option<String>) -> (s: String)
    ensures
        s@ == or_empty(opt_view(*o)),
{
    match o {
        Some(s) => s.clone(),
        None => String::new(),
    }
}

/// A natural key made of a prefix and a number.
fn numbered_key(prefix: &str, middle: &str, n: u64) -> (k: String)
    ensures
        k@ == prefix@ + middle@ + decimal(n as nat),
{
    let mut k = owned(prefix);
    append(&mut k, middle);
    push_decimal(&mut k, n);
    k
}

/// A natural key made of a prefix and a suffix.
fn suffixed_key(prefix: &str, suffix: &str) -> (k: String)
    ensures
        k@ == prefix@ + suffix@,
{
    let mut k = owned(prefix);
    append(&mut k, suffix);
    k
}

// ── natural keys ────────────────────────────────────────────────────────────

/// The natural key of a repository's CI environment.
pub open spec fn environment_key(full: Seq<char>) -> Seq<char> {
    full + ":_ci"@
}

/// The natural key of a GitHub workflow's suite.
pub open spec fn workflow_key(full: Seq<char>, workflow_id: u64) -> Seq<char> {
    full + ":_workflow_"@ + decimal(workflow_id as nat)
}

/// The natural key of a GitHub workflow run.
pub open spec fn run_key(full: Seq<char>, run_id: u64) -> Seq<char> {
    full + ":_run_"@ + decimal(run_id as nat)
}

/// The natural key of a GitLab project's pipeline definition.
pub open spec fn pipeline_def_key(full: Seq<char>) -> Seq<char> {
    full + ":_pipeline_def"@
}

/// The natural key of a GitLab pipeline run.
pub open spec fn pipeline_key(full: Seq<char>, pipeline_id: u64) -> Seq<char> {
    full + ":_pipeline_"@ + decimal(pipeline_id as nat)
}

/// The natural key of an Okta user's person.
pub open spec fn person_key(user_id: Seq<char>) -> Seq<char> {
    "okta_user_"@ + user_id
}

/// The natural key of an Okta group's team.
pub open spec fn team_key(group_id: Seq<char>) -> Seq<char> {
    "okta_group_"@ + group_id
}

/// The natural key of an Okta membership.
pub open spec fn membership_key(user_id: Seq<char>, group_id: Seq<char>) -> Seq<char> {
    "okta_membership_"@ + user_id + "_"@ + group_id
}

// ── GitHub Actions ──────────────────────────────────────────────────────────

/// The shared infrastructure record of GitHub-hosted runners.
pub open spec fn github_infrastructure_spec() -> UpsertView {
    UpsertView {
        entity_path: "/test_infrastructure/api"@,
        target_domain: "yard.test_infrastructure"@,
        external_system: "github"@,
        natural_key: "_github_actions"@,
        payload: seq![
            text_field("name"@, "GitHub Actions Runners"@),
            text_field("provider"@, "github_actions"@),
            text_field("notes"@, "GitHub-hosted runners (Linux/Windows/macOS). Auto-imported."@),
        ],
        raw: seq![text_field("source"@, "github"@)],
    }
}

/// The upsert of the GitHub runners' infrastructure.
pub fn github_infrastructure_request() -> (r: UpsertRequest)
    ensures
        upsert_view(r) == github_infrastructure_spec(),
{
    let payload = vec![
        text_entry("name", "GitHub Actions Runners"),
        text_entry("provider", "github_actions"),
        text_entry("notes", "GitHub-hosted runners (Linux/Windows/macOS). Auto-imported."),
    ];
    let raw = vec![text_entry("source", "github")];
    let r = UpsertRequest {
        entity_path: owned("/test_infrastructure/api"),
        target_domain: owned("yard.test_infrastructure"),
        external_system: owned("github"),
        natural_key: owned("_github_actions"),
        payload,
        raw,
    };
    assert(entries_view(r.payload@) =~= github_infrastructure_spec().payload);
    assert(entries_view(r.raw@) =~= github_infrastructure_spec().raw);
    r
}

/// A repository's CI environment, linked to the runners and to the
/// repository's deployable when one is known.
pub open spec fn github_environment_spec(full: Seq<char>, infrastructure_id: Seq<char>, deployable_id: Option<Seq<char>>) -> UpsertView {
    UpsertView {
        entity_path: "/test_environment/api"@,
        target_domain: "yard.test_environment"@,
        external_system: "github"@,
        natural_key: environment_key(full),
        payload: seq![
            text_field("name"@, full + " / CI (GitHub Actions)"@),
            text_field("kind"@, "ci"@),
            text_field("infrastructure_id"@, infrastructure_id),
            text_field("deployable_id"@, or_empty(deployable_id)),
            text_field("notes"@, "Auto-imported from GitHub Actions."@),
        ],
        raw: seq![text_field("repo"@, full)],
    }
}

/// The upsert of a repository's CI environment.
pub fn github_environment_request(full: &str, infrastructure_id: &str, deployable_id: &Option<String>) -> (r: UpsertRequest)
    ensures
        upsert_view(r) == github_environment_spec(full@, infrastructure_id@, opt_view(*deployable_id)),
{
    let name = suffixed_key(full, " / CI (GitHub Actions)");
    let dep = text_or_empty(deployable_id);
    let payload = vec![
        text_entry("name", name.as_str()),
        text_entry("kind", "ci"),
        text_entry("infrastructure_id", infrastructure_id),
        text_entry("deployable_id", dep.as_str()),
        text_entry("notes", "Auto-imported from GitHub Actions."),
    ];
    let raw = vec![text_entry("repo", full)];
    let r = UpsertRequest {
        entity_path: owned("/test_environment/api"),
        target_domain: owned("yard.test_environment"),
        external_system: owned("github"),
        natural_key: suffixed_key(full, ":_ci"),
        payload,
        raw,
    };
    assert(entries_view(r.payload@) =~= github_environment_spec(full@, infrastructure_id@, opt_view(*deployable_id)).payload);
    assert(entries_view(r.raw@) =~= github_environment_spec(full@, infrastructure_id@, opt_view(*deployable_id)).raw);
    r
}

/// A GitHub workflow.
#[derive(Debug, Clone)]
pub struct GithubWorkflow {
    pub id: u64,
    pub name: String,
    pub path: String,
}

/// A workflow's suite: named after the workflow, run by GitHub Actions
/// from the workflow file.
pub open spec fn github_suite_spec(full: Seq<char>, w: GithubWorkflow, deployable_id: Option<Seq<char>>) -> UpsertView {
    UpsertView {
        entity_path: "/test_suite/api"@,
        target_domain: "yard.test_suite"@,
        external_system: "github"@,
        natural_key: workflow_key(full, w.id),
        payload: seq![
            text_field("name"@, w.name@),
            text_field("runner"@, "github_actions"@),
            text_field("command"@, w.path@),
            text_field("deployable_id"@, or_empty(deployable_id)),
            text_field("description"@, "GitHub workflow at "@ + w.path@),
        ],
        raw: seq![
            text_field("repo"@, full),
            ("workflow_id"@, ValueView::Number(w.id)),
            text_field("path"@, w.path@),
        ],
    }
}

/// The upsert of a workflow's suite.
pub fn github_suite_request(full: &str, w: &GithubWorkflow, deployable_id: &Option<String>) -> (r: UpsertRequest)
    ensures
        upsert_view(r) == github_suite_spec(full@, *w, opt_view(*deployable_id)),
{
    let dep = text_or_empty(deployable_id);
    let description = suffixed_key("GitHub workflow at ", w.path.as_str());
    let payload = vec![
        text_entry("name", w.name.as_str()),
        text_entry("runner", "github_actions"),
        text_entry("command", w.path.as_str()),
        text_entry("deployable_id", dep.as_str()),
        text_entry("description", description.as_str()),
    ];
    let raw = vec![
        text_entry("repo", full),
        number_entry("workflow_id", w.id),
        text_entry("path", w.path.as_str()),
    ];
    let r = UpsertRequest {
        entity_path: owned("/test_suite/api"),
        target_domain: owned("yard.test_suite"),
        external_system: owned("github"),
        natural_key: numbered_key(full, ":_workflow_", w.id),
        payload,
        raw,
    };
    assert(entries_view(r.payload@) =~= github_suite_spec(full@, *w, opt_view(*deployable_id)).payload);
    assert(entries_view(r.raw@) =~= github_suite_spec(full@, *w, opt_view(*deployable_id)).raw);
    r
}

/// A GitHub workflow run.
#[derive(Debug, Clone)]
pub struct GithubRun {
    pub id: u64,
    pub workflow_id: u64,
    pub status: Option<String>,
    pub conclusion: Option<String>,
    pub run_started_at: Option<String>,
    pub updated_at: Option<String>,
}

/// The suite recorded for a workflow: the last one listed for its id, or
/// empty when there is none.
pub open spec fn suite_for(suites: Seq<(u64, String)>, workflow_id: u64, k: int) -> Seq<char>
    decreases k,
{
    if k <= 0 {
        Seq::empty()
    } else if suites[k - 1].0 == workflow_id {
        suites[k - 1].1@
    } else {
        suite_for(suites, workflow_id, k - 1)
    }
}

/// A run's record: its environment, its workflow's suite, the status Yard
/// uses, its start and end, and the minutes between them.
pub open spec fn github_run_spec(full: Seq<char>, environment_id: Seq<char>, suites: Seq<(u64, String)>, run: GithubRun) -> UpsertView {
    let started = or_empty(opt_view(run.run_started_at));
    let finished = or_empty(opt_view(run.updated_at));
    UpsertView {
        entity_path: "/test_run/api"@,
        target_domain: "yard.test_run"@,
        external_system: "github"@,
        natural_key: run_key(full, run.id),
        payload: seq![
            text_field("test_environment_id"@, environment_id),
            text_field("test_suite_id"@, suite_for(suites, run.workflow_id, suites.len() as int)),
            text_field("status"@, github_status_text(opt_view(run.conclusion), opt_view(run.status))),
            text_field("started_at"@, started),
            text_field("finished_at"@, finished),
            text_field("duration_minutes"@, duration_text(started, finished)),
        ],
        raw: seq![
            text_field("repo"@, full),
            ("run_id"@, ValueView::Number(run.id)),
            ("workflow_id"@, ValueView::Number(run.workflow_id)),
            opt_field("github_status"@, opt_view(run.status)),
            opt_field("github_conclusion"@, opt_view(run.conclusion)),
        ],
    }
}

/// Whether a run's minutes can be computed: its timestamps, when they
/// parse, give dates within range.
pub open spec fn run_fits(run: GithubRun) -> bool {
    duration_fits(or_empty(opt_view(run.run_started_at)), or_empty(opt_view(run.updated_at)))
}

fn suite_id_for(suites: &Vec<(u64, String)>, workflow_id: u64) -> (s: String)
    ensures
        s@ == suite_for(suites@, workflow_id, suites@.len() as int),
{
    let mut k = suites.len();
    while k > 0
        invariant
            k <= suites@.len(),
            suite_for(suites@, workflow_id, suites@.len() as int) == suite_for(suites@, workflow_id, k as int),
        decreases k,
    {
        if suites[k - 1].0 == workflow_id {
            return suites[k - 1].1.clone();
        }
        k = k - 1;
    }
    String::new()
}

/// The upsert of a workflow run, given its environment and the suites
/// recorded so far (workflow id and suite id).
pub fn github_run_request(full: &str, environment_id: &str, suites: &Vec<(u64, String)>, run: &GithubRun) -> (r: UpsertRequest)
    requires
        run_fits(*run),
    ensures
        upsert_view(r) == github_run_spec(full@, environment_id@, suites@, *run),
{
    let started = text_or_empty(&run.run_started_at);
    let finished = text_or_empty(&run.updated_at);
    let suite = suite_id_for(suites, run.workflow_id);
    let status = github_status_to_yard(&run.conclusion, &run.status);
    let minutes = compute_duration_minutes(started.as_str(), finished.as_str());
    let payload = vec![
        text_entry("test_environment_id", environment_id),
        text_entry("test_suite_id", suite.as_str()),
        text_entry("status", status.as_str()),
        text_entry("started_at", started.as_str()),
        text_entry("finished_at", finished.as_str()),
        text_entry("duration_minutes", minutes.as_str()),
    ];
    let raw = vec![
        text_entry("repo", full),
        number_entry("run_id", run.id),
        number_entry("workflow_id", run.workflow_id),
        opt_entry("github_status", &run.status),
        opt_entry("github_conclusion", &run.conclusion),
    ];
    let r = UpsertRequest {
        entity_path: owned("/test_run/api"),
        target_domain: owned("yard.test_run"),
        external_system: owned("github"),
        natural_key: numbered_key(full, ":_run_", run.id),
        payload,
        raw,
    };
    assert(entries_view(r.payload@) =~= github_run_spec(full@, environment_id@, suites@, *run).payload);
    assert(entries_view(r.raw@) =~= github_run_spec(full@, environment_id@, suites@, *run).raw);
    r
}

/// Whether every run's minutes can be computed.
pub fn run_in_range(run: &GithubRun) -> (r: bool)
    ensures
        r == run_fits(*run),
{
    let started = text_or_empty(&run.run_started_at);
    let finished = text_or_empty(&run.updated_at);
    crate::adapters::github::duration_in_range(started.as_str(), finished.as_str())
}

// ── GitLab CI ───────────────────────────────────────────────────────────────

/// The shared infrastructure record of a GitLab instance's runners.
pub open spec fn gitlab_infrastructure_spec(base_url: Seq<char>) -> UpsertView {
    UpsertView {
        entity_path: "/test_infrastructure/api"@,
        target_domain: "yard.test_infrastructure"@,
        external_system: "gitlab"@,
        natural_key: "_gitlab_pipelines"@,
        payload: seq![
            text_field("name"@, "GitLab Pipeline Runners"@),
            text_field("provider"@, "gitlab_pipelines"@),
            text_field("notes"@, "GitLab shared/specific runners. Auto-imported."@),
        ],
        raw: seq![text_field("source"@, "gitlab"@), text_field("base_url"@, base_url)],
    }
}

/// The upsert of the GitLab runners' infrastructure.
pub fn gitlab_infrastructure_request(base_url: &str) -> (r: UpsertRequest)
    ensures
        upsert_view(r) == gitlab_infrastructure_spec(base_url@),
{
    let payload = vec![
        text_entry("name", "GitLab Pipeline Runners"),
        text_entry("provider", "gitlab_pipelines"),
        text_entry("notes", "GitLab shared/specific runners. Auto-imported."),
    ];
    let raw = vec![text_entry("source", "gitlab"), text_entry("base_url", base_url)];
    let r = UpsertRequest {
        entity_path: owned("/test_infrastructure/api"),
        target_domain: owned("yard.test_infrastructure"),
        external_system: owned("gitlab"),
        natural_key: owned("_gitlab_pipelines"),
        payload,
        raw,
    };
    assert(entries_view(r.payload@) =~= gitlab_infrastructure_spec(base_url@).payload);
    assert(entries_view(r.raw@) =~= gitlab_infrastructure_spec(base_url@).raw);
    r
}

/// A project's CI environment.
pub open spec fn gitlab_environment_spec(full: Seq<char>, project_id: u64, infrastructure_id: Seq<char>, deployable_id: Option<Seq<char>>) -> UpsertView {
    UpsertView {
        entity_path: "/test_environment/api"@,
        target_domain: "yard.test_environment"@,
        external_system: "gitlab"@,
        natural_key: environment_key(full),
        payload: seq![
            text_field("name"@, full + " / CI (GitLab Pipelines)"@),
            text_field("kind"@, "ci"@),
            text_field("infrastructure_id"@, infrastructure_id),
            text_field("deployable_id"@, or_empty(deployable_id)),
            text_field("notes"@, "Auto-imported from GitLab CI."@),
        ],
        raw: seq![text_field("project"@, full), ("project_id"@, ValueView::Number(project_id))],
    }
}

/// The upsert of a project's CI environment.
pub fn gitlab_environment_request(full: &str, project_id: u64, infrastructure_id: &str, deployable_id: &Option<String>) -> (r: UpsertRequest)
    ensures
        upsert_view(r) == gitlab_environment_spec(full@, project_id, infrastructure_id@, opt_view(*deployable_id)),
{
    let name = suffixed_key(full, " / CI (GitLab Pipelines)");
    let dep = text_or_empty(deployable_id);
    let payload = vec![
        text_entry("name", name.as_str()),
        text_entry("kind", "ci"),
        text_entry("infrastructure_id", infrastructure_id),
        text_entry("deployable_id", dep.as_str()),
        text_entry("notes", "Auto-imported from GitLab CI."),
    ];
    let raw = vec![text_entry("project", full), number_entry("project_id", project_id)];
    let r = UpsertRequest {
        entity_path: owned("/test_environment/api"),
        target_domain: owned("yard.test_environment"),
        external_system: owned("gitlab"),
        natural_key: suffixed_key(full, ":_ci"),
        payload,
        raw,
    };
    assert(entries_view(r.payload@) =~= gitlab_environment_spec(full@, project_id, infrastructure_id@, opt_view(*deployable_id)).payload);
    assert(entries_view(r.raw@) =~= gitlab_environment_spec(full@, project_id, infrastructure_id@, opt_view(*deployable_id)).raw);
    r
}

/// A project's one suite: its `.gitlab-ci.yml`.
pub open spec fn gitlab_suite_spec(full: Seq<char>, project_id: u64, deployable_id: Option<Seq<char>>) -> UpsertView {
    UpsertView {
        entity_path: "/test_suite/api"@,
        target_domain: "yard.test_suite"@,
        external_system: "gitlab"@,
        natural_key: pipeline_def_key(full),
        payload: seq![
            text_field("name"@, full + " — .gitlab-ci.yml"@),
            text_field("runner"@, "gitlab_pipelines"@),
            text_field("command"@, ".gitlab-ci.yml"@),
            text_field("deployable_id"@, or_empty(deployable_id)),
            text_field("description"@, "Top-level pipeline definition. Per-job suites are a future refinement."@),
        ],
        raw: seq![text_field("project"@, full), ("project_id"@, ValueView::Number(project_id))],
    }
}

/// The upsert of a project's pipeline-definition suite.
pub fn gitlab_suite_request(full: &str, project_id: u64, deployable_id: &Option<String>) -> (r: UpsertRequest)
    ensures
        upsert_view(r) == gitlab_suite_spec(full@, project_id, opt_view(*deployable_id)),
{
    let name = suffixed_key(full, " — .gitlab-ci.yml");
    let dep = text_or_empty(deployable_id);
    let payload = vec![
        text_entry("name", name.as_str()),
        text_entry("runner", "gitlab_pipelines"),
        text_entry("command", ".gitlab-ci.yml"),
        text_entry("deployable_id", dep.as_str()),
        text_entry("description", "Top-level pipeline definition. Per-job suites are a future refinement."),
    ];
    let raw = vec![text_entry("project", full), number_entry("project_id", project_id)];
    let r = UpsertRequest {
        entity_path: owned("/test_suite/api"),
        target_domain: owned("yard.test_suite"),
        external_system: owned("gitlab"),
        natural_key: suffixed_key(full, ":_pipeline_def"),
        payload,
        raw,
    };
    assert(entries_view(r.payload@) =~= gitlab_suite_spec(full@, project_id, opt_view(*deployable_id)).payload);
    assert(entries_view(r.raw@) =~= gitlab_suite_spec(full@, project_id, opt_view(*deployable_id)).raw);
    r
}

/// A GitLab pipeline.
#[derive(Debug, Clone)]
pub struct GitlabPipeline {
    pub id: u64,
    pub status: Option<String>,
    pub created_at: Option<String>,
    pub updated_at: Option<String>,
    pub git_ref: Option<String>,
    pub source: Option<String>,
}

/// A pipeline's run record.
pub open spec fn gitlab_run_spec(full: Seq<char>, environment_id: Seq<char>, suite_id: Seq<char>, p: GitlabPipeline) -> UpsertView {
    UpsertView {
        entity_path: "/test_run/api"@,
        target_domain: "yard.test_run"@,
        external_system: "gitlab"@,
        natural_key: pipeline_key(full, p.id),
        payload: seq![
            text_field("test_environment_id"@, environment_id),
            text_field("test_suite_id"@, suite_id),
            text_field("status"@, gitlab_status_text(opt_view(p.status))),
            text_field("started_at"@, or_empty(opt_view(p.created_at))),
            text_field("finished_at"@, or_empty(opt_view(p.updated_at))),
        ],
        raw: seq![
            text_field("project"@, full),
            ("pipeline_id"@, ValueView::Number(p.id)),
            opt_field("ref"@, opt_view(p.git_ref)),
            opt_field("source"@, opt_view(p.source)),
        ],
    }
}

/// The upsert of a pipeline run, given its environment and suite.
pub fn gitlab_run_request(full: &str, environment_id: &str, suite_id: &str, p: &GitlabPipeline) -> (r: UpsertRequest)
    ensures
        upsert_view(r) == gitlab_run_spec(full@, environment_id@, suite_id@, *p),
{
    let started = text_or_empty(&p.created_at);
    let finished = text_or_empty(&p.updated_at);
    let status = gitlab_status_to_yard(&p.status);
    let payload = vec![
        text_entry("test_environment_id", environment_id),
        text_entry("test_suite_id", suite_id),
        text_entry("status", status.as_str()),
        text_entry("started_at", started.as_str()),
        text_entry("finished_at", finished.as_str()),
    ];
    let raw = vec![
        text_entry("project", full),
        number_entry("pipeline_id", p.id),
        opt_entry("ref", &p.git_ref),
        opt_entry("source", &p.source),
    ];
    let r = UpsertRequest {
        entity_path: owned("/test_run/api"),
        target_domain: owned("yard.test_run"),
        external_system: owned("gitlab"),
        natural_key: numbered_key(full, ":_pipeline_", p.id),
        payload,
        raw,
    };
    assert(entries_view(r.payload@) =~= gitlab_run_spec(full@, environment_id@, suite_id@, *p).payload);
    assert(entries_view(r.raw@) =~= gitlab_run_spec(full@, environment_id@, suite_id@, *p).raw);
    r
}

// ── GitLab projects as deployables ──────────────────────────────────────────

/// Whether a project is imported: archived projects are skipped.
pub fn keep_project(archived: Option<bool>) -> (r: bool)
    ensures
        r == !(archived == Some(true)),
{
    match archived {
        Some(a) => !a,
        None => true,
    }
}

/// A GitLab project.
#[derive(Debug, Clone)]
pub struct GitlabProject {
    pub path_with_namespace: String,
    pub name: String,
    pub description: Option<String>,
    pub web_url: String,
    pub archived: Option<bool>,
}

/// A project's deployable, keyed by its path with namespace.
pub open spec fn gitlab_deployable_spec(p: GitlabProject) -> UpsertView {
    UpsertView {
        entity_path: "/deployable/api"@,
        target_domain: "groundwork.deployable"@,
        external_system: "gitlab"@,
        natural_key: p.path_with_namespace@,
        payload: seq![
            text_field("name"@, p.name@),
            text_field("description"@, or_empty(opt_view(p.description))),
            text_field("repo_url"@, p.web_url@),
        ],
        raw: seq![text_field("path_with_namespace"@, p.path_with_namespace@), text_field("web_url"@, p.web_url@)],
    }
}

/// The upsert of a project's deployable, unless the project is archived.
pub fn gitlab_deployable_request(p: &GitlabProject) -> (r: Option<UpsertRequest>)
    ensures
        match r {
            Some(u) => p.archived != Some(true) && upsert_view(u) == gitlab_deployable_spec(*p),
            None => p.archived == Some(true),
        },
{
    if !keep_project(p.archived) {
        return None;
    }
    let desc = text_or_empty(&p.description);
    let payload = vec![
        text_entry("name", p.name.as_str()),
        text_entry("description", desc.as_str()),
        text_entry("repo_url", p.web_url.as_str()),
    ];
    let raw = vec![
        text_entry("path_with_namespace", p.path_with_namespace.as_str()),
        text_entry("web_url", p.web_url.as_str()),
    ];
    let r = UpsertRequest {
        entity_path: owned("/deployable/api"),
        target_domain: owned("groundwork.deployable"),
        external_system: owned("gitlab"),
        natural_key: p.path_with_namespace.clone(),
        payload,
        raw,
    };
    assert(entries_view(r.payload@) =~= gitlab_deployable_spec(*p).payload);
    assert(entries_view(r.raw@) =~= gitlab_deployable_spec(*p).raw);
    Some(r)
}

// ── Okta ────────────────────────────────────────────────────────────────────

/// An Okta user.
#[derive(Debug, Clone)]
pub struct OktaUser {
    pub id: String,
    pub status: Option<String>,
    pub first_name: Option<String>,
    pub last_name: Option<String>,
    pub email: Option<String>,
    pub title: Option<String>,
}

/// Only active users are imported.
pub open spec fn is_active(u: OktaUser) -> bool {
    opt_view(u.status) == Some("ACTIVE"@)
}

/// An active user's person: display name, email as contact, title as role.
pub open spec fn okta_person_spec(u: OktaUser) -> UpsertView {
    UpsertView {
        entity_path: "/person/api"@,
        target_domain: "union.person"@,
        external_system: "okta"@,
        natural_key: person_key(u.id@),
        payload: seq![
            text_field("name"@, display_text(opt_view(u.first_name), opt_view(u.last_name), opt_view(u.email), u.id@)),
            text_field("contact"@, or_empty(opt_view(u.email))),
            text_field("role"@, or_empty(opt_view(u.title))),
        ],
        raw: seq![text_field("okta_id"@, u.id@), opt_field("status"@, opt_view(u.status))],
    }
}

/// The upsert of a user's person; none for a user who is not active.
pub fn okta_person_request(u: &OktaUser) -> (r: Option<UpsertRequest>)
    ensures
        match r {
            Some(p) => is_active(*u) && upsert_view(p) == okta_person_spec(*u),
            None => !is_active(*u),
        },
{
    let active = match &u.status {
        Some(s) => eq_str(s.as_str(), "ACTIVE"),
        None => false,
    };
    if !active {
        return None;
    }
    let name = display_name(&u.first_name, &u.last_name, &u.email, u.id.as_str());
    let contact = text_or_empty(&u.email);
    let role = text_or_empty(&u.title);
    let payload = vec![
        text_entry("name", name.as_str()),
        text_entry("contact", contact.as_str()),
        text_entry("role", role.as_str()),
    ];
    let raw = vec![text_entry("okta_id", u.id.as_str()), opt_entry("status", &u.status)];
    let r = UpsertRequest {
        entity_path: owned("/person/api"),
        target_domain: owned("union.person"),
        external_system: owned("okta"),
        natural_key: suffixed_key("okta_user_", u.id.as_str()),
        payload,
        raw,
    };
    assert(entries_view(r.payload@) =~= okta_person_spec(*u).payload);
    assert(entries_view(r.raw@) =~= okta_person_spec(*u).raw);
    Some(r)
}

/// An Okta group.
#[derive(Debug, Clone)]
pub struct OktaGroup {
    pub id: String,
    pub name: String,
    pub description: Option<String>,
}

/// A group's team, of kind `domain` until someone recategorises it.
pub open spec fn okta_team_spec(g: OktaGroup) -> UpsertView {
    UpsertView {
        entity_path: "/team/api"@,
        target_domain: "union.team"@,
        external_system: "okta"@,
        natural_key: team_key(g.id@),
        payload: seq![
            text_field("name"@, g.name@),
            text_field("kind"@, "domain"@),
            text_field("description"@, or_empty(opt_view(g.description))),
        ],
        raw: seq![text_field("okta_id"@, g.id@)],
    }
}

/// The upsert of a group's team.
pub fn okta_team_request(g: &OktaGroup) -> (r: UpsertRequest)
    ensures
        upsert_view(r) == okta_team_spec(*g),
{
    let desc = text_or_empty(&g.description);
    let payload = vec![
        text_entry("name", g.name.as_str()),
        text_entry("kind", "domain"),
        text_entry("description", desc.as_str()),
    ];
    let raw = vec![text_entry("okta_id", g.id.as_str())];
    let r = UpsertRequest {
        entity_path: owned("/team/api"),
        target_domain: owned("union.team"),
        external_system: owned("okta"),
        natural_key: suffixed_key("okta_group_", g.id.as_str()),
        payload,
        raw,
    };
    assert(entries_view(r.payload@) =~= okta_team_spec(*g).payload);
    assert(entries_view(r.raw@) =~= okta_team_spec(*g).raw);
    r
}

/// The person imported for an Okta user id: the last recorded among the
/// first `k`, if any (a later import of the same user replaces an earlier).
pub open spec fn person_for(persons: Seq<(String, String)>, user_id: Seq<char>, k: int) -> Option<Seq<char>>
    decreases k,
{
    if k <= 0 {
        None
    } else if persons[k - 1].0@ == user_id {
        Some(persons[k - 1].1@)
    } else {
        person_for(persons, user_id, k - 1)
    }
}

/// A membership's record.
pub open spec fn okta_membership_spec(user_id: Seq<char>, group_id: Seq<char>, person_id: Seq<char>, team_id: Seq<char>) -> UpsertView {
    UpsertView {
        entity_path: "/team_member/api"@,
        target_domain: "union.team_member"@,
        external_system: "okta"@,
        natural_key: membership_key(user_id, group_id),
        payload: seq![
            text_field("person_id"@, person_id),
            text_field("team_id"@, team_id),
            text_field("role"@, "member"@),
        ],
        raw: seq![text_field("okta_user_id"@, user_id), text_field("okta_group_id"@, group_id)],
    }
}

/// The upsert of a group member's membership, given the persons imported
/// so far (Okta user id and person id; the last for a user id counts) and the group's team; none when the
/// member was not imported (not active).
pub fn okta_membership_request(user_id: &str, group_id: &str, persons: &Vec<(String, String)>, team_id: &str) -> (r: Option<UpsertRequest>)
    ensures
        match person_for(persons@, user_id@, persons@.len() as int) {
            Some(pid) => r is Some && upsert_view(r->0) == okta_membership_spec(user_id@, group_id@, pid, team_id@),
            None => r is None,
        },
{
    let mut k: usize = persons.len();
    while k > 0
        invariant
            k <= persons@.len(),
            person_for(persons@, user_id@, persons@.len() as int) == person_for(persons@, user_id@, k as int),
        decreases k,
    {
        if eq_str(persons[k - 1].0.as_str(), user_id) {
            let person_id = persons[k - 1].1.as_str();
            let payload = vec![
                text_entry("person_id", person_id),
                text_entry("team_id", team_id),
                text_entry("role", "member"),
            ];
            let raw = vec![text_entry("okta_user_id", user_id), text_entry("okta_group_id", group_id)];
            let mut key = suffixed_key("okta_membership_", user_id);
            append(&mut key, "_");
            append(&mut key, group_id);
            let r = UpsertRequest {
                entity_path: owned("/team_member/api"),
                target_domain: owned("union.team_member"),
                external_system: owned("okta"),
                natural_key: key,
                payload,
                raw,
            };
            assert(entries_view(r.payload@) =~= okta_membership_spec(user_id@, group_id@, person_id@, team_id@).payload);
            assert(entries_view(r.raw@) =~= okta_membership_spec(user_id@, group_id@, person_id@, team_id@).raw);
            return Some(r);
        }
        k = k - 1;
    }
    None
}

// ── idempotence ─────────────────────────────────────────────────────────────

proof fn lemma_decimal_nonempty(n: nat)
    ensures
        decimal(n).len() >= 1,
        n >= 10 ==> decimal(n).len() >= 2,
    decreases n,
{
    if n >= 10 {
        lemma_decimal_nonempty(n / 10);
    }
}

proof fn lemma_digit_injective(x: nat, y: nat)
    requires
        x < 10,
        y < 10,
        crate::text::digit(x) == crate::text::digit(y),
    ensures
        x == y,
{
}

proof fn lemma_decimal_injective(a: nat, b: nat)
    requires
        decimal(a) == decimal(b),
    ensures
        a == b,
    decreases a,
{
    lemma_decimal_nonempty(a);
    lemma_decimal_nonempty(b);
    if a < 10 && b < 10 {
        assert(decimal(a) == seq![crate::text::digit(a)]);
        assert(decimal(b) == seq![crate::text::digit(b)]);
        assert(decimal(a)[0] == crate::text::digit(a));
        assert(decimal(b)[0] == crate::text::digit(b));
        lemma_digit_injective(a, b);
    } else if a >= 10 && b >= 10 {
        assert(decimal(a) == decimal(a / 10).push(crate::text::digit(a % 10)));
        assert(decimal(b) == decimal(b / 10).push(crate::text::digit(b % 10)));
        assert(decimal(a).last() == crate::text::digit(a % 10));
        assert(decimal(b).last() == crate::text::digit(b % 10));
        assert(decimal(a).drop_last() =~= decimal(a / 10));
        assert(decimal(b).drop_last() =~= decimal(b / 10));
        lemma_decimal_injective(a / 10, b / 10);
        lemma_digit_injective(a % 10, b % 10);
        assert(a == 10 * (a / 10) + a % 10);
        assert(b == 10 * (b / 10) + b % 10);
    }
}

proof fn lemma_numbered_keys_injective(prefix: Seq<char>, a: u64, b: u64)
    requires
        prefix + decimal(a as nat) == prefix + decimal(b as nat),
    ensures
        a == b,
{
    assert(decimal(a as nat) =~= (prefix + decimal(a as nat)).skip(prefix.len() as int));
    assert(decimal(b as nat) =~= (prefix + decimal(b as nat)).skip(prefix.len() as int));
    lemma_decimal_injective(a as nat, b as nat);
}

/// Re-running an import writes each item under the same natural key: a
/// run's, a workflow's and a pipeline's key depend only on the repository
/// and the item's id (not on its status, times or the ids of the records it
/// links to), and two different items of a repository never share a key.
pub proof fn lemma_import_keys_identify_items(full: Seq<char>, a: u64, b: u64)
    ensures
        (run_key(full, a) == run_key(full, b)) <==> a == b,
        (workflow_key(full, a) == workflow_key(full, b)) <==> a == b,
        (pipeline_key(full, a) == pipeline_key(full, b)) <==> a == b,
{
    if run_key(full, a) == run_key(full, b) {
        lemma_numbered_keys_injective(full + ":_run_"@, a, b);
    }
    if workflow_key(full, a) == workflow_key(full, b) {
        lemma_numbered_keys_injective(full + ":_workflow_"@, a, b);
    }
    if pipeline_key(full, a) == pipeline_key(full, b) {
        lemma_numbered_keys_injective(full + ":_pipeline_"@, a, b);
    }
}

/// A run seen again, whatever changed about it since (status, times) and
/// whatever the environment and suites were recorded as, is written under
/// the key it had before: the second upsert updates the first record.
pub proof fn lemma_reimported_run_keeps_its_key(
    full: Seq<char>,
    environment1: Seq<char>,
    suites1: Seq<(u64, String)>,
    run1: GithubRun,
    environment2: Seq<char>,
    suites2: Seq<(u64, String)>,
    run2: GithubRun,
)
    requires
        run1.id == run2.id,
    ensures
        github_run_spec(full, environment1, suites1, run1).natural_key
            == github_run_spec(full, environment2, suites2, run2).natural_key,
        github_run_spec(full, environment1, suites1, run1).external_system
            == github_run_spec(full, environment2, suites2, run2).external_system,
{
}

} // verus!
