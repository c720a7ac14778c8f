//! Snapshot of the federated graph at a moment in time, as the derivation
//! rules read it.

use vstd::prelude::*;

verus! {

/// Everything the rules look at, pulled from the primary meshlettes.
#[derive(Debug, Default, Clone)]
pub struct GraphSnapshot {
    pub deployables: Vec<Deployable>,
    pub services: Vec<Service>,
    pub dependencies: Vec<Dependency>,
    pub exposes: Vec<Exposes>,
    pub contracts: Vec<Contract>,
    pub change_requests: Vec<ChangeRequest>,
    pub deployment_plans: Vec<DeploymentPlan>,
    pub test_environments: Vec<TestEnvironment>,
    pub data_syncs: Vec<DataSync>,
    pub work_orders: Vec<WorkOrder>,
    pub teams: Vec<Team>,
}

#[derive(Debug, Default, Clone)]
pub struct Deployable {
    pub id: String,
    pub name: String,
    pub description: Option<String>,
    pub team_id: Option<String>,
    pub deployment_status: Option<String>,
}

#[derive(Debug, Default, Clone)]
pub struct Service {
    pub id: String,
    pub name: String,
    pub kind: Option<String>,
    pub description: Option<String>,
}

#[derive(Debug, Default, Clone)]
pub struct Dependency {
    pub id: String,
    pub deployable_id: String,
    pub service_id: String,
    pub criticality: Option<String>,
}

#[derive(Debug, Default, Clone)]
pub struct Exposes {
    pub id: String,
    pub deployable_id: String,
    pub service_id: String,
}

#[derive(Debug, Default, Clone)]
pub struct Contract {
    pub id: String,
    pub service_id: String,
    pub format: Option<String>,
    pub version: Option<String>,
}

#[derive(Debug, Default, Clone)]
pub struct ChangeRequest {
    pub id: String,
    pub summary: Option<String>,
    pub status: Option<String>,
    pub tier: Option<String>,
    pub target_deployables: Option<String>,
}

#[derive(Debug, Default, Clone)]
pub struct DeploymentPlan {
    pub id: String,
    pub change_request_id: String,
    pub steps: Vec<PlanStepLite>,
}

#[derive(Debug, Default, Clone)]
pub struct PlanStepLite {
    pub deployable_id: String,
    pub deployable_name: String,
    pub order: usize,
    pub window_start: Option<String>,
    pub window_end: Option<String>,
    pub test_environment_id: Option<String>,
}

#[derive(Debug, Default, Clone)]
pub struct TestEnvironment {
    pub id: String,
    pub name: String,
    pub kind: Option<String>,
    pub deployable_id: Option<String>,
    pub watershed: Option<String>,
}

#[derive(Debug, Default, Clone)]
pub struct DataSync {
    pub id: String,
    pub source_env_id: Option<String>,
    pub target_env_id: Option<String>,
    pub kind: Option<String>,
}

#[derive(Debug, Default, Clone)]
pub struct WorkOrder {
    pub id: String,
    pub status: Option<String>,
    pub deployable_id: Option<String>,
    pub team_id: Option<String>,
    pub blocker: Option<String>,
}

#[derive(Debug, Default, Clone)]
pub struct Team {
    pub id: String,
    pub name: Option<String>,
    pub kind: Option<String>,
}

} // verus!
