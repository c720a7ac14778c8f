use manifold::cityhall::tools::{custom_tools, required_string_arg};
use manifold::groundwork::catalog::{depth_arg, entity_arg, name_of, search_records};
use manifold::json::JsonField;
use manifold::union::rollups::Envelope;

fn args(pairs: Vec<(&str, JsonField)>) -> Vec<(String, JsonField)> {
    pairs.into_iter().map(|(k, v)| (k.to_string(), v)).collect()
}

#[test]
fn required_string_arg_reads_string() {
    let a = args(vec![("org_node_id", JsonField::Text("node-1".into()))]);
    assert_eq!(required_string_arg(&a, "org_node_id").unwrap(), "node-1");
}

#[test]
fn required_string_arg_errors_when_missing() {
    let a = args(vec![]);
    let err = required_string_arg(&a, "org_node_id").unwrap_err();
    assert!(err.contains("org_node_id"));
}

#[test]
fn required_string_arg_errors_on_wrong_type() {
    let a = args(vec![("org_node_id", JsonField::Integer(42))]);
    let err = required_string_arg(&a, "org_node_id").unwrap_err();
    assert!(err.contains("org_node_id"));
}

#[test]
fn custom_tools_lists_all_four() {
    let tools = custom_tools();
    let names: Vec<&str> = tools.iter().map(|t| t.name).collect();
    assert_eq!(names, vec!["org.ancestors", "org.effective_bylaws", "change_request.plan", "deployment_plan.gantt"]);
}

#[test]
fn tools_declare_their_arguments() {
    let tools = custom_tools();
    assert_eq!(tools[0].required, vec!["org_node_id"]);
    assert!(tools[0].optional.is_empty());
    assert_eq!(tools[2].required, vec!["change_request_id"]);
    assert_eq!(tools[2].optional, vec!["tier"]);
    assert_eq!(tools[3].required, vec!["deployment_plan_id"]);
    assert!(tools[3].description.ends_with("Output is deterministic for a given plan."));
}

#[test]
fn entity_argument_is_checked() {
    assert_eq!(entity_arg(&args(vec![("entity", JsonField::Text("service".into()))])), Ok("service".to_string()));
    assert_eq!(entity_arg(&args(vec![])), Err("missing 'entity' argument".to_string()));
    assert_eq!(
        entity_arg(&args(vec![("entity", JsonField::Text("team".into()))])),
        Err("entity must be one of [\"deployable\", \"service\", \"exposes\", \"dependency\", \"contract\", \"sla\"], got \"team\"".to_string())
    );
}

#[test]
fn depth_argument_defaults() {
    assert_eq!(depth_arg(&args(vec![("depth", JsonField::Integer(3))]), 5), 3);
    assert_eq!(depth_arg(&args(vec![("depth", JsonField::Integer(-3))]), 5), 5);
    assert_eq!(depth_arg(&args(vec![]), 5), 5);
}

fn rec(name: &str) -> Envelope {
    Envelope {
        fields: vec![("id".to_string(), JsonField::Text(name.to_lowercase()))],
        payload: Some(vec![("name".to_string(), JsonField::Text(name.to_string()))]),
    }
}

#[test]
fn search_matches_names_ignoring_case() {
    let records = vec![rec("Checkout API"), rec("Auth"), rec("checkout-worker")];
    let hits = search_records(&records, &Some("CHECKOUT".into()));
    let names: Vec<String> = hits.iter().map(name_of).collect();
    assert_eq!(names, vec!["Checkout API".to_string(), "checkout-worker".to_string()]);
    assert_eq!(search_records(&records, &None).len(), 3);
}

#[test]
fn groundwork_and_union_list_their_tools() {
    let catalog = manifold::groundwork::tools::tools();
    let names: Vec<&str> = catalog.iter().map(|t| t.name).collect();
    assert_eq!(names, vec!["catalog.list", "catalog.get", "catalog.search"]);
    assert_eq!(catalog[1].required, vec!["entity", "id"]);
    assert_eq!(catalog[2].optional, vec!["name"]);
    let graph = manifold::groundwork::tools::custom_tools();
    let names: Vec<&str> = graph.iter().map(|t| t.name).collect();
    assert_eq!(names, vec!["graph.blast_radius", "graph.dependencies_of", "graph.deployment_plan"]);
    assert_eq!(graph[0].optional, vec!["depth"]);
    assert!(graph[0].description.contains("which deployables \u{2014} and which services"));
    let union = manifold::union::tools::custom_tools();
    let names: Vec<&str> = union.iter().map(|t| t.name).collect();
    assert_eq!(names, vec!["team.capacity", "team.members", "person.assignments"]);
    assert_eq!(union[2].required, vec!["person_id"]);
}
