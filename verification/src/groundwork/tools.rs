//! Groundwork's MCP tools: the catalog family and the graph family.

use vstd::prelude::*;
use crate::cityhall::tools::{ToolSpec, tool_view};

verus! {

/// The catalog tools, as the server lists them.
pub open spec fn catalog_table() -> Seq<(Seq<char>, Seq<char>, Seq<Seq<char>>, Seq<Seq<char>>)> {
    seq![
        ("catalog.list"@,
            "List every record of a Groundwork entity type (deployable, service, exposes, dependency, contract, sla). Use this for a high-level inventory."@,
            seq!["entity"@], Seq::empty()),
        ("catalog.get"@,
            "Fetch a single Groundwork record by id. Returns null if not found."@,
            seq!["entity"@, "id"@], Seq::empty()),
        ("catalog.search"@,
            "Find Groundwork records whose name contains a substring (case-insensitive). Returns an array of envelopes."@,
            seq!["entity"@], seq!["name"@]),
    ]
}

/// The catalog tools: list, get and search over an entity type.
pub fn tools() -> (t: Vec<ToolSpec>)
    ensures
        t@.map_values(|s: ToolSpec| tool_view(s)) == catalog_table(),
{
    let mut t: Vec<ToolSpec> = Vec::new();
    t.push(ToolSpec {
        name: "catalog.list",
        description: "List every record of a Groundwork entity type (deployable, service, exposes, dependency, contract, sla). Use this for a high-level inventory.",
        required: vec!["entity"],
        optional: vec![],
    });
    t.push(ToolSpec {
        name: "catalog.get",
        description: "Fetch a single Groundwork record by id. Returns null if not found.",
        required: vec!["entity", "id"],
        optional: vec![],
    });
    t.push(ToolSpec {
        name: "catalog.search",
        description: "Find Groundwork records whose name contains a substring (case-insensitive). Returns an array of envelopes.",
        required: vec!["entity"],
        optional: vec!["name"],
    });
    assert(t@[0].required@.map_values(|a: &'static str| a@) =~= catalog_table()[0].2);
    assert(t@[0].optional@.map_values(|a: &'static str| a@) =~= catalog_table()[0].3);
    assert(t@[1].required@.map_values(|a: &'static str| a@) =~= catalog_table()[1].2);
    assert(t@[1].optional@.map_values(|a: &'static str| a@) =~= catalog_table()[1].3);
    assert(t@[2].required@.map_values(|a: &'static str| a@) =~= catalog_table()[2].2);
    assert(t@[2].optional@.map_values(|a: &'static str| a@) =~= catalog_table()[2].3);
    assert(t@.map_values(|s: ToolSpec| tool_view(s)) =~= catalog_table());
    t
}

/// The graph tools, as the server lists them.
pub open spec fn graph_table() -> Seq<(Seq<char>, Seq<char>, Seq<Seq<char>>, Seq<Seq<char>>)> {
    seq![
        ("graph.blast_radius"@,
            "If this service goes down, which deployables \u{2014} and which services those deployables expose \u{2014} break, transitively? Walks reverse-dependency edges from the named service. Use this to assess the risk of taking a service down for maintenance, or to scope the impact of an outage."@,
            seq!["service_id"@], seq!["depth"@]),
        ("graph.dependencies_of"@,
            "What does this deployable consume? Walks forward through dependency edges from the named deployable, recursing through publishing deployables. Returns a tree where leaves are either external services (no publisher in the catalogue) or already-visited deployables."@,
            seq!["deployable_id"@], seq!["depth"@]),
        ("graph.deployment_plan"@,
            "What order should I deploy this stack in? Topologically sorts every deployable transitively required by the target so dependencies come first. Services with no publishing deployable in the catalogue are surfaced as external prerequisites. Cycles are reported as an error."@,
            seq!["deployable_id"@], Seq::empty()),
    ]
}

/// The graph tools Groundwork registers beside the catalog family.
pub fn custom_tools() -> (t: Vec<ToolSpec>)
    ensures
        t@.map_values(|s: ToolSpec| tool_view(s)) == graph_table(),
{
    let mut t: Vec<ToolSpec> = Vec::new();
    t.push(ToolSpec {
        name: "graph.blast_radius",
        description: "If this service goes down, which deployables \u{2014} and which services those deployables expose \u{2014} break, transitively? Walks reverse-dependency edges from the named service. Use this to assess the risk of taking a service down for maintenance, or to scope the impact of an outage.",
        required: vec!["service_id"],
        optional: vec!["depth"],
    });
    t.push(ToolSpec {
        name: "graph.dependencies_of",
        description: "What does this deployable consume? Walks forward through dependency edges from the named deployable, recursing through publishing deployables. Returns a tree where leaves are either external services (no publisher in the catalogue) or already-visited deployables.",
        required: vec!["deployable_id"],
        optional: vec!["depth"],
    });
    t.push(ToolSpec {
        name: "graph.deployment_plan",
        description: "What order should I deploy this stack in? Topologically sorts every deployable transitively required by the target so dependencies come first. Services with no publishing deployable in the catalogue are surfaced as external prerequisites. Cycles are reported as an error.",
        required: vec!["deployable_id"],
        optional: vec![],
    });
    assert(t@[0].required@.map_values(|a: &'static str| a@) =~= graph_table()[0].2);
    assert(t@[0].optional@.map_values(|a: &'static str| a@) =~= graph_table()[0].3);
    assert(t@[1].required@.map_values(|a: &'static str| a@) =~= graph_table()[1].2);
    assert(t@[1].optional@.map_values(|a: &'static str| a@) =~= graph_table()[1].3);
    assert(t@[2].required@.map_values(|a: &'static str| a@) =~= graph_table()[2].2);
    assert(t@[2].optional@.map_values(|a: &'static str| a@) =~= graph_table()[2].3);
    assert(t@.map_values(|s: ToolSpec| tool_view(s)) =~= graph_table());
    t
}

} // verus!
