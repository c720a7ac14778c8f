//! Cityhall's MCP tools: their table, and how a tool reads its arguments.

use vstd::prelude::*;
use crate::json::{JsonField, member_text, text_member};
use crate::text::{owned, append};

verus! {

/// A tool as the MCP server lists it: name, description, and the arguments
/// it requires and accepts.
#[derive(Debug, Clone)]
pub struct ToolSpec {
    pub name: &'static str,
    pub description: &'static str,
    pub required: Vec<&'static str>,
    pub optional: Vec<&'static str>,
}

/// The message for a missing or non-text argument.
pub open spec fn missing_arg_text(name: Seq<char>) -> Seq<char> {
    "missing '"@ + name + "' argument"@
}

/// Read the text argument `name`: its text, or an error naming it when it
/// is missing or not text.
pub fn required_string_arg(args: &Vec<(String, JsonField)>, name: &str) -> (r: Result<String, String>)
    ensures
        match r {
            Ok(s) => member_text(args@, name@) == Some(s@),
            Err(m) => member_text(args@, name@) is None && m@ == missing_arg_text(name@),
        },
{
    match text_member(args, name) {
        Some(s) => Ok(s),
        None => {
            let mut m = owned("missing '");
            append(&mut m, name);
            append(&mut m, "' argument");
            Err(m)
        },
    }
}

/// A tool's name, description, required and optional arguments.
pub open spec fn tool_view(s: ToolSpec) -> (Seq<char>, Seq<char>, Seq<Seq<char>>, Seq<Seq<char>>) {
    (
        s.name@,
        s.description@,
        s.required@.map_values(|a: &'static str| a@),
        s.optional@.map_values(|a: &'static str| a@),
    )
}

/// Cityhall's tools, as the server lists them.
pub open spec fn tool_table() -> Seq<(Seq<char>, Seq<char>, Seq<Seq<char>>, Seq<Seq<char>>)> {
    seq![
        ("org.ancestors"@,
            "Where in the org chart does this node sit? Returns the chain from the enterprise root down to (and including) the given node. Useful for building breadcrumbs or for reasoning about bylaw inheritance."@,
            seq!["org_node_id"@], Seq::empty()),
        ("org.effective_bylaws"@,
            "Which governance bylaws apply here? Returns the cascade of bylaws attached to this node and any ancestor \u{2014} the same resolution the plan compiler uses when evaluating gates for a deployment."@,
            seq!["org_node_id"@], Seq::empty()),
        ("change_request.plan"@,
            "Compile a DeploymentPlan for a ChangeRequest. Resolves the target deployables and their dependencies via Groundwork, applies effective bylaws as gates, and persists the resulting plan envelope. Returns the saved plan (id + payload with steps, blockers, computed_at)."@,
            seq!["change_request_id"@], seq!["tier"@]),
        ("deployment_plan.gantt"@,
            "Render a Mermaid Gantt chart for a DeploymentPlan and persist the GanttOutput envelope. Returns the saved gantt (id + payload.mermaid). Output is deterministic for a given plan."@,
            seq!["deployment_plan_id"@], Seq::empty()),
    ]
}

/// Cityhall's tools, in the order the server lists them.
pub fn custom_tools() -> (t: Vec<ToolSpec>)
    ensures
        t@.map_values(|s: ToolSpec| tool_view(s)) == tool_table(),
{
    let mut t: Vec<ToolSpec> = Vec::new();
    t.push(ToolSpec {
        name: "org.ancestors",
        description: "Where in the org chart does this node sit? Returns the chain from the enterprise root down to (and including) the given node. Useful for building breadcrumbs or for reasoning about bylaw inheritance.",
        required: vec!["org_node_id"],
        optional: vec![],
    });
    t.push(ToolSpec {
        name: "org.effective_bylaws",
        description: "Which governance bylaws apply here? Returns the cascade of bylaws attached to this node and any ancestor \u{2014} the same resolution the plan compiler uses when evaluating gates for a deployment.",
        required: vec!["org_node_id"],
        optional: vec![],
    });
    t.push(ToolSpec {
        name: "change_request.plan",
        description: "Compile a DeploymentPlan for a ChangeRequest. Resolves the target deployables and their dependencies via Groundwork, applies effective bylaws as gates, and persists the resulting plan envelope. Returns the saved plan (id + payload with steps, blockers, computed_at).",
        required: vec!["change_request_id"],
        optional: vec!["tier"],
    });
    t.push(ToolSpec {
        name: "deployment_plan.gantt",
        description: "Render a Mermaid Gantt chart for a DeploymentPlan and persist the GanttOutput envelope. Returns the saved gantt (id + payload.mermaid). Output is deterministic for a given plan.",
        required: vec!["deployment_plan_id"],
        optional: vec![],
    });
    assert(t@[0].required@.map_values(|a: &'static str| a@) =~= tool_table()[0].2);
    assert(t@[0].optional@.map_values(|a: &'static str| a@) =~= tool_table()[0].3);
    assert(t@[1].required@.map_values(|a: &'static str| a@) =~= tool_table()[1].2);
    assert(t@[1].optional@.map_values(|a: &'static str| a@) =~= tool_table()[1].3);
    assert(t@[2].required@.map_values(|a: &'static str| a@) =~= tool_table()[2].2);
    assert(t@[2].optional@.map_values(|a: &'static str| a@) =~= tool_table()[2].3);
    assert(t@[3].required@.map_values(|a: &'static str| a@) =~= tool_table()[3].2);
    assert(t@[3].optional@.map_values(|a: &'static str| a@) =~= tool_table()[3].3);
    assert(t@.map_values(|s: ToolSpec| tool_view(s)) =~= tool_table());
    t
}

} // verus!
