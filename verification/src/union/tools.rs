//! Union's MCP tools: the people-and-work rollups.

use vstd::prelude::*;
use crate::cityhall::tools::{ToolSpec, tool_view};

verus! {

/// Union's tools, as the server lists them.
pub open spec fn union_tool_table() -> Seq<(Seq<char>, Seq<char>, Seq<Seq<char>>, Seq<Seq<char>>)> {
    seq![
        ("team.capacity"@,
            "How loaded is this team? Sums story points across the team's open (status != \"done\") work orders, alongside open work-order count and member count. Use this to gauge whether a team has bandwidth for new work."@,
            seq!["team_id"@], Seq::empty()),
        ("team.members"@,
            "Who is on this team? Resolves the Person records that belong to the team via TeamMember rows. Returns an array of Person envelopes (id + payload)."@,
            seq!["team_id"@], Seq::empty()),
        ("person.assignments"@,
            "What's on this person's plate? Finds the teams the person belongs to via TeamMember rows, then returns the open (status != \"done\") work orders across all of those teams. Returns an array of WorkOrder envelopes."@,
            seq!["person_id"@], Seq::empty()),
    ]
}

/// The tools Union registers beside the catalog family.
pub fn custom_tools() -> (t: Vec<ToolSpec>)
    ensures
        t@.map_values(|s: ToolSpec| tool_view(s)) == union_tool_table(),
{
    let mut t: Vec<ToolSpec> = Vec::new();
    t.push(ToolSpec {
        name: "team.capacity",
        description: "How loaded is this team? Sums story points across the team's open (status != \"done\") work orders, alongside open work-order count and member count. Use this to gauge whether a team has bandwidth for new work.",
        required: vec!["team_id"],
        optional: vec![],
    });
    t.push(ToolSpec {
        name: "team.members",
        description: "Who is on this team? Resolves the Person records that belong to the team via TeamMember rows. Returns an array of Person envelopes (id + payload).",
        required: vec!["team_id"],
        optional: vec![],
    });
    t.push(ToolSpec {
        name: "person.assignments",
        description: "What's on this person's plate? Finds the teams the person belongs to via TeamMember rows, then returns the open (status != \"done\") work orders across all of those teams. Returns an array of WorkOrder envelopes.",
        required: vec!["person_id"],
        optional: vec![],
    });
    assert(t@[0].required@.map_values(|a: &'static str| a@) =~= union_tool_table()[0].2);
    assert(t@[0].optional@.map_values(|a: &'static str| a@) =~= union_tool_table()[0].3);
    assert(t@[1].required@.map_values(|a: &'static str| a@) =~= union_tool_table()[1].2);
    assert(t@[1].optional@.map_values(|a: &'static str| a@) =~= union_tool_table()[1].3);
    assert(t@[2].required@.map_values(|a: &'static str| a@) =~= union_tool_table()[2].2);
    assert(t@[2].optional@.map_values(|a: &'static str| a@) =~= union_tool_table()[2].3);
    assert(t@.map_values(|s: ToolSpec| tool_view(s)) =~= union_tool_table());
    t
}

} // verus!
