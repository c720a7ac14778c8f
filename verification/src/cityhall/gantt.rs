//! Mermaid Gantt rendering of a computed plan.
//!
//! The text is a function of the plan alone: `render_gantt` returns exactly
//! `gantt_text(plan)`, so the same plan always gives byte-identical output.

use vstd::prelude::*;
use crate::text::{views, join, join_with, append, owned, push_decimal, decimal};
use crate::cityhall::plan::{ComputedPlan, PlanStep};

verus! {

// ── specification ───────────────────────────────────────────────────────────

/// The first `k` of `os` that are below `cur`, in order.
pub open spec fn kept_orders(cur: int, os: Seq<usize>, k: int) -> Seq<usize>
    decreases k,
{
    if k <= 0 {
        Seq::empty()
    } else if os[k - 1] < cur {
        kept_orders(cur, os, k - 1).push(os[k - 1])
    } else {
        kept_orders(cur, os, k - 1)
    }
}

/// The task id of the step with the given order.
pub open spec fn step_ref(o: nat) -> Seq<char> {
    "step_"@ + decimal(o)
}

/// Task ids of the given step orders.
pub open spec fn step_refs(os: Seq<usize>) -> Seq<Seq<char>> {
    os.map_values(|o: usize| step_ref(o as nat))
}

/// The `after ...` anchor of a step with order `cur`: its predecessors that
/// come earlier in the chart, or the fixed origin when none does.
pub open spec fn predecessors_text(cur: usize, os: Seq<usize>) -> Seq<char> {
    let ks = kept_orders(cur as int, os, os.len() as int);
    if ks.len() == 0 {
        "after start"@
    } else {
        "after "@ + join(step_refs(ks), " "@)
    }
}

/// The milestone id of gate `gi` of the step with order `order`.
pub open spec fn gate_id(order: nat, gi: nat) -> Seq<char> {
    "gate_"@ + decimal(order) + "_"@ + decimal(gi)
}

/// The milestone line of gate `gi` of `st`.
pub open spec fn gate_line(st: PlanStep, gi: int) -> Seq<char> {
    "    "@ + st.gates@[gi].gate_type@ + " ("@ + st.gates@[gi].source_org_node@
        + ") :crit, milestone, "@ + gate_id(st.order as nat, gi as nat) + ", "@
        + predecessors_text(st.order, st.predecessor_orders@) + ", 0min\n"@
}

/// The milestone lines of the first `k` gates of `st`.
pub open spec fn gate_lines(st: PlanStep, k: int) -> Seq<char>
    decreases k,
{
    if k <= 0 {
        Seq::empty()
    } else {
        gate_lines(st, k - 1) + gate_line(st, k - 1)
    }
}

/// The milestone ids of all gates of `st`.
pub open spec fn gate_ids(st: PlanStep) -> Seq<Seq<char>> {
    Seq::new(st.gates@.len(), |gi: int| gate_id(st.order as nat, gi as nat))
}

/// What a step waits for: all of its gates, or else its predecessors.
pub open spec fn step_after(st: PlanStep) -> Seq<char> {
    if st.gates@.len() > 0 {
        "after "@ + join(gate_ids(st), " "@)
    } else {
        predecessors_text(st.order, st.predecessor_orders@)
    }
}

/// The task line of `st`.
pub open spec fn step_line(st: PlanStep) -> Seq<char> {
    "    "@ + st.action@ + " "@ + st.deployable_name@ + " :step_"@ + decimal(st.order as nat)
        + ", "@ + step_after(st) + ", "@ + decimal(st.estimated_minutes as nat) + "min\n"@
}

/// A step's gate milestones followed by its task line.
pub open spec fn step_block(st: PlanStep) -> Seq<char> {
    gate_lines(st, st.gates@.len() as int) + step_line(st)
}

/// The blocks of the first `k` steps whose deployable is named `name`.
pub open spec fn section_body(steps: Seq<PlanStep>, name: Seq<char>, k: int) -> Seq<char>
    decreases k,
{
    if k <= 0 {
        Seq::empty()
    } else if steps[k - 1].deployable_name@ == name {
        section_body(steps, name, k - 1) + step_block(steps[k - 1])
    } else {
        section_body(steps, name, k - 1)
    }
}

/// The deployable names of the first `k` steps, each once, in order of
/// first appearance.
pub open spec fn section_names(steps: Seq<PlanStep>, k: int) -> Seq<Seq<char>>
    decreases k,
{
    if k <= 0 {
        Seq::empty()
    } else {
        let p = section_names(steps, k - 1);
        if p.contains(steps[k - 1].deployable_name@) {
            p
        } else {
            p.push(steps[k - 1].deployable_name@)
        }
    }
}

/// The first `j` sections, each a header and its steps' blocks.
pub open spec fn sections_text(steps: Seq<PlanStep>, names: Seq<Seq<char>>, j: int) -> Seq<char>
    decreases j,
{
    if j <= 0 {
        Seq::empty()
    } else {
        sections_text(steps, names, j - 1) + "    section "@ + names[j - 1] + "\n"@
            + section_body(steps, names[j - 1], steps.len() as int)
    }
}

/// The chart's header lines.
pub open spec fn gantt_header(plan: ComputedPlan) -> Seq<char> {
    "gantt\n"@ + "    title ChangeRequest "@ + plan.change_request_summary@ + " \u{2014} "@ + plan.tier@
        + "\n"@ + "    dateFormat HH:mm\n"@ + "    axisFormat %H:%M\n"@
}

/// The whole chart.
pub open spec fn gantt_text(plan: ComputedPlan) -> Seq<char> {
    let steps = plan.steps@;
    let names = section_names(steps, steps.len() as int);
    gantt_header(plan) + sections_text(steps, names, names.len() as int)
}

// ── laws ────────────────────────────────────────────────────────────────────

/// Every predecessor kept in a step's anchor comes earlier in the chart: a
/// forward reference (as left by a dependency cycle) is dropped.
pub proof fn lemma_no_forward_refs(cur: usize, os: Seq<usize>, k: int)
    requires
        0 <= k <= os.len(),
    ensures
        forall|a: int| 0 <= a < kept_orders(cur as int, os, k).len()
            ==> #[trigger] kept_orders(cur as int, os, k)[a] < cur,
        forall|q: int| 0 <= q < k && os[q] < cur ==> kept_orders(cur as int, os, k).contains(#[trigger] os[q]),
    decreases k,
{
    if k > 0 {
        lemma_no_forward_refs(cur, os, k - 1);
        let p = kept_orders(cur as int, os, k - 1);
        if os[k - 1] < cur {
            assert(kept_orders(cur as int, os, k) == p.push(os[k - 1]));
            assert(kept_orders(cur as int, os, k)[p.len() as int] == os[k - 1]);
            assert forall|q: int| 0 <= q < k && os[q] < cur implies kept_orders(cur as int, os, k).contains(
                #[trigger] os[q],
            ) by {
                if q < k - 1 {
                    let w = choose|w: int| 0 <= w < p.len() && p[w] == os[q];
                    assert(kept_orders(cur as int, os, k)[w] == os[q]);
                }
            }
        }
    }
}

/// Each deployable heads exactly one section: the section names are
/// distinct, and every step's deployable has one.
pub proof fn lemma_sections_distinct(steps: Seq<PlanStep>, k: int)
    requires
        0 <= k <= steps.len(),
    ensures
        forall|a: int, b: int|
            0 <= a < b < section_names(steps, k).len() ==> section_names(steps, k)[a] != section_names(
                steps,
                k,
            )[b],
        forall|q: int| 0 <= q < k ==> section_names(steps, k).contains(#[trigger] steps[q].deployable_name@),
    decreases k,
{
    if k > 0 {
        lemma_sections_distinct(steps, k - 1);
        let p = section_names(steps, k - 1);
        let n = steps[k - 1].deployable_name@;
        if !p.contains(n) {
            let s = p.push(n);
            assert(section_names(steps, k) == s);
            assert forall|q: int| 0 <= q < k implies s.contains(#[trigger] steps[q].deployable_name@) by {
                if q < k - 1 {
                    let w = choose|w: int| 0 <= w < p.len() && p[w] == steps[q].deployable_name@;
                    assert(s[w] == steps[q].deployable_name@);
                } else {
                    assert(s[p.len() as int] == n);
                }
            }
        }
    }
}

/// The chart depends on the plan alone: equal plans give identical text.
pub proof fn lemma_gantt_deterministic(a: ComputedPlan, b: ComputedPlan)
    requires
        a.change_request_summary@ == b.change_request_summary@,
        a.tier@ == b.tier@,
        a.steps@ == b.steps@,
    ensures
        gantt_text(a) == gantt_text(b),
{
}

// ── rendering ───────────────────────────────────────────────────────────────

/// The `after ...` anchor for a step with order `current_order` whose
/// dependencies are the steps `orders`.
pub fn format_predecessors(current_order: usize, orders: &[usize]) -> (s: String)
    ensures
        s@ == predecessors_text(current_order, orders@),
{
    let mut refs: Vec<String> = Vec::new();
    let mut i: usize = 0;
    while i < orders.len()
        invariant
            i <= orders@.len(),
            views(refs@) == step_refs(kept_orders(current_order as int, orders@, i as int)),
        decreases orders@.len() - i,
    {
        let o = orders[i];
        if o < current_order {
            let mut r = owned("step_");
            push_decimal(&mut r, o as u64);
            let ghost before = views(refs@);
            let ghost ks = kept_orders(current_order as int, orders@, i as int);
            refs.push(r);
            assert(step_refs(ks.push(o)) =~= step_refs(ks).push(step_ref(o as nat)));
            assert(views(refs@) =~= before.push(r@));
        }
        i = i + 1;
    }
    let ghost ks = kept_orders(current_order as int, orders@, orders@.len() as int);
    if refs.len() == 0 {
        assert(ks.len() == 0) by {
            assert(views(refs@).len() == ks.len());
        }
        owned("after start")
    } else {
        assert(ks.len() > 0) by {
            assert(views(refs@).len() == ks.len());
        }
        let mut s = owned("after ");
        let joined = join_with(&refs, " ");
        append(&mut s, joined.as_str());
        s
    }
}

/// The milestone id of gate `gi` of the step with order `order`.
fn gate_id_string(order: usize, gi: usize) -> (s: String)
    ensures
        s@ == gate_id(order as nat, gi as nat),
{
    let mut s = owned("gate_");
    push_decimal(&mut s, order as u64);
    append(&mut s, "_");
    push_decimal(&mut s, gi as u64);
    s
}

/// Appends the milestone lines of `st`'s gates.
fn push_gate_lines(out: &mut String, st: &PlanStep)
    ensures
        final(out)@ == old(out)@ + gate_lines(*st, st.gates@.len() as int),
{
    let after = format_predecessors(st.order, st.predecessor_orders.as_slice());
    let ghost o0 = out@;
    let mut gi: usize = 0;
    while gi < st.gates.len()
        invariant
            gi <= st.gates@.len(),
            after@ == predecessors_text(st.order, st.predecessor_orders@),
            out@ == o0 + gate_lines(*st, gi as int),
        decreases st.gates@.len() - gi,
    {
        let g = &st.gates[gi];
        let ghost before = out@;
        append(out, "    ");
        append(out, g.gate_type.as_str());
        append(out, " (");
        append(out, g.source_org_node.as_str());
        append(out, ") :crit, milestone, ");
        let id = gate_id_string(st.order, gi);
        append(out, id.as_str());
        append(out, ", ");
        append(out, after.as_str());
        append(out, ", 0min\n");
        assert(out@ =~= before + gate_line(*st, gi as int));
        gi = gi + 1;
    }
}

/// What `st` waits for.
fn step_after_string(st: &PlanStep) -> (s: String)
    ensures
        s@ == step_after(*st),
{
    if st.gates.len() > 0 {
        let mut ids: Vec<String> = Vec::new();
        let mut gi: usize = 0;
        while gi < st.gates.len()
            invariant
                gi <= st.gates@.len(),
                views(ids@) == gate_ids(*st).take(gi as int),
            decreases st.gates@.len() - gi,
        {
            let id = gate_id_string(st.order, gi);
            let ghost before = views(ids@);
            ids.push(id);
            assert(views(ids@) =~= before.push(id@));
            assert(gate_ids(*st)[gi as int] == id@);
            assert(views(ids@) =~= gate_ids(*st).take(gi + 1));
            gi = gi + 1;
        }
        assert(gate_ids(*st).take(st.gates@.len() as int) =~= gate_ids(*st));
        let mut s = owned("after ");
        let joined = join_with(&ids, " ");
        append(&mut s, joined.as_str());
        s
    } else {
        format_predecessors(st.order, st.predecessor_orders.as_slice())
    }
}

/// Appends `st`'s gate milestones and task line.
fn push_step_block(out: &mut String, st: &PlanStep)
    ensures
        final(out)@ == old(out)@ + step_block(*st),
{
    let ghost o0 = out@;
    push_gate_lines(out, st);
    let ghost o1 = out@;
    let after = step_after_string(st);
    append(out, "    ");
    append(out, st.action.as_str());
    append(out, " ");
    append(out, st.deployable_name.as_str());
    append(out, " :step_");
    push_decimal(out, st.order as u64);
    append(out, ", ");
    append(out, after.as_str());
    append(out, ", ");
    push_decimal(out, st.estimated_minutes as u64);
    append(out, "min\n");
    assert(out@ =~= o1 + step_line(*st));
}

/// The section names of `steps`, in order of first appearance.
fn section_name_list(steps: &Vec<PlanStep>) -> (names: Vec<String>)
    ensures
        views(names@) == section_names(steps@, steps@.len() as int),
{
    let mut names: Vec<String> = Vec::new();
    let mut i: usize = 0;
    while i < steps.len()
        invariant
            i <= steps@.len(),
            views(names@) == section_names(steps@, i as int),
        decreases steps@.len() - i,
    {
        let n = &steps[i].deployable_name;
        let mut found = false;
        let mut q: usize = 0;
        while q < names.len()
            invariant
                q <= names@.len(),
                found <==> exists|w: int| 0 <= w < q && #[trigger] views(names@)[w] == n@,
            decreases names@.len() - q,
        {
            assert(views(names@)[q as int] == names@[q as int]@);
            if names[q] == *n {
                found = true;
            }
            q = q + 1;
        }
        assert(found == views(names@).contains(n@));
        if !found {
            let ghost before = views(names@);
            names.push(n.clone());
            assert(views(names@) =~= before.push(n@));
        }
        i = i + 1;
    }
    names
}

/// Appends the steps of section `name`.
fn push_section_body(out: &mut String, steps: &Vec<PlanStep>, name: &String)
    ensures
        final(out)@ == old(out)@ + section_body(steps@, name@, steps@.len() as int),
{
    let ghost o0 = out@;
    let mut i: usize = 0;
    while i < steps.len()
        invariant
            i <= steps@.len(),
            out@ == o0 + section_body(steps@, name@, i as int),
        decreases steps@.len() - i,
    {
        if steps[i].deployable_name == *name {
            let ghost before = out@;
            push_step_block(out, &steps[i]);
            assert(out@ =~= o0 + section_body(steps@, name@, i + 1));
        }
        i = i + 1;
    }
}

/// Render a Mermaid Gantt chart of the plan: a header, then one section per
/// deployable in order of first appearance, each step preceded by a
/// milestone per gate.
pub fn render_gantt(plan: &ComputedPlan) -> (out: String)
    ensures
        out@ == gantt_text(*plan),
{
    let mut out = owned("gantt\n");
    append(&mut out, "    title ChangeRequest ");
    append(&mut out, plan.change_request_summary.as_str());
    append(&mut out, " \u{2014} ");
    append(&mut out, plan.tier.as_str());
    append(&mut out, "\n");
    append(&mut out, "    dateFormat HH:mm\n");
    append(&mut out, "    axisFormat %H:%M\n");
    let ghost head = out@;
    assert(head =~= gantt_header(*plan));
    let names = section_name_list(&plan.steps);
    let mut j: usize = 0;
    while j < names.len()
        invariant
            j <= names@.len(),
            views(names@) == section_names(plan.steps@, plan.steps@.len() as int),
            out@ == head + sections_text(plan.steps@, views(names@), j as int),
        decreases names@.len() - j,
    {
        let ghost before = out@;
        append(&mut out, "    section ");
        append(&mut out, names[j].as_str());
        append(&mut out, "\n");
        push_section_body(&mut out, &plan.steps, &names[j]);
        assert(views(names@)[j as int] == names@[j as int]@);
        assert(out@ =~= head + sections_text(plan.steps@, views(names@), j + 1));
        j = j + 1;
    }
    out
}

} // verus!
