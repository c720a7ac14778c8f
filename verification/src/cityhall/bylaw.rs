//! Bylaws and their layering along the org hierarchy: the checks on
//! OrgNode and Bylaw payloads, the walk up an OrgNode's ancestors, and the
//! bylaws in effect along that chain.

use vstd::prelude::*;
use crate::text::{str_debug, debug_text, trim, join, views, opt_view, owned, append, trimmed, join_with, eq_str};

verus! {

/// One resolved bylaw, with its source OrgNode along the ancestor chain.
#[derive(Debug, Clone)]
pub struct EffectiveBylaw {
    pub bylaw_id: String,
    pub org_node_id: String,
    pub org_node_name: String,
    pub gate_type: String,
    pub priority: Option<String>,
    pub description: Option<String>,
    pub conditions: Option<String>,
    pub window: Option<String>,
    pub quiesce_for: Option<String>,
    pub approvers: Option<String>,
}

// ── payloads ────────────────────────────────────────────────────────────────

/// A payload field's value as the checks read it: text, or anything else
/// (a number, a boolean, null, a nested value).
#[derive(Debug, Clone)]
pub enum FieldValue {
    Text(String),
    Other,
}

/// An entity payload: its fields in order, each name once.
#[derive(Debug, Clone)]
pub struct Payload {
    pub fields: Vec<(String, FieldValue)>,
}

/// Index of the first field named `name` at `k` or later, or -1.
pub open spec fn field_index(fields: Seq<(String, FieldValue)>, name: Seq<char>, k: int) -> int
    decreases fields.len() - k,
{
    if k < 0 || k >= fields.len() {
        -1
    } else if fields[k].0@ == name {
        k
    } else {
        field_index(fields, name, k + 1)
    }
}

/// Whether the payload has a field named `name`.
pub open spec fn has_field(p: Payload, name: Seq<char>) -> bool {
    field_index(p.fields@, name, 0) >= 0
}

/// The text of field `name`, when it is present and holds text.
pub open spec fn text_of(p: Payload, name: Seq<char>) -> Option<Seq<char>> {
    let i = field_index(p.fields@, name, 0);
    if i >= 0 {
        match p.fields@[i].1 {
            FieldValue::Text(s) => Some(s@),
            FieldValue::Other => None,
        }
    } else {
        None
    }
}

/// The text of field `name`, or empty.
pub open spec fn text_or_empty(p: Payload, name: Seq<char>) -> Seq<char> {
    match text_of(p, name) {
        Some(s) => s,
        None => Seq::empty(),
    }
}

/// Field `name` holds text that is not blank.
pub open spec fn filled(p: Payload, name: Seq<char>) -> bool {
    match text_of(p, name) {
        Some(s) => trim(s).len() > 0,
        None => false,
    }
}

impl Payload {
    /// Where field `name` is.
    fn find(&self, name: &str) -> (r: Option<usize>)
        ensures
            match r {
                Some(i) => i as int == field_index(self.fields@, name@, 0) && i < self.fields@.len(),
                None => field_index(self.fields@, name@, 0) == -1,
            },
    {
        let mut k: usize = 0;
        while k < self.fields.len()
            invariant
                k <= self.fields@.len(),
                field_index(self.fields@, name@, 0) == field_index(self.fields@, name@, k as int),
            decreases self.fields@.len() - k,
        {
            if eq_str(self.fields[k].0.as_str(), name) {
                return Some(k);
            }
            k = k + 1;
        }
        None
    }

    /// Whether field `name` is present, whatever it holds.
    pub fn has(&self, name: &str) -> (r: bool)
        ensures
            r == has_field(*self, name@),
    {
        self.find(name).is_some()
    }

    /// The text of field `name`, when present and text.
    pub fn text(&self, name: &str) -> (r: Option<String>)
        ensures
            opt_view(r) == text_of(*self, name@),
    {
        match self.find(name) {
            Some(i) => match &self.fields[i].1 {
                FieldValue::Text(s) => Some(s.clone()),
                FieldValue::Other => None,
            },
            None => None,
        }
    }

    /// The text of field `name`, or empty.
    pub fn text_or_empty(&self, name: &str) -> (r: String)
        ensures
            r@ == text_or_empty(*self, name@),
    {
        match self.text(name) {
            Some(s) => s,
            None => String::new(),
        }
    }

    /// Whether field `name` holds text that is not blank.
    pub fn filled(&self, name: &str) -> (r: bool)
        ensures
            r == filled(*self, name@),
    {
        match self.text(name) {
            Some(s) => {
                let t = trimmed(s.as_str());
                !t.as_str().is_empty()
            },
            None => false,
        }
    }
}

// ── the generic check ───────────────────────────────────────────────────────

/// What a JSON schema asks of a payload: its required fields, and the
/// fields restricted to a list of values (in the schema's key order).
#[derive(Debug, Clone)]
pub struct SchemaRules {
    pub required: Vec<String>,
    pub enums: Vec<(String, Vec<String>)>,
}

/// The message for a field whose value is not one of those allowed, given
/// the `{:?}` texts of the allowed values and of the value.
pub open spec fn enum_message_text(field: Seq<char>, allowed_debug: Seq<Seq<char>>, got_debug: Seq<char>) -> Seq<char> {
    "Field '"@ + field + "' must be one of ["@ + join(allowed_debug, ", "@) + "], got "@ + got_debug
}

/// The first failure among the first `k` required fields, if any.
pub open spec fn required_failure(p: Payload, req: Seq<String>, k: int) -> Option<Seq<char>>
    decreases k,
{
    if k <= 0 {
        None
    } else {
        match required_failure(p, req, k - 1) {
            Some(m) => Some(m),
            None => {
                let f = req[k - 1]@;
                if !has_field(p, f) {
                    Some("Required field '"@ + f + "' is missing"@)
                } else if text_of(p, f) matches Some(s) && trim(s).len() == 0 {
                    Some("Required field '"@ + f + "' cannot be empty"@)
                } else {
                    None
                }
            },
        }
    }
}

/// The first failure among the first `k` restricted fields, if any: a text
/// value that is not allowed.
pub open spec fn enum_failure(p: Payload, enums: Seq<(String, Vec<String>)>, k: int) -> Option<Seq<char>>
    decreases k,
{
    if k <= 0 {
        None
    } else {
        match enum_failure(p, enums, k - 1) {
            Some(m) => Some(m),
            None => {
                let f = enums[k - 1].0@;
                let allowed = views(enums[k - 1].1@);
                match text_of(p, f) {
                    Some(v) => if allowed.contains(v) {
                        None
                    } else {
                        Some(enum_message_text(f, allowed.map_values(|a: Seq<char>| str_debug(a)), str_debug(v)))
                    },
                    None => None,
                }
            },
        }
    }
}

/// The outcome of the generic check: the first required-field failure,
/// else the first restricted-value failure, else none.
pub open spec fn base_failure(rules: SchemaRules, p: Payload) -> Option<Seq<char>> {
    match required_failure(p, rules.required@, rules.required@.len() as int) {
        Some(m) => Some(m),
        None => enum_failure(p, rules.enums@, rules.enums@.len() as int),
    }
}

/// An error message's text, or none for success.
pub open spec fn failure_of(r: Result<(), String>) -> Option<Seq<char>> {
    match r {
        Ok(_) => None,
        Err(m) => Some(m@),
    }
}

/// The message for a value that is not allowed, from the `{:?}` texts of
/// the allowed values and of the value.
pub fn enum_message(field: &str, allowed_debug: &Vec<String>, got_debug: &str) -> (m: String)
    ensures
        m@ == enum_message_text(field@, views(allowed_debug@), got_debug@),
{
    let mut m = owned("Field '");
    append(&mut m, field);
    append(&mut m, "' must be one of [");
    let j = join_with(allowed_debug, ", ");
    append(&mut m, j.as_str());
    append(&mut m, "], got ");
    append(&mut m, got_debug);
    m
}

proof fn lemma_required_failure_sticks(p: Payload, req: Seq<String>, k: int, n: int)
    requires
        0 <= k <= n,
    ensures
        required_failure(p, req, k) is Some ==> required_failure(p, req, n) == required_failure(p, req, k),
    decreases n - k,
{
    if k < n {
        lemma_required_failure_sticks(p, req, k, n - 1);
    }
}

proof fn lemma_enum_failure_sticks(p: Payload, enums: Seq<(String, Vec<String>)>, k: int, n: int)
    requires
        0 <= k <= n,
    ensures
        enum_failure(p, enums, k) is Some ==> enum_failure(p, enums, n) == enum_failure(p, enums, k),
    decreases n - k,
{
    if k < n {
        lemma_enum_failure_sticks(p, enums, k, n - 1);
    }
}

/// The generic check of a payload against its schema: every required
/// field present and, when text, not blank; every restricted field, when
/// text, one of its allowed values.
pub fn check_base_schema(rules: &SchemaRules, payload: &Payload) -> (r: Result<(), String>)
    ensures
        failure_of(r) == base_failure(*rules, *payload),
{
    let mut k: usize = 0;
    while k < rules.required.len()
        invariant
            k <= rules.required@.len(),
            required_failure(*payload, rules.required@, k as int) is None,
        decreases rules.required@.len() - k,
    {
        let f = &rules.required[k];
        match payload.find(f.as_str()) {
            None => {
                let mut m = owned("Required field '");
                append(&mut m, f.as_str());
                append(&mut m, "' is missing");
                proof {
                    lemma_required_failure_sticks(*payload, rules.required@, k + 1, rules.required@.len() as int);
                }
                return Err(m);
            },
            Some(i) => {
                let blank = match &payload.fields[i].1 {
                    FieldValue::Text(s) => {
                        let t = trimmed(s.as_str());
                        t.as_str().is_empty()
                    },
                    FieldValue::Other => false,
                };
                if blank {
                    let mut m = owned("Required field '");
                    append(&mut m, f.as_str());
                    append(&mut m, "' cannot be empty");
                    proof {
                        lemma_required_failure_sticks(*payload, rules.required@, k + 1, rules.required@.len() as int);
                    }
                    return Err(m);
                }
            },
        }
        k = k + 1;
    }
    let mut k: usize = 0;
    while k < rules.enums.len()
        invariant
            k <= rules.enums@.len(),
            required_failure(*payload, rules.required@, rules.required@.len() as int) is None,
            enum_failure(*payload, rules.enums@, k as int) is None,
        decreases rules.enums@.len() - k,
    {
        let f = &rules.enums[k].0;
        let allowed = &rules.enums[k].1;
        match payload.text(f.as_str()) {
            Some(v) => {
                let mut ok = false;
                let mut a: usize = 0;
                while a < allowed.len()
                    invariant
                        a <= allowed@.len(),
                        ok <==> exists|q: int| 0 <= q < a && #[trigger] views(allowed@)[q] == v@,
                    decreases allowed@.len() - a,
                {
                    assert(views(allowed@)[a as int] == allowed@[a as int]@);
                    if eq_str(allowed[a].as_str(), v.as_str()) {
                        ok = true;
                    }
                    a = a + 1;
                }
                if !ok {
                    let mut ds: Vec<String> = Vec::new();
                    let mut a: usize = 0;
                    while a < allowed.len()
                        invariant
                            a <= allowed@.len(),
                            ds@.len() == a,
                            forall|q: int| 0 <= q < a ==> (#[trigger] ds@[q])@ == str_debug(allowed@[q]@),
                        decreases allowed@.len() - a,
                    {
                        let d = debug_text(allowed[a].as_str());
                        ds.push(d);
                        a = a + 1;
                    }
                    assert(views(ds@) =~= views(allowed@).map_values(|x: Seq<char>| str_debug(x)));
                    proof {
                        lemma_enum_failure_sticks(*payload, rules.enums@, k + 1, rules.enums@.len() as int);
                    }
                    let got = debug_text(v.as_str());
                    return Err(enum_message(f.as_str(), &ds, got.as_str()));
                }
            },
            None => {},
        }
        k = k + 1;
    }
    Ok(())
}

// ── OrgNode and Bylaw checks ────────────────────────────────────────────────

/// The OrgNode rule beyond the schema: an enterprise has no `parent_id`
/// field at all, every other kind has one holding non-blank text.
pub open spec fn org_node_failure(p: Payload) -> Option<Seq<char>> {
    let kind = text_or_empty(p, "kind"@);
    if kind == "enterprise"@ {
        if has_field(p, "parent_id"@) { Some("Enterprise OrgNode must not have a parent_id"@) } else { None }
    } else if !filled(p, "parent_id"@) {
        Some("OrgNode kind '"@ + kind + "' must have a parent_id"@)
    } else {
        None
    }
}

/// The field a bylaw's gate type requires, if any.
pub open spec fn gate_need(gate_type: Seq<char>) -> Option<Seq<char>> {
    if gate_type == "WindowGate"@ || gate_type == "FreezePeriod"@ {
        Some("window"@)
    } else if gate_type == "QuiesceGate"@ {
        Some("quiesce_for"@)
    } else if gate_type == "ApprovalGate"@ {
        Some("approvers"@)
    } else {
        None
    }
}

/// The Bylaw rule beyond the schema: the field its gate type requires
/// holds non-blank text.
pub open spec fn bylaw_failure(p: Payload) -> Option<Seq<char>> {
    let gt = text_or_empty(p, "gate_type"@);
    match gate_need(gt) {
        Some(f) => if filled(p, f) {
            None
        } else {
            Some("Bylaw gate_type '"@ + gt + "' requires field '"@ + f + "'"@)
        },
        None => None,
    }
}

/// Check an OrgNode payload: the schema, then the parent rule.
pub fn check_org_node(rules: &SchemaRules, payload: &Payload) -> (r: Result<(), String>)
    ensures
        failure_of(r) == match base_failure(*rules, *payload) {
            Some(m) => Some(m),
            None => org_node_failure(*payload),
        },
{
    match check_base_schema(rules, payload) {
        Err(m) => return Err(m),
        Ok(()) => {},
    }
    let kind = payload.text_or_empty("kind");
    if eq_str(kind.as_str(), "enterprise") {
        if payload.has("parent_id") {
            Err(owned("Enterprise OrgNode must not have a parent_id"))
        } else {
            Ok(())
        }
    } else if !payload.filled("parent_id") {
        let mut m = owned("OrgNode kind '");
        append(&mut m, kind.as_str());
        append(&mut m, "' must have a parent_id");
        Err(m)
    } else {
        Ok(())
    }
}

/// Check a Bylaw payload: the schema, then the field its gate type needs.
pub fn check_bylaw(rules: &SchemaRules, payload: &Payload) -> (r: Result<(), String>)
    ensures
        failure_of(r) == match base_failure(*rules, *payload) {
            Some(m) => Some(m),
            None => bylaw_failure(*payload),
        },
{
    match check_base_schema(rules, payload) {
        Err(m) => return Err(m),
        Ok(()) => {},
    }
    let gt = payload.text_or_empty("gate_type");
    let field: &str = if eq_str(gt.as_str(), "WindowGate") || eq_str(gt.as_str(), "FreezePeriod") {
        "window"
    } else if eq_str(gt.as_str(), "QuiesceGate") {
        "quiesce_for"
    } else if eq_str(gt.as_str(), "ApprovalGate") {
        "approvers"
    } else {
        return Ok(());
    };
    if payload.filled(field) {
        Ok(())
    } else {
        let mut m = owned("Bylaw gate_type '");
        append(&mut m, gt.as_str());
        append(&mut m, "' requires field '");
        append(&mut m, field);
        append(&mut m, "'");
        Err(m)
    }
}

// ── the ancestor chain ──────────────────────────────────────────────────────

/// What the resolver reads of an OrgNode: its id, and its name, parent and
/// team fields as text (empty, or none for the team, when absent).
#[derive(Debug, Clone)]
pub struct OrgNodeRecord {
    pub id: String,
    pub name: String,
    pub parent_id: String,
    pub team_id: Option<String>,
}

/// The pairs read after the answer `node`: the node joins them.
pub open spec fn visited_after(v: Seq<(Seq<char>, Seq<char>)>, node: Option<OrgNodeRecord>) -> Seq<(Seq<char>, Seq<char>)> {
    match node {
        Some(n) => v.push((n.id@, n.name@)),
        None => v,
    }
}

/// The id to read after the answer `node`: its parent, if it names one.
pub open spec fn cursor_after(node: Option<OrgNodeRecord>) -> Option<Seq<char>> {
    match node {
        Some(n) => if n.parent_id@.len() == 0 { None } else { Some(n.parent_id@) },
        None => None,
    }
}

/// The walk up an OrgNode's ancestors: whoever can read OrgNodes asks
/// [`AncestorWalk::next_request`] which id to read, and hands the answer to
/// [`AncestorWalk::receive`]. The walk ends at a node without a parent or
/// at an id that cannot be read.
pub struct AncestorWalk {
    chain: Vec<(String, String)>,
    cursor: Option<String>,
}

impl AncestorWalk {
    /// The (id, name) pairs read so far, leaf first.
    pub closed spec fn visited(&self) -> Seq<(Seq<char>, Seq<char>)> {
        self.chain@.map_values(|p: (String, String)| (p.0@, p.1@))
    }

    /// The id to read next, if the walk goes on.
    pub closed spec fn cursor(&self) -> Option<Seq<char>> {
        opt_view(self.cursor)
    }

    /// Start at `start_id`.
    pub fn new(start_id: &str) -> (w: AncestorWalk)
        ensures
            w.visited() == Seq::<(Seq<char>, Seq<char>)>::empty(),
            w.cursor() == Some(start_id@),
    {
        let w = AncestorWalk { chain: Vec::new(), cursor: Some(start_id.to_owned()) };
        assert(w.visited() =~= Seq::<(Seq<char>, Seq<char>)>::empty());
        w
    }

    /// The id to read next; none when the walk is over.
    pub fn next_request(&self) -> (r: Option<String>)
        ensures
            opt_view(r) == self.cursor(),
    {
        match &self.cursor {
            Some(c) => Some(c.clone()),
            None => None,
        }
    }

    /// Take the answer for the requested id: the node, or none when it
    /// could not be read. A node joins the chain and its parent, if any, is
    /// read next.
    pub fn receive(&mut self, node: Option<OrgNodeRecord>)
        ensures
            final(self).visited() == visited_after(old(self).visited(), node),
            final(self).cursor() == cursor_after(node),
    {
        match node {
            Some(n) => {
                let ghost v0 = self.visited();
                self.chain.push((n.id, n.name));
                assert(self.visited() =~= v0.push((n.id@, n.name@)));
                if n.parent_id.as_str().is_empty() {
                    self.cursor = None;
                } else {
                    self.cursor = Some(n.parent_id);
                }
            },
            None => {
                self.cursor = None;
            },
        }
    }

    /// The chain, root first.
    pub fn into_chain(self) -> (c: Vec<(String, String)>)
        ensures
            c@.map_values(|p: (String, String)| (p.0@, p.1@)) == self.visited().reverse(),
    {
        let n = self.chain.len();
        let mut c: Vec<(String, String)> = Vec::new();
        let mut k: usize = n;
        let ghost v = self.visited();
        while k > 0
            invariant
                k <= n,
                n == self.chain@.len(),
                v == self.visited(),
                c@.len() == n - k,
                forall|q: int| 0 <= q < n - k ==> (#[trigger] c@[q]).0@ == v[n - 1 - q].0 && c@[q].1@ == v[n - 1 - q].1,
            decreases k,
        {
            let p = (self.chain[k - 1].0.clone(), self.chain[k - 1].1.clone());
            c.push(p);
            k = k - 1;
        }
        assert(c@.map_values(|p: (String, String)| (p.0@, p.1@)) =~= v.reverse());
        c
    }
}

/// The (id, name) pairs read walking up from `id` in `store` for at most
/// `n` reads, leaf first: a read that finds nothing, or a node without a
/// parent, ends the climb.
pub open spec fn climb(store: spec_fn(Seq<char>) -> Option<OrgNodeRecord>, id: Seq<char>, n: nat) -> Seq<
    (Seq<char>, Seq<char>),
>
    decreases n,
{
    if n == 0 {
        Seq::empty()
    } else {
        match store(id) {
            None => Seq::empty(),
            Some(r) => seq![(r.id@, r.name@)] + if r.parent_id@.len() == 0 {
                Seq::empty()
            } else {
                climb(store, r.parent_id@, (n - 1) as nat)
            },
        }
    }
}

/// The id the climb from `id` reads after `n` reads; none once it ended.
pub open spec fn climb_rest(store: spec_fn(Seq<char>) -> Option<OrgNodeRecord>, id: Seq<char>, n: nat) -> Option<
    Seq<char>,
>
    decreases n,
{
    if n == 0 {
        Some(id)
    } else {
        match store(id) {
            None => None,
            Some(r) => if r.parent_id@.len() == 0 {
                None
            } else {
                climb_rest(store, r.parent_id@, (n - 1) as nat)
            },
        }
    }
}

/// The pairs one read of `c` adds.
pub open spec fn read_of(store: spec_fn(Seq<char>) -> Option<OrgNodeRecord>, c: Option<Seq<char>>) -> Seq<
    (Seq<char>, Seq<char>),
> {
    match c {
        None => Seq::empty(),
        Some(x) => match store(x) {
            None => Seq::empty(),
            Some(r) => seq![(r.id@, r.name@)],
        },
    }
}

/// Where the climb goes after one read of `c`.
pub open spec fn after_read(store: spec_fn(Seq<char>) -> Option<OrgNodeRecord>, c: Option<Seq<char>>) -> Option<
    Seq<char>,
> {
    match c {
        None => None,
        Some(x) => match store(x) {
            None => None,
            Some(r) => if r.parent_id@.len() == 0 { None } else { Some(r.parent_id@) },
        },
    }
}

proof fn lemma_climb_one_more(store: spec_fn(Seq<char>) -> Option<OrgNodeRecord>, id: Seq<char>, n: nat)
    ensures
        climb(store, id, n + 1) == climb(store, id, n) + read_of(store, climb_rest(store, id, n)),
        climb_rest(store, id, n + 1) == after_read(store, climb_rest(store, id, n)),
    decreases n,
{
    if n == 0 {
        if let Some(r) = store(id) {
            if r.parent_id@.len() != 0 {
                assert(climb(store, r.parent_id@, 0) == Seq::<(Seq<char>, Seq<char>)>::empty());
                assert(climb_rest(store, r.parent_id@, 0) == Some(r.parent_id@));
            }
        }
        assert(climb(store, id, 1) =~= climb(store, id, 0) + read_of(store, Some(id)));
    } else {
        if let Some(r) = store(id) {
            if r.parent_id@.len() != 0 {
                lemma_climb_one_more(store, r.parent_id@, (n - 1) as nat);
                assert(climb(store, id, n + 1) =~= climb(store, id, n) + read_of(store, climb_rest(store, id, n)));
            } else {
                assert(climb(store, id, n + 1) =~= climb(store, id, n));
            }
        }
    }
}

/// Answering each request of an [`AncestorWalk`] with what the store holds
/// for the requested id makes the walk read the store's climb: a walk from
/// `start` that has read the first `n` steps of the climb, and whose
/// request is answered with the store's node, has read the first `n + 1`.
pub proof fn lemma_store_answers_follow_the_climb(
    store: spec_fn(Seq<char>) -> Option<OrgNodeRecord>,
    start: Seq<char>,
    n: nat,
    visited: Seq<(Seq<char>, Seq<char>)>,
    cursor: Option<Seq<char>>,
    node: Option<OrgNodeRecord>,
)
    requires
        visited == climb(store, start, n),
        cursor == climb_rest(store, start, n),
        cursor matches Some(id) && node == store(id),
    ensures
        visited_after(visited, node) == climb(store, start, n + 1),
        cursor_after(node) == climb_rest(store, start, n + 1),
{
    lemma_climb_one_more(store, start, n);
    if let Some(r) = node {
        assert(visited.push((r.id@, r.name@)) =~= visited + read_of(store, cursor));
    } else {
        assert(visited =~= visited + read_of(store, cursor));
    }
}

/// Once the walk has no id left to read, its chain is the whole climb:
/// reading on would add nothing.
pub proof fn lemma_ended_climb_is_whole(store: spec_fn(Seq<char>) -> Option<OrgNodeRecord>, start: Seq<char>, n: nat, m: nat)
    requires
        climb_rest(store, start, n) is None,
        n <= m,
    ensures
        climb(store, start, m) == climb(store, start, n),
        climb_rest(store, start, m) is None,
    decreases m - n,
{
    if n < m {
        lemma_ended_climb_is_whole(store, start, n, (m - 1) as nat);
        lemma_climb_one_more(store, start, (m - 1) as nat);
        assert(climb(store, start, m) =~= climb(store, start, (m - 1) as nat));
    }
}

/// Index of the first OrgNode at `k` or later whose team is `team_id`, or -1.
pub open spec fn team_leaf(nodes: Seq<OrgNodeRecord>, team_id: Seq<char>, k: int) -> int
    decreases nodes.len() - k,
{
    if k < 0 || k >= nodes.len() {
        -1
    } else if opt_view(nodes[k].team_id) == Some(team_id) {
        k
    } else {
        team_leaf(nodes, team_id, k + 1)
    }
}

/// The id of the first OrgNode that references team `team_id` (the leaf a
/// team's bylaws start from), if any.
pub fn leaf_for_team(nodes: &Vec<OrgNodeRecord>, team_id: &str) -> (r: Option<String>)
    ensures
        opt_view(r) == if team_leaf(nodes@, team_id@, 0) >= 0 {
            Some(nodes@[team_leaf(nodes@, team_id@, 0)].id@)
        } else {
            None::<Seq<char>>
        },
{
    let mut k: usize = 0;
    while k < nodes.len()
        invariant
            k <= nodes@.len(),
            team_leaf(nodes@, team_id@, 0) == team_leaf(nodes@, team_id@, k as int),
        decreases nodes@.len() - k,
    {
        let hit = match &nodes[k].team_id {
            Some(t) => eq_str(t.as_str(), team_id),
            None => false,
        };
        if hit {
            return Some(nodes[k].id.clone());
        }
        k = k + 1;
    }
    None
}

// ── bylaws in effect ────────────────────────────────────────────────────────

/// What the resolver reads of a Bylaw: its id, the OrgNode it is attached
/// to and its gate type as text (empty when absent), and its optional text
/// fields.
#[derive(Debug, Clone)]
pub struct BylawRecord {
    pub id: String,
    pub org_node_id: String,
    pub gate_type: String,
    pub priority: Option<String>,
    pub description: Option<String>,
    pub conditions: Option<String>,
    pub window: Option<String>,
    pub quiesce_for: Option<String>,
    pub approvers: Option<String>,
}

/// A bylaw as it applies through OrgNode `node` (id, name).
pub open spec fn applied(node: (String, String), b: BylawRecord) -> EffectiveBylaw {
    EffectiveBylaw {
        bylaw_id: b.id,
        org_node_id: node.0,
        org_node_name: node.1,
        gate_type: b.gate_type,
        priority: b.priority,
        description: b.description,
        conditions: b.conditions,
        window: b.window,
        quiesce_for: b.quiesce_for,
        approvers: b.approvers,
    }
}

/// The first `k` bylaws attached to `node`, applied through it.
pub open spec fn node_bylaws(node: (String, String), bylaws: Seq<BylawRecord>, k: int) -> Seq<EffectiveBylaw>
    decreases k,
{
    if k <= 0 {
        Seq::empty()
    } else if bylaws[k - 1].org_node_id@ == node.0@ {
        node_bylaws(node, bylaws, k - 1).push(applied(node, bylaws[k - 1]))
    } else {
        node_bylaws(node, bylaws, k - 1)
    }
}

/// The bylaws of the first `i` nodes of the chain, node by node.
pub open spec fn chain_bylaws(chain: Seq<(String, String)>, bylaws: Seq<BylawRecord>, i: int) -> Seq<EffectiveBylaw>
    decreases i,
{
    if i <= 0 {
        Seq::empty()
    } else {
        chain_bylaws(chain, bylaws, i - 1) + node_bylaws(chain[i - 1], bylaws, bylaws.len() as int)
    }
}

/// `b` is attached to `node`.
pub open spec fn attached(node: (String, String), b: BylawRecord) -> bool {
    b.org_node_id@ == node.0@
}

proof fn lemma_node_bylaws_members(node: (String, String), bylaws: Seq<BylawRecord>, k: int)
    requires
        0 <= k <= bylaws.len(),
    ensures
        forall|p: int| 0 <= p < node_bylaws(node, bylaws, k).len() ==> exists|q: int|
            0 <= q < k && attached(node, bylaws[q]) && #[trigger] node_bylaws(node, bylaws, k)[p] == applied(node, bylaws[q]),
        forall|q: int| 0 <= q < k && #[trigger] attached(node, bylaws[q]) ==> node_bylaws(node, bylaws, k).contains(applied(node, bylaws[q])),
    decreases k,
{
    if k > 0 {
        lemma_node_bylaws_members(node, bylaws, k - 1);
        let prev = node_bylaws(node, bylaws, k - 1);
        let cur = node_bylaws(node, bylaws, k);
        if attached(node, bylaws[k - 1]) {
            assert(cur == prev.push(applied(node, bylaws[k - 1])));
            assert forall|p: int| 0 <= p < cur.len() implies exists|q: int|
                0 <= q < k && attached(node, bylaws[q]) && #[trigger] cur[p] == applied(node, bylaws[q]) by {
                if p < prev.len() {
                    assert(cur[p] == prev[p]);
                } else {
                    assert(cur[p] == applied(node, bylaws[k - 1]));
                }
            }
            assert forall|q: int| 0 <= q < k && #[trigger] attached(node, bylaws[q]) implies cur.contains(applied(node, bylaws[q])) by {
                if q < k - 1 {
                    let p = choose|p: int| 0 <= p < prev.len() && prev[p] == applied(node, bylaws[q]);
                    assert(cur[p] == prev[p]);
                } else {
                    assert(cur[prev.len() as int] == applied(node, bylaws[q]));
                }
            }
        }
    }
}

proof fn lemma_chain_bylaws_members(chain: Seq<(String, String)>, bylaws: Seq<BylawRecord>, i: int)
    requires
        0 <= i <= chain.len(),
    ensures
        forall|p: int| 0 <= p < chain_bylaws(chain, bylaws, i).len() ==> exists|c: int, q: int|
            0 <= c < i && 0 <= q < bylaws.len() && attached(chain[c], bylaws[q])
                && #[trigger] chain_bylaws(chain, bylaws, i)[p] == applied(chain[c], bylaws[q]),
        forall|c: int, q: int| 0 <= c < i && 0 <= q < bylaws.len() && #[trigger] attached(chain[c], bylaws[q])
            ==> chain_bylaws(chain, bylaws, i).contains(applied(chain[c], bylaws[q])),
    decreases i,
{
    if i > 0 {
        lemma_chain_bylaws_members(chain, bylaws, i - 1);
        let n = bylaws.len() as int;
        lemma_node_bylaws_members(chain[i - 1], bylaws, n);
        let prev = chain_bylaws(chain, bylaws, i - 1);
        let nb = node_bylaws(chain[i - 1], bylaws, n);
        let cur = chain_bylaws(chain, bylaws, i);
        assert(cur == prev + nb);
        assert forall|p: int| 0 <= p < cur.len() implies exists|c: int, q: int|
            0 <= c < i && 0 <= q < bylaws.len() && attached(chain[c], bylaws[q])
                && #[trigger] cur[p] == applied(chain[c], bylaws[q]) by {
            if p < prev.len() {
                assert(cur[p] == prev[p]);
                let (c, q) = choose|c: int, q: int|
                    0 <= c < i - 1 && 0 <= q < bylaws.len() && attached(chain[c], bylaws[q])
                        && #[trigger] prev[p] == applied(chain[c], bylaws[q]);
                assert(cur[p] == applied(chain[c], bylaws[q]));
            } else {
                assert(cur[p] == nb[p - prev.len()]);
                let q = choose|q: int| 0 <= q < n && attached(chain[i - 1], bylaws[q]) && #[trigger] nb[p - prev.len()] == applied(chain[i - 1], bylaws[q]);
                assert(cur[p] == applied(chain[i - 1], bylaws[q]));
            }
        }
        assert forall|c: int, q: int| 0 <= c < i && 0 <= q < bylaws.len() && #[trigger] attached(chain[c], bylaws[q])
            implies cur.contains(applied(chain[c], bylaws[q])) by {
            if c < i - 1 {
                let p = choose|p: int| 0 <= p < prev.len() && prev[p] == applied(chain[c], bylaws[q]);
                assert(cur[p] == prev[p]);
            } else {
                assert(nb.contains(applied(chain[c], bylaws[q])));
                let p = choose|p: int| 0 <= p < nb.len() && nb[p] == applied(chain[c], bylaws[q]);
                assert(cur[prev.len() + p] == nb[p]);
            }
        }
    }
}

/// Bylaws cascade down the chain: the effective bylaws of a chain are
/// exactly the bylaws attached to one of its nodes, each applied through
/// that node; none is dropped and none is made up.
pub proof fn lemma_bylaws_cascade(chain: Seq<(String, String)>, bylaws: Seq<BylawRecord>)
    ensures
        forall|p: int| 0 <= p < chain_bylaws(chain, bylaws, chain.len() as int).len() ==> exists|c: int, q: int|
            0 <= c < chain.len() && 0 <= q < bylaws.len() && attached(chain[c], bylaws[q])
                && #[trigger] chain_bylaws(chain, bylaws, chain.len() as int)[p] == applied(chain[c], bylaws[q]),
        forall|c: int, q: int| 0 <= c < chain.len() && 0 <= q < bylaws.len() && #[trigger] attached(chain[c], bylaws[q])
            ==> chain_bylaws(chain, bylaws, chain.len() as int).contains(applied(chain[c], bylaws[q])),
{
    lemma_chain_bylaws_members(chain, bylaws, chain.len() as int);
}

fn copy_text(o: &Option<String>) -> (r: Option<String>)
    ensures
        r == *o,
{
    match o {
        Some(s) => Some(s.clone()),
        None => None,
    }
}

/// Every bylaw attached to a node of the ancestor chain (root first),
/// node by node; within a node, in the order the bylaws are listed.
pub fn effective_bylaws(chain: &Vec<(String, String)>, bylaws: &Vec<BylawRecord>) -> (out: Vec<EffectiveBylaw>)
    ensures
        out@ == chain_bylaws(chain@, bylaws@, chain@.len() as int),
{
    let mut out: Vec<EffectiveBylaw> = Vec::new();
    let mut i: usize = 0;
    while i < chain.len()
        invariant
            i <= chain@.len(),
            out@ == chain_bylaws(chain@, bylaws@, i as int),
        decreases chain@.len() - i,
    {
        let node = &chain[i];
        let ghost o0 = out@;
        let mut k: usize = 0;
        while k < bylaws.len()
            invariant
                k <= bylaws@.len(),
                i < chain@.len(),
                *node == chain@[i as int],
                out@ == o0 + node_bylaws(chain@[i as int], bylaws@, k as int),
            decreases bylaws@.len() - k,
        {
            let b = &bylaws[k];
            if eq_str(b.org_node_id.as_str(), node.0.as_str()) {
                let e = EffectiveBylaw {
                    bylaw_id: b.id.clone(),
                    org_node_id: node.0.clone(),
                    org_node_name: node.1.clone(),
                    gate_type: b.gate_type.clone(),
                    priority: copy_text(&b.priority),
                    description: copy_text(&b.description),
                    conditions: copy_text(&b.conditions),
                    window: copy_text(&b.window),
                    quiesce_for: copy_text(&b.quiesce_for),
                    approvers: copy_text(&b.approvers),
                };
                let ghost before = out@;
                out.push(e);
                assert(e == applied(chain@[i as int], bylaws@[k as int]));
                assert(out@ =~= o0 + node_bylaws(chain@[i as int], bylaws@, k + 1));
            }
            k = k + 1;
        }
        assert(o0 + node_bylaws(chain@[i as int], bylaws@, bylaws@.len() as int) == chain_bylaws(chain@, bylaws@, i + 1));
        i = i + 1;
    }
    out
}

} // verus!
