//! What the integration adapters share: GraphQL string escaping, `Link`
//! header pagination, the ingestion lookup query and its reply, and where an
//! idempotent upsert sends its requests.

use vstd::prelude::*;
use crate::text::{
    trim, split_on, contains_seq, strip_leading, strip_trailing, opt_view, views, append, owned,
    push_char, chars_of, trimmed, split_char, contains_str, trim_start_char, trim_end_char, eq_str,
};

verus! {

// ── GraphQL string literals ─────────────────────────────────────────────────

/// How one character is written inside a GraphQL string literal.
pub open spec fn escaped_char(c: char) -> Seq<char> {
    if c == '"' {
        seq!['\\', '"']
    } else if c == '\\' {
        seq!['\\', '\\']
    } else if c == '\n' {
        seq!['\\', 'n']
    } else if c == '\r' {
        seq!['\\', 'r']
    } else if c == '\t' {
        seq!['\\', 't']
    } else {
        seq![c]
    }
}

/// `s` with every character escaped for a GraphQL string literal.
pub open spec fn graphql_escaped(s: Seq<char>) -> Seq<char>
    decreases s.len(),
{
    if s.len() == 0 {
        Seq::empty()
    } else {
        graphql_escaped(s.drop_last()) + escaped_char(s.last())
    }
}

/// How a GraphQL string literal's body reads back: a backslash and the next
/// character stand for one character (`\n`, `\r`, `\t` for the line
/// breaks and tab, otherwise the character itself); any other character
/// stands for itself.
pub open spec fn graphql_unescaped(t: Seq<char>) -> Seq<char>
    decreases t.len(),
{
    if t.len() == 0 {
        Seq::empty()
    } else if t[0] == '\\' && t.len() >= 2 {
        let c = t[1];
        let d = if c == 'n' {
            '\n'
        } else if c == 'r' {
            '\r'
        } else if c == 't' {
            '\t'
        } else {
            c
        };
        seq![d] + graphql_unescaped(t.subrange(2, t.len() as int))
    } else {
        seq![t[0]] + graphql_unescaped(t.drop_first())
    }
}

proof fn lemma_escaped_front(s: Seq<char>)
    requires
        s.len() > 0,
    ensures
        graphql_escaped(s) == escaped_char(s[0]) + graphql_escaped(s.drop_first()),
    decreases s.len(),
{
    if s.len() == 1 {
        assert(s.drop_last() =~= Seq::<char>::empty());
        assert(s.drop_first() =~= Seq::<char>::empty());
        assert(graphql_escaped(s.drop_last()) == Seq::<char>::empty());
        assert(graphql_escaped(s.drop_first()) == Seq::<char>::empty());
        assert(s.last() == s[0]);
        assert(graphql_escaped(s) =~= escaped_char(s[0]) + graphql_escaped(s.drop_first()));
    } else {
        lemma_escaped_front(s.drop_last());
        assert(s.drop_first().drop_last() =~= s.drop_last().drop_first());
        assert(s.drop_first().last() == s.last());
        assert(graphql_escaped(s) =~= escaped_char(s[0]) + graphql_escaped(s.drop_first()));
    }
}

/// Escaping loses nothing: reading the escaped text back as a GraphQL
/// string literal gives back the text that was escaped. The escaped text
/// holds no raw line break or tab.
pub proof fn lemma_graphql_escape_round_trip(s: Seq<char>)
    ensures
        graphql_unescaped(graphql_escaped(s)) == s,
        !graphql_escaped(s).contains('\n'),
        !graphql_escaped(s).contains('\r'),
        !graphql_escaped(s).contains('\t'),
    decreases s.len(),
{
    if s.len() > 0 {
        lemma_escaped_front(s);
        lemma_graphql_escape_round_trip(s.drop_first());
        let r = graphql_escaped(s.drop_first());
        let e = escaped_char(s[0]);
        let t = e + r;
        assert(graphql_escaped(s) == t);
        if e.len() == 2 {
            assert(t[0] == '\\');
            assert(t.subrange(2, t.len() as int) =~= r);
        } else {
            assert(t[0] == s[0]);
            assert(t.drop_first() =~= r);
        }
        assert(graphql_unescaped(t) =~= s);
        assert forall|c: char| c == '\n' || c == '\r' || c == '\t' implies !t.contains(c) by {
            if t.contains(c) {
                let i = choose|i: int| 0 <= i < t.len() && t[i] == c;
                if i >= e.len() {
                    assert(r[i - e.len()] == c);
                    assert(r.contains(c));
                }
            }
        }
    }
}

/// Escape the characters that need quoting inside a GraphQL string literal:
/// `"`, `\`, newline, carriage return and tab.
pub fn escape_graphql_string(s: &str) -> (out: String)
    ensures
        out@ == graphql_escaped(s@),
{
    let v = chars_of(s);
    let mut out = String::new();
    let mut i: usize = 0;
    while i < v.len()
        invariant
            i <= v@.len(),
            v@ == s@,
            out@ == graphql_escaped(v@.take(i as int)),
        decreases v@.len() - i,
    {
        let c = v[i];
        let ghost before = out@;
        if c == '"' {
            push_char(&mut out, '\\');
            push_char(&mut out, '"');
        } else if c == '\\' {
            push_char(&mut out, '\\');
            push_char(&mut out, '\\');
        } else if c == '\n' {
            push_char(&mut out, '\\');
            push_char(&mut out, 'n');
        } else if c == '\r' {
            push_char(&mut out, '\\');
            push_char(&mut out, 'r');
        } else if c == '\t' {
            push_char(&mut out, '\\');
            push_char(&mut out, 't');
        } else {
            push_char(&mut out, c);
        }
        assert(v@.take(i + 1).drop_last() =~= v@.take(i as int));
        assert(out@ =~= before + escaped_char(c));
        i = i + 1;
    }
    assert(v@.take(v@.len() as int) =~= v@);
    out
}

// ── pagination ──────────────────────────────────────────────────────────────

/// The URL of one `Link` entry: its text before the first `;`, trimmed,
/// without the angle brackets around it.
pub open spec fn link_url(part: Seq<char>) -> Seq<char> {
    strip_trailing(strip_leading(trim(split_on(part, ';')[0]), '<'), '>')
}

/// The URL of the first entry at `k` or later that is marked `rel="next"`
/// and has a non-empty URL.
pub open spec fn next_link_from(parts: Seq<Seq<char>>, k: int) -> Option<Seq<char>>
    decreases parts.len() - k,
{
    if k < 0 || k >= parts.len() {
        None
    } else {
        let p = trim(parts[k]);
        if contains_seq(p, "rel=\"next\""@) && link_url(p).len() > 0 {
            Some(link_url(p))
        } else {
            next_link_from(parts, k + 1)
        }
    }
}

/// The `rel="next"` URL of a `Link` header, if it has one.
pub open spec fn next_link(link: Seq<char>) -> Option<Seq<char>> {
    next_link_from(split_on(link, ','), 0)
}

/// Parse `Link: <url>; rel="next", ...` into the next URL, if any. GitHub
/// and GitLab paginate the same way.
pub fn parse_next_link(link: &str) -> (r: Option<String>)
    ensures
        opt_view(r) == next_link(link@),
{
    let parts = split_char(link, ',');
    let mut k: usize = 0;
    while k < parts.len()
        invariant
            k <= parts@.len(),
            views(parts@) == split_on(link@, ','),
            next_link(link@) == next_link_from(views(parts@), k as int),
        decreases parts@.len() - k,
    {
        assert(views(parts@)[k as int] == parts@[k as int]@);
        let part = trimmed(parts[k].as_str());
        if contains_str(part.as_str(), "rel=\"next\"") {
            let pieces = split_char(part.as_str(), ';');
            proof { lemma_split_has_first(part@, ';'); }
            assert(views(pieces@)[0] == pieces@[0]@);
            let seg = trimmed(pieces[0].as_str());
            let a = trim_start_char(seg.as_str(), '<');
            let url = trim_end_char(a.as_str(), '>');
            if !url.as_str().is_empty() {
                return Some(url);
            }
        }
        k = k + 1;
    }
    None
}

proof fn lemma_split_has_first(s: Seq<char>, sep: char)
    ensures
        split_on(s, sep).len() >= 1,
    decreases s.len(),
{
    if s.len() > 0 {
        lemma_split_has_first(s.drop_last(), sep);
    }
}

// ── the ingestion lookup ────────────────────────────────────────────────────

/// The GraphQL query that lists the ingestion records of a system.
pub open spec fn external_system_query_text(system: Seq<char>) -> Seq<char> {
    "{ getByExternalSystem(external_system: \""@ + graphql_escaped(system)
        + "\") { id external_id canonical_id } }"@
}

/// The GraphQL query that lists the ingestion records of `external_system`.
pub fn external_system_query(external_system: &str) -> (q: String)
    ensures
        q@ == external_system_query_text(external_system@),
{
    let mut q = owned("{ getByExternalSystem(external_system: \"");
    let e = escape_graphql_string(external_system);
    append(&mut q, e.as_str());
    append(&mut q, "\") { id external_id canonical_id } }");
    q
}

/// One ingestion record of a lookup reply: its string fields, where present.
pub struct IngestRow {
    pub external_id: Option<String>,
    pub canonical_id: Option<String>,
}

/// The parts of a lookup reply the adapters read: how many GraphQL errors it
/// lists (0 when it has no error array) and its rows, when the reply has a
/// row array.
pub struct IngestReply {
    pub error_count: usize,
    pub rows: Option<Vec<IngestRow>>,
}

/// Why a lookup reply is refused.
#[derive(Debug, Clone, Copy, PartialEq, Eq, Structural)]
pub enum ReplyError {
    /// The reply lists GraphQL errors.
    GraphqlErrors,
}

/// Index of the first row at `k` or later for `external_id`, or -1.
pub open spec fn row_for(rows: Seq<IngestRow>, external_id: Seq<char>, k: int) -> int
    decreases rows.len() - k,
{
    if k < 0 || k >= rows.len() {
        -1
    } else if opt_view(rows[k].external_id) == Some(external_id) {
        k
    } else {
        row_for(rows, external_id, k + 1)
    }
}

/// The canonical id a reply gives for `external_id`: that of the first row
/// for it (which may lack one), or none.
pub open spec fn reply_canonical_id(reply: IngestReply, external_id: Seq<char>) -> Option<Seq<char>> {
    match reply.rows {
        Some(rows) => rows_canonical_id(rows@, external_id),
        None => None,
    }
}

/// The canonical id the first of `rows` for `external_id` records, if any.
pub open spec fn rows_canonical_id(rows: Seq<IngestRow>, external_id: Seq<char>) -> Option<Seq<char>> {
    let i = row_for(rows, external_id, 0);
    if i >= 0 {
        opt_view(rows[i].canonical_id)
    } else {
        None
    }
}

proof fn lemma_row_for_none(rows: Seq<IngestRow>, external_id: Seq<char>, k: int)
    requires
        0 <= k,
        row_for(rows, external_id, k) == -1,
    ensures
        forall|j: int| k <= j < rows.len() ==> opt_view(#[trigger] rows[j].external_id) != Some(external_id),
    decreases rows.len() - k,
{
    if k < rows.len() {
        lemma_row_for_none(rows, external_id, k + 1);
    }
}

proof fn lemma_row_for_reaches(rows: Seq<IngestRow>, external_id: Seq<char>, k: int, n: int)
    requires
        0 <= k <= n < rows.len(),
        forall|j: int| k <= j < n ==> opt_view(#[trigger] rows[j].external_id) != Some(external_id),
        opt_view(rows[n].external_id) == Some(external_id),
    ensures
        row_for(rows, external_id, k) == n,
    decreases n - k,
{
    if k < n {
        lemma_row_for_reaches(rows, external_id, k + 1, n);
    }
}

/// Upserting the same item twice updates the record the first upsert
/// made: when no provenance row named `external_id` and the first upsert
/// created record `canonical_id` and recorded that, every later lookup
/// for `external_id` gives `canonical_id`, whatever rows are recorded
/// after it; so the later upsert writes a PUT to that record
/// (`upsert_write`) and creates nothing.
pub proof fn lemma_second_upsert_updates_the_first(
    rows: Seq<IngestRow>,
    recorded: IngestRow,
    later: Seq<IngestRow>,
    external_id: Seq<char>,
    canonical_id: Seq<char>,
)
    requires
        row_for(rows, external_id, 0) == -1,
        opt_view(recorded.external_id) == Some(external_id),
        opt_view(recorded.canonical_id) == Some(canonical_id),
    ensures
        rows_canonical_id(rows.push(recorded) + later, external_id) == Some(canonical_id),
{
    let all = rows.push(recorded) + later;
    let n = rows.len() as int;
    lemma_row_for_none(rows, external_id, 0);
    assert(all[n] == recorded);
    assert forall|j: int| 0 <= j < n implies opt_view(#[trigger] all[j].external_id) != Some(external_id) by {
        assert(all[j] == rows[j]);
    }
    lemma_row_for_reaches(all, external_id, 0, n);
}

fn copy_opt_string(o: &Option<String>) -> (r: Option<String>)
    ensures
        opt_view(r) == opt_view(*o),
{
    match o {
        Some(s) => Some(s.clone()),
        None => None,
    }
}

/// Read a lookup reply: refused when it lists GraphQL errors, else the
/// canonical id of the first row for `external_id`.
pub fn canonical_id_from_reply(reply: &IngestReply, external_id: &str) -> (r: Result<
    Option<String>,
    ReplyError,
>)
    ensures
        reply.error_count > 0 ==> r == Err::<Option<String>, ReplyError>(ReplyError::GraphqlErrors),
        reply.error_count == 0 ==> (r matches Ok(id) && opt_view(id) == reply_canonical_id(
            *reply,
            external_id@,
        )),
{
    if reply.error_count > 0 {
        return Err(ReplyError::GraphqlErrors);
    }
    match &reply.rows {
        None => Ok(None),
        Some(rows) => {
            let mut k: usize = 0;
            while k < rows.len()
                invariant
                    k <= rows@.len(),
                    reply.error_count == 0,
                    reply.rows == Some(*rows),
                    row_for(rows@, external_id@, 0) == row_for(rows@, external_id@, k as int),
                decreases rows@.len() - k,
            {
                let hit = match &rows[k].external_id {
                    Some(x) => eq_str(x.as_str(), external_id),
                    None => false,
                };
                if hit {
                    return Ok(copy_opt_string(&rows[k].canonical_id));
                }
                k = k + 1;
            }
            Ok(None)
        },
    }
}

// ── idempotent upsert ───────────────────────────────────────────────────────

/// Result of an idempotent upsert. `created` means the row was new and a
/// provenance record was written.
#[derive(Debug)]
pub struct UpsertResult {
    pub canonical_id: String,
    pub created: bool,
}

/// The write an upsert makes in the primary domain.
#[derive(Debug)]
pub enum UpsertWrite {
    /// Replace the existing row at `url`.
    Put { url: String, canonical_id: String },
    /// Create a new row at `url`.
    Post { url: String },
}

/// `base` without trailing slashes, then `rest`.
pub open spec fn under(base: Seq<char>, rest: Seq<char>) -> Seq<char> {
    strip_trailing(base, '/') + rest
}

/// Where an upsert writes: the existing row of `existing`, else the
/// entity's collection.
pub fn upsert_write(groundwork_url: &str, entity_path: &str, existing: Option<String>) -> (w: UpsertWrite)
    ensures
        match existing {
            Some(id) => w matches UpsertWrite::Put { url, canonical_id } && canonical_id == id
                && url@ == under(groundwork_url@, entity_path@ + "/"@ + id@),
            None => w matches UpsertWrite::Post { url } && url@ == under(groundwork_url@, entity_path@),
        },
{
    let mut url = trim_end_char(groundwork_url, '/');
    append(&mut url, entity_path);
    match existing {
        Some(id) => {
            append(&mut url, "/");
            append(&mut url, id.as_str());
            UpsertWrite::Put { url, canonical_id: id }
        },
        None => UpsertWrite::Post { url },
    }
}

/// `w` is the write an upsert makes given the canonical id its lookup
/// found: a PUT to that record, or a POST to the entity's collection.
pub open spec fn writes(w: UpsertWrite, groundwork_url: Seq<char>, entity_path: Seq<char>, existing: Option<Seq<char>>) -> bool {
    match existing {
        Some(id) => w matches UpsertWrite::Put { url, canonical_id } && canonical_id@ == id
            && url@ == under(groundwork_url, entity_path + "/"@ + id),
        None => w matches UpsertWrite::Post { url } && url@ == under(groundwork_url, entity_path),
    }
}

/// An upsert's decision from its lookup reply: refused when the reply
/// lists GraphQL errors, else the write for the canonical id recorded for
/// `external_id`, if any.
pub fn upsert_decision(groundwork_url: &str, entity_path: &str, reply: &IngestReply, external_id: &str) -> (r: Result<
    UpsertWrite,
    ReplyError,
>)
    ensures
        reply.error_count > 0 ==> r is Err,
        reply.error_count == 0 ==> (r matches Ok(w) && writes(w, groundwork_url@, entity_path@, reply_canonical_id(*reply, external_id@))),
{
    match canonical_id_from_reply(reply, external_id) {
        Err(e) => Err(e),
        Ok(existing) => {
            let ghost ev = opt_view(existing);
            let w = upsert_write(groundwork_url, entity_path, existing);
            assert(writes(w, groundwork_url@, entity_path@, ev));
            Ok(w)
        },
    }
}

/// The second upsert of an item updates the record the first created: once
/// no provenance row named `external_id`, the first upsert created record
/// `canonical_id` and recorded it, and any rows were recorded after, the
/// next upsert's decision for `external_id` is a PUT to that record, at
/// `{groundwork_url}{entity_path}/{canonical_id}` (a PUT records no new
/// provenance and reports the record as not created).
pub proof fn lemma_second_upsert_puts_to_the_first_record(
    rows: Seq<IngestRow>,
    recorded: IngestRow,
    later: Seq<IngestRow>,
    external_id: Seq<char>,
    canonical_id: Seq<char>,
    groundwork_url: Seq<char>,
    entity_path: Seq<char>,
    w: UpsertWrite,
)
    requires
        row_for(rows, external_id, 0) == -1,
        opt_view(recorded.external_id) == Some(external_id),
        opt_view(recorded.canonical_id) == Some(canonical_id),
        writes(w, groundwork_url, entity_path, rows_canonical_id(rows.push(recorded) + later, external_id)),
    ensures
        w matches UpsertWrite::Put { url, canonical_id: id } && id@ == canonical_id
            && url@ == under(groundwork_url, entity_path + "/"@ + canonical_id),
{
    lemma_second_upsert_updates_the_first(rows, recorded, later, external_id, canonical_id);
}

/// Where provenance records are written.
pub fn ingestion_api_url(ingest_url: &str) -> (u: String)
    ensures
        u@ == under(ingest_url@, "/ingestion/api"@),
{
    let mut u = trim_end_char(ingest_url, '/');
    append(&mut u, "/ingestion/api");
    u
}

/// Where the ingestion lookup is posted (the configured URL as it stands).
pub fn ingestion_graph_url(ingest_url: &str) -> (u: String)
    ensures
        u@ == ingest_url@ + "/ingestion/graph"@,
{
    let mut u = owned(ingest_url);
    append(&mut u, "/ingestion/graph");
    u
}

} // verus!
