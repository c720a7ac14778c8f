//! What the read-through response cache decides: which requests it may
//! answer, the key of an answer, and which responses it may keep.

use vstd::prelude::*;
use crate::text::{contains_seq, contains_str, append, chars_of, push_char, opt_view, views};
use crate::edge::identity::{Stash, stash_view};

verus! {

/// Requests the cache may answer: reads (`GET`) and GraphQL queries
/// (`POST` to a `/graph` path).
pub open spec fn cacheable(method: Seq<char>, path: Seq<char>) -> bool {
    method == "GET"@ || (method == "POST"@ && contains_seq(path, "/graph"@))
}

/// Whether a request with this method and path may be answered from the
/// cache.
pub fn is_cacheable(method: &str, path: &str) -> (r: bool)
    ensures
        r == cacheable(method@, path@),
{
    if crate::text::eq_str(method, "GET") {
        return true;
    }
    crate::text::eq_str(method, "POST") && contains_str(path, "/graph")
}

/// A character as it stands inside a key field: the field separator `|`
/// and the escape `\` are preceded by `\`.
pub open spec fn escaped_char(c: char) -> Seq<char> {
    if c == '\\' || c == '|' {
        seq!['\\', c]
    } else {
        seq![c]
    }
}

/// `s` with each character escaped.
pub open spec fn escaped(s: Seq<char>) -> Seq<char>
    decreases s.len(),
{
    if s.len() == 0 {
        Seq::empty()
    } else {
        escaped_char(s[0]) + escaped(s.drop_first())
    }
}

/// One field of a key: the escaped text and the separator `|`.
pub open spec fn field(s: Seq<char>) -> Seq<char> {
    escaped(s) + seq!['|']
}

/// A list of texts as consecutive fields.
pub open spec fn fields(l: Seq<Seq<char>>) -> Seq<char>
    decreases l.len(),
{
    if l.len() == 0 {
        Seq::empty()
    } else {
        field(l[0]) + fields(l.drop_first())
    }
}

/// The key of a cached answer: method, path, query, the caller's user and
/// groups, and the request body, each as a field of its own.
pub open spec fn cache_key_text(
    method: Seq<char>,
    path: Seq<char>,
    query: Seq<char>,
    user: Seq<char>,
    groups: Seq<char>,
    body: Seq<char>,
) -> Seq<char> {
    field(method) + (field(path) + (field(query) + (field(user) + (field(groups) + field(body)))))
}

/// The user part of a resolved identity: empty without a user id, else `=`
/// and the id.
pub open spec fn user_part(user: Option<Seq<char>>) -> Seq<char> {
    match user {
        Some(u) => seq!['='] + u,
        None => Seq::empty(),
    }
}

/// The groups part of a resolved identity: empty without groups, else `=`
/// and the groups as fields.
pub open spec fn groups_part(groups: Option<Seq<Seq<char>>>) -> Seq<char> {
    match groups {
        Some(g) => seq!['='] + fields(g),
        None => Seq::empty(),
    }
}

/// The key of a request made with a resolved identity (see `stash_view`).
pub open spec fn identity_key_text(
    method: Seq<char>,
    path: Seq<char>,
    query: Seq<char>,
    identity: (Option<Seq<char>>, Option<Seq<Seq<char>>>),
    body: Seq<char>,
) -> Seq<char> {
    cache_key_text(method, path, query, user_part(identity.0), groups_part(identity.1), body)
}

proof fn lemma_escaped_push(s: Seq<char>, c: char)
    ensures
        escaped(s.push(c)) == escaped(s) + escaped_char(c),
    decreases s.len(),
{
    if s.len() == 0 {
        assert(s.push(c).drop_first() =~= Seq::<char>::empty());
        assert(s.push(c)[0] == c);
        assert(escaped(s.push(c).drop_first()) == Seq::<char>::empty());
        assert(escaped(s) == Seq::<char>::empty());
        assert(escaped(s.push(c)) =~= escaped(s) + escaped_char(c));
    } else {
        assert(s.push(c).drop_first() =~= s.drop_first().push(c));
        lemma_escaped_push(s.drop_first(), c);
        assert(s.push(c)[0] == s[0]);
        assert(escaped(s.push(c)) == escaped_char(s[0]) + escaped(s.drop_first().push(c)));
        assert(escaped(s.push(c)) =~= escaped(s) + escaped_char(c));
    }
}

proof fn lemma_fields_push(l: Seq<Seq<char>>, s: Seq<char>)
    ensures
        fields(l.push(s)) == fields(l) + field(s),
    decreases l.len(),
{
    if l.len() == 0 {
        assert(l.push(s).drop_first() =~= Seq::<Seq<char>>::empty());
        assert(l.push(s)[0] == s);
        assert(fields(l.push(s).drop_first()) == Seq::<char>::empty());
        assert(fields(l) == Seq::<char>::empty());
        assert(fields(l.push(s)) =~= fields(l) + field(s));
    } else {
        assert(l.push(s).drop_first() =~= l.drop_first().push(s));
        lemma_fields_push(l.drop_first(), s);
        assert(l.push(s)[0] == l[0]);
        assert(fields(l.push(s)) == field(l[0]) + fields(l.drop_first().push(s)));
        assert(fields(l.push(s)) =~= fields(l) + field(s));
    }
}

/// A field is read back from the front of any text it starts: equal texts
/// that start with fields start with the same field, and go on alike.
proof fn lemma_field_prefix(x: Seq<char>, y: Seq<char>, r1: Seq<char>, r2: Seq<char>)
    requires
        field(x) + r1 == field(y) + r2,
    ensures
        x == y,
        r1 == r2,
    decreases x.len(),
{
    let a = field(x) + r1;
    let b = field(y) + r2;
    if x.len() == 0 {
        assert(a[0] == '|');
        if y.len() > 0 {
            assert(field(y) =~= escaped_char(y[0]) + field(y.drop_first()));
            assert(b[0] == escaped_char(y[0])[0]);
            assert(false);
        }
        assert(r1 =~= a.skip(1));
        assert(r2 =~= b.skip(1));
        assert(x =~= y);
    } else {
        let ex = escaped_char(x[0]);
        assert(field(x) =~= ex + field(x.drop_first()));
        assert(a =~= ex + (field(x.drop_first()) + r1));
        assert(a[0] == ex[0]);
        if y.len() == 0 {
            assert(b[0] == '|');
            assert(false);
        }
        let ey = escaped_char(y[0]);
        assert(field(y) =~= ey + field(y.drop_first()));
        assert(b =~= ey + (field(y.drop_first()) + r2));
        assert(b[0] == ey[0]);
        if x[0] == '\\' || x[0] == '|' {
            assert(a[1] == x[0]);
            assert(b[1] == ey[1]);
        }
        assert(ex == ey);
        assert(field(x.drop_first()) + r1 =~= a.skip(ex.len() as int));
        assert(field(y.drop_first()) + r2 =~= b.skip(ey.len() as int));
        lemma_field_prefix(x.drop_first(), y.drop_first(), r1, r2);
        assert(x =~= seq![x[0]] + x.drop_first());
        assert(y =~= seq![y[0]] + y.drop_first());
    }
}

proof fn lemma_fields_injective(l1: Seq<Seq<char>>, l2: Seq<Seq<char>>)
    requires
        fields(l1) == fields(l2),
    ensures
        l1 == l2,
    decreases l1.len(),
{
    if l1.len() == 0 {
        if l2.len() > 0 {
            assert(fields(l2).len() >= field(l2[0]).len());
            assert(false);
        }
        assert(l1 =~= l2);
    } else {
        if l2.len() == 0 {
            assert(fields(l1).len() >= field(l1[0]).len());
            assert(false);
        }
        lemma_field_prefix(l1[0], l2[0], fields(l1.drop_first()), fields(l2.drop_first()));
        lemma_fields_injective(l1.drop_first(), l2.drop_first());
        assert(l1 =~= seq![l1[0]] + l1.drop_first());
        assert(l2 =~= seq![l2[0]] + l2.drop_first());
    }
}

/// Requests that differ in method, path, query, user, groups or body never
/// share a cache key, whatever characters these hold.
pub proof fn lemma_cache_key_injective(
    method1: Seq<char>,
    path1: Seq<char>,
    query1: Seq<char>,
    user1: Seq<char>,
    groups1: Seq<char>,
    body1: Seq<char>,
    method2: Seq<char>,
    path2: Seq<char>,
    query2: Seq<char>,
    user2: Seq<char>,
    groups2: Seq<char>,
    body2: Seq<char>,
)
    requires
        (method1, path1, query1, user1, groups1, body1) != (method2, path2, query2, user2, groups2, body2),
    ensures
        cache_key_text(method1, path1, query1, user1, groups1, body1)
            != cache_key_text(method2, path2, query2, user2, groups2, body2),
{
    if cache_key_text(method1, path1, query1, user1, groups1, body1)
        == cache_key_text(method2, path2, query2, user2, groups2, body2) {
        let r1 = field(path1) + (field(query1) + (field(user1) + (field(groups1) + field(body1))));
        let r2 = field(path2) + (field(query2) + (field(user2) + (field(groups2) + field(body2))));
        lemma_field_prefix(method1, method2, r1, r2);
        let s1 = field(query1) + (field(user1) + (field(groups1) + field(body1)));
        let s2 = field(query2) + (field(user2) + (field(groups2) + field(body2)));
        lemma_field_prefix(path1, path2, s1, s2);
        let t1 = field(user1) + (field(groups1) + field(body1));
        let t2 = field(user2) + (field(groups2) + field(body2));
        lemma_field_prefix(query1, query2, t1, t2);
        lemma_field_prefix(user1, user2, field(groups1) + field(body1), field(groups2) + field(body2));
        lemma_field_prefix(groups1, groups2, field(body1), field(body2));
        assert(field(body1) =~= field(body1) + Seq::<char>::empty());
        assert(field(body2) =~= field(body2) + Seq::<char>::empty());
        lemma_field_prefix(body1, body2, Seq::<char>::empty(), Seq::<char>::empty());
    }
}

/// Callers whose resolved identities differ (in user id or in groups) never
/// share a cache entry, whatever else their requests hold.
pub proof fn lemma_identities_never_share_a_key(
    method: Seq<char>,
    path: Seq<char>,
    query: Seq<char>,
    identity1: (Option<Seq<char>>, Option<Seq<Seq<char>>>),
    body1: Seq<char>,
    identity2: (Option<Seq<char>>, Option<Seq<Seq<char>>>),
    body2: Seq<char>,
)
    requires
        identity1 != identity2,
    ensures
        identity_key_text(method, path, query, identity1, body1)
            != identity_key_text(method, path, query, identity2, body2),
{
    let u1 = user_part(identity1.0);
    let u2 = user_part(identity2.0);
    let g1 = groups_part(identity1.1);
    let g2 = groups_part(identity2.1);
    if u1 == u2 && g1 == g2 {
        match (identity1.0, identity2.0) {
            (Some(a), Some(b)) => {
                assert(a =~= u1.skip(1));
                assert(b =~= u2.skip(1));
            },
            (Some(a), None) => {
                assert(u1.len() >= 1);
            },
            (None, Some(b)) => {
                assert(u2.len() >= 1);
            },
            (None, None) => {},
        }
        match (identity1.1, identity2.1) {
            (Some(a), Some(b)) => {
                assert(fields(a) =~= g1.skip(1));
                assert(fields(b) =~= g2.skip(1));
                lemma_fields_injective(a, b);
            },
            (Some(a), None) => {
                assert(g1.len() >= 1);
            },
            (None, Some(b)) => {
                assert(g2.len() >= 1);
            },
            (None, None) => {},
        }
        assert(false);
    }
    lemma_cache_key_injective(method, path, query, u1, g1, body1, method, path, query, u2, g2, body2);
}

/// Appends `s` as one field.
fn push_field(k: &mut String, s: &str)
    ensures
        final(k)@ == old(k)@ + field(s@),
{
    let v = chars_of(s);
    let ghost k0 = k@;
    let mut i: usize = 0;
    while i < v.len()
        invariant
            i <= v@.len(),
            k@ == k0 + escaped(v@.take(i as int)),
        decreases v@.len() - i,
    {
        let c = v[i];
        proof {
            lemma_escaped_push(v@.take(i as int), c);
            assert(v@.take(i + 1) =~= v@.take(i as int).push(c));
        }
        let ghost before = k@;
        if c == '\\' || c == '|' {
            push_char(k, '\\');
        }
        push_char(k, c);
        assert(k@ =~= before + escaped_char(c));
        assert(k@ =~= k0 + escaped(v@.take(i + 1)));
        i = i + 1;
    }
    assert(v@.take(v@.len() as int) =~= s@);
    push_char(k, '|');
    assert(k@ =~= k0 + field(s@));
}

/// The cache key of a request, given its user and groups parts and its body
/// as text.
pub fn cache_key(method: &str, path: &str, query: &str, user: &str, groups: &str, body: &str) -> (k: String)
    ensures
        k@ == cache_key_text(method@, path@, query@, user@, groups@, body@),
{
    let mut k = String::new();
    push_field(&mut k, method);
    push_field(&mut k, path);
    push_field(&mut k, query);
    push_field(&mut k, user);
    push_field(&mut k, groups);
    push_field(&mut k, body);
    assert(k@ =~= cache_key_text(method@, path@, query@, user@, groups@, body@));
    k
}

/// The user part of a stash's identity.
fn user_part_text(user: &Option<String>) -> (r: String)
    ensures
        r@ == user_part(opt_view(*user)),
{
    match user {
        Some(u) => {
            let mut r = String::new();
            push_char(&mut r, '=');
            append(&mut r, u.as_str());
            assert(r@ =~= user_part(opt_view(*user)));
            r
        },
        None => String::new(),
    }
}

/// The groups part of a stash's identity.
fn groups_part_text(groups: &Option<Vec<String>>) -> (r: String)
    ensures
        r@ == groups_part(match *groups {
            Some(g) => Some(views(g@)),
            None => None,
        }),
{
    match groups {
        Some(g) => {
            let mut r = String::new();
            push_char(&mut r, '=');
            let ghost r0 = r@;
            let mut i: usize = 0;
            while i < g.len()
                invariant
                    i <= g@.len(),
                    r@ == r0 + fields(views(g@).take(i as int)),
                decreases g@.len() - i,
            {
                proof {
                    lemma_fields_push(views(g@).take(i as int), g@[i as int]@);
                    assert(views(g@).take(i + 1) =~= views(g@).take(i as int).push(g@[i as int]@));
                }
                push_field(&mut r, g[i].as_str());
                assert(r@ =~= r0 + fields(views(g@).take(i + 1)));
                i = i + 1;
            }
            assert(views(g@).take(g@.len() as int) =~= views(g@));
            assert(r@ =~= seq!['='] + fields(views(g@)));
            r
        },
        None => String::new(),
    }
}

/// The text `String::from_utf8_lossy` makes of `bytes`.
pub uninterp spec fn utf8_lossy(bytes: Seq<u8>) -> Seq<char>;

/// `bytes` as text, with invalid sequences replaced.
#[verifier::external_body]
fn lossy_text(bytes: &[u8]) -> (s: String)
    ensures
        s@ == utf8_lossy(bytes@),
{
    String::from_utf8_lossy(bytes).into_owned()
}

/// The cache key of a request with a raw body, made by the caller whose
/// resolved identity is `identity`.
pub fn request_cache_key(method: &str, path: &str, query: &str, identity: &Stash, body: &[u8]) -> (k: String)
    ensures
        k@ == identity_key_text(method@, path@, query@, stash_view(*identity), utf8_lossy(body@)),
{
    let b = lossy_text(body);
    let u = user_part_text(&identity.user_id);
    let g = groups_part_text(&identity.groups);
    cache_key(method, path, query, u.as_str(), g.as_str(), b.as_str())
}

/// The entry a request is answered from and stored under, when the cache
/// may answer it: its key under the caller's resolved identity, with the
/// body counted for POSTs only.
pub open spec fn request_key(
    method: Seq<char>,
    path: Seq<char>,
    query: Seq<char>,
    identity: (Option<Seq<char>>, Option<Seq<Seq<char>>>),
    body: Seq<u8>,
) -> Option<Seq<char>> {
    if cacheable(method, path) {
        Some(identity_key_text(method, path, query, identity, utf8_lossy(if method == "POST"@ { body } else { Seq::empty() })))
    } else {
        None
    }
}

/// The cache entry of a request, when the cache may answer it.
pub fn cache_entry_key(method: &str, path: &str, query: &str, identity: &Stash, body: &[u8]) -> (r: Option<String>)
    ensures
        opt_view(r) == request_key(method@, path@, query@, stash_view(*identity), body@),
{
    if !is_cacheable(method, path) {
        return None;
    }
    if crate::text::eq_str(method, "POST") {
        Some(request_cache_key(method, path, query, identity, body))
    } else {
        let none: Vec<u8> = Vec::new();
        let k = request_cache_key(method, path, query, identity, none.as_slice());
        assert(none@ =~= Seq::<u8>::empty());
        Some(k)
    }
}

/// The read-through cache as a whole: a response is stored only for a
/// request the cache may answer (a GET, or a POST to a `/graph` path) and
/// only when it may be kept (a success, not a GraphQL error), and two
/// requests meet at one entry only when they agree on method, path, query,
/// the caller's resolved identity and (for POSTs) the body's text; so
/// callers with different identities never share an entry.
pub proof fn lemma_cache_entries_never_mix(
    method1: Seq<char>,
    path1: Seq<char>,
    query1: Seq<char>,
    identity1: (Option<Seq<char>>, Option<Seq<Seq<char>>>),
    body1: Seq<u8>,
    method2: Seq<char>,
    path2: Seq<char>,
    query2: Seq<char>,
    identity2: (Option<Seq<char>>, Option<Seq<Seq<char>>>),
    body2: Seq<u8>,
)
    requires
        request_key(method1, path1, query1, identity1, body1) is Some,
        request_key(method1, path1, query1, identity1, body1) == request_key(method2, path2, query2, identity2, body2),
    ensures
        cacheable(method1, path1),
        method1 == method2,
        path1 == path2,
        query1 == query2,
        identity1 == identity2,
        utf8_lossy(if method1 == "POST"@ { body1 } else { Seq::empty() })
            == utf8_lossy(if method2 == "POST"@ { body2 } else { Seq::empty() }),
{
    let b1 = utf8_lossy(if method1 == "POST"@ { body1 } else { Seq::empty() });
    let b2 = utf8_lossy(if method2 == "POST"@ { body2 } else { Seq::empty() });
    let u1 = user_part(identity1.0);
    let g1 = groups_part(identity1.1);
    let u2 = user_part(identity2.0);
    let g2 = groups_part(identity2.1);
    if (method1, path1, query1, u1, g1, b1) != (method2, path2, query2, u2, g2, b2) {
        lemma_cache_key_injective(method1, path1, query1, u1, g1, b1, method2, path2, query2, u2, g2, b2);
    }
    if identity1 != identity2 {
        lemma_identities_never_share_a_key(method1, path1, query1, identity1, b1, identity2, b2);
    }
}

/// `pat` occurs in `s`.
pub open spec fn has_bytes(s: Seq<u8>, pat: Seq<u8>) -> bool {
    exists|i: int| 0 <= i && i + pat.len() <= s.len() && #[trigger] s.subrange(i, i + pat.len()) == pat
}

/// The bytes of `"errors":`.
pub open spec fn errors_marker() -> Seq<u8> {
    seq![34u8, 101, 114, 114, 111, 114, 115, 34, 58]
}

/// The bytes of `"errors":null`.
pub open spec fn no_errors_marker() -> Seq<u8> {
    seq![34u8, 101, 114, 114, 111, 114, 115, 34, 58, 110, 117, 108, 108]
}

/// A response the cache may keep: a success, and for a GraphQL query not
/// one whose body carries an `errors` member that is not `null`.
pub open spec fn keepable(success: bool, is_graph: bool, body: Seq<u8>) -> bool {
    success && !(is_graph && has_bytes(body, errors_marker()) && !has_bytes(body, no_errors_marker()))
}

fn contains_bytes(s: &[u8], pat: &Vec<u8>) -> (r: bool)
    requires
        pat@.len() > 0,
    ensures
        r == has_bytes(s@, pat@),
{
    if pat.len() > s.len() {
        return false;
    }
    let mut i: usize = 0;
    while i <= s.len() - pat.len()
        invariant
            0 < pat@.len() <= s@.len(),
            i <= s@.len() - pat@.len() + 1,
            forall|k: int| 0 <= k < i ==> #[trigger] s@.subrange(k, k + pat@.len()) != pat@,
        decreases s@.len() + 1 - i,
    {
        let mut j: usize = 0;
        let mut same = true;
        while j < pat.len() && same
            invariant
                j <= pat@.len(),
                i + pat@.len() <= s@.len(),
                s@.len() == s.len(),
                forall|k: int| 0 <= k < j ==> s@[i + k] == pat@[k],
                !same ==> j < pat@.len() && s@[i + j] != pat@[j as int],
            decreases pat@.len() - j + (if same { 1int } else { 0int }),
        {
            if s[i + j] == pat[j] {
                j = j + 1;
            } else {
                same = false;
            }
        }
        if j == pat.len() {
            assert(s@.subrange(i as int, i + pat@.len()) =~= pat@);
            return true;
        }
        assert(s@.subrange(i as int, i + pat@.len())[j as int] != pat@[j as int]);
        i = i + 1;
    }
    assert forall|k: int| 0 <= k && k + pat@.len() <= s@.len() implies #[trigger] s@.subrange(k, k + pat@.len()) != pat@ by {
        assert(k < i);
    }
    false
}

/// Whether a response may be kept: `success` is its status being 2xx,
/// `is_graph` whether the request went to a `/graph` path.
pub fn should_cache(success: bool, is_graph: bool, body: &[u8]) -> (r: bool)
    ensures
        r == keepable(success, is_graph, body@),
{
    if !success {
        return false;
    }
    if !is_graph {
        return true;
    }
    let marker: Vec<u8> = vec![34u8, 101, 114, 114, 111, 114, 115, 34, 58];
    let null_marker: Vec<u8> = vec![34u8, 101, 114, 114, 111, 114, 115, 34, 58, 110, 117, 108, 108];
    assert(marker@ =~= errors_marker());
    assert(null_marker@ =~= no_errors_marker());
    let errs = contains_bytes(body, &marker);
    let nulls = contains_bytes(body, &null_marker);
    !(errs && !nulls)
}

} // verus!
