//! Lifting the caller's identity out of request headers.
//!
//! A trusted edge injects identity headers; their names are configured per
//! deployment in a [`HeaderConfig`]. The identity lands in a [`Stash`] under
//! fixed keys, so what reads it does not depend on the deployment.

use vstd::prelude::*;
use std::str::FromStr;
use crate::text::{comma_items, views, opt_view, comma_list, owned, chars_of};
use crate::edge::access::ascii_lower;

verus! {

/// The stash key of the caller's user id.
pub const STASH_KEY_USER_ID: &'static str = "user_id";
/// The stash key of the caller's groups.
pub const STASH_KEY_GROUPS: &'static str = "groups";

/// Whether `c` may appear in an HTTP header name (a token character).
pub open spec fn header_name_char(c: char) -> bool {
    ||| ('a' <= c && c <= 'z')
    ||| ('A' <= c && c <= 'Z')
    ||| ('0' <= c && c <= '9')
    ||| c == '!' || c == '#' || c == '$' || c == '%' || c == '&' || c == '\''
    ||| c == '*' || c == '+' || c == '-' || c == '.' || c == '^' || c == '_'
    ||| c == '`' || c == '|' || c == '~'
}

/// Whether `s` is a valid HTTP header name: 1 to 65535 token characters.
pub open spec fn valid_header_name(s: Seq<char>) -> bool {
    &&& 0 < s.len() <= 65535
    &&& forall|i: int| 0 <= i < s.len() ==> header_name_char(#[trigger] s[i])
}

/// `s` with ASCII letters in lower case.
pub open spec fn lower_text(s: Seq<char>) -> Seq<char> {
    s.map_values(|c: char| ascii_lower(c))
}

/// `http::HeaderName::from_str`: accepts a valid header name, normalised to
/// lower case.
#[verifier::external_body]
fn parse_header_name(s: &str) -> (r: Option<String>)
    ensures
        match r {
            Some(n) => valid_header_name(s@) && n@ == lower_text(s@),
            None => !valid_header_name(s@),
        },
{
    match http::HeaderName::from_str(s) {
        Ok(h) => Some(h.as_str().to_owned()),
        Err(_) => None,
    }
}

/// A header name that is not valid.
#[derive(Debug, Clone, Copy, PartialEq, Eq, Structural)]
pub struct InvalidHeaderName;

/// Which headers carry the identity, and the fallback identity for
/// requests without one.
#[derive(Debug, Clone)]
pub struct HeaderConfig {
    /// The user-id header's name, in lower case.
    pub user_id_header: String,
    /// The groups header's name, in lower case.
    pub groups_header: String,
    /// The identity of a request without a user-id header (a read-only
    /// demo), if any.
    pub default_user_id: Option<String>,
    pub default_groups: Option<String>,
    /// Whether the identity headers are trusted at all.
    pub trust_headers: bool,
}

impl HeaderConfig {
    /// A configuration reading the two named headers, trusting them, with
    /// no fallback identity. Fails when either name is not a valid header
    /// name.
    pub fn new(user_id_header: &str, groups_header: &str) -> (r: Result<HeaderConfig, InvalidHeaderName>)
        ensures
            match r {
                Ok(c) => {
                    &&& valid_header_name(user_id_header@) && valid_header_name(groups_header@)
                    &&& c.user_id_header@ == lower_text(user_id_header@)
                    &&& c.groups_header@ == lower_text(groups_header@)
                    &&& c.default_user_id is None && c.default_groups is None
                    &&& c.trust_headers
                },
                Err(_) => !valid_header_name(user_id_header@) || !valid_header_name(groups_header@),
            },
    {
        let u = match parse_header_name(user_id_header) {
            Some(u) => u,
            None => return Err(InvalidHeaderName),
        };
        let g = match parse_header_name(groups_header) {
            Some(g) => g,
            None => return Err(InvalidHeaderName),
        };
        Ok(HeaderConfig {
            user_id_header: u,
            groups_header: g,
            default_user_id: None,
            default_groups: None,
            trust_headers: true,
        })
    }
}

impl Default for HeaderConfig {
    /// `x-manifold-user-id` and `x-manifold-user-groups`, trusted, with no
    /// fallback identity.
    fn default() -> (c: HeaderConfig)
        ensures
            c.user_id_header@ == "x-manifold-user-id"@,
            c.groups_header@ == "x-manifold-user-groups"@,
            c.default_user_id is None,
            c.default_groups is None,
            c.trust_headers,
    {
        HeaderConfig {
            user_id_header: owned("x-manifold-user-id"),
            groups_header: owned("x-manifold-user-groups"),
            default_user_id: None,
            default_groups: None,
            trust_headers: true,
        }
    }
}

/// A request's headers: each name, and its value when the value is visible
/// ASCII text (none otherwise).
#[derive(Debug, Clone)]
pub struct Headers {
    pub entries: Vec<(String, Option<String>)>,
}

/// The caller's identity: user id and groups, each when known.
#[derive(Debug, Clone)]
pub struct Stash {
    pub user_id: Option<String>,
    pub groups: Option<Vec<String>>,
}

impl Stash {
    /// Whether no identity was found.
    pub fn is_empty(&self) -> (r: bool)
        ensures
            r == (self.user_id is None && self.groups is None),
    {
        self.user_id.is_none() && self.groups.is_none()
    }
}

/// The value of the first header named `name` (ASCII case ignored), when
/// that header is present with a text value.
pub open spec fn header_value(h: Seq<(String, Option<String>)>, name: Seq<char>, k: int) -> Option<Seq<char>>
    decreases h.len() - k,
{
    if k < 0 || k >= h.len() {
        None
    } else if lower_text(h[k].0@) == lower_text(name) {
        opt_view(h[k].1)
    } else {
        header_value(h, name, k + 1)
    }
}

/// A comma-separated group list's items, when there are any.
pub open spec fn group_list(s: Seq<char>) -> Option<Seq<Seq<char>>> {
    if comma_items(s).len() > 0 { Some(comma_items(s)) } else { None }
}

/// The identity a request's headers give: the user id when its header is
/// trusted, present and not empty; the groups when their header is trusted
/// and lists any. Without a user id, a configured fallback user id applies,
/// and the fallback groups replace the header's: the fallback identity has
/// the groups its configuration lists, or none.
pub open spec fn stash_of(h: Seq<(String, Option<String>)>, cfg: HeaderConfig) -> (Option<Seq<char>>, Option<Seq<Seq<char>>>) {
    let uid = if cfg.trust_headers {
        match header_value(h, cfg.user_id_header@, 0) {
            Some(v) => if v.len() > 0 { Some(v) } else { None },
            None => None,
        }
    } else {
        None
    };
    let groups = if cfg.trust_headers {
        match header_value(h, cfg.groups_header@, 0) {
            Some(v) => group_list(v),
            None => None,
        }
    } else {
        None
    };
    if uid is None && (cfg.default_user_id matches Some(d) && d@.len() > 0) {
        let g = match cfg.default_groups {
            Some(dg) => group_list(dg@),
            None => None,
        };
        (Some(cfg.default_user_id.unwrap()@), g)
    } else {
        (uid, groups)
    }
}

/// Headers that are not trusted give no identity: whatever a request
/// carries, the stash is the one the configuration's fallback alone gives.
pub proof fn lemma_untrusted_headers_ignored(h1: Seq<(String, Option<String>)>, h2: Seq<(String, Option<String>)>, cfg: HeaderConfig)
    requires
        !cfg.trust_headers,
    ensures
        stash_of(h1, cfg) == stash_of(h2, cfg),
{
}

/// A trusted, present, non-empty user-id header is the user id; the
/// fallback identity never replaces it.
pub proof fn lemma_header_identity_wins(h: Seq<(String, Option<String>)>, cfg: HeaderConfig)
    requires
        cfg.trust_headers,
        header_value(h, cfg.user_id_header@, 0) matches Some(v) && v.len() > 0,
    ensures
        stash_of(h, cfg).0 == header_value(h, cfg.user_id_header@, 0),
        stash_of(h, cfg).1 == match header_value(h, cfg.groups_header@, 0) {
            Some(g) => group_list(g),
            None => None,
        },
{
}

/// A stash's content as character sequences.
pub open spec fn stash_view(s: Stash) -> (Option<Seq<char>>, Option<Seq<Seq<char>>>) {
    (opt_view(s.user_id), match s.groups {
        Some(g) => Some(views(g@)),
        None => None,
    })
}

fn lower_eq(a: &str, b: &str) -> (r: bool)
    ensures
        r == (lower_text(a@) == lower_text(b@)),
{
    let va = chars_of(a);
    let vb = chars_of(b);
    if va.len() != vb.len() {
        assert(lower_text(a@).len() != lower_text(b@).len());
        return false;
    }
    let mut i: usize = 0;
    while i < va.len()
        invariant
            i <= va@.len() == vb@.len(),
            va@ == a@,
            vb@ == b@,
            forall|k: int| 0 <= k < i ==> ascii_lower(va@[k]) == ascii_lower(vb@[k]),
        decreases va@.len() - i,
    {
        let x = va[i];
        let y = vb[i];
        let lx = if 'A' <= x && x <= 'Z' { ((x as u32 + 32) as u8) as char } else { x };
        let ly = if 'A' <= y && y <= 'Z' { ((y as u32 + 32) as u8) as char } else { y };
        if lx != ly {
            assert(lower_text(a@)[i as int] != lower_text(b@)[i as int]);
            return false;
        }
        i = i + 1;
    }
    assert(lower_text(a@) =~= lower_text(b@));
    true
}

impl Headers {
    /// The value of the first header named `name`, when it is text.
    pub fn get(&self, name: &str) -> (r: Option<String>)
        ensures
            opt_view(r) == header_value(self.entries@, name@, 0),
    {
        let mut k: usize = 0;
        while k < self.entries.len()
            invariant
                k <= self.entries@.len(),
                header_value(self.entries@, name@, 0) == header_value(self.entries@, name@, k as int),
            decreases self.entries@.len() - k,
        {
            if lower_eq(self.entries[k].0.as_str(), name) {
                return match &self.entries[k].1 {
                    Some(v) => Some(v.clone()),
                    None => None,
                };
            }
            k = k + 1;
        }
        None
    }
}

fn groups_of(s: &str) -> (r: Option<Vec<String>>)
    ensures
        match r {
            Some(g) => group_list(s@) == Some(views(g@)),
            None => group_list(s@) is None,
        },
{
    let items = comma_list(s);
    if items.len() > 0 {
        Some(items)
    } else {
        None
    }
}

/// Read the identity headers into a stash (see [`stash_of`]).
pub fn build_stash(headers: &Headers, cfg: &HeaderConfig) -> (s: Stash)
    ensures
        stash_view(s) == stash_of(headers.entries@, *cfg),
{
    let mut user_id: Option<String> = None;
    let mut groups: Option<Vec<String>> = None;
    if cfg.trust_headers {
        match headers.get(cfg.user_id_header.as_str()) {
            Some(v) => {
                if !v.as_str().is_empty() {
                    user_id = Some(v);
                }
            },
            None => {},
        }
        match headers.get(cfg.groups_header.as_str()) {
            Some(v) => {
                groups = groups_of(v.as_str());
            },
            None => {},
        }
    }
    if user_id.is_none() {
        match &cfg.default_user_id {
            Some(d) => {
                if !d.as_str().is_empty() {
                    user_id = Some(d.clone());
                    groups = match &cfg.default_groups {
                        Some(dg) => groups_of(dg.as_str()),
                        None => None,
                    };
                }
            },
            None => {},
        }
    }
    Stash { user_id, groups }
}

/// The stash of an identity verified elsewhere (an Access token): its user
/// id, and its groups when there are any.
pub fn identity_stash(user_id: String, groups: Vec<String>) -> (s: Stash)
    ensures
        stash_view(s) == (Some(user_id@), if groups@.len() > 0 {
            Some(views(groups@))
        } else {
            None::<Seq<Seq<char>>>
        }),
{
    if groups.len() > 0 {
        Stash { user_id: Some(user_id), groups: Some(groups) }
    } else {
        Stash { user_id: Some(user_id), groups: None }
    }
}

} // verus!
