//! The suite's pages served under a path prefix: the index page gets a
//! `<base href>` so its relative asset references resolve under the prefix.

use vstd::prelude::*;
use crate::text::{trim, strip_trailing, occurs_at, trimmed, trim_end_char, chars_of, string_of, append, owned};

verus! {

/// Index of the first occurrence of `pat` in `s` at `k` or later, or -1.
pub open spec fn first_at(s: Seq<char>, pat: Seq<char>, k: int) -> int
    decreases s.len() - k,
{
    if k < 0 || k + pat.len() > s.len() {
        -1
    } else if occurs_at(s, pat, k) {
        k
    } else {
        proof {
            if k == s.len() {
                assert(s.subrange(k, k + pat.len()) =~= pat);
            }
        }
        first_at(s, pat, k + 1)
    }
}

/// The path prefix a setting names: trimmed, without trailing `/`.
pub open spec fn base_of(setting: Seq<char>) -> Seq<char> {
    strip_trailing(trim(setting), '/')
}

/// The index page under the prefix `setting`: unchanged when the prefix is
/// empty or the page has no `<head>`; else with `<base href="PREFIX/">` on
/// a line of its own right after the first `<head>`.
pub open spec fn index_with_base(raw: Seq<char>, setting: Seq<char>) -> Seq<char> {
    let base = base_of(setting);
    let i = first_at(raw, "<head>"@, 0);
    if base.len() == 0 || i < 0 {
        raw
    } else {
        let at = i + "<head>"@.len();
        raw.subrange(0, at) + "\n  <base href=\""@ + base + "/\">"@ + raw.subrange(at, raw.len() as int)
    }
}

fn matches_at(v: &Vec<char>, p: &Vec<char>, i: usize) -> (r: bool)
    requires
        i + p@.len() <= v@.len(),
    ensures
        r == occurs_at(v@, p@, i as int),
{
    let n = v.len();
    let mut j: usize = 0;
    while j < p.len()
        invariant
            j <= p@.len(),
            n == v@.len(),
            i + p@.len() <= n,
            forall|q: int| 0 <= q < j ==> v@[i + q] == p@[q],
        decreases p@.len() - j,
    {
        if v[i + j] != p[j] {
            assert(v@.subrange(i as int, i + p@.len())[j as int] != p@[j as int]);
            return false;
        }
        j = j + 1;
    }
    assert(v@.subrange(i as int, i + p@.len()) =~= p@);
    true
}

fn find_first(v: &Vec<char>, p: &Vec<char>) -> (r: Option<usize>)
    ensures
        match r {
            Some(i) => i as int == first_at(v@, p@, 0) && i + p@.len() <= v@.len(),
            None => first_at(v@, p@, 0) == -1,
        },
{
    if p.len() > v.len() {
        return None;
    }
    let last = v.len() - p.len();
    let mut i: usize = 0;
    loop
        invariant
            last == v@.len() - p@.len(),
            i <= last,
            first_at(v@, p@, 0) == first_at(v@, p@, i as int),
        decreases last - i,
    {
        if matches_at(v, p, i) {
            return Some(i);
        }
        if i == last {
            assert(first_at(v@, p@, i + 1) == -1);
            return None;
        }
        i = i + 1;
    }
}

/// The index page `raw` served under the path prefix `base_path` (the
/// `MANIFOLD_BASE_PATH` setting; empty in domain mode).
pub fn index_html(raw: &str, base_path: &str) -> (out: String)
    ensures
        out@ == index_with_base(raw@, base_path@),
{
    let t = trimmed(base_path);
    let base = trim_end_char(t.as_str(), '/');
    if base.as_str().is_empty() {
        return owned(raw);
    }
    let v = chars_of(raw);
    let head = chars_of("<head>");
    proof { reveal_strlit("<head>"); }
    match find_first(&v, &head) {
        None => owned(raw),
        Some(i) => {
            let n = v.len();
            assert(i + head@.len() <= n);
            let at = i + head.len();
            let mut out = string_of(&v, 0, at);
            append(&mut out, "\n  <base href=\"");
            append(&mut out, base.as_str());
            append(&mut out, "/\">");
            let rest = string_of(&v, at, v.len());
            append(&mut out, rest.as_str());
            out
        },
    }
}

} // verus!
