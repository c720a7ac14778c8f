//! The role an Access-verified email maps to.

use vstd::prelude::*;
use crate::text::{split_on, owned, chars_of};

verus! {

/// `c` with ASCII upper-case letters made lower-case.
pub open spec fn ascii_lower(c: char) -> char {
    if 'A' <= c && c <= 'Z' {
        ((c as u32) + 32) as char
    } else {
        c
    }
}

/// `a` and `b` are equal when ASCII letters are compared without case.
pub open spec fn eq_ignore_ascii_case(a: Seq<char>, b: Seq<char>) -> bool {
    a.len() == b.len() && forall|i: int| 0 <= i < a.len() ==> ascii_lower(#[trigger] a[i]) == ascii_lower(b[i])
}

/// The part of an email after its last `@` (all of it when it has none).
pub open spec fn email_domain(email: Seq<char>) -> Seq<char> {
    split_on(email, '@').last()
}

/// The role of `email`: `admin` when an admin domain is set and the email's
/// domain matches it without regard to ASCII case, else `viewer`.
pub open spec fn role_text(email: Seq<char>, admin_domain: Seq<char>) -> Seq<char> {
    if admin_domain.len() > 0 && eq_ignore_ascii_case(email_domain(email), admin_domain) {
        "admin"@
    } else {
        "viewer"@
    }
}

fn lower(c: char) -> (r: char)
    ensures
        r == ascii_lower(c),
{
    if 'A' <= c && c <= 'Z' {
        let u: u8 = (c as u32 + 32) as u8;
        u as char
    } else {
        c
    }
}

proof fn lemma_split_last(s: Seq<char>, sep: char, i: int)
    requires
        0 <= i <= s.len(),
        forall|q: int| i <= q < s.len() ==> s[q] != sep,
        i == 0 || s[i - 1] == sep,
    ensures
        split_on(s, sep).last() == s.subrange(i, s.len() as int),
    decreases s.len() - i,
{
    if s.len() == i {
        if i == 0 {
            assert(s.subrange(0, 0) =~= Seq::<char>::empty());
        } else {
            assert(s.subrange(i, i) =~= Seq::<char>::empty());
        }
    } else {
        let p = s.drop_last();
        lemma_split_last(p, sep, i);
        assert(p.subrange(i, p.len() as int).push(s.last()) =~= s.subrange(i, s.len() as int));
        lemma_split_nonempty(p, sep);
    }
}

proof fn lemma_split_nonempty(s: Seq<char>, sep: char)
    ensures
        split_on(s, sep).len() >= 1,
    decreases s.len(),
{
    if s.len() > 0 {
        lemma_split_nonempty(s.drop_last(), sep);
    }
}

/// The roles of an Access-verified `email`: `["admin"]` for the configured
/// admin domain (ASCII case ignored), `["viewer"]` for everyone else.
pub fn roles_for(email: &str, admin_domain: &str) -> (r: Vec<String>)
    ensures
        r@.len() == 1,
        r@[0]@ == role_text(email@, admin_domain@),
{
    let e = chars_of(email);
    let d = chars_of(admin_domain);
    let mut i: usize = e.len();
    while i > 0 && e[i - 1] != '@'
        invariant
            i <= e@.len(),
            forall|q: int| i <= q < e@.len() ==> e@[q] != '@',
        decreases i,
    {
        i = i - 1;
    }
    proof { lemma_split_last(e@, '@', i as int); }
    let ghost dom = e@.subrange(i as int, e@.len() as int);
    let mut admin = d.len() > 0 && e.len() - i == d.len();
    if admin {
        let mut k: usize = 0;
        while k < d.len()
            invariant
                k <= d@.len(),
                i + d@.len() == e@.len(),
                e@.len() == e.len(),
                dom == e@.subrange(i as int, e@.len() as int),
                admin <==> forall|q: int| 0 <= q < k ==> ascii_lower(#[trigger] dom[q]) == ascii_lower(d@[q]),
            decreases d@.len() - k,
        {
            assert(dom[k as int] == e@[i + k]);
            if lower(e[i + k]) != lower(d[k]) {
                admin = false;
            }
            k = k + 1;
        }
    }
    let mut r: Vec<String> = Vec::new();
    if admin {
        r.push(owned("admin"));
    } else {
        r.push(owned("viewer"));
    }
    r
}

} // verus!
