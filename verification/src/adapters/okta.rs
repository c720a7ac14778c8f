//! Okta users as Union people.

use vstd::prelude::*;
use crate::text::{trim, opt_view, owned, append, trimmed};

verus! {

/// The name a Person gets from an Okta user: first and last name joined by
/// a space and trimmed; when that is empty, the email, else the Okta id.
pub open spec fn display_text(first: Option<Seq<char>>, last: Option<Seq<char>>, email: Option<Seq<char>>, id: Seq<char>) -> Seq<char> {
    let f = match first { Some(s) => s, None => Seq::empty() };
    let l = match last { Some(s) => s, None => Seq::empty() };
    let d = trim(f + " "@ + l);
    if d.len() > 0 {
        d
    } else {
        match email {
            Some(e) => e,
            None => id,
        }
    }
}

/// The display name of an Okta user.
pub fn display_name(first: &Option<String>, last: &Option<String>, email: &Option<String>, id: &str) -> (r: String)
    ensures
        r@ == display_text(opt_view(*first), opt_view(*last), opt_view(*email), id@),
{
    let mut joined = match first {
        Some(f) => f.clone(),
        None => String::new(),
    };
    append(&mut joined, " ");
    match last {
        Some(l) => append(&mut joined, l.as_str()),
        None => {},
    }
    let ghost f = match opt_view(*first) { Some(s) => s, None => Seq::<char>::empty() };
    let ghost l = match opt_view(*last) { Some(s) => s, None => Seq::<char>::empty() };
    assert(joined@ =~= f + " "@ + l);
    let d = trimmed(joined.as_str());
    if !d.as_str().is_empty() {
        d
    } else {
        match email {
            Some(e) => e.clone(),
            None => owned(id),
        }
    }
}

} // verus!
