//! JSON objects as the library reads them: a list of members, each value
//! text, an integer, or something else.

use vstd::prelude::*;
use crate::text::{eq_str, opt_view};

verus! {

/// A JSON value as the library reads it.
#[derive(Debug, Clone, PartialEq)]
pub enum JsonField {
    Text(String),
    /// An integer number (between `i64::MIN` and `u64::MAX`).
    Integer(i128),
    /// Anything else: null, a boolean, a fractional number, an array, an
    /// object.
    Other,
}

/// Index of the first member named `key` at `k` or later, or -1.
pub open spec fn member_index(m: Seq<(String, JsonField)>, key: Seq<char>, k: int) -> int
    decreases m.len() - k,
{
    if k < 0 || k >= m.len() {
        -1
    } else if m[k].0@ == key {
        k
    } else {
        member_index(m, key, k + 1)
    }
}

/// The text of member `key`, when present and text (`as_str`).
pub open spec fn member_text(m: Seq<(String, JsonField)>, key: Seq<char>) -> Option<Seq<char>> {
    let i = member_index(m, key, 0);
    if i >= 0 {
        match m[i].1 {
            JsonField::Text(s) => Some(s@),
            _ => None,
        }
    } else {
        None
    }
}

/// The value of member `key` when present and an integer within `i64`
/// (`as_i64`).
pub open spec fn member_int(m: Seq<(String, JsonField)>, key: Seq<char>) -> Option<i64> {
    let i = member_index(m, key, 0);
    if i >= 0 {
        match m[i].1 {
            JsonField::Integer(n) => if i64::MIN <= n <= i64::MAX { Some(n as i64) } else { None },
            _ => None,
        }
    } else {
        None
    }
}

/// The value of member `key` when present and an integer within `u64`
/// (`as_u64`).
pub open spec fn member_uint(m: Seq<(String, JsonField)>, key: Seq<char>) -> Option<u64> {
    let i = member_index(m, key, 0);
    if i >= 0 {
        match m[i].1 {
            JsonField::Integer(n) => if 0 <= n <= u64::MAX { Some(n as u64) } else { None },
            _ => None,
        }
    } else {
        None
    }
}

/// Where member `key` is.
pub fn find_member(m: &Vec<(String, JsonField)>, key: &str) -> (r: Option<usize>)
    ensures
        match r {
            Some(i) => i as int == member_index(m@, key@, 0) && i < m@.len(),
            None => member_index(m@, key@, 0) == -1,
        },
{
    let mut k: usize = 0;
    while k < m.len()
        invariant
            k <= m@.len(),
            member_index(m@, key@, 0) == member_index(m@, key@, k as int),
        decreases m@.len() - k,
    {
        if eq_str(m[k].0.as_str(), key) {
            return Some(k);
        }
        k = k + 1;
    }
    None
}

/// The text of member `key`.
pub fn text_member(m: &Vec<(String, JsonField)>, key: &str) -> (r: Option<String>)
    ensures
        opt_view(r) == member_text(m@, key@),
{
    match find_member(m, key) {
        Some(i) => match &m[i].1 {
            JsonField::Text(s) => Some(s.clone()),
            _ => None,
        },
        None => None,
    }
}

/// The value of member `key` as an `i64`.
pub fn int_member(m: &Vec<(String, JsonField)>, key: &str) -> (r: Option<i64>)
    ensures
        r == member_int(m@, key@),
{
    match find_member(m, key) {
        Some(i) => match &m[i].1 {
            JsonField::Integer(n) => if -0x8000_0000_0000_0000i128 <= *n && *n <= 0x7fff_ffff_ffff_ffffi128 {
                Some(*n as i64)
            } else {
                None
            },
            _ => None,
        },
        None => None,
    }
}

/// The value of member `key` as a `u64`.
pub fn uint_member(m: &Vec<(String, JsonField)>, key: &str) -> (r: Option<u64>)
    ensures
        r == member_uint(m@, key@),
{
    match find_member(m, key) {
        Some(i) => match &m[i].1 {
            JsonField::Integer(n) => if 0 <= *n && *n <= 0xffff_ffff_ffff_ffffi128 {
                Some(*n as u64)
            } else {
                None
            },
            _ => None,
        },
        None => None,
    }
}

} // verus!
