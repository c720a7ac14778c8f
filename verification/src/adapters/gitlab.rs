//! GitLab pipelines as Yard test runs, and GitLab's path encoding.

use vstd::prelude::*;
use vstd::utf8::encode_utf8;
use crate::text::{owned, eq_str, push_char, digit};

verus! {

/// Yard's status for a GitLab pipeline status.
pub open spec fn gitlab_status_text(status: Option<Seq<char>>) -> Seq<char> {
    let s = match status {
        Some(s) => s,
        None => Seq::empty(),
    };
    if s == "success"@ {
        "passed"@
    } else if s == "failed"@ {
        "failed"@
    } else if s == "canceled"@ || s == "skipped"@ {
        "cancelled"@
    } else if s == "running"@ {
        "running"@
    } else if s == "pending"@ || s == "created"@ || s == "waiting_for_resource"@ || s == "preparing"@
        || s == "scheduled"@ || s == "manual"@ {
        "pending"@
    } else {
        "errored"@
    }
}

/// Map a GitLab pipeline status onto Yard's TestRun status.
pub fn gitlab_status_to_yard(status: &Option<String>) -> (r: String)
    ensures
        r@ == gitlab_status_text(match status { Some(s) => Some(s@), None => None }),
{
    let s: &str = match status {
        Some(s) => s.as_str(),
        None => "",
    };
    proof { reveal_strlit(""); }
    assert(s@ == (match status { Some(x) => x@, None => Seq::<char>::empty() }));
    if eq_str(s, "success") {
        owned("passed")
    } else if eq_str(s, "failed") {
        owned("failed")
    } else if eq_str(s, "canceled") || eq_str(s, "skipped") {
        owned("cancelled")
    } else if eq_str(s, "running") {
        owned("running")
    } else if eq_str(s, "pending") || eq_str(s, "created") || eq_str(s, "waiting_for_resource")
        || eq_str(s, "preparing") || eq_str(s, "scheduled") || eq_str(s, "manual") {
        owned("pending")
    } else {
        owned("errored")
    }
}

// ── percent-encoding ────────────────────────────────────────────────────────

/// The bytes left as they are: ASCII letters, digits and `-._~`.
pub open spec fn unreserved(b: u8) -> bool {
    ||| (65 <= b && b <= 90)
    ||| (97 <= b && b <= 122)
    ||| (48 <= b && b <= 57)
    ||| b == 45
    ||| b == 46
    ||| b == 95
    ||| b == 126
}

/// The upper-case hexadecimal digit for `n < 16`.
pub open spec fn hex_digit(n: nat) -> char {
    if n < 10 {
        digit(n)
    } else if n == 10 {
        'A'
    } else if n == 11 {
        'B'
    } else if n == 12 {
        'C'
    } else if n == 13 {
        'D'
    } else if n == 14 {
        'E'
    } else {
        'F'
    }
}

/// How one byte is written: itself when unreserved, else `%` and two
/// upper-case hex digits.
pub open spec fn encoded_byte(b: u8) -> Seq<char> {
    if unreserved(b) {
        seq![b as char]
    } else {
        seq!['%', hex_digit((b / 16) as nat), hex_digit((b % 16) as nat)]
    }
}

/// The bytes `bs`, percent-encoded.
pub open spec fn percent_encoded(bs: Seq<u8>) -> Seq<char>
    decreases bs.len(),
{
    if bs.len() == 0 {
        Seq::empty()
    } else {
        percent_encoded(bs.drop_last()) + encoded_byte(bs.last())
    }
}

/// The characters percent-encoded text is made of: ASCII letters, digits,
/// `-._~` and `%`.
pub open spec fn url_safe(c: char) -> bool {
    ||| ('A' <= c && c <= 'Z')
    ||| ('a' <= c && c <= 'z')
    ||| ('0' <= c && c <= '9')
    ||| c == '-'
    ||| c == '.'
    ||| c == '_'
    ||| c == '~'
    ||| c == '%'
}

/// Percent-encoded bytes form a single path segment: every character is
/// an ASCII letter, a digit, one of `-._~` or `%`, so no `/` survives.
pub proof fn lemma_percent_encoded_is_one_segment(bs: Seq<u8>)
    ensures
        forall|i: int| 0 <= i < percent_encoded(bs).len() ==> url_safe(#[trigger] percent_encoded(bs)[i]),
        !percent_encoded(bs).contains('/'),
    decreases bs.len(),
{
    if bs.len() > 0 {
        lemma_percent_encoded_is_one_segment(bs.drop_last());
        let p = percent_encoded(bs.drop_last());
        let e = encoded_byte(bs.last());
        let b = bs.last();
        assert(percent_encoded(bs) == p + e);
        assert forall|i: int| 0 <= i < e.len() implies url_safe(#[trigger] e[i]) by {
            if unreserved(b) {
                assert(e[i] == b as char);
            } else {
                let hi = (b / 16) as nat;
                let lo = (b % 16) as nat;
                assert(hi < 16 && lo < 16);
                assert(url_safe(hex_digit(hi)));
                assert(url_safe(hex_digit(lo)));
            }
        }
        assert forall|i: int| 0 <= i < percent_encoded(bs).len() implies url_safe(#[trigger] percent_encoded(bs)[i]) by {
            if i < p.len() {
                assert(percent_encoded(bs)[i] == p[i]);
            } else {
                assert(percent_encoded(bs)[i] == e[i - p.len()]);
            }
        }
    }
    if percent_encoded(bs).contains('/') {
        let i = choose|i: int| 0 <= i < percent_encoded(bs).len() && percent_encoded(bs)[i] == '/';
        assert(url_safe(percent_encoded(bs)[i]));
    }
}

/// Whether `c` is a hexadecimal digit (either case).
pub open spec fn is_hex(c: char) -> bool {
    ('0' <= c && c <= '9') || ('A' <= c && c <= 'F') || ('a' <= c && c <= 'f')
}

/// The value of hexadecimal digit `c`.
pub open spec fn hex_value(c: char) -> nat {
    if '0' <= c && c <= '9' {
        (c as int - '0' as int) as nat
    } else if 'A' <= c && c <= 'F' {
        (c as int - 'A' as int + 10) as nat
    } else {
        (c as int - 'a' as int + 10) as nat
    }
}

/// Percent-decoding: `%` and two hexadecimal digits give the byte they
/// spell; any other character gives its own (ASCII) byte.
pub open spec fn percent_decoded(t: Seq<char>) -> Seq<u8>
    decreases t.len(),
{
    if t.len() == 0 {
        Seq::empty()
    } else if t.len() >= 3 && t[0] == '%' && is_hex(t[1]) && is_hex(t[2]) {
        seq![(hex_value(t[1]) * 16 + hex_value(t[2])) as u8] + percent_decoded(t.skip(3))
    } else {
        seq![t[0] as u8] + percent_decoded(t.skip(1))
    }
}

proof fn lemma_hex_round_trip(n: nat)
    requires
        n < 16,
    ensures
        is_hex(hex_digit(n)),
        hex_value(hex_digit(n)) == n,
        hex_digit(n) != '%',
{
}

proof fn lemma_decode_byte(b: u8, rest: Seq<char>)
    ensures
        percent_decoded(encoded_byte(b) + rest) == seq![b] + percent_decoded(rest),
{
    let e = encoded_byte(b);
    let t = e + rest;
    if unreserved(b) {
        assert(t[0] == b as char);
        assert((b as char) as u8 == b);
        assert(t.skip(1) =~= rest);
        assert(t[0] != '%');
    } else {
        let hi = (b / 16) as nat;
        let lo = (b % 16) as nat;
        lemma_hex_round_trip(hi);
        lemma_hex_round_trip(lo);
        assert(t[0] == '%' && t[1] == hex_digit(hi) && t[2] == hex_digit(lo));
        assert(t.skip(3) =~= rest);
        assert((hi * 16 + lo) as u8 == b);
    }
}

proof fn lemma_decode_prefix(a: Seq<u8>, rest: Seq<char>)
    ensures
        percent_decoded(percent_encoded(a) + rest) == a + percent_decoded(rest),
    decreases a.len(),
{
    if a.len() == 0 {
        assert(percent_encoded(a) + rest =~= rest);
        assert(a + percent_decoded(rest) =~= percent_decoded(rest));
    } else {
        let a1 = a.drop_last();
        let l = a.last();
        assert(percent_encoded(a) + rest =~= percent_encoded(a1) + (encoded_byte(l) + rest));
        lemma_decode_prefix(a1, encoded_byte(l) + rest);
        lemma_decode_byte(l, rest);
        assert(a1 + (seq![l] + percent_decoded(rest)) =~= a + percent_decoded(rest));
    }
}

/// Percent-decoding gives the bytes back: decoding the encoding of `bs`
/// yields `bs` (so `encode_path(s)` decodes to the UTF-8 bytes of `s`).
pub proof fn lemma_percent_decoding_round_trip(bs: Seq<u8>)
    ensures
        percent_decoded(percent_encoded(bs)) == bs,
{
    lemma_decode_prefix(bs, Seq::empty());
    assert(percent_encoded(bs) + Seq::<char>::empty() =~= percent_encoded(bs));
    assert(bs + percent_decoded(Seq::<char>::empty()) =~= bs);
}

fn hex_char(n: u8) -> (c: char)
    requires
        n < 16,
    ensures
        c == hex_digit(n as nat),
{
    if n == 0 { '0' }
    else if n == 1 { '1' }
    else if n == 2 { '2' }
    else if n == 3 { '3' }
    else if n == 4 { '4' }
    else if n == 5 { '5' }
    else if n == 6 { '6' }
    else if n == 7 { '7' }
    else if n == 8 { '8' }
    else if n == 9 { '9' }
    else if n == 10 { 'A' }
    else if n == 11 { 'B' }
    else if n == 12 { 'C' }
    else if n == 13 { 'D' }
    else if n == 14 { 'E' }
    else { 'F' }
}

/// Percent-encode a GitLab path segment (such as `group/project`) byte by
/// byte over its UTF-8 encoding.
pub fn encode_path_segment(s: &str) -> (out: String)
    ensures
        out@ == percent_encoded(encode_utf8(s@)),
{
    let bytes = s.as_bytes();
    let mut out = String::new();
    let mut i: usize = 0;
    while i < bytes.len()
        invariant
            i <= bytes@.len(),
            bytes@ == encode_utf8(s@),
            out@ == percent_encoded(bytes@.take(i as int)),
        decreases bytes@.len() - i,
    {
        let b = bytes[i];
        let ghost before = out@;
        if (65 <= b && b <= 90) || (97 <= b && b <= 122) || (48 <= b && b <= 57) || b == 45 || b == 46
            || b == 95 || b == 126 {
            push_char(&mut out, b as char);
        } else {
            push_char(&mut out, '%');
            push_char(&mut out, hex_char(b / 16));
            push_char(&mut out, hex_char(b % 16));
        }
        assert(bytes@.take(i + 1).drop_last() =~= bytes@.take(i as int));
        assert(out@ =~= before + encoded_byte(b));
        i = i + 1;
    }
    assert(bytes@.take(bytes@.len() as int) =~= bytes@);
    out
}

/// Percent-encode a GitLab group or user path for the catalog import; the
/// same encoding as [`encode_path_segment`].
pub fn encode_path(s: &str) -> (out: String)
    ensures
        out@ == percent_encoded(encode_utf8(s@)),
{
    encode_path_segment(s)
}

} // verus!
