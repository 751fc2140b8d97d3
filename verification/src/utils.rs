//! Small text helpers for the line protocol.

use vstd::prelude::*;

verus! {

/// A line with its trailing newline (and carriage return) removed.
pub open spec fn spec_strip(s: Seq<char>) -> Seq<char> {
    if s.len() >= 2 && s[s.len() - 2] == '\r' && s[s.len() - 1] == '\n' {
        s.subrange(0, s.len() - 2)
    } else if s.len() >= 1 && s[s.len() - 1] == '\n' {
        s.subrange(0, s.len() - 1)
    } else {
        s
    }
}

pub fn strip(string: &str) -> (r: &str)
    ensures
        r@ == spec_strip(string@),
{
    let n = string.unicode_len();
    if n >= 2 && string.get_char(n - 2) == '\r' && string.get_char(n - 1) == '\n' {
        string.substring_char(0, n - 2)
    } else if n >= 1 && string.get_char(n - 1) == '\n' {
        string.substring_char(0, n - 1)
    } else {
        string
    }
}

} // verus!
