//! Anchored shell-style wildcard matching.
//!
//! `*` matches any run of zero or more characters, `?` matches exactly one
//! character, and every other character matches itself, case-sensitively.
//! A pattern matches only if it covers the whole candidate string.

use vstd::prelude::*;

verus! {

/// Does `p[i..]` match all of `s[j..]`?
///
/// This is the defining equation of the matcher: an exhausted pattern
/// matches only an exhausted candidate; `*` either matches nothing or
/// swallows one more character; any other pattern character consumes
/// exactly one candidate character.
pub open spec fn match_at(p: Seq<char>, s: Seq<char>, i: int, j: int) -> bool
    decreases p.len() - i + s.len() - j,
        when 0 <= i <= p.len() && 0 <= j <= s.len()
{
    if i == p.len() {
        j == s.len()
    } else if p[i] == '*' {
        match_at(p, s, i + 1, j) || (j < s.len() && match_at(p, s, i, j + 1))
    } else {
        j < s.len() && (p[i] == '?' || p[i] == s[j]) && match_at(p, s, i + 1, j + 1)
    }
}

/// Anchored match of the whole candidate against the whole pattern.
pub open spec fn glob_matches(p: Seq<char>, s: Seq<char>) -> bool {
    match_at(p, s, 0, 0)
}

/// The characters of `s`, in order.
pub(crate) fn chars_vec(s: &str) -> (r: Vec<char>)
    ensures
        r@ == s@,
{
    let n = s.unicode_len();
    let mut r: Vec<char> = Vec::new();
    let mut k: usize = 0;
    while k < n
        invariant
            n == s@.len(),
            k <= n,
            r@ == s@.take(k as int),
        decreases n - k,
    {
        let c = s.get_char(k);
        r.push(c);
        proof {
            assert(r@ =~= s@.take(k as int + 1));
        }
        k = k + 1;
    }
    proof {
        assert(r@ =~= s@);
    }
    r
}

/// Recursive worker for `glob_match`, mirroring `match_at`.
fn match_from(p: &Vec<char>, s: &Vec<char>, i: usize, j: usize) -> (r: bool)
    requires
        i <= p@.len(),
        j <= s@.len(),
    ensures
        r == match_at(p@, s@, i as int, j as int),
    decreases p@.len() - i + s@.len() - j,
{
    if i == p.len() {
        j == s.len()
    } else if p[i] == '*' {
        if match_from(p, s, i + 1, j) {
            true
        } else if j < s.len() {
            match_from(p, s, i, j + 1)
        } else {
            false
        }
    } else {
        j < s.len() && (p[i] == '?' || p[i] == s[j]) && match_from(p, s, i + 1, j + 1)
    }
}

/// Anchored glob match over character vectors.
pub(crate) fn glob_match_chars(pattern: &Vec<char>, candidate: &Vec<char>) -> (r: bool)
    ensures
        r == glob_matches(pattern@, candidate@),
{
    match_from(pattern, candidate, 0, 0)
}

/// Anchored glob match: `*` any run, `?` one character, others literal.
pub fn glob_match(pattern: &str, candidate: &str) -> (r: bool)
    ensures
        r == glob_matches(pattern@, candidate@),
{
    let p = chars_vec(pattern);
    let s = chars_vec(candidate);
    match_from(&p, &s, 0, 0)
}

} // verus!
