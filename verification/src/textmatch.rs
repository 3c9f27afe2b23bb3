//! Free-text search: regex, exact and substring modes under a case policy.
//!
//! A query wrapped in `/…/` is a regular expression; one starting with a
//! single quote, or an explicit exact flag, asks for whole-text equality;
//! anything else is substring containment.  Case sensitivity is decided by
//! the policy: always, never, or "smart" — sensitive exactly when the query
//! itself contains an uppercase letter.  Regular-expression matching is the
//! `regex` crate's, behind one trusted call.

use vstd::prelude::*;
use crate::chars::{
    chars_to_string, string_chars, str_eq, ascii_eq_ignore_case, spec_ascii_eq, contains_sub,
    is_substring, lower_of, to_lowercase, has_uppercase, spec_has_uppercase,
};

verus! {

/// Whether the `regex` crate accepts this pattern.  Validity depends on the
/// pattern's characters alone.
pub uninterp spec fn regex_ok(pattern: Seq<char>) -> bool;

/// What `Regex::is_match` returns for a pattern and a text: a function of
/// the two character sequences alone.
pub uninterp spec fn regex_is_match(pattern: Seq<char>, text: Seq<char>) -> bool;

/// Relies on `regex::Regex::new` and `regex::Regex::is_match`: compiling
/// succeeds or fails on the pattern alone, and matching is a function of
/// pattern and text.
#[verifier::external_body]
pub fn regex_match_str(pattern: &str, text: &str) -> (r: Option<bool>)
    ensures
        r is Some <==> regex_ok(pattern@),
        r matches Some(b) ==> b == regex_is_match(pattern@, text@),
{
    match regex::Regex::new(pattern) {
        Ok(re) => Some(re.is_match(text)),
        Err(_) => None,
    }
}

/// Whether the query asks for regular-expression matching: wrapped in
/// slashes, with something between them.
pub open spec fn regex_mode(q: Seq<char>) -> bool {
    q.len() >= 2 && q[0] == '/' && q.last() == '/'
}

/// Whether the query asks for exact matching: a leading single quote, or
/// the explicit exact flag.
pub open spec fn exact_mode(q: Seq<char>, exact: bool) -> bool {
    (q.len() > 0 && q[0] == '\'') || exact
}

/// The regex pattern actually compiled: the text between the slashes, with
/// `(?i)` in front under case-insensitive matching.
pub open spec fn full_pattern(q: Seq<char>, cs: bool) -> Seq<char> {
    let inner = q.subrange(1, q.len() - 1);
    if cs {
        inner
    } else {
        seq!['(', '?', 'i', ')'] + inner
    }
}

/// The query with a leading single quote stripped.
pub open spec fn exact_query(q: Seq<char>) -> Seq<char> {
    if q.len() > 0 && q[0] == '\'' {
        q.drop_first()
    } else {
        q
    }
}

/// Whether matching is case-sensitive: always, never, or exactly when the
/// query holds an uppercase letter.
pub open spec fn spec_case_sensitive(case: CaseSensitivity, q: Seq<char>) -> bool {
    match case {
        CaseSensitivity::CaseSensitive => true,
        CaseSensitivity::Ignore => false,
        CaseSensitivity::Smart => spec_has_uppercase(q),
    }
}

/// The case policy.
#[derive(Clone, Copy, Debug, PartialEq, Eq, Structural)]
pub enum CaseSensitivity {
    CaseSensitive,
    Ignore,
    Smart,
}

/// Exact equality of `text` against the query under the case policy.
pub open spec fn exact_eq(text: Seq<char>, q: Seq<char>, cs: bool) -> bool {
    if cs {
        text == q
    } else {
        spec_ascii_eq(text, q)
    }
}

/// Substring containment of the query in `text` under the case policy.
pub open spec fn substring_under(text: Seq<char>, q: Seq<char>, cs: bool) -> bool {
    if cs {
        is_substring(text, q)
    } else {
        is_substring(lower_of(text), lower_of(q))
    }
}

/// Whether the query is an invalid regular expression: regex mode whose
/// compiled pattern the `regex` crate refuses.
pub open spec fn search_query_bad(q: Seq<char>, cs: bool) -> bool {
    regex_mode(q) && !regex_ok(full_pattern(q, cs))
}

/// Whether an entry matches the search query: against its description, or
/// its note when it has one.
pub open spec fn spec_search_match(
    desc: Seq<char>,
    note: Option<Seq<char>>,
    q: Seq<char>,
    exact: bool,
    cs: bool,
) -> bool {
    if regex_mode(q) {
        let p = full_pattern(q, cs);
        regex_is_match(p, desc) || (note matches Some(n) && regex_is_match(p, n))
    } else if exact_mode(q, exact) {
        let qq = exact_query(q);
        exact_eq(desc, qq, cs) || (note matches Some(n) && exact_eq(n, qq, cs))
    } else {
        substring_under(desc, q, cs) || (note matches Some(n) && substring_under(n, q, cs))
    }
}

/// Decide case sensitivity for a query.
pub fn case_sensitive_for(case: &CaseSensitivity, q: &[char]) -> (r: bool)
    ensures
        r == spec_case_sensitive(*case, q@),
{
    match case {
        CaseSensitivity::CaseSensitive => true,
        CaseSensitivity::Ignore => false,
        CaseSensitivity::Smart => has_uppercase(q),
    }
}

fn push_all(out: &mut Vec<char>, s: &[char])
    ensures
        final(out)@ == old(out)@ + s@,
{
    let mut i: usize = 0;
    while i < s.len()
        invariant
            i <= s@.len(),
            out@ =~= old(out)@ + s@.subrange(0, i as int),
        decreases s@.len() - i,
    {
        out.push(s[i]);
        assert(out@ =~= old(out)@ + s@.subrange(0, i + 1));
        i = i + 1;
    }
    assert(out@ =~= old(out)@ + s@);
}

/// Build the compiled pattern text for a regex-mode query.
pub fn build_full_pattern(q: &[char], cs: bool) -> (r: String)
    requires
        q@.len() >= 2,
    ensures
        r@ == full_pattern(q@, cs),
{
    let mut v: Vec<char> = Vec::new();
    if !cs {
        v.push('(');
        v.push('?');
        v.push('i');
        v.push(')');
    }
    let mut i: usize = 1;
    let n = q.len();
    let ghost base = v@;
    while i < n - 1
        invariant
            n == q@.len(),
            2 <= n,
            1 <= i <= n - 1,
            v@ =~= base + q@.subrange(1, i as int),
        decreases n - i,
    {
        v.push(q[i]);
        assert(v@ =~= base + q@.subrange(1, i + 1));
        i = i + 1;
    }
    assert(v@ =~= full_pattern(q@, cs));
    chars_to_string(v.as_slice())
}

/// Whether the entry's description or note matches the query.  `None`
/// exactly when the query is regex mode with an invalid pattern.
pub fn search_match(
    description: &str,
    note: &Option<String>,
    query: &str,
    exact: bool,
    cs: bool,
) -> (r: Option<bool>)
    ensures
        r is Some <==> !search_query_bad(query@, cs),
        r matches Some(b) ==> b == spec_search_match(
            description@,
            crate::model::opt_view(*note),
            query@,
            exact,
            cs,
        ),
{
    let q = string_chars(query);
    let n = q.len();
    if n >= 2 && q[0] == '/' && q[n - 1] == '/' {
        let pat = build_full_pattern(q.as_slice(), cs);
        let d = regex_match_str(pat.as_str(), description);
        match d {
            None => None,
            Some(b1) => {
                let b2 = match note {
                    Some(nt) => {
                        let m = regex_match_str(pat.as_str(), nt.as_str());
                        match m {
                            Some(b) => b,
                            None => false,
                        }
                    },
                    None => false,
                };
                Some(b1 || b2)
            },
        }
    } else if (n > 0 && q[0] == '\'') || exact {
        assert(!regex_mode(query@));
        let qq: Vec<char> = if n > 0 && q[0] == '\'' {
            let mut v: Vec<char> = Vec::new();
            let mut i: usize = 1;
            while i < n
                invariant
                    n == q@.len(),
                    1 <= i <= n,
                    v@ =~= q@.subrange(1, i as int),
                decreases n - i,
            {
                v.push(q[i]);
                assert(v@ =~= q@.subrange(1, i + 1));
                i = i + 1;
            }
            assert(v@ =~= exact_query(q@));
            v
        } else {
            assert(q@ =~= exact_query(q@));
            q
        };
        let d = string_chars(description);
        let dm = if cs {
            str_eq(description, chars_to_string(qq.as_slice()).as_str())
        } else {
            ascii_eq_ignore_case(d.as_slice(), qq.as_slice())
        };
        let nm = match note {
            Some(nt) => {
                let nc = string_chars(nt.as_str());
                if cs {
                    str_eq(nt.as_str(), chars_to_string(qq.as_slice()).as_str())
                } else {
                    ascii_eq_ignore_case(nc.as_slice(), qq.as_slice())
                }
            },
            None => false,
        };
        Some(dm || nm)
    } else {
        assert(!regex_mode(query@) && !exact_mode(query@, exact));
        let d = string_chars(description);
        let dm = if cs {
            contains_sub(d.as_slice(), q.as_slice())
        } else {
            let dl = to_lowercase(description);
            let ql = to_lowercase(query);
            let dlc = string_chars(dl.as_str());
            let qlc = string_chars(ql.as_str());
            contains_sub(dlc.as_slice(), qlc.as_slice())
        };
        let nm = match note {
            Some(nt) => {
                let nc = string_chars(nt.as_str());
                if cs {
                    contains_sub(nc.as_slice(), q.as_slice())
                } else {
                    let nl = to_lowercase(nt.as_str());
                    let ql2 = to_lowercase(query);
                    let nlc = string_chars(nl.as_str());
                    let qlc2 = string_chars(ql2.as_str());
                    contains_sub(nlc.as_slice(), qlc2.as_slice())
                }
            },
            None => false,
        };
        Some(dm || nm)
    }
}

} // verus!
