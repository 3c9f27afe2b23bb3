//! Section names.
//!
//! Three section names are well known — `Currently`, `Later` and `Archive` —
//! and every other name is custom.  Parsing folds ASCII case and strips
//! trailing colons, so `"currently:"` and `"Archive"` both name their
//! well-known section.

use vstd::prelude::*;
use crate::chars::{ascii_eq_ignore_case, chars_to_string, spec_ascii_eq, string_chars};

verus! {

#[derive(Clone, Debug, PartialEq, Eq, Hash, Default)]
pub enum Section {
    #[default]
    Currently,
    Later,
    Archive,
    Custom(String),
}

/// `s` without its trailing colons.
pub open spec fn spec_trim_colons(s: Seq<char>) -> Seq<char>
    decreases s.len(),
{
    if s.len() > 0 && s.last() == ':' {
        spec_trim_colons(s.drop_last())
    } else {
        s
    }
}

/// Whether `s`, after colon-stripping and ASCII case folding, names the
/// given well-known word.
pub open spec fn names_keyword(s: Seq<char>, keyword: Seq<char>) -> bool {
    spec_ascii_eq(spec_trim_colons(s), keyword)
}

fn trim_colons(s: &[char]) -> (r: Vec<char>)
    ensures
        r@ == spec_trim_colons(s@),
{
    let mut end: usize = s.len();
    assert(s@.subrange(0, end as int) =~= s@);
    while end > 0 && s[end - 1] == ':'
        invariant
            end <= s@.len(),
            spec_trim_colons(s@) == spec_trim_colons(s@.subrange(0, end as int)),
        decreases end,
    {
        assert(s@.subrange(0, end as int).drop_last() =~= s@.subrange(0, end - 1));
        end = end - 1;
    }
    let mut r: Vec<char> = Vec::new();
    let mut i: usize = 0;
    while i < end
        invariant
            end <= s@.len(),
            i <= end,
            r@ =~= s@.subrange(0, i as int),
        decreases end - i,
    {
        r.push(s[i]);
        assert(r@ =~= s@.subrange(0, i + 1));
        i = i + 1;
    }
    assert(spec_trim_colons(s@.subrange(0, end as int)) == s@.subrange(0, end as int)) by {
        if end > 0 {
            assert(s@.subrange(0, end as int).last() == s@[end - 1]);
        }
    }
    assert(r@ =~= s@.subrange(0, end as int));
    r
}

impl Section {
    /// The section's name as characters.
    pub open spec fn spec_name(self) -> Seq<char> {
        match self {
            Section::Currently => "Currently"@,
            Section::Later => "Later"@,
            Section::Archive => "Archive"@,
            Section::Custom(n) => n@,
        }
    }

    /// Read a section name, folding case for the well-known names and
    /// stripping trailing colons.
    pub fn parse(s: &str) -> (r: Section)
        ensures
            (r is Currently) == (names_keyword(s@, "currently"@) || names_keyword(s@, "current"@)),
            r is Later ==> names_keyword(s@, "later"@),
            names_keyword(s@, "later"@) && !(r is Currently) ==> r is Later,
            r is Archive ==> names_keyword(s@, "archive"@) || names_keyword(s@, "archived"@),
            (names_keyword(s@, "archive"@) || names_keyword(s@, "archived"@)) && !(r is Currently)
                && !(r is Later) ==> r is Archive,
            r matches Section::Custom(n) ==> n@ == spec_trim_colons(s@),
            (r is Currently || r is Later || r is Archive) || (r matches Section::Custom(n)
                && n@ == spec_trim_colons(s@)),
    {
        let cs = string_chars(s);
        let t = trim_colons(cs.as_slice());
        let currently = string_chars("currently");
        let current = string_chars("current");
        let later = string_chars("later");
        let archive = string_chars("archive");
        let archived = string_chars("archived");
        if ascii_eq_ignore_case(t.as_slice(), currently.as_slice())
            || ascii_eq_ignore_case(t.as_slice(), current.as_slice()) {
            Section::Currently
        } else if ascii_eq_ignore_case(t.as_slice(), later.as_slice()) {
            Section::Later
        } else if ascii_eq_ignore_case(t.as_slice(), archive.as_slice())
            || ascii_eq_ignore_case(t.as_slice(), archived.as_slice()) {
            Section::Archive
        } else {
            Section::Custom(chars_to_string(t.as_slice()))
        }
    }

    /// The section's name.
    pub fn as_str(&self) -> (r: &str)
        ensures
            r@ == self.spec_name(),
    {
        match self {
            Section::Currently => "Currently",
            Section::Later => "Later",
            Section::Archive => "Archive",
            Section::Custom(n) => n.as_str(),
        }
    }

    /// The section's header line: its name followed by a colon.
    pub fn to_taskpaper(&self) -> (r: String)
        ensures
            r@ == self.spec_name() + ":"@,
    {
        let mut out = String::new();
        out.append(self.as_str());
        out.append(":");
        out
    }
}

} // verus!
