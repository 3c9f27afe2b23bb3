//! The declarative option records of the command layer, and their
//! translation into engine terms.
//!
//! Each command is driven by a plain record of what the user asked for;
//! the fields hold raw text (date expressions still unresolved) and flags.
//! The helpers below turn the shared words — a boolean-strategy name, a
//! case-policy name — into the engine's types, and assemble a filter
//! specification once the caller has resolved the time bounds.

use vstd::prelude::*;
use crate::chars::str_eq;
use crate::filtering::{BoolOp, FilterOptions, TimeBound};
use crate::textmatch::CaseSensitivity;
use crate::time::Timestamp;

verus! {

/// The boolean strategy a word names; anything unknown means the pattern
/// grammar.
pub open spec fn spec_bool_op(s: Seq<char>) -> BoolOp {
    if s == "and"@ {
        BoolOp::And
    } else if s == "or"@ {
        BoolOp::Or
    } else if s == "not"@ {
        BoolOp::Not
    } else {
        BoolOp::Pattern
    }
}

/// Read a boolean-strategy word.
pub fn parse_bool_op(s: &str) -> (r: BoolOp)
    ensures
        r == spec_bool_op(s@),
{
    if str_eq(s, "and") {
        BoolOp::And
    } else if str_eq(s, "or") {
        BoolOp::Or
    } else if str_eq(s, "not") {
        BoolOp::Not
    } else {
        BoolOp::Pattern
    }
}

/// The case policy a word names; anything unknown means smart case.
pub open spec fn spec_case_policy(s: Seq<char>) -> CaseSensitivity {
    if s == "c"@ || s == "case-sensitive"@ {
        CaseSensitivity::CaseSensitive
    } else if s == "i"@ || s == "ignore"@ {
        CaseSensitivity::Ignore
    } else {
        CaseSensitivity::Smart
    }
}

/// Read a case-policy word.
pub fn parse_case_policy(s: &str) -> (r: CaseSensitivity)
    ensures
        r == spec_case_policy(s@),
{
    if str_eq(s, "c") || str_eq(s, "case-sensitive") {
        CaseSensitivity::CaseSensitive
    } else if str_eq(s, "i") || str_eq(s, "ignore") {
        CaseSensitivity::Ignore
    } else {
        CaseSensitivity::Smart
    }
}

/// What `archive` moves, where to, and under which filters.
#[derive(Clone, Debug)]
pub struct ArchiveOptions {
    pub target: Option<String>,
    pub after: Option<String>,
    pub before: Option<String>,
    pub _bool_op: String,
    pub case: String,
    pub from: Option<String>,
    pub keep: Option<usize>,
    pub label: bool,
    pub not: bool,
    pub search: Option<String>,
    pub to: String,
    pub tag: Option<String>,
    pub val: Vec<String>,
    pub exact: bool,
}

/// What `cancel` ends without a finish time.
#[derive(Clone, Debug)]
pub struct CancelOptions {
    pub count: usize,
    pub archive: bool,
    pub interactive: bool,
    pub not: bool,
    pub sections: Vec<String>,
    pub search: Option<String>,
    pub tag: Option<String>,
    pub unfinished: bool,
    pub exact: bool,
}

/// What `delete` removes.
#[derive(Clone, Debug)]
pub struct DeleteOptions {
    pub count: usize,
    pub interactive: bool,
    pub not: bool,
    pub sections: Vec<String>,
    pub search: Option<String>,
    pub tag: Option<String>,
    pub exact: bool,
    pub force: bool,
}

/// What `done` records or closes.
#[derive(Clone, Debug)]
pub struct DoneOptions {
    pub entry: Vec<String>,
    pub note: Option<String>,
    pub ask: bool,
    pub back: Option<String>,
    pub at: Option<String>,
    pub took: Option<String>,
    pub from: Option<String>,
    pub section: Option<String>,
    pub editor: bool,
    pub archive: bool,
    pub remove: bool,
    pub unfinished: bool,
    pub _date: bool,
    pub _noauto: bool,
}

/// What `finish` closes.
#[derive(Clone, Debug)]
pub struct FinishOptions {
    pub count: usize,
    pub archive: bool,
    pub at: Option<String>,
    pub auto: bool,
    pub back: Option<String>,
    pub from: Option<String>,
    pub interactive: bool,
    pub not: bool,
    pub remove: bool,
    pub sections: Vec<String>,
    pub search: Option<String>,
    pub took: Option<String>,
    pub tag: Option<String>,
    pub unfinished: bool,
    pub update: bool,
    pub exact: bool,
    pub date: bool,
}

/// The filter side of `grep`.
#[derive(Clone, Debug)]
pub struct GrepFilterOptions {
    pub pattern: String,
    pub after: Option<String>,
    pub before: Option<String>,
    pub bool_op: String,
    pub case: String,
    pub from: Option<String>,
    pub not: bool,
    pub only_timed: bool,
    pub sections: Vec<String>,
    pub tag: Option<String>,
    pub val: Vec<String>,
    pub exact: bool,
}

/// The display side of `grep`.
#[derive(Clone, Debug)]
pub struct GrepDisplayOptions {
    pub duration: bool,
    pub hilite: bool,
    pub output: Option<String>,
    pub times: bool,
    pub tag_order: String,
    pub tag_sort: String,
    pub totals: bool,
}

/// The action side of `grep`.
#[derive(Clone, Debug)]
pub struct GrepActionOptions {
    pub delete: bool,
    pub interactive: bool,
    pub _editor: bool,
}

/// The configuration side of `grep`.
#[derive(Clone, Debug)]
pub struct GrepConfigOptions {
    pub _config_template: Option<String>,
    pub _save: Option<String>,
    pub _template: Option<String>,
    pub _title: Option<String>,
}

/// Which entry `note` addresses.
#[derive(Clone, Debug)]
pub struct NoteFilterOptions {
    pub sections: Vec<String>,
    pub search: Option<String>,
    pub tag: Option<String>,
    pub case: String,
    pub exact: bool,
    pub not: bool,
}

/// What `note` writes.
#[derive(Clone, Debug)]
pub struct NoteOptions {
    pub note: Vec<String>,
    pub ask: bool,
    pub editor: bool,
    pub remove: bool,
}

/// The filter side of `on`.
#[derive(Clone, Debug)]
pub struct OnFilterOptions {
    pub date_string: String,
    pub after: Option<String>,
    pub before: Option<String>,
    pub bool_op: String,
    pub case: String,
    pub from: Option<String>,
    pub not: bool,
    pub only_timed: bool,
    pub sections: Vec<String>,
    pub search: Option<String>,
    pub tag: Option<String>,
    pub val: Vec<String>,
    pub exact: bool,
}

/// The display side of `on`.
#[derive(Clone, Debug)]
pub struct OnDisplayOptions {
    pub duration: bool,
    pub output: Option<String>,
    pub times: bool,
    pub tag_order: String,
    pub tag_sort: String,
    pub totals: bool,
}

/// The configuration side of `on`.
#[derive(Clone, Debug)]
pub struct OnConfigOptions {
    pub _config_template: Option<String>,
    pub _save: Option<String>,
    pub _template: Option<String>,
    pub _title: Option<String>,
}

/// What `reset` re-times.
#[derive(Clone, Debug)]
pub struct ResetOptions {
    pub date_string: Option<String>,
    pub _bool_op: String,
    pub case: String,
    pub from: Option<String>,
    pub interactive: bool,
    pub no_resume: bool,
    pub not: bool,
    pub resume: bool,
    pub sections: Vec<String>,
    pub search: Option<String>,
    pub took: Option<String>,
    pub tag: Option<String>,
    pub _val: Vec<String>,
    pub exact: bool,
}

/// What `rotate` moves to the archive file.
#[derive(Clone, Debug)]
pub struct RotateOptions {
    pub before: Option<String>,
    pub _bool_op: String,
    pub case: String,
    pub keep: Option<usize>,
    pub not: bool,
    pub section: Option<String>,
    pub search: Option<String>,
    pub tag: Option<String>,
    pub val: Vec<String>,
    pub exact: bool,
}

/// The filter side of `show`.
#[derive(Clone, Debug)]
pub struct ShowFilterOptions {
    pub args: Vec<String>,
    pub age: String,
    pub after: Option<String>,
    pub before: Option<String>,
    pub bool_op: String,
    pub case: String,
    pub from: Option<String>,
    pub not: bool,
    pub only_timed: bool,
    pub sections: Vec<String>,
    pub search: Option<String>,
    pub tag: Option<String>,
    pub val: Vec<String>,
    pub exact: bool,
}

/// The display side of `show`.
#[derive(Clone, Debug)]
pub struct ShowDisplayOptions {
    pub count: usize,
    pub duration: bool,
    pub hilite: bool,
    pub output: Option<String>,
    pub sort: String,
    pub times: bool,
    pub tag_order: String,
    pub tag_sort: String,
    pub totals: bool,
}

/// The interactive side of `show`.
#[derive(Clone, Debug)]
pub struct ShowUIOptions {
    pub interactive: bool,
    pub menu: bool,
    pub _editor: bool,
}

/// The configuration side of `show`.
#[derive(Clone, Debug)]
pub struct ShowConfigOptions {
    pub _config_template: Option<String>,
    pub _save: Option<String>,
    pub _template: Option<String>,
    pub _title: Option<String>,
}

/// The filter side of `since`.
#[derive(Clone, Debug)]
pub struct SinceFilterOptions {
    pub date_string: String,
    pub bool_op: String,
    pub case: String,
    pub not: bool,
    pub only_timed: bool,
    pub sections: Vec<String>,
    pub search: Option<String>,
    pub tag: Option<String>,
    pub val: Vec<String>,
    pub exact: bool,
}

/// The display side of `since`.
#[derive(Clone, Debug)]
pub struct SinceDisplayOptions {
    pub duration: bool,
    pub output: Option<String>,
    pub times: bool,
    pub tag_order: String,
    pub tag_sort: String,
    pub totals: bool,
}

/// The configuration side of `since`.
#[derive(Clone, Debug)]
pub struct SinceConfigOptions {
    pub _config_template: Option<String>,
    pub _save: Option<String>,
    pub _template: Option<String>,
    pub _title: Option<String>,
}

/// The filter side of `tags`.
#[derive(Clone, Debug)]
pub struct TagsFilterOptions {
    pub section: Vec<String>,
    pub search: Option<String>,
    pub tag: Option<String>,
    pub val: Vec<String>,
    pub case: String,
    pub exact: bool,
    pub not: bool,
}

/// The display side of `tags`.
#[derive(Clone, Debug)]
pub struct TagsDisplayOptions {
    pub max_count: Option<usize>,
    pub counts: bool,
    pub line: bool,
    pub order: String,
    pub sort: String,
}

/// What `yesterday` shows.
#[derive(Clone, Debug)]
pub struct YesterdayOptions {
    pub after: Option<String>,
    pub before: Option<String>,
    pub _config_template: Option<String>,
    pub duration: bool,
    pub from: Option<String>,
    pub output: Option<String>,
    pub only_timed: bool,
    pub sections: Vec<String>,
    pub _save: Option<String>,
    pub times: bool,
    pub tag_order: String,
    pub tag_sort: String,
    pub _template: Option<String>,
    pub _title: Option<String>,
    pub totals: bool,
}

impl GrepFilterOptions {
    /// Assemble the engine's filter specification: the pattern as the
    /// search query, the single tag token, and the time bounds the caller
    /// has resolved.
    pub fn filter_options(
        &self,
        after: Option<TimeBound>,
        before: Option<TimeBound>,
        from: Option<(Timestamp, Option<Timestamp>)>,
    ) -> (r: FilterOptions)
        ensures
            r.search matches Some(q) && q@ == self.pattern@,
            self.tag matches Some(t) ==> r.tags@.len() == 1 && r.tags@[0]@ == t@,
            self.tag is None ==> r.tags@.len() == 0,
            r.sections@ == self.sections@,
            r.after == after,
            r.before == before,
            r.from == from,
            r.case == spec_case_policy(self.case@),
            r.exact == self.exact,
            r.not == self.not,
            r.bool_op == spec_bool_op(self.bool_op@),
            r.only_timed == self.only_timed,
            r.val@ == self.val@,
    {
        let mut tags: Vec<String> = Vec::new();
        match &self.tag {
            Some(t) => {
                tags.push(t.clone());
                assert(tags@.len() == 1);
            },
            None => {},
        }
        let mut sections: Vec<String> = Vec::new();
        let n = self.sections.len();
        let mut i: usize = 0;
        while i < n
            invariant
                n == self.sections@.len(),
                i <= n,
                sections@ =~= self.sections@.subrange(0, i as int),
            decreases n - i,
        {
            sections.push(self.sections[i].clone());
            assert(sections@ =~= self.sections@.subrange(0, i + 1));
            i = i + 1;
        }
        assert(sections@ =~= self.sections@);
        let mut val: Vec<String> = Vec::new();
        let m = self.val.len();
        let mut j: usize = 0;
        while j < m
            invariant
                m == self.val@.len(),
                j <= m,
                val@ =~= self.val@.subrange(0, j as int),
            decreases m - j,
        {
            val.push(self.val[j].clone());
            assert(val@ =~= self.val@.subrange(0, j + 1));
            j = j + 1;
        }
        assert(val@ =~= self.val@);
        FilterOptions {
            search: Some(self.pattern.clone()),
            tags,
            sections,
            after,
            before,
            from,
            case: parse_case_policy(self.case.as_str()),
            exact: self.exact,
            not: self.not,
            bool_op: parse_bool_op(self.bool_op.as_str()),
            only_timed: self.only_timed,
            val,
        }
    }
}

} // verus!
