//! The filter engine: select (section, entry) pairs from the log.
//!
//! A filter specification names target sections (none means all), a search
//! query with an inferred mode, tag-query tokens under a boolean strategy,
//! time bounds, a completed-only flag, and a final inversion flag.  The
//! engine is pure: it walks the candidate entries of the target sections in
//! order and keeps those that pass every clause; inversion recomputes the
//! candidates and keeps exactly those whose id no filtered entry carries.
//! An invalid regular expression in the search query aborts the whole
//! operation with an error naming the pattern.
//!
//! Tag-value query tokens (`val`) are carried but not evaluated: the stored
//! tag values are never compared.  Callers should treat that field as a
//! reserved hook, not a working filter.

use vstd::prelude::*;
use crate::chars::{chars_to_string, string_chars, str_eq};
use crate::container::{DoingFile, EntryView, SectionEntries, SectionView, sec_index};
use crate::model::{Entry, Tag, clone_entry};
use crate::tags::{TagText, tag_texts};
use crate::textmatch::{
    CaseSensitivity, spec_case_sensitive, case_sensitive_for, spec_search_match, search_query_bad,
    search_match, full_pattern, regex_mode, regex_ok, regex_is_match, regex_match_str,
};
use crate::time::{Timestamp, TimeOfDay};

verus! {

/// How a list of tag tokens combines.
#[derive(Clone, Copy, Debug, PartialEq, Eq, Structural)]
pub enum BoolOp {
    And,
    Or,
    Not,
    Pattern,
}

/// A resolved time bound: a bare time of day compares against each entry's
/// time-of-day component; a full timestamp compares chronologically.
#[derive(Clone, Copy, Debug, PartialEq, Eq, Structural)]
pub enum TimeBound {
    TimeOnly(TimeOfDay),
    Absolute(Timestamp),
}

/// The declarative filter specification.
#[derive(Clone, Debug)]
pub struct FilterOptions {
    pub search: Option<String>,
    pub tags: Vec<String>,
    pub sections: Vec<String>,
    pub after: Option<TimeBound>,
    pub before: Option<TimeBound>,
    pub from: Option<(Timestamp, Option<Timestamp>)>,
    pub case: CaseSensitivity,
    pub exact: bool,
    pub not: bool,
    pub bool_op: BoolOp,
    pub only_timed: bool,
    pub val: Vec<String>,
}

impl Default for FilterOptions {
    /// No clauses at all: everything passes, smart case, pattern grammar.
    fn default() -> (r: FilterOptions)
        ensures
            r.search is None,
            r.tags@.len() == 0,
            r.sections@.len() == 0,
            r.after is None,
            r.before is None,
            r.from is None,
            r.case == CaseSensitivity::Smart,
            !r.exact,
            !r.not,
            r.bool_op == BoolOp::Pattern,
            !r.only_timed,
            r.val@.len() == 0,
    {
        FilterOptions {
            search: None,
            tags: Vec::new(),
            sections: Vec::new(),
            after: None,
            before: None,
            from: None,
            case: CaseSensitivity::Smart,
            exact: false,
            not: false,
            bool_op: BoolOp::Pattern,
            only_timed: false,
            val: Vec::new(),
        }
    }
}

/// Why a filter operation failed.
#[derive(Clone, Debug)]
pub enum FilterError {
    /// The search query's regular expression does not compile; the pattern
    /// as handed to the regex engine is carried here.
    InvalidPattern(String),
}

impl FilterError {
    /// A human-readable description of the failure.
    pub fn message(&self) -> (r: String)
        ensures
            self matches FilterError::InvalidPattern(p) ==> r@ == "invalid regular expression: "@
                + p@,
    {
        match self {
            FilterError::InvalidPattern(p) => {
                let mut s = String::new();
                s.append("invalid regular expression: ");
                s.append(p.as_str());
                s
            },
        }
    }
}

/// The views of a list of strings.
pub open spec fn str_views(ss: Seq<String>) -> Seq<Seq<char>> {
    ss.map(|i: int, s: String| s@)
}

/// The views of a list of (section name, entry) pairs.
pub open spec fn pair_views(ps: Seq<(String, Entry)>) -> Seq<(Seq<char>, EntryView)> {
    ps.map(|i: int, p: (String, Entry)| (p.0@, p.1@))
}

/// `s` with every leading `c` removed.
pub open spec fn strip_leading(s: Seq<char>, c: char) -> Seq<char>
    decreases s.len(),
{
    if s.len() > 0 && s[0] == c {
        strip_leading(s.drop_first(), c)
    } else {
        s
    }
}

/// A required token: it starts with `+`.
pub open spec fn is_required_token(t: Seq<char>) -> bool {
    t.len() > 0 && t[0] == '+'
}

/// An excluded token: it starts with `-`.
pub open spec fn is_excluded_token(t: Seq<char>) -> bool {
    t.len() > 0 && t[0] == '-'
}

/// The tag-name pattern a token carries, its prefix and any `@` stripped.
pub open spec fn token_pattern(t: Seq<char>) -> Seq<char> {
    if is_required_token(t) {
        strip_leading(strip_leading(t, '+'), '@')
    } else if is_excluded_token(t) {
        strip_leading(strip_leading(t, '-'), '@')
    } else {
        strip_leading(t, '@')
    }
}

/// Whether the pattern uses the `*` or `?` wildcards.
pub open spec fn has_wildcard(p: Seq<char>) -> bool {
    exists|i: int| 0 <= i < p.len() && (p[i] == '*' || p[i] == '?')
}

/// The wildcard pattern translated to a regular expression body:
/// `*` becomes `.*`, `?` becomes `.`, everything else stands as is.
pub open spec fn wildcard_body(p: Seq<char>) -> Seq<char>
    decreases p.len(),
{
    if p.len() == 0 {
        Seq::empty()
    } else {
        let head: Seq<char> = if p[0] == '*' {
            seq!['.', '*']
        } else if p[0] == '?' {
            seq!['.']
        } else {
            seq![p[0]]
        };
        head + wildcard_body(p.drop_first())
    }
}

/// The anchored regular expression a wildcard pattern becomes.
pub open spec fn wildcard_regex(p: Seq<char>) -> Seq<char> {
    seq!['^'] + wildcard_body(p) + seq!['$']
}

/// Whether some stored tag name matches the pattern: by wildcard (an
/// unusable wildcard expression matches nothing), else by exact name.
pub open spec fn tag_pattern_match(tags: Seq<TagText>, p: Seq<char>) -> bool {
    if has_wildcard(p) {
        regex_ok(wildcard_regex(p)) && exists|i: int|
            0 <= i < tags.len() && regex_is_match(wildcard_regex(p), #[trigger] tags[i].name)
    } else {
        exists|i: int| 0 <= i < tags.len() && #[trigger] tags[i].name == p
    }
}

/// Whether the entry's tags pass the token list under the given strategy.
pub open spec fn spec_tags_pass(tags: Seq<TagText>, tokens: Seq<Seq<char>>, op: BoolOp) -> bool {
    match op {
        BoolOp::Pattern => {
            &&& (forall|i: int|
                0 <= i < tokens.len() && is_required_token(#[trigger] tokens[i])
                    ==> tag_pattern_match(tags, token_pattern(tokens[i])))
            &&& (forall|i: int|
                0 <= i < tokens.len() && is_excluded_token(#[trigger] tokens[i])
                    ==> !tag_pattern_match(tags, token_pattern(tokens[i])))
            &&& ((forall|i: int|
                0 <= i < tokens.len() ==> is_required_token(#[trigger] tokens[i])
                    || is_excluded_token(tokens[i])) || exists|i: int|
                0 <= i < tokens.len() && !is_required_token(#[trigger] tokens[i])
                    && !is_excluded_token(tokens[i]) && tag_pattern_match(
                    tags,
                    token_pattern(tokens[i]),
                ))
        },
        BoolOp::And => forall|i: int|
            0 <= i < tokens.len() ==> tag_pattern_match(
                tags,
                token_pattern(#[trigger] tokens[i]),
            ),
        BoolOp::Or => exists|i: int|
            0 <= i < tokens.len() && tag_pattern_match(
                tags,
                token_pattern(#[trigger] tokens[i]),
            ),
        BoolOp::Not => !(exists|i: int|
            0 <= i < tokens.len() && tag_pattern_match(
                tags,
                token_pattern(#[trigger] tokens[i]),
            )),
    }
}

/// Whether the entry carries a tag of the given exact name.
pub open spec fn has_tag_text(tags: Seq<TagText>, name: Seq<char>) -> bool {
    exists|i: int| 0 <= i < tags.len() && #[trigger] tags[i].name == name
}

/// Whether the entry's timestamp lies at or after the bound.
pub open spec fn after_pass(e: EntryView, b: TimeBound) -> bool {
    match b {
        TimeBound::TimeOnly(t) => e.timestamp.spec_time_key() >= t.spec_key(),
        TimeBound::Absolute(ts) => e.timestamp.spec_key() >= ts.spec_key(),
    }
}

/// Whether the entry's timestamp lies at or before the bound.
pub open spec fn before_pass(e: EntryView, b: TimeBound) -> bool {
    match b {
        TimeBound::TimeOnly(t) => e.timestamp.spec_time_key() <= t.spec_key(),
        TimeBound::Absolute(ts) => e.timestamp.spec_key() <= ts.spec_key(),
    }
}

/// Whether the entry's timestamp lies in the inclusive range.
pub open spec fn range_pass(e: EntryView, from: Timestamp, to: Option<Timestamp>) -> bool {
    e.timestamp.spec_key() >= from.spec_key() && match to {
        Some(t) => e.timestamp.spec_key() <= t.spec_key(),
        None => true,
    }
}

/// Whether an entry passes every clause of the specification but inversion.
pub open spec fn entry_passes(o: FilterOptions, e: EntryView) -> bool {
    &&& match o.after {
        Some(b) => after_pass(e, b),
        None => true,
    }
    &&& match o.before {
        Some(b) => before_pass(e, b),
        None => true,
    }
    &&& match o.from {
        Some((f, t)) => range_pass(e, f, t),
        None => true,
    }
    &&& match o.search {
        Some(q) => spec_search_match(
            e.description,
            e.note,
            q@,
            o.exact,
            spec_case_sensitive(o.case, q@),
        ),
        None => true,
    }
    &&& (o.tags@.len() > 0 ==> spec_tags_pass(e.tags, str_views(o.tags@), o.bool_op))
    &&& (o.only_timed ==> has_tag_text(e.tags, "done"@))
}

/// The (name, entry) pairs of one section.
pub open spec fn pair_section(s: SectionView) -> Seq<(Seq<char>, EntryView)> {
    s.entries.map(|i: int, e: EntryView| (s.name, e))
}

/// The candidate pairs of all sections, in stored order.
pub open spec fn all_pairs(ss: Seq<SectionView>) -> Seq<(Seq<char>, EntryView)>
    decreases ss.len(),
{
    if ss.len() == 0 {
        Seq::empty()
    } else {
        all_pairs(ss.drop_last()) + pair_section(ss.last())
    }
}

/// The candidate pairs of the named sections, in the names' order; a name
/// no section carries contributes nothing.
pub open spec fn selected_pairs(ss: Seq<SectionView>, names: Seq<Seq<char>>) -> Seq<
    (Seq<char>, EntryView),
>
    decreases names.len(),
{
    if names.len() == 0 {
        Seq::empty()
    } else {
        let rest = selected_pairs(ss, names.drop_last());
        let i = sec_index(ss, names.last());
        if i >= 0 {
            rest + pair_section(ss[i])
        } else {
            rest
        }
    }
}

/// The candidate pairs the specification puts in scope.
pub open spec fn spec_candidates(ss: Seq<SectionView>, o: FilterOptions) -> Seq<
    (Seq<char>, EntryView),
> {
    if o.sections@.len() == 0 {
        all_pairs(ss)
    } else {
        selected_pairs(ss, str_views(o.sections@))
    }
}

/// Whether some filtered pair carries this id.
pub open spec fn id_matched(fs: Seq<(Seq<char>, EntryView)>, id: Seq<char>) -> bool {
    exists|i: int| 0 <= i < fs.len() && (#[trigger] fs[i]).1.id == id
}

/// The pairs that pass the clauses, in candidate order.
pub open spec fn spec_filtered(ss: Seq<SectionView>, o: FilterOptions) -> Seq<
    (Seq<char>, EntryView),
> {
    spec_candidates(ss, o).filter(|p: (Seq<char>, EntryView)| entry_passes(o, p.1))
}

/// Whether the specification fails: its search query is a regular
/// expression the regex engine refuses.
pub open spec fn spec_filter_err(o: FilterOptions) -> bool {
    match o.search {
        Some(q) => search_query_bad(q@, spec_case_sensitive(o.case, q@)),
        None => false,
    }
}

/// The full result: the passing pairs, or — under inversion — the
/// candidates whose id no passing pair carries.
pub open spec fn spec_filter(ss: Seq<SectionView>, o: FilterOptions) -> Seq<
    (Seq<char>, EntryView),
> {
    if !o.not {
        spec_filtered(ss, o)
    } else {
        let f = spec_filtered(ss, o);
        spec_candidates(ss, o).filter(|p: (Seq<char>, EntryView)| !id_matched(f, p.1.id))
    }
}

proof fn lemma_filter_push<A>(s: Seq<A>, x: A, pred: spec_fn(A) -> bool)
    ensures
        s.push(x).filter(pred) == if pred(x) {
            s.filter(pred).push(x)
        } else {
            s.filter(pred)
        },
{
    reveal(Seq::filter);
    assert(s.push(x).drop_last() =~= s);
    assert(s.push(x).last() == x);
}

fn strip_leading_chars(t: &[char], c: char) -> (r: Vec<char>)
    ensures
        r@ == strip_leading(t@, c),
{
    let mut start: usize = 0;
    assert(t@.subrange(0, t@.len() as int) =~= t@);
    while start < t.len() && t[start] == c
        invariant
            start <= t@.len(),
            strip_leading(t@, c) == strip_leading(t@.subrange(start as int, t@.len() as int), c),
        decreases t@.len() - start,
    {
        assert(t@.subrange(start as int, t@.len() as int).drop_first() =~= t@.subrange(
            start + 1,
            t@.len() as int,
        ));
        start = start + 1;
    }
    let mut r: Vec<char> = Vec::new();
    let mut i: usize = start;
    while i < t.len()
        invariant
            start <= i <= t@.len(),
            r@ =~= t@.subrange(start as int, i as int),
        decreases t@.len() - i,
    {
        r.push(t[i]);
        assert(r@ =~= t@.subrange(start as int, i + 1));
        i = i + 1;
    }
    assert(r@ =~= t@.subrange(start as int, t@.len() as int));
    assert(strip_leading(t@.subrange(start as int, t@.len() as int), c) == t@.subrange(
        start as int,
        t@.len() as int,
    ));
    r
}

fn wildcard_of(p: &[char]) -> (r: bool)
    ensures
        r == has_wildcard(p@),
{
    let mut i: usize = 0;
    while i < p.len()
        invariant
            i <= p@.len(),
            forall|j: int| 0 <= j < i ==> !(p@[j] == '*' || p@[j] == '?'),
        decreases p@.len() - i,
    {
        if p[i] == '*' || p[i] == '?' {
            return true;
        }
        i = i + 1;
    }
    false
}

fn build_wildcard_regex(p: &[char]) -> (r: String)
    ensures
        r@ == wildcard_regex(p@),
{
    let mut v: Vec<char> = Vec::new();
    v.push('^');
    let n = p.len();
    let mut i: usize = 0;
    while i < n
        invariant
            n == p@.len(),
            i <= n,
            v@ =~= seq!['^'] + wildcard_body(p@.subrange(0, i as int)),
        decreases n - i,
    {
        let ghost pre = p@.subrange(0, i as int);
        let c = p[i];
        if c == '*' {
            v.push('.');
            v.push('*');
        } else if c == '?' {
            v.push('.');
        } else {
            v.push(c);
        }
        proof {
            lemma_wildcard_body_snoc(p@.subrange(0, i + 1));
            assert(p@.subrange(0, i + 1).drop_last() =~= pre);
            assert(v@ =~= seq!['^'] + wildcard_body(p@.subrange(0, i + 1)));
        }
        i = i + 1;
    }
    v.push('$');
    assert(p@.subrange(0, n as int) =~= p@);
    assert(v@ =~= wildcard_regex(p@));
    chars_to_string(v.as_slice())
}

/// The wildcard translation grows on the right as the pattern does.
proof fn lemma_wildcard_body_snoc(p: Seq<char>)
    requires
        p.len() > 0,
    ensures
        wildcard_body(p) == wildcard_body(p.drop_last()) + (if p.last() == '*' {
            seq!['.', '*']
        } else if p.last() == '?' {
            seq!['.']
        } else {
            seq![p.last()]
        }),
    decreases p.len(),
{
    if p.len() == 1 {
        assert(p.drop_last() =~= Seq::<char>::empty());
        assert(p.drop_first() =~= Seq::<char>::empty());
        assert(wildcard_body(p) =~= wildcard_body(p.drop_last()) + (if p.last() == '*' {
            seq!['.', '*']
        } else if p.last() == '?' {
            seq!['.']
        } else {
            seq![p.last()]
        }));
    } else {
        lemma_wildcard_body_snoc(p.drop_first());
        assert(p.drop_first().drop_last() =~= p.drop_last().drop_first());
        assert(p.drop_first().last() == p.last());
        assert(p.drop_last()[0] == p[0]);
        assert(wildcard_body(p) =~= wildcard_body(p.drop_last()) + (if p.last() == '*' {
            seq!['.', '*']
        } else if p.last() == '?' {
            seq!['.']
        } else {
            seq![p.last()]
        }));
    }
}


/// The tag-name pattern of one token: its `+`/`-` prefix and any `@`
/// stripped.
fn token_name(t: &[char]) -> (r: Vec<char>)
    ensures
        r@ == token_pattern(t@),
{
    if t.len() > 0 && t[0] == '+' {
        strip_leading_chars(strip_leading_chars(t, '+').as_slice(), '@')
    } else if t.len() > 0 && t[0] == '-' {
        strip_leading_chars(strip_leading_chars(t, '-').as_slice(), '@')
    } else {
        strip_leading_chars(t, '@')
    }
}

/// Whether any stored tag name matches the pattern.
fn tags_match_pattern(tags: &Vec<Tag>, p: &[char]) -> (r: bool)
    ensures
        r == tag_pattern_match(tag_texts(tags@), p@),
{
    let wild = wildcard_of(p);
    if wild {
        assert(has_wildcard(p@));
        let re = build_wildcard_regex(p);
        let n = tags.len();
        let mut i: usize = 0;
        while i < n
            invariant
                n == tags@.len(),
                i <= n,
                re@ == wildcard_regex(p@),
                has_wildcard(p@),
                forall|j: int|
                    0 <= j < i ==> !regex_is_match(wildcard_regex(p@), tag_texts(tags@)[j].name),
            decreases n - i,
        {
            let m = regex_match_str(re.as_str(), tags[i].name.as_str());
            assert(tag_texts(tags@)[i as int].name == tags@[i as int].name@);
            match m {
                Some(b) => {
                    assert(regex_ok(wildcard_regex(p@)));
                    if b {
                        assert(regex_is_match(
                            wildcard_regex(p@),
                            tag_texts(tags@)[i as int].name,
                        ));
                        return true;
                    }
                },
                None => {
                    assert(!regex_ok(wildcard_regex(p@)));
                    return false;
                },
            }
            i = i + 1;
        }
        false
    } else {
        let n = tags.len();
        let mut i: usize = 0;
        while i < n
            invariant
                n == tags@.len(),
                i <= n,
                !has_wildcard(p@),
                forall|j: int| 0 <= j < i ==> tag_texts(tags@)[j].name != p@,
            decreases n - i,
        {
            assert(tag_texts(tags@)[i as int].name == tags@[i as int].name@);
            if str_eq(tags[i].name.as_str(), chars_to_string(p).as_str()) {
                assert(tag_texts(tags@)[i as int].name == p@);
                return true;
            }
            i = i + 1;
        }
        false
    }
}

/// Whether the entry's tags pass the token list under the strategy.
fn tags_pass(tags: &Vec<Tag>, tokens: &Vec<String>, op: &BoolOp) -> (r: bool)
    ensures
        r == spec_tags_pass(tag_texts(tags@), str_views(tokens@), *op),
{
    let ghost tviews = str_views(tokens@);
    let n = tokens.len();
    match op {
        BoolOp::Pattern => {
            let mut req_ok = true;
            let mut exc_ok = true;
            let mut any_bare = false;
            let mut has_bare = false;
            let mut i: usize = 0;
            while i < n
                invariant
                    n == tokens@.len(),
                    i <= n,
                    tviews == str_views(tokens@),
                    req_ok == (forall|j: int|
                        0 <= j < i && is_required_token(#[trigger] tviews[j]) ==> tag_pattern_match(
                            tag_texts(tags@),
                            token_pattern(tviews[j]),
                        )),
                    exc_ok == (forall|j: int|
                        0 <= j < i && is_excluded_token(#[trigger] tviews[j])
                            ==> !tag_pattern_match(tag_texts(tags@), token_pattern(tviews[j]))),
                    has_bare == !(forall|j: int|
                        0 <= j < i ==> is_required_token(#[trigger] tviews[j]) || is_excluded_token(
                            tviews[j],
                        )),
                    any_bare == (exists|j: int|
                        0 <= j < i && !is_required_token(#[trigger] tviews[j])
                            && !is_excluded_token(tviews[j]) && tag_pattern_match(
                            tag_texts(tags@),
                            token_pattern(tviews[j]),
                        )),
                decreases n - i,
            {
                let t = string_chars(tokens[i].as_str());
                assert(t@ == tviews[i as int]);
                if t.len() > 0 && t[0] == '+' {
                    let name = strip_leading_chars(
                        strip_leading_chars(t.as_slice(), '+').as_slice(),
                        '@',
                    );
                    assert(name@ == token_pattern(tviews[i as int]));
                    if !tags_match_pattern(tags, name.as_slice()) {
                        req_ok = false;
                    }
                } else if t.len() > 0 && t[0] == '-' {
                    let name = strip_leading_chars(
                        strip_leading_chars(t.as_slice(), '-').as_slice(),
                        '@',
                    );
                    assert(name@ == token_pattern(tviews[i as int]));
                    if tags_match_pattern(tags, name.as_slice()) {
                        exc_ok = false;
                    }
                } else {
                    has_bare = true;
                    let name = strip_leading_chars(t.as_slice(), '@');
                    assert(name@ == token_pattern(tviews[i as int]));
                    if tags_match_pattern(tags, name.as_slice()) {
                        any_bare = true;
                    }
                }
                i = i + 1;
            }
            req_ok && exc_ok && (!has_bare || any_bare)
        },
        BoolOp::And => {
            let mut i: usize = 0;
            while i < n
                invariant
                    n == tokens@.len(),
                    i <= n,
                    *op is And,
                    tviews == str_views(tokens@),
                    forall|j: int|
                        0 <= j < i ==> tag_pattern_match(
                            tag_texts(tags@),
                            token_pattern(#[trigger] tviews[j]),
                        ),
                decreases n - i,
            {
                let t = string_chars(tokens[i].as_str());
                assert(t@ == tviews[i as int]);
                let name = token_name(t.as_slice());
                if !tags_match_pattern(tags, name.as_slice()) {
                    assert(!tag_pattern_match(
                        tag_texts(tags@),
                        token_pattern(tviews[i as int]),
                    ));
                    return false;
                }
                i = i + 1;
            }
            true
        },
        BoolOp::Or => {
            let mut i: usize = 0;
            while i < n
                invariant
                    n == tokens@.len(),
                    i <= n,
                    *op is Or,
                    tviews == str_views(tokens@),
                    forall|j: int|
                        0 <= j < i ==> !tag_pattern_match(
                            tag_texts(tags@),
                            token_pattern(#[trigger] tviews[j]),
                        ),
                decreases n - i,
            {
                let t = string_chars(tokens[i].as_str());
                assert(t@ == tviews[i as int]);
                let name = token_name(t.as_slice());
                if tags_match_pattern(tags, name.as_slice()) {
                    assert(tag_pattern_match(
                        tag_texts(tags@),
                        token_pattern(tviews[i as int]),
                    ));
                    return true;
                }
                i = i + 1;
            }
            false
        },
        BoolOp::Not => {
            let mut i: usize = 0;
            while i < n
                invariant
                    n == tokens@.len(),
                    i <= n,
                    *op is Not,
                    tviews == str_views(tokens@),
                    forall|j: int|
                        0 <= j < i ==> !tag_pattern_match(
                            tag_texts(tags@),
                            token_pattern(#[trigger] tviews[j]),
                        ),
                decreases n - i,
            {
                let t = string_chars(tokens[i].as_str());
                assert(t@ == tviews[i as int]);
                let name = token_name(t.as_slice());
                if tags_match_pattern(tags, name.as_slice()) {
                    assert(tag_pattern_match(
                        tag_texts(tags@),
                        token_pattern(tviews[i as int]),
                    ));
                    return false;
                }
                i = i + 1;
            }
            true
        },
    }
}

/// Whether one entry passes every clause but inversion.
fn passes(o: &FilterOptions, e: &Entry) -> (r: bool)
    requires
        !spec_filter_err(*o),
    ensures
        r == entry_passes(*o, e@),
{
    let after_ok = match &o.after {
        Some(b) => match b {
            TimeBound::TimeOnly(t) => {
                let et = e.timestamp.time_of_day();
                t.le(&et)
            },
            TimeBound::Absolute(ts) => ts.le(&e.timestamp),
        },
        None => true,
    };
    let before_ok = match &o.before {
        Some(b) => match b {
            TimeBound::TimeOnly(t) => {
                let et = e.timestamp.time_of_day();
                et.le(t)
            },
            TimeBound::Absolute(ts) => e.timestamp.le(ts),
        },
        None => true,
    };
    let range_ok = match &o.from {
        Some((f, t)) => {
            let lower = f.le(&e.timestamp);
            let upper = match t {
                Some(tt) => e.timestamp.le(tt),
                None => true,
            };
            lower && upper
        },
        None => true,
    };
    let search_ok = match &o.search {
        Some(q) => {
            let qc = string_chars(q.as_str());
            let cs = case_sensitive_for(&o.case, qc.as_slice());
            let m = search_match(e.description.as_str(), &e.note, q.as_str(), o.exact, cs);
            match m {
                Some(b) => b,
                None => {
                    proof {
                        assert(false);
                    }
                    false
                },
            }
        },
        None => true,
    };
    let tags_ok = if o.tags.len() > 0 {
        tags_pass(&e.tags, &o.tags, &o.bool_op)
    } else {
        true
    };
    let timed_ok = if o.only_timed {
        e.has_tag("done")
    } else {
        true
    };
    proof {
        assert(tag_texts(e.tags@) == e@.tags);
        if o.only_timed {
            assert(crate::model::spec_has_tag(e.tags@, "done"@) == has_tag_text(
                tag_texts(e.tags@),
                "done"@,
            )) by {
                if crate::model::spec_has_tag(e.tags@, "done"@) {
                    let w = choose|i: int|
                        0 <= i < e.tags@.len() && e.tags@[i].name@ == "done"@;
                    assert(tag_texts(e.tags@)[w].name == "done"@);
                }
                if has_tag_text(tag_texts(e.tags@), "done"@) {
                    let w = choose|i: int|
                        0 <= i < tag_texts(e.tags@).len() && tag_texts(e.tags@)[i].name
                            == "done"@;
                    assert(e.tags@[w].name@ == "done"@);
                }
            }
        }
    }
    after_ok && before_ok && range_ok && search_ok && tags_ok && timed_ok
}

/// Clone a pair list's worth of one section.
fn push_section_pairs(out: &mut Vec<(String, Entry)>, s: &SectionEntries)
    ensures
        pair_views(final(out)@) == pair_views(old(out)@) + pair_section(s@),
{
    let n = s.entries.len();
    let mut j: usize = 0;
    while j < n
        invariant
            n == s.entries@.len(),
            j <= n,
            pair_views(out@) =~= pair_views(old(out)@) + pair_section(s@).take(j as int),
        decreases n - j,
    {
        let ghost before = pair_views(out@);
        let name = s.name.clone();
        let entry = clone_entry(&s.entries[j]);
        out.push((name, entry));
        assert(pair_views(out@) =~= before + seq![(s@.name, s.entries@[j as int]@)]);
        assert(pair_section(s@)[j as int] == (s@.name, s.entries@[j as int]@));
        assert(pair_section(s@).take(j + 1) =~= pair_section(s@).take(j as int) + seq![
            pair_section(s@)[j as int],
        ]);
        j = j + 1;
    }
    assert(pair_section(s@).take(n as int) =~= pair_section(s@));
    assert(pair_views(out@) =~= pair_views(old(out)@) + pair_section(s@));
}


/// Collect the candidate pairs the specification puts in scope.
fn collect_candidates(file: &DoingFile, o: &FilterOptions) -> (r: Vec<(String, Entry)>)
    ensures
        pair_views(r@) == spec_candidates(file@, *o),
{
    let mut out: Vec<(String, Entry)> = Vec::new();
    if o.sections.len() == 0 {
        let n = file.sections.len();
        let mut k: usize = 0;
        while k < n
            invariant
                n == file.sections@.len(),
                k <= n,
                pair_views(out@) =~= all_pairs(file@.take(k as int)),
            decreases n - k,
        {
            let ghost before = pair_views(out@);
            push_section_pairs(&mut out, &file.sections[k]);
            proof {
                assert(file@.take(k + 1).drop_last() =~= file@.take(k as int));
                assert(file@.take(k + 1).last() == file@[k as int]);
            }
            k = k + 1;
        }
        assert(file@.take(n as int) =~= file@);
        out
    } else {
        let ghost names = str_views(o.sections@);
        let n = o.sections.len();
        let mut k: usize = 0;
        while k < n
            invariant
                n == o.sections@.len(),
                k <= n,
                names == str_views(o.sections@),
                pair_views(out@) =~= selected_pairs(file@, names.take(k as int)),
            decreases n - k,
        {
            let ghost before = pair_views(out@);
            match file.find_section(o.sections[k].as_str()) {
                Some(i) => {
                    assert(o.sections@[k as int]@ == names[k as int]);
                    assert(sec_index(file@, names[k as int]) == i as int);
                    push_section_pairs(&mut out, &file.sections[i]);
                },
                None => {
                    assert(sec_index(file@, names[k as int]) < 0);
                },
            }
            proof {
                assert(names.take(k + 1).drop_last() =~= names.take(k as int));
                assert(names.take(k + 1).last() == names[k as int]);
            }
            k = k + 1;
        }
        assert(names.take(n as int) =~= names);
        out
    }
}

/// Whether some already-filtered pair carries this id.
fn id_in(filtered: &Vec<(String, Entry)>, id: &str) -> (r: bool)
    ensures
        r == id_matched(pair_views(filtered@), id@),
{
    let n = filtered.len();
    let mut i: usize = 0;
    while i < n
        invariant
            n == filtered@.len(),
            i <= n,
            forall|j: int| 0 <= j < i ==> (#[trigger] pair_views(filtered@)[j]).1.id != id@,
        decreases n - i,
    {
        assert(pair_views(filtered@)[i as int].1.id == filtered@[i as int].1.id@);
        if str_eq(filtered[i].1.id.as_str(), id) {
            return true;
        }
        i = i + 1;
    }
    false
}

/// Select the (section, entry) pairs that pass the specification.  The log
/// is never changed.  The operation fails exactly when the search query is
/// a regular expression the regex engine refuses, and then names the
/// offending pattern; no partial result is returned.
pub fn filter_entries(doing_file: &DoingFile, options: &FilterOptions) -> (r: Result<
    Vec<(String, Entry)>,
    FilterError,
>)
    ensures
        r is Ok <==> !spec_filter_err(*options),
        r matches Ok(v) ==> pair_views(v@) == spec_filter(doing_file@, *options),
        r matches Err(e) ==> (options.search matches Some(q) && e matches
            FilterError::InvalidPattern(p) && p@ == full_pattern(
            q@,
            spec_case_sensitive(options.case, q@),
        )),
{
    // Reject an invalid search regex up front, entries or none.
    match &options.search {
        Some(q) => {
            let qc = string_chars(q.as_str());
            let cs = case_sensitive_for(&options.case, qc.as_slice());
            let n = qc.len();
            if n >= 2 && qc[0] == '/' && qc[n - 1] == '/' {
                let pat = crate::textmatch::build_full_pattern(qc.as_slice(), cs);
                let probe = regex_match_str(pat.as_str(), "");
                if probe.is_none() {
                    return Err(FilterError::InvalidPattern(pat));
                }
            } else {
                assert(!regex_mode(q@));
            }
        },
        None => {},
    }
    assert(!spec_filter_err(*options));
    let candidates = collect_candidates(doing_file, options);
    let ghost cviews = pair_views(candidates@);
    let ghost pred = |p: (Seq<char>, EntryView)| entry_passes(*options, p.1);
    let mut filtered: Vec<(String, Entry)> = Vec::new();
    let n = candidates.len();
    let mut i: usize = 0;
    while i < n
        invariant
            n == candidates@.len(),
            i <= n,
            cviews == pair_views(candidates@),
            pred == (|p: (Seq<char>, EntryView)| entry_passes(*options, p.1)),
            !spec_filter_err(*options),
            pair_views(filtered@) =~= cviews.take(i as int).filter(pred),
        decreases n - i,
    {
        let ghost before = pair_views(filtered@);
        let keep = passes(options, &candidates[i].1);
        assert(cviews[i as int] == (candidates@[i as int].0@, candidates@[i as int].1@));
        if keep {
            let name = candidates[i].0.clone();
            let entry = clone_entry(&candidates[i].1);
            filtered.push((name, entry));
            assert(pair_views(filtered@) =~= before + seq![cviews[i as int]]);
        }
        proof {
            lemma_filter_push(cviews.take(i as int), cviews[i as int], pred);
            assert(cviews.take(i + 1) =~= cviews.take(i as int).push(cviews[i as int]));
        }
        i = i + 1;
    }
    assert(cviews.take(n as int) =~= cviews);
    assert(pair_views(filtered@) =~= spec_filtered(doing_file@, *options));
    if !options.not {
        return Ok(filtered);
    }
    // Inversion: keep the candidates whose id no filtered pair carries.
    let ghost fviews = pair_views(filtered@);
    let ghost npred = |p: (Seq<char>, EntryView)| !id_matched(fviews, p.1.id);
    let mut inverted: Vec<(String, Entry)> = Vec::new();
    let mut i: usize = 0;
    while i < n
        invariant
            n == candidates@.len(),
            i <= n,
            cviews == pair_views(candidates@),
            fviews == pair_views(filtered@),
            npred == (|p: (Seq<char>, EntryView)| !id_matched(fviews, p.1.id)),
            pair_views(inverted@) =~= cviews.take(i as int).filter(npred),
        decreases n - i,
    {
        let ghost before = pair_views(inverted@);
        let matched = id_in(&filtered, candidates[i].1.id.as_str());
        assert(cviews[i as int] == (candidates@[i as int].0@, candidates@[i as int].1@));
        if !matched {
            let name = candidates[i].0.clone();
            let entry = clone_entry(&candidates[i].1);
            inverted.push((name, entry));
            assert(pair_views(inverted@) =~= before + seq![cviews[i as int]]);
        }
        proof {
            lemma_filter_push(cviews.take(i as int), cviews[i as int], npred);
            assert(cviews.take(i + 1) =~= cviews.take(i as int).push(cviews[i as int]));
        }
        i = i + 1;
    }
    assert(cviews.take(n as int) =~= cviews);
    Ok(inverted)
}

} // verus!
