//! Pure display helpers: tag rendering, text escaping, highlighting and
//! duration formatting.  Anything that actually prints lives with the
//! caller; these functions only build strings.

use vstd::prelude::*;
use crate::chars::{chars_to_string, string_chars, matches_at, starts_with_at};
use crate::model::Tag;
use crate::tags::{TagText, tag_texts};

verus! {

broadcast use vstd::utf8::char_is_scalar;

/// How to present entries.
#[derive(Clone, Copy, Debug, PartialEq, Eq, Structural)]
pub enum OutputFormat {
    Default,
    Json,
    Csv,
    Markdown,
    Html,
    TaskPaper,
    Timeline,
}

/// What to sort displayed tags by.
#[derive(Clone, Copy, Debug, PartialEq, Eq, Structural)]
pub enum TagSort {
    Name,
    Time,
}

/// Sort direction for displayed tags.
#[derive(Clone, Copy, Debug, PartialEq, Eq, Structural)]
pub enum SortOrder {
    Asc,
    Desc,
}

/// How entries are presented: which columns, which format, how tags sort.
#[derive(Clone, Debug)]
pub struct DisplayOptions {
    pub times: bool,
    pub duration: bool,
    pub totals: bool,
    pub hilite: bool,
    pub search_query: Option<String>,
    pub output_format: OutputFormat,
    pub tag_sort: TagSort,
    pub tag_order: SortOrder,
    pub section_filter: Vec<String>,
}

impl Default for DisplayOptions {
    /// Times shown, no durations or totals, no highlighting, the default
    /// format, tags by name ascending.
    fn default() -> (r: DisplayOptions)
        ensures
            r.times,
            !r.duration,
            !r.totals,
            !r.hilite,
            r.search_query is None,
            r.output_format == OutputFormat::Default,
            r.tag_sort == TagSort::Name,
            r.tag_order == SortOrder::Asc,
            r.section_filter@.len() == 0,
    {
        DisplayOptions {
            times: true,
            duration: false,
            totals: false,
            hilite: false,
            search_query: None,
            output_format: OutputFormat::Default,
            tag_sort: TagSort::Name,
            tag_order: SortOrder::Asc,
            section_filter: Vec::new(),
        }
    }
}

/// Every occurrence of `from` in `s` replaced by `to`, scanning left to
/// right without revisiting replacements; an empty `from` leaves `s`
/// unchanged.
pub open spec fn spec_replace(s: Seq<char>, from: Seq<char>, to: Seq<char>) -> Seq<char>
    decreases s.len(),
{
    if from.len() == 0 || s.len() == 0 {
        s
    } else if matches_at(s, from, 0) {
        to + spec_replace(s.skip(from.len() as int), from, to)
    } else {
        seq![s[0]] + spec_replace(s.drop_first(), from, to)
    }
}

fn push_all(out: &mut Vec<char>, s: &[char])
    ensures
        final(out)@ == old(out)@ + s@,
{
    let mut i: usize = 0;
    while i < s.len()
        invariant
            i <= s@.len(),
            out@ =~= old(out)@ + s@.subrange(0, i as int),
        decreases s@.len() - i,
    {
        out.push(s[i]);
        assert(out@ =~= old(out)@ + s@.subrange(0, i + 1));
        i = i + 1;
    }
    assert(out@ =~= old(out)@ + s@);
}

/// Replace every occurrence of `from` with `to`, left to right.
pub fn replace_all(s: &[char], from: &[char], to: &[char]) -> (r: Vec<char>)
    ensures
        r@ == spec_replace(s@, from@, to@),
{
    let mut out: Vec<char> = Vec::new();
    let n = s.len();
    let flen = from.len();
    if flen == 0 {
        let mut i: usize = 0;
        while i < n
            invariant
                n == s@.len(),
                i <= n,
                out@ =~= s@.subrange(0, i as int),
            decreases n - i,
        {
            out.push(s[i]);
            assert(out@ =~= s@.subrange(0, i + 1));
            i = i + 1;
        }
        assert(out@ =~= s@);
        return out;
    }
    let mut i: usize = 0;
    assert(s@.skip(0) =~= s@);
    while i < n
        invariant
            n == s@.len(),
            flen == from@.len(),
            flen > 0,
            i <= n,
            spec_replace(s@, from@, to@) =~= out@ + spec_replace(s@.skip(i as int), from@, to@),
        decreases n - i,
    {
        let ghost suffix = s@.skip(i as int);
        let ghost before = out@;
        assert(suffix.len() == n - i);
        if starts_with_at(s, from, i) {
            assert(matches_at(suffix, from@, 0)) by {
                assert(suffix.subrange(0, flen as int) =~= s@.subrange(i as int, i + flen));
            }
            push_all(&mut out, to);
            assert(suffix.skip(flen as int) =~= s@.skip(i + flen));
            i = i + flen;
        } else {
            assert(!matches_at(suffix, from@, 0)) by {
                if matches_at(suffix, from@, 0) {
                    assert(s@.subrange(i as int, i + flen) =~= suffix.subrange(0, flen as int));
                }
            }
            assert(suffix[0] == s@[i as int]);
            out.push(s[i]);
            assert(out@ =~= before + seq![suffix[0]]);
            assert(suffix.drop_first() =~= s@.skip(i + 1));
            i = i + 1;
        }
    }
    assert(s@.skip(n as int) =~= Seq::<char>::empty());
    assert(out@ =~= spec_replace(s@, from@, to@));
    out
}

/// Escape a field for a CSV cell: a field holding a comma, a quote or a
/// newline is quoted, its quotes doubled; anything else passes through.
pub open spec fn spec_escape_csv(s: Seq<char>) -> Seq<char> {
    if exists|i: int| 0 <= i < s.len() && (#[trigger] s[i] == ',' || s[i] == '"' || s[i] == '\n') {
        seq!['"'] + spec_replace(s, seq!['"'], seq!['"', '"']) + seq!['"']
    } else {
        s
    }
}

/// Escape a text for a CSV cell.
pub fn escape_csv(s: &str) -> (r: String)
    ensures
        r@ == spec_escape_csv(s@),
{
    let v = string_chars(s);
    let n = v.len();
    let mut needs = false;
    let mut k: usize = 0;
    while k < n
        invariant
            n == v@.len(),
            k <= n,
            needs == (exists|i: int|
                0 <= i < k && (#[trigger] v@[i] == ',' || v@[i] == '"' || v@[i] == '\n')),
        decreases n - k,
    {
        let c = v[k];
        if c == ',' || c == '"' || c == '\n' {
            needs = true;
        }
        k = k + 1;
    }
    if needs {
        let mut out: Vec<char> = Vec::new();
        out.push('"');
        let from: Vec<char> = vec!['"'];
        let to: Vec<char> = vec!['"', '"'];
        assert(from@ =~= seq!['"']);
        assert(to@ =~= seq!['"', '"']);
        let mid = replace_all(v.as_slice(), from.as_slice(), to.as_slice());
        push_all(&mut out, mid.as_slice());
        out.push('"');
        assert(out@ =~= spec_escape_csv(s@));
        chars_to_string(out.as_slice())
    } else {
        assert(v@ =~= spec_escape_csv(s@));
        chars_to_string(v.as_slice())
    }
}

/// The five HTML escapes, applied left to right in this order: `&`, `<`,
/// `>`, `"`, `'`.
pub open spec fn spec_html_escape(s: Seq<char>) -> Seq<char> {
    let s1 = spec_replace(s, seq!['&'], seq!['&', 'a', 'm', 'p', ';']);
    let s2 = spec_replace(s1, seq!['<'], seq!['&', 'l', 't', ';']);
    let s3 = spec_replace(s2, seq!['>'], seq!['&', 'g', 't', ';']);
    let s4 = spec_replace(s3, seq!['"'], seq!['&', 'q', 'u', 'o', 't', ';']);
    spec_replace(s4, seq!['\''], seq!['&', '#', '3', '9', ';'])
}

/// Escape a text for HTML.
pub fn html_escape(s: &str) -> (r: String)
    ensures
        r@ == spec_html_escape(s@),
{
    let v = string_chars(s);
    let f1: Vec<char> = vec!['&'];
    let t1: Vec<char> = vec!['&', 'a', 'm', 'p', ';'];
    let f2: Vec<char> = vec!['<'];
    let t2: Vec<char> = vec!['&', 'l', 't', ';'];
    let f3: Vec<char> = vec!['>'];
    let t3: Vec<char> = vec!['&', 'g', 't', ';'];
    let f4: Vec<char> = vec!['"'];
    let t4: Vec<char> = vec!['&', 'q', 'u', 'o', 't', ';'];
    let f5: Vec<char> = vec!['\''];
    let t5: Vec<char> = vec!['&', '#', '3', '9', ';'];
    assert(f1@ =~= seq!['&']);
    assert(t1@ =~= seq!['&', 'a', 'm', 'p', ';']);
    assert(f2@ =~= seq!['<']);
    assert(t2@ =~= seq!['&', 'l', 't', ';']);
    assert(f3@ =~= seq!['>']);
    assert(t3@ =~= seq!['&', 'g', 't', ';']);
    assert(f4@ =~= seq!['"']);
    assert(t4@ =~= seq!['&', 'q', 'u', 'o', 't', ';']);
    assert(f5@ =~= seq!['\'']);
    assert(t5@ =~= seq!['&', '#', '3', '9', ';']);
    let s1 = replace_all(v.as_slice(), f1.as_slice(), t1.as_slice());
    let s2 = replace_all(s1.as_slice(), f2.as_slice(), t2.as_slice());
    let s3 = replace_all(s2.as_slice(), f3.as_slice(), t3.as_slice());
    let s4 = replace_all(s3.as_slice(), f4.as_slice(), t4.as_slice());
    let s5 = replace_all(s4.as_slice(), f5.as_slice(), t5.as_slice());
    assert(s5@ =~= spec_html_escape(s@));
    chars_to_string(s5.as_slice())
}

/// The query wrapped in the terminal highlight codes.
pub open spec fn spec_highlighted(q: Seq<char>) -> Seq<char> {
    seq!['\u{1b}', '[', '3', '3', 'm'] + q + seq!['\u{1b}', '[', '0', 'm']
}

/// Every occurrence of the query wrapped in terminal highlight codes; an
/// empty query leaves the text unchanged.
pub fn highlight_matches(text: &str, query: &str) -> (r: String)
    ensures
        r@ == spec_replace(text@, query@, spec_highlighted(query@)),
{
    let t = string_chars(text);
    let q = string_chars(query);
    let mut to: Vec<char> = Vec::new();
    to.push('\u{1b}');
    to.push('[');
    to.push('3');
    to.push('3');
    to.push('m');
    push_all(&mut to, q.as_slice());
    to.push('\u{1b}');
    to.push('[');
    to.push('0');
    to.push('m');
    assert(to@ =~= spec_highlighted(query@));
    let out = replace_all(t.as_slice(), q.as_slice(), to.as_slice());
    chars_to_string(out.as_slice())
}

/// Lexicographic order on character sequences, by code point.
pub open spec fn lex_le(a: Seq<char>, b: Seq<char>) -> bool
    decreases a.len(),
{
    if a.len() == 0 {
        true
    } else if b.len() == 0 {
        false
    } else if a[0] != b[0] {
        (a[0] as u32) < (b[0] as u32)
    } else {
        lex_le(a.drop_first(), b.drop_first())
    }
}

fn lex_le_exec(a: &[char], b: &[char]) -> (r: bool)
    ensures
        r == lex_le(a@, b@),
{
    let an = a.len();
    let bn = b.len();
    let mut i: usize = 0;
    assert(a@.skip(0) =~= a@);
    assert(b@.skip(0) =~= b@);
    while i < an && i < bn && a[i] == b[i]
        invariant
            an == a@.len(),
            bn == b@.len(),
            i <= an,
            i <= bn,
            forall|j: int| 0 <= j < i ==> a@[j] == b@[j],
            lex_le(a@, b@) == lex_le(a@.skip(i as int), b@.skip(i as int)),
        decreases an - i,
    {
        assert(a@.skip(i as int).drop_first() =~= a@.skip(i + 1));
        assert(b@.skip(i as int).drop_first() =~= b@.skip(i + 1));
        i = i + 1;
    }
    if i >= an {
        assert(a@.skip(i as int).len() == 0);
        true
    } else if i >= bn {
        assert(b@.skip(i as int).len() == 0);
        assert(a@.skip(i as int).len() > 0);
        false
    } else {
        assert(a@.skip(i as int)[0] == a@[i as int]);
        assert(b@.skip(i as int)[0] == b@[i as int]);
        (a[i] as u32) < (b[i] as u32)
    }
}

/// Whether `a` comes no later than `b` under the chosen direction.
pub open spec fn name_le(a: TagText, b: TagText, asc: bool) -> bool {
    if asc {
        lex_le(a.name, b.name)
    } else {
        lex_le(b.name, a.name)
    }
}

/// `t` inserted into a name-ordered list, after every tag it does not
/// strictly precede.
pub open spec fn insert_by_name(t: TagText, s: Seq<TagText>, asc: bool) -> Seq<TagText>
    decreases s.len(),
{
    if s.len() == 0 {
        seq![t]
    } else if name_le(s[0], t, asc) {
        seq![s[0]] + insert_by_name(t, s.drop_first(), asc)
    } else {
        seq![t] + s
    }
}

/// The tags sorted by name; tags the order cannot tell apart keep their
/// stored order.
pub open spec fn sort_by_name(s: Seq<TagText>, asc: bool) -> Seq<TagText>
    decreases s.len(),
{
    if s.len() == 0 {
        Seq::empty()
    } else {
        insert_by_name(s.last(), sort_by_name(s.drop_last(), asc), asc)
    }
}

/// One displayed tag: `@name` or `@name(value)`.
pub open spec fn display_tag(t: TagText) -> Seq<char> {
    match t.value {
        Some(v) => seq!['@'] + t.name + seq!['('] + v + seq![')'],
        None => seq!['@'] + t.name,
    }
}

/// The displayed tag list: each rendered, joined by single spaces.
pub open spec fn display_tags(ts: Seq<TagText>) -> Seq<char>
    decreases ts.len(),
{
    if ts.len() == 0 {
        Seq::empty()
    } else if ts.len() == 1 {
        display_tag(ts[0])
    } else {
        display_tags(ts.drop_last()) + seq![' '] + display_tag(ts.last())
    }
}

proof fn lemma_insert_by_name_at(s: Seq<TagText>, t: TagText, p: int, asc: bool)
    requires
        0 <= p <= s.len(),
        forall|q: int| 0 <= q < p ==> name_le(#[trigger] s[q], t, asc),
        p == s.len() || !name_le(s[p], t, asc),
    ensures
        insert_by_name(t, s, asc) == s.take(p) + seq![t] + s.skip(p),
    decreases p,
{
    if p == 0 {
        if s.len() == 0 || !name_le(s[0], t, asc) {
            assert(insert_by_name(t, s, asc) =~= s.take(0) + seq![t] + s.skip(0));
        }
    } else {
        let tail = s.drop_first();
        assert(forall|q: int| 0 <= q < p - 1 ==> tail[q] == s[q + 1]);
        if p - 1 < tail.len() {
            assert(tail[p - 1] == s[p]);
        }
        lemma_insert_by_name_at(tail, t, p - 1, asc);
        assert(seq![s[0]] + (tail.take(p - 1) + seq![t] + tail.skip(p - 1)) =~= s.take(p) + seq![t]
            + s.skip(p));
    }
}

/// Render the tags for display, sorted by name in the given direction and
/// joined by spaces.  (Sorting by time falls back to sorting by name.)
pub fn format_tags(tags: &Vec<Tag>, options: &DisplayOptions) -> (r: String)
    ensures
        r@ == display_tags(
            sort_by_name(tag_texts(tags@), options.tag_order == SortOrder::Asc),
        ),
{
    let asc = match options.tag_order {
        SortOrder::Asc => true,
        SortOrder::Desc => false,
    };
    let ghost views = tag_texts(tags@);
    let mut sorted: Vec<Tag> = Vec::new();
    let n = tags.len();
    let mut k: usize = 0;
    while k < n
        invariant
            n == tags@.len(),
            k <= n,
            views == tag_texts(tags@),
            asc == (options.tag_order == SortOrder::Asc),
            tag_texts(sorted@) =~= sort_by_name(views.take(k as int), asc),
            sorted@.len() == k,
            forall|a: int, b: int|
                0 <= a < b < k ==> name_le(
                    #[trigger] tag_texts(sorted@)[a],
                    #[trigger] tag_texts(sorted@)[b],
                    asc,
                ),
        decreases n - k,
    {
        let t = crate::model::clone_tag(&tags[k]);
        assert(crate::tags::text_of(t) == views[k as int]) by {
            assert(views[k as int] == crate::tags::text_of(tags@[k as int]));
        }
        let m = sorted.len();
        let mut p: usize = 0;
        while p < m && name_le_exec(&sorted[p], &t, asc)
            invariant
                m == sorted@.len(),
                p <= m,
                asc == (options.tag_order == SortOrder::Asc),
                forall|q: int| 0 <= q < p ==> name_le(
                    #[trigger] tag_texts(sorted@)[q],
                    crate::tags::text_of(t),
                    asc,
                ),
            decreases m - p,
        {
            assert(tag_texts(sorted@)[p as int] == crate::tags::text_of(sorted@[p as int]));
            p = p + 1;
        }
        assert(p < m ==> !name_le(tag_texts(sorted@)[p as int], crate::tags::text_of(t), asc))
            by {
            if p < m {
                assert(tag_texts(sorted@)[p as int] == crate::tags::text_of(sorted@[p as int]));
            }
        }
        let ghost svs = tag_texts(sorted@);
        proof {
            lemma_insert_by_name_at(svs, crate::tags::text_of(t), p as int, asc);
        }
        sorted.insert(p, t);
        assert(tag_texts(sorted@) =~= svs.take(p as int) + seq![views[k as int]] + svs.skip(
            p as int,
        )) by {
            assert(forall|q: int|
                0 <= q < sorted@.len() ==> tag_texts(sorted@)[q] == crate::tags::text_of(
                    sorted@[q],
                ));
        }
        proof {
            assert(views.take(k + 1).drop_last() =~= views.take(k as int));
            assert(views.take(k + 1).last() == views[k as int]);
        }
        proof {
            let new = tag_texts(sorted@);
            let tv = views[k as int];
            assert(forall|q: int| 0 <= q < p ==> new[q] == svs[q]);
            assert(new[p as int] == tv);
            assert(forall|q: int| p < q < k + 1 ==> new[q] == svs[q - 1]);
            assert forall|a: int, b: int|
                0 <= a < b < k + 1 implies name_le(#[trigger] new[a], #[trigger] new[b], asc) by {
                if b < p as int {
                    assert(name_le(svs[a], svs[b], asc));
                } else if a < p as int && b == p as int {
                    assert(name_le(svs[a], tv, asc));
                } else if a < p as int && b > p as int {
                    assert(name_le(svs[a], svs[b - 1], asc));
                } else if a == p as int {
                    assert(b > p as int);
                    assert(p < m);
                    assert(!name_le(svs[p as int], tv, asc));
                    lemma_lex_total(svs[p as int], tv, asc);
                    assert(name_le(tv, svs[p as int], asc));
                    if b - 1 > p as int {
                        assert(name_le(svs[p as int], svs[b - 1], asc));
                        lemma_name_le_trans(tv, svs[p as int], svs[b - 1], asc);
                    }
                } else {
                    assert(name_le(svs[a - 1], svs[b - 1], asc));
                }
            }
        }
        k = k + 1;
    }
    assert(views.take(n as int) =~= views);
    // render
    let mut out: Vec<char> = Vec::new();
    let m = sorted.len();
    let mut q: usize = 0;
    while q < m
        invariant
            m == sorted@.len(),
            q <= m,
            out@ =~= display_tags(tag_texts(sorted@).take(q as int)),
        decreases m - q,
    {
        let ghost svs = tag_texts(sorted@);
        let ghost before = out@;
        if q > 0 {
            out.push(' ');
        }
        out.push('@');
        let nm = string_chars(sorted[q].name.as_str());
        push_all(&mut out, nm.as_slice());
        if let Some(v) = &sorted[q].value {
            out.push('(');
            let vv = string_chars(v.as_str());
            push_all(&mut out, vv.as_slice());
            out.push(')');
        }
        proof {
            assert(svs[q as int] == crate::tags::text_of(sorted@[q as int]));
            assert(svs.take(q + 1).drop_last() =~= svs.take(q as int));
            assert(svs.take(q + 1).last() == svs[q as int]);
            if q == 0 {
                assert(svs.take(1) =~= seq![svs[0]]);
                assert(out@ =~= display_tag(svs[0]));
            } else {
                assert(out@ =~= display_tags(svs.take(q as int)) + seq![' '] + display_tag(
                    svs[q as int],
                ));
            }
        }
        q = q + 1;
    }
    assert(tag_texts(sorted@).take(m as int) =~= tag_texts(sorted@));
    chars_to_string(out.as_slice())
}

fn name_le_exec(a: &Tag, b: &Tag, asc: bool) -> (r: bool)
    ensures
        r == name_le(crate::tags::text_of(*a), crate::tags::text_of(*b), asc),
{
    let av = string_chars(a.name.as_str());
    let bv = string_chars(b.name.as_str());
    if asc {
        lex_le_exec(av.as_slice(), bv.as_slice())
    } else {
        lex_le_exec(bv.as_slice(), av.as_slice())
    }
}

/// The name order is total: two tags always compare one way or the other.
proof fn lemma_lex_total(a: TagText, b: TagText, asc: bool)
    ensures
        name_le(a, b, asc) || name_le(b, a, asc),
{
    lemma_lex_le_total(a.name, b.name);
}

proof fn lemma_lex_le_total(a: Seq<char>, b: Seq<char>)
    ensures
        lex_le(a, b) || lex_le(b, a),
    decreases a.len(),
{
    if a.len() > 0 && b.len() > 0 {
        if a[0] == b[0] {
            lemma_lex_le_total(a.drop_first(), b.drop_first());
        } else {
            assert((a[0] as u32) != (b[0] as u32)) by {
                vstd::utf8::char_u32_cast(a[0], a[0] as u32);
                vstd::utf8::char_u32_cast(b[0], b[0] as u32);
            }
        }
    }
}

/// A number in decimal digits.
pub open spec fn spec_decimal(n: int) -> Seq<char>
    decreases n,
{
    if n < 10 {
        seq![crate::timetext::digit_char(if n >= 0 {
            n % 10
        } else {
            0
        })]
    } else {
        spec_decimal(n / 10) + seq![crate::timetext::digit_char(n % 10)]
    }
}

/// Render a number in decimal.
pub fn decimal_string(n: u64) -> (r: Vec<char>)
    ensures
        r@ == spec_decimal(n as int),
    decreases n,
{
    if n < 10 {
        let d = digit64(n);
        let mut v: Vec<char> = Vec::new();
        v.push(d);
        assert(v@ =~= spec_decimal(n as int));
        v
    } else {
        let mut v = decimal_string(n / 10);
        v.push(digit64(n % 10));
        assert(v@ =~= spec_decimal(n as int));
        v
    }
}

fn digit64(d: u64) -> (r: char)
    requires
        d <= 9,
    ensures
        r == crate::timetext::digit_char(d as int),
{
    if d == 0 {
        '0'
    } else if d == 1 {
        '1'
    } else if d == 2 {
        '2'
    } else if d == 3 {
        '3'
    } else if d == 4 {
        '4'
    } else if d == 5 {
        '5'
    } else if d == 6 {
        '6'
    } else if d == 7 {
        '7'
    } else if d == 8 {
        '8'
    } else {
        '9'
    }
}

/// A duration in seconds, rendered as `XhYm`, `XmYs` or `Xs`.
pub open spec fn spec_format_duration(total: int) -> Seq<char> {
    let hours = total / 3600;
    let minutes = (total % 3600) / 60;
    let seconds = total % 60;
    if hours > 0 {
        spec_decimal(hours) + seq!['h'] + spec_decimal(minutes) + seq!['m']
    } else if minutes > 0 {
        spec_decimal(minutes) + seq!['m'] + spec_decimal(seconds) + seq!['s']
    } else {
        spec_decimal(seconds) + seq!['s']
    }
}

/// Render a duration of whole seconds.
pub fn format_duration(total_seconds: u64) -> (r: String)
    ensures
        r@ == spec_format_duration(total_seconds as int),
{
    let hours = total_seconds / 3600;
    let minutes = (total_seconds % 3600) / 60;
    let seconds = total_seconds % 60;
    let mut out: Vec<char> = Vec::new();
    if hours > 0 {
        let h = decimal_string(hours);
        push_all(&mut out, h.as_slice());
        out.push('h');
        let m = decimal_string(minutes);
        push_all(&mut out, m.as_slice());
        out.push('m');
    } else if minutes > 0 {
        let m = decimal_string(minutes);
        push_all(&mut out, m.as_slice());
        out.push('m');
        let sx = decimal_string(seconds);
        push_all(&mut out, sx.as_slice());
        out.push('s');
    } else {
        let sx = decimal_string(seconds);
        push_all(&mut out, sx.as_slice());
        out.push('s');
    }
    assert(out@ =~= spec_format_duration(total_seconds as int));
    chars_to_string(out.as_slice())
}


proof fn lemma_name_le_trans(a: TagText, b: TagText, c: TagText, asc: bool)
    requires
        name_le(a, b, asc),
        name_le(b, c, asc),
    ensures
        name_le(a, c, asc),
{
    if asc {
        lemma_lex_le_trans(a.name, b.name, c.name);
    } else {
        lemma_lex_le_trans(c.name, b.name, a.name);
    }
}

proof fn lemma_lex_le_trans(a: Seq<char>, b: Seq<char>, c: Seq<char>)
    requires
        lex_le(a, b),
        lex_le(b, c),
    ensures
        lex_le(a, c),
    decreases a.len(),
{
    if a.len() > 0 && b.len() > 0 && c.len() > 0 {
        if a[0] == b[0] && b[0] == c[0] {
            lemma_lex_le_trans(a.drop_first(), b.drop_first(), c.drop_first());
        }
    }
}

} // verus!
