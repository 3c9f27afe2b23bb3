//! Reading the log text into the model.
//!
//! One forward pass over the lines.  A line ending in `:` switches the
//! current section (and creates it, so a header with no entries still
//! yields an empty section).  A task line — ` - `, a 16-character
//! timestamp, ` | `, a description clause, and a trailing 36-character id
//! in angle brackets — closes any open entry and opens a new one; its tags
//! are lifted out of the description clause.  A line indented by two spaces
//! continues the open entry's note.  A blank line closes the open entry.
//! Anything else is skipped.  Parsing never fails: a task line whose
//! timestamp names no real date gets the current time, and one whose id is
//! not in canonical shape gets a fresh id; on text free of such lines the
//! result is exactly the specified machine's.

use vstd::prelude::*;
use crate::chars::{chars_to_string, string_chars};
use crate::container::{
    DoingFile, EntryView, SectionView, sec_index, has_section, lemma_sec_index,
};
use crate::ids::{is_id, valid_id, fresh_id, is_hex_char};
use crate::lines::{spec_lines, line_views, split_lines};
use crate::model::Entry;
use crate::tags::{
    extract_from, spec_dedup, spec_trim, scan_tags, dedup_tags, trim, is_space, space_char,
};
use crate::time::{Timestamp, now_timestamp};
use crate::timetext::{is_timestamp_shape, timestamp_of, timestamp_shape_at, parse_timestamp_at};

verus! {

/// A header line: after trimming surrounding whitespace, something of
/// length at least two ending in a colon.
pub open spec fn is_header_line(l: Seq<char>) -> bool {
    spec_trim(l).len() >= 2 && spec_trim(l).last() == ':'
}

/// The section name a header line carries: the trimmed line without its
/// colon.
pub open spec fn header_name(l: Seq<char>) -> Seq<char> {
    spec_trim(l).drop_last()
}

/// An identifier character as the task-line tail admits it: a lowercase
/// hex digit or a hyphen.
pub open spec fn is_id_char(c: char) -> bool {
    is_hex_char(c) || c == '-'
}

/// The task-line shape: ` - `, a timestamp-shaped field, ` | `, a nonempty
/// description clause, and ` <` + 36 id characters + `>` at the end.
pub open spec fn is_task_line(l: Seq<char>) -> bool {
    &&& l.len() >= 62
    &&& l[0] == ' '
    &&& l[1] == '-'
    &&& l[2] == ' '
    &&& is_timestamp_shape(l.subrange(3, 19))
    &&& l[19] == ' '
    &&& l[20] == '|'
    &&& l[21] == ' '
    &&& l[l.len() - 39] == ' '
    &&& l[l.len() - 38] == '<'
    &&& l.last() == '>'
    &&& forall|k: int| l.len() - 37 <= k < l.len() - 1 ==> is_id_char(l[k])
}

/// The timestamp field of a task line.
pub open spec fn task_ts_text(l: Seq<char>) -> Seq<char> {
    l.subrange(3, 19)
}

/// The id field of a task line.
pub open spec fn task_id(l: Seq<char>) -> Seq<char> {
    l.subrange(l.len() - 37, l.len() - 1)
}

/// The description clause of a task line, tags still inline.
pub open spec fn task_desc_region(l: Seq<char>) -> Seq<char> {
    l.subrange(22, l.len() - 39)
}

/// A note continuation line: indented by at least two spaces.
pub open spec fn is_note_line(l: Seq<char>) -> bool {
    l.len() >= 2 && l[0] == ' ' && l[1] == ' '
}

/// A blank line: nothing but whitespace.
pub open spec fn is_blank_line(l: Seq<char>) -> bool {
    forall|k: int| 0 <= k < l.len() ==> is_space(l[k])
}

/// `l` without its leading whitespace.
pub open spec fn spec_trim_start(l: Seq<char>) -> Seq<char>
    decreases l.len(),
{
    if l.len() > 0 && is_space(l[0]) {
        spec_trim_start(l.drop_first())
    } else {
        l
    }
}

/// The parser's running state.
#[verifier::ext_equal]
pub struct ParseState {
    pub sections: Seq<SectionView>,
    pub cur_section: Seq<char>,
    pub cur_entry: Option<EntryView>,
}

/// Append an entry to the section its own field names, creating the section
/// at the end when missing.
pub open spec fn add_entry_view(ss: Seq<SectionView>, e: EntryView) -> Seq<SectionView> {
    let i = sec_index(ss, e.section);
    if i >= 0 {
        ss.update(i, SectionView { name: e.section, entries: ss[i].entries.push(e) })
    } else {
        ss.push(SectionView { name: e.section, entries: seq![e] })
    }
}

/// Add an empty section of the given name when missing.
pub open spec fn ensure_section_view(ss: Seq<SectionView>, name: Seq<char>) -> Seq<SectionView> {
    if has_section(ss, name) {
        ss
    } else {
        ss.push(SectionView { name, entries: Seq::empty() })
    }
}

/// Close the open entry, if any, into its section.
pub open spec fn flush_state(st: ParseState) -> ParseState {
    match st.cur_entry {
        Some(e) => ParseState {
            sections: add_entry_view(st.sections, e),
            cur_section: st.cur_section,
            cur_entry: None,
        },
        None => st,
    }
}

/// The entry a task line opens, under the given current section.
pub open spec fn task_entry(l: Seq<char>, section: Seq<char>) -> EntryView {
    let (raw_tags, raw_desc) = extract_from(task_desc_region(l), 0);
    EntryView {
        description: spec_trim(raw_desc),
        timestamp: timestamp_of(task_ts_text(l)),
        section,
        tags: spec_dedup(raw_tags),
        note: None,
        id: task_id(l),
    }
}

/// A note line appended to the open entry's note.
pub open spec fn append_note(e: EntryView, l: Seq<char>) -> EntryView {
    let stripped = spec_trim_start(l);
    let note = match e.note {
        None => stripped,
        Some(n) => n + seq!['\n'] + stripped,
    };
    EntryView { note: Some(note), ..e }
}

/// One line's effect on the state.
pub open spec fn step_line(st: ParseState, l: Seq<char>) -> ParseState {
    if is_header_line(l) {
        let st1 = flush_state(st);
        ParseState {
            sections: ensure_section_view(st1.sections, header_name(l)),
            cur_section: header_name(l),
            cur_entry: None,
        }
    } else if is_task_line(l) {
        let st1 = flush_state(st);
        ParseState { cur_entry: Some(task_entry(l, st.cur_section)), ..st1 }
    } else if is_note_line(l) && st.cur_entry is Some {
        ParseState { cur_entry: Some(append_note(st.cur_entry->0, l)), ..st }
    } else if is_blank_line(l) {
        flush_state(st)
    } else {
        st
    }
}

/// The state after all lines.
pub open spec fn run_lines(ls: Seq<Seq<char>>, st: ParseState) -> ParseState
    decreases ls.len(),
{
    if ls.len() == 0 {
        st
    } else {
        run_lines(ls.drop_first(), step_line(st, ls[0]))
    }
}

/// The state parsing starts from: one empty default section.
pub open spec fn init_state() -> ParseState {
    ParseState {
        sections: seq![SectionView { name: "Currently"@, entries: Seq::empty() }],
        cur_section: "Currently"@,
        cur_entry: None,
    }
}

/// What parsing a text yields: the specified machine run over its lines,
/// with a final flush.
pub open spec fn spec_parse(s: Seq<char>) -> Seq<SectionView> {
    flush_state(run_lines(spec_lines(s), init_state())).sections
}

/// The entry a task line opens when the text cannot supply a field: an
/// invalid timestamp is replaced by the fallback time, a non-canonical id
/// by the fallback id; everything else reads from the line.
pub open spec fn task_entry_fb(
    l: Seq<char>,
    section: Seq<char>,
    fb: (Timestamp, Seq<char>),
) -> EntryView {
    let base = task_entry(l, section);
    EntryView {
        timestamp: if timestamp_of(task_ts_text(l)).valid() {
            base.timestamp
        } else {
            fb.0
        },
        id: if is_id(task_id(l)) {
            base.id
        } else {
            fb.1
        },
        ..base
    }
}

/// One line's effect on the state, with a fallback pair for a task line
/// the text cannot fully supply.  On every other kind of line the fallback
/// is unused.
pub open spec fn step_line_fb(st: ParseState, l: Seq<char>, fb: (Timestamp, Seq<char>)) -> ParseState {
    if !is_header_line(l) && is_task_line(l) {
        let st1 = flush_state(st);
        ParseState { cur_entry: Some(task_entry_fb(l, st.cur_section, fb)), ..st1 }
    } else {
        step_line(st, l)
    }
}

/// The state after all lines, one fallback pair per line.
pub open spec fn run_lines_fb(
    ls: Seq<Seq<char>>,
    st: ParseState,
    fbs: Seq<(Timestamp, Seq<char>)>,
) -> ParseState
    recommends
        fbs.len() == ls.len(),
    decreases ls.len(),
{
    if ls.len() == 0 {
        st
    } else {
        run_lines_fb(ls.drop_first(), step_line_fb(st, ls[0], fbs[0]), fbs.drop_first())
    }
}

/// Every fallback pair is usable: a valid timestamp and a well-shaped id.
pub open spec fn fallbacks_ok(fbs: Seq<(Timestamp, Seq<char>)>) -> bool {
    forall|i: int| 0 <= i < fbs.len() ==> (#[trigger] fbs[i]).0.valid() && is_id(fbs[i].1)
}

/// On a clean line the fallback machine steps like the plain one.
pub proof fn lemma_step_fb_clean(st: ParseState, l: Seq<char>, fb: (Timestamp, Seq<char>))
    requires
        task_line_clean(l),
    ensures
        step_line_fb(st, l, fb) == step_line(st, l),
{
    if !is_header_line(l) && is_task_line(l) {
        assert(task_entry_fb(l, st.cur_section, fb) =~~= task_entry(l, st.cur_section));
    }
}

/// On clean text the fallback machine runs like the plain one.
pub proof fn lemma_run_fb_clean(
    ls: Seq<Seq<char>>,
    st: ParseState,
    fbs: Seq<(Timestamp, Seq<char>)>,
)
    requires
        fbs.len() == ls.len(),
        forall|k: int| 0 <= k < ls.len() ==> task_line_clean(#[trigger] ls[k]),
    ensures
        run_lines_fb(ls, st, fbs) == run_lines(ls, st),
    decreases ls.len(),
{
    if ls.len() > 0 {
        lemma_step_fb_clean(st, ls[0], fbs[0]);
        assert(forall|k: int|
            0 <= k < ls.len() - 1 ==> ls.drop_first()[k] == ls[k + 1]);
        lemma_run_fb_clean(ls.drop_first(), step_line(st, ls[0]), fbs.drop_first());
    }
}

/// Running one more line under the fallback machine steps the state the
/// run reached.
pub proof fn lemma_run_fb_snoc(
    ls: Seq<Seq<char>>,
    st: ParseState,
    fbs: Seq<(Timestamp, Seq<char>)>,
    l: Seq<char>,
    fb: (Timestamp, Seq<char>),
)
    requires
        fbs.len() == ls.len(),
    ensures
        run_lines_fb(ls.push(l), st, fbs.push(fb)) == step_line_fb(
            run_lines_fb(ls, st, fbs),
            l,
            fb,
        ),
    decreases ls.len(),
{
    reveal_with_fuel(run_lines_fb, 3);
    if ls.len() == 0 {
        assert(ls.push(l).drop_first() =~= ls);
        assert(ls.push(l)[0] == l);
        assert(fbs.push(fb)[0] == fb);
        assert(fbs.push(fb).drop_first() =~= fbs);
    } else {
        assert(ls.push(l).drop_first() =~= ls.drop_first().push(l));
        assert(ls.push(l)[0] == ls[0]);
        assert(fbs.push(fb)[0] == fbs[0]);
        assert(fbs.push(fb).drop_first() =~= fbs.drop_first().push(fb));
        lemma_run_fb_snoc(ls.drop_first(), step_line_fb(st, ls[0], fbs[0]), fbs.drop_first(), l, fb);
    }
}

/// A task line is clean when its timestamp names a real date and time and
/// its id is in canonical shape; on such lines parsing needs no fallback.
pub open spec fn task_line_clean(l: Seq<char>) -> bool {
    is_task_line(l) ==> timestamp_of(task_ts_text(l)).valid() && is_id(task_id(l))
}

/// Every task line of the text is clean.
pub open spec fn text_clean(s: Seq<char>) -> bool {
    forall|k: int| 0 <= k < spec_lines(s).len() ==> task_line_clean(#[trigger] spec_lines(s)[k])
}

fn classify_header(l: &[char]) -> (r: bool)
    ensures
        r == is_header_line(l@),
{
    let t = trim(l);
    t.len() >= 2 && t[t.len() - 1] == ':'
}

fn classify_task(l: &[char]) -> (r: bool)
    ensures
        r == is_task_line(l@),
{
    let n = l.len();
    if n < 62 {
        return false;
    }
    if !(l[0] == ' ' && l[1] == '-' && l[2] == ' ') {
        return false;
    }
    if !timestamp_shape_at(l, 3) {
        assert(l@.subrange(3, 19) == task_ts_text(l@));
        return false;
    }
    if !(l[19] == ' ' && l[20] == '|' && l[21] == ' ') {
        return false;
    }
    if !(l[n - 39] == ' ' && l[n - 38] == '<' && l[n - 1] == '>') {
        return false;
    }
    let mut k: usize = n - 37;
    while k < n - 1
        invariant
            n == l@.len(),
            62 <= n,
            n - 37 <= k <= n - 1,
            forall|j: int| n - 37 <= j < k ==> is_id_char(l@[j]),
        decreases n - k,
    {
        let c = l[k];
        let u = c as u32;
        if !((48 <= u && u <= 57) || (97 <= u && u <= 102) || c == '-') {
            assert(!is_id_char(l@[k as int]));
            return false;
        }
        k = k + 1;
    }
    assert(l@.subrange(3, 19) == task_ts_text(l@));
    true
}

fn classify_blank(l: &[char]) -> (r: bool)
    ensures
        r == is_blank_line(l@),
{
    let mut k: usize = 0;
    while k < l.len()
        invariant
            k <= l@.len(),
            forall|j: int| 0 <= j < k ==> is_space(l@[j]),
        decreases l@.len() - k,
    {
        if !space_char(l[k]) {
            return false;
        }
        k = k + 1;
    }
    true
}

fn trim_start_chars(l: &[char]) -> (r: Vec<char>)
    ensures
        r@ == spec_trim_start(l@),
{
    let mut start: usize = 0;
    assert(l@.subrange(0, l@.len() as int) =~= l@);
    while start < l.len() && space_char(l[start])
        invariant
            start <= l@.len(),
            spec_trim_start(l@) == spec_trim_start(l@.subrange(start as int, l@.len() as int)),
        decreases l@.len() - start,
    {
        assert(l@.subrange(start as int, l@.len() as int).drop_first() =~= l@.subrange(
            start + 1,
            l@.len() as int,
        ));
        start = start + 1;
    }
    let mut r: Vec<char> = Vec::new();
    let mut i: usize = start;
    while i < l.len()
        invariant
            start <= i <= l@.len(),
            r@ =~= l@.subrange(start as int, i as int),
        decreases l@.len() - i,
    {
        r.push(l[i]);
        assert(r@ =~= l@.subrange(start as int, i + 1));
        i = i + 1;
    }
    assert(r@ =~= l@.subrange(start as int, l@.len() as int));
    assert(spec_trim_start(l@.subrange(start as int, l@.len() as int)) == l@.subrange(
        start as int,
        l@.len() as int,
    ));
    r
}

fn copy_range(s: &[char], a: usize, b: usize) -> (r: Vec<char>)
    requires
        a <= b <= s@.len(),
    ensures
        r@ == s@.subrange(a as int, b as int),
{
    let mut r: Vec<char> = Vec::new();
    let mut i: usize = a;
    while i < b
        invariant
            a <= i <= b <= s@.len(),
            r@ =~= s@.subrange(a as int, i as int),
        decreases b - i,
    {
        r.push(s[i]);
        assert(r@ =~= s@.subrange(a as int, i + 1));
        i = i + 1;
    }
    assert(r@ =~= s@.subrange(a as int, b as int));
    r
}

/// The view of the open entry.
pub open spec fn opt_entry_view(e: Option<Entry>) -> Option<EntryView> {
    match e {
        Some(e) => Some(e@),
        None => None,
    }
}

/// Close `cur` into the container.
fn flush_entry(file: &mut DoingFile, cur: &mut Option<Entry>)
    requires
        old(file).wf(),
        *old(cur) matches Some(e) ==> e.wf(),
    ensures
        final(file).wf(),
        *final(cur) is None,
        ((ParseState {
            sections: final(file)@,
            cur_section: Seq::empty(),
            cur_entry: None,
        }) == flush_state(
            ParseState {
                sections: old(file)@,
                cur_section: Seq::empty(),
                cur_entry: opt_entry_view(*old(cur)),
            },
        )),
{
    let prev = cur.take();
    match prev {
        Some(e) => {
            proof {
                lemma_sec_index(file@, e.section@);
            }
            file.add_entry(e);
            assert(file@ =~~= add_entry_view(old(file)@, e@));
        },
        None => {},
    }
}

/// Read the whole text into a fresh container.  This never fails: a
/// malformed line is skipped, a task line with an impossible date gets the
/// current time, one with a malformed id gets a fresh id.  The result is
/// always the specified machine's, run with some usable fallback pair per
/// line; on text whose task lines are all clean no fallback is taken and
/// the result is exactly the plain machine's.
pub fn parse(text: &str) -> (r: DoingFile)
    ensures
        r.wf(),
        (exists|fbs: Seq<(Timestamp, Seq<char>)>|
            {
                &&& fbs.len() == spec_lines(text@).len()
                &&& fallbacks_ok(fbs)
                &&& r@ == flush_state(
                    run_lines_fb(spec_lines(text@), init_state(), fbs),
                ).sections
            }),
        text_clean(text@) ==> r@ == spec_parse(text@),
{
    let chars = string_chars(text);
    let all_lines = split_lines(chars.as_slice());
    let ghost lviews = spec_lines(text@);
    let mut file = DoingFile::new();
    let mut cur_section = currently_string();
    let mut cur_entry: Option<Entry> = None;
    let ghost init = init_state();
    proof {
        assert(file@ =~~= init.sections);
    }
    // a usable fallback pair to record for the lines that take none
    let default_ts = now_timestamp();
    let default_id = fresh_id();
    let ghost default_fb = (default_ts, default_id@);
    let ghost mut fbs = Seq::<(Timestamp, Seq<char>)>::empty();
    let n = all_lines.len();
    let mut k: usize = 0;
    while k < n
        invariant
            n == all_lines@.len(),
            k <= n,
            line_views(all_lines@) == lviews,
            lviews == spec_lines(text@),
            file.wf(),
            cur_entry matches Some(e) ==> e.wf() && e.section@ == cur_section@,
            fbs.len() == k,
            fallbacks_ok(fbs),
            (ParseState {
                sections: file@,
                cur_section: cur_section@,
                cur_entry: opt_entry_view(cur_entry),
            }) == run_lines_fb(lviews.take(k as int), init_state(), fbs),
            default_fb.0.valid(),
            is_id(default_fb.1),
        decreases n - k,
    {
        let ghost st_before = ParseState {
            sections: file@,
            cur_section: cur_section@,
            cur_entry: opt_entry_view(cur_entry),
        };
        let line = &all_lines[k];
        let ghost lv = lviews[k as int];
        assert(lv == line@);
        let ghost mut fb_used = default_fb;
        if classify_header(line.as_slice()) {
            flush_entry(&mut file, &mut cur_entry);
            let ghost mid = file@;
            let trimmed = trim(line.as_slice());
            let name = copy_range(trimmed.as_slice(), 0, trimmed.len() - 1);
            assert(name@ == header_name(lv));
            cur_section = chars_to_string(name.as_slice());
            file.ensure_section(cur_section.as_str());
            proof {
                let st1 = flush_state(st_before);
                assert(mid =~~= st1.sections);
                assert(file@ =~~= ensure_section_view(mid, header_name(lv)));
                assert(step_line(st_before, lv) =~~= ParseState {
                    sections: file@,
                    cur_section: cur_section@,
                    cur_entry: opt_entry_view(cur_entry),
                });
                assert(step_line_fb(st_before, lv, fb_used) == step_line(st_before, lv));
            }
        } else if classify_task(line.as_slice()) {
            flush_entry(&mut file, &mut cur_entry);
            let ln = line.len();
            let ts = match parse_timestamp_at(line.as_slice(), 3) {
                Some(t) => t,
                None => now_timestamp(),
            };
            let id_chars = copy_range(line.as_slice(), ln - 37, ln - 1);
            assert(id_chars@ == task_id(lv));
            let id = if valid_id(id_chars.as_slice()) {
                chars_to_string(id_chars.as_slice())
            } else {
                fresh_id()
            };
            proof {
                fb_used = (ts, id@);
                assert(fb_used.0.valid());
                assert(is_id(fb_used.1)) by {
                    if !is_id(task_id(lv)) {
                    } else {
                        assert(id@ == task_id(lv));
                    }
                }
            }
            let desc_region = copy_range(line.as_slice(), 22, ln - 39);
            assert(desc_region@ == task_desc_region(lv));
            let (raw_tags, raw_desc) = scan_tags(desc_region.as_slice());
            let tags = dedup_tags(raw_tags);
            let desc = trim(raw_desc.as_slice());
            let entry = Entry {
                description: chars_to_string(desc.as_slice()),
                timestamp: ts,
                section: cur_section.clone(),
                tags,
                note: None,
                id,
            };
            proof {
                assert(entry@ =~~= task_entry_fb(lv, st_before.cur_section, fb_used));
            }
            cur_entry = Some(entry);
            proof {
                assert(step_line_fb(st_before, lv, fb_used) =~~= ParseState {
                    sections: file@,
                    cur_section: cur_section@,
                    cur_entry: opt_entry_view(cur_entry),
                });
            }
        } else if line.len() >= 2 && line[0] == ' ' && line[1] == ' ' && cur_entry.is_some() {
            assert(is_note_line(lv));
            let stripped = trim_start_chars(line.as_slice());
            if let Some(e) = &mut cur_entry {
                let ghost ev = e@;
                match &e.note {
                    Some(n) => {
                        let mut nv = string_chars(n.as_str());
                        nv.push('\n');
                        let ghost mid = nv@;
                        let mut nv2 = nv;
                        let m = stripped.len();
                        let mut q: usize = 0;
                        while q < m
                            invariant
                                m == stripped@.len(),
                                q <= m,
                                nv2@ =~= mid + stripped@.subrange(0, q as int),
                            decreases m - q,
                        {
                            nv2.push(stripped[q]);
                            assert(nv2@ =~= mid + stripped@.subrange(0, q + 1));
                            q = q + 1;
                        }
                        assert(nv2@ =~= mid + stripped@);
                        e.note = Some(chars_to_string(nv2.as_slice()));
                    },
                    None => {
                        e.note = Some(chars_to_string(stripped.as_slice()));
                    },
                }
                proof {
                    assert(e@ =~~= append_note(ev, lv));
                }
            }
            proof {
                assert(step_line(st_before, lv) =~~= ParseState {
                    sections: file@,
                    cur_section: cur_section@,
                    cur_entry: opt_entry_view(cur_entry),
                });
                assert(step_line_fb(st_before, lv, fb_used) == step_line(st_before, lv));
            }
        } else if classify_blank(line.as_slice()) {
            flush_entry(&mut file, &mut cur_entry);
            proof {
                assert(step_line(st_before, lv) =~~= ParseState {
                    sections: file@,
                    cur_section: cur_section@,
                    cur_entry: opt_entry_view(cur_entry),
                });
                assert(step_line_fb(st_before, lv, fb_used) == step_line(st_before, lv));
            }
        } else {
            proof {
                assert(step_line(st_before, lv) =~~= st_before);
                assert(step_line_fb(st_before, lv, fb_used) == step_line(st_before, lv));
            }
        }
        proof {
            lemma_run_fb_snoc(lviews.take(k as int), init_state(), fbs, lv, fb_used);
            assert(lviews.take(k + 1) =~= lviews.take(k as int).push(lv));
            fbs = fbs.push(fb_used);
        }
        k = k + 1;
    }
    flush_entry(&mut file, &mut cur_entry);
    proof {
        assert(lviews.take(n as int) =~= lviews);
        assert(file@ =~~= flush_state(run_lines_fb(lviews, init_state(), fbs)).sections);
        if text_clean(text@) {
            lemma_run_fb_clean(lviews, init_state(), fbs);
            assert(file@ =~~= spec_parse(text@));
        }
    }
    file
}

/// Running one more line equals stepping the state the run reached.
pub proof fn lemma_run_lines_snoc(ls: Seq<Seq<char>>, st: ParseState, l: Seq<char>)
    ensures
        run_lines(ls.push(l), st) == step_line(run_lines(ls, st), l),
    decreases ls.len(),
{
    reveal_with_fuel(run_lines, 3);
    if ls.len() == 0 {
        assert(ls.push(l).drop_first() =~= ls);
        assert(ls.push(l)[0] == l);
    } else {
        assert(ls.push(l).drop_first() =~= ls.drop_first().push(l));
        assert(ls.push(l)[0] == ls[0]);
        lemma_run_lines_snoc(ls.drop_first(), step_line(st, ls[0]), l);
    }
}

fn currently_string() -> (r: String)
    ensures
        r@ == "Currently"@,
{
    let mut s = String::new();
    s.append("Currently");
    s
}

} // verus!
