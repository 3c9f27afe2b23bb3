//! Parsing inverts serialization.
//!
//! For a container in serializable shape — the default section first, unique
//! section names, and text fields free of the characters that the grammar
//! itself uses — reading the rendered text back yields the same model, and
//! rendering is therefore idempotent.  The conditions are stated by
//! [`serializable`]; each one marks an input on which the grammar cannot be
//! inverted (a description containing `@` would parse as tags, a blank note
//! line would close the entry early).

use vstd::prelude::*;
use crate::container::{EntryView, SectionView, sec_index, has_section, lemma_sec_index};
use crate::ids::{is_id, is_hyphen_pos, is_hex_char};
use crate::lines::{spec_lines, spec_lines_from, spec_join, first_nl, strip_cr};
use crate::parser::{
    ParseState, spec_parse, run_lines, step_line, flush_state, init_state, is_header_line,
    header_name, is_task_line, is_note_line, is_blank_line, task_ts_text, task_id,
    task_desc_region, task_entry, append_note, add_entry_view, ensure_section_view, is_id_char,
    spec_trim_start,
};
use crate::serializer::{
    spec_serialize, render_task_line, entry_lines, note_block_lines, indent_line, section_lines,
    file_lines, concat_lines,
};
use crate::tags::{
    TagText, extract_from, tag_match_at, word_run_end, close_paren_at, is_word_char, is_space,
    spec_trim, spec_dedup, spec_upsert_text, render_tag_text, render_tag_texts, text_names_unique,
};
use crate::time::Timestamp;
use crate::timetext::{
    spec_render_timestamp, is_timestamp_shape, timestamp_of, lemma_timestamp_round_trip, is_digit,
    digit_char,
};

verus! {

/// A run of `n` spaces.
pub open spec fn spaces(n: int) -> Seq<char>
    decreases n,
{
    if n <= 0 {
        Seq::empty()
    } else {
        spaces(n - 1).push(' ')
    }
}

/// A tag in a shape the grammar can read back: a nonempty word-character
/// name, and a value (when present) that is nonempty and free of `)` and
/// newlines.
pub open spec fn serializable_tag(t: TagText) -> bool {
    &&& t.name.len() > 0
    &&& (forall|i: int| 0 <= i < t.name.len() ==> is_word_char(#[trigger] t.name[i]))
    &&& (t.value matches Some(v) ==> v.len() > 0 && (forall|i: int|
        0 <= i < v.len() ==> #[trigger] v[i] != ')' && v[i] != '\n'))
}

/// A description the grammar can read back: nonempty, free of `@` and
/// newlines, and carrying no surrounding whitespace.
pub open spec fn serializable_desc(d: Seq<char>) -> bool {
    &&& d.len() > 0
    &&& (forall|i: int| 0 <= i < d.len() ==> #[trigger] d[i] != '@' && d[i] != '\n')
    &&& !is_space(d[0])
    &&& !is_space(d.last())
}

/// A note the grammar can read back: it equals its own lines rejoined, and
/// every nonempty line starts and ends with no whitespace and ends with no
/// colon.  A line may be empty: it renders as a bare indent and reads back
/// as an empty note line.
pub open spec fn serializable_note(n: Seq<char>) -> bool {
    &&& spec_join(spec_lines(n)) == n
    &&& spec_lines(n).len() > 0
    &&& (forall|i: int|
        0 <= i < spec_lines(n).len() ==> {
            let l = #[trigger] spec_lines(n)[i];
            &&& (forall|j: int| 0 <= j < l.len() ==> #[trigger] l[j] != '\n')
            &&& (l.len() > 0 ==> !is_space(l[0]) && !is_space(l.last()) && l.last() != ':')
        })
}

/// An entry the grammar can read back.
pub open spec fn serializable_entry(e: EntryView) -> bool {
    &&& serializable_desc(e.description)
    &&& e.timestamp.valid()
    &&& is_id(e.id)
    &&& text_names_unique(e.tags)
    &&& (forall|i: int| 0 <= i < e.tags.len() ==> serializable_tag(#[trigger] e.tags[i]))
    &&& (e.note matches Some(n) ==> serializable_note(n))
}

/// A section the grammar can read back: a nonempty name free of newlines
/// that starts with no whitespace, and entries that name it as their
/// section.
pub open spec fn serializable_section(s: SectionView) -> bool {
    &&& s.name.len() > 0
    &&& (forall|i: int| 0 <= i < s.name.len() ==> #[trigger] s.name[i] != '\n')
    &&& !is_space(s.name[0])
    &&& (forall|i: int|
        0 <= i < s.entries.len() ==> serializable_entry(#[trigger] s.entries[i])
            && s.entries[i].section == s.name)
}

/// A container the grammar can read back: the default section first, unique
/// names, every section serializable.
pub open spec fn serializable(ss: Seq<SectionView>) -> bool {
    &&& ss.len() >= 1
    &&& ss[0].name == "Currently"@
    &&& (forall|i: int, j: int| 0 <= i < j < ss.len() ==> ss[i].name != ss[j].name)
    &&& (forall|i: int| 0 <= i < ss.len() ==> serializable_section(#[trigger] ss[i]))
}

proof fn lemma_word_run_value(s: Seq<char>, a: int, b: int)
    requires
        0 <= a <= b <= s.len(),
        forall|j: int| a <= j < b ==> is_word_char(#[trigger] s[j]),
        b == s.len() || !is_word_char(s[b]),
    ensures
        word_run_end(s, a) == b,
    decreases b - a,
{
    if a < b {
        lemma_word_run_value(s, a + 1, b);
    }
}

proof fn lemma_close_paren_value(s: Seq<char>, a: int, b: int)
    requires
        0 <= a <= b < s.len(),
        forall|j: int| a <= j < b ==> #[trigger] s[j] != ')',
        s[b] == ')',
    ensures
        close_paren_at(s, a) == b,
    decreases b - a,
{
    if a < b {
        lemma_close_paren_value(s, a + 1, b);
    }
}

proof fn lemma_first_nl_value(s: Seq<char>, a: int, b: int)
    requires
        0 <= a <= b <= s.len(),
        forall|j: int| a <= j < b ==> #[trigger] s[j] != '\n',
        b == s.len() || s[b] == '\n',
    ensures
        first_nl(s, a) == b,
    decreases b - a,
{
    if a < b {
        lemma_first_nl_value(s, a + 1, b);
    }
}

/// The rendered tag list unfolds at the front.
proof fn lemma_render_tags_front(ts: Seq<TagText>)
    requires
        ts.len() > 0,
    ensures
        render_tag_texts(ts) == render_tag_text(ts[0]) + render_tag_texts(ts.drop_first()),
    decreases ts.len(),
{
    if ts.len() == 1 {
        assert(ts.drop_last() =~= Seq::<TagText>::empty());
        assert(ts.drop_first() =~= Seq::<TagText>::empty());
        assert(render_tag_texts(ts) =~= render_tag_text(ts[0]) + render_tag_texts(
            ts.drop_first(),
        ));
    } else {
        lemma_render_tags_front(ts.drop_last());
        assert(ts.drop_last()[0] == ts[0]);
        assert(ts.drop_last().drop_first() =~= ts.drop_first().drop_last());
        assert(ts.drop_first().last() == ts.last());
        assert(render_tag_texts(ts) == render_tag_texts(ts.drop_last()) + render_tag_text(
            ts.last(),
        ));
        assert(render_tag_text(ts[0]) + render_tag_texts(ts.drop_first()) =~= render_tag_text(
            ts[0],
        ) + (render_tag_texts(ts.drop_first().drop_last()) + render_tag_text(ts.last())));
        assert(render_tag_text(ts[0]) + render_tag_texts(ts.drop_first().drop_last())
            =~= render_tag_texts(ts.drop_last()));
        assert(render_tag_texts(ts) =~= render_tag_text(ts[0]) + render_tag_texts(
            ts.drop_first(),
        ));
    }
}

/// Extraction walks over a region free of `@` unchanged.
proof fn lemma_extract_no_at(s: Seq<char>, i: int, m: int)
    requires
        0 <= i <= m <= s.len(),
        forall|j: int| i <= j < m ==> #[trigger] s[j] != '@',
    ensures
        extract_from(s, i).0 == extract_from(s, m).0,
        extract_from(s, i).1 == s.subrange(i, m) + extract_from(s, m).1,
    decreases m - i,
{
    if i < m {
        assert(tag_match_at(s, i) is None);
        lemma_extract_no_at(s, i + 1, m);
        assert(s.subrange(i, m) =~= seq![s[i]] + s.subrange(i + 1, m));
        assert(seq![s[i]] + (s.subrange(i + 1, m) + extract_from(s, m).1) =~= s.subrange(i, m)
            + extract_from(s, m).1);
    } else {
        assert(s.subrange(i, m) =~= Seq::<char>::empty());
        assert(s.subrange(i, m) + extract_from(s, m).1 =~= extract_from(s, m).1);
    }
}

/// Extraction reads a rendered tag list back: the tags in order, leaving
/// one space per tag.
proof fn lemma_extract_rendered_tags(s: Seq<char>, i: int, ts: Seq<TagText>)
    requires
        0 <= i <= s.len(),
        s.skip(i) == render_tag_texts(ts),
        forall|k: int| 0 <= k < ts.len() ==> serializable_tag(#[trigger] ts[k]),
    ensures
        extract_from(s, i).0 == ts,
        extract_from(s, i).1 == spaces(ts.len() as int),
    decreases ts.len(),
{
    if ts.len() == 0 {
        assert(s.skip(i) =~= Seq::<char>::empty());
        assert(i == s.len());
        assert(extract_from(s, i).0 =~= ts);
        assert(extract_from(s, i).1 =~= spaces(0));
    } else {
        lemma_render_tags_front(ts);
        let t = ts[0];
        let r0 = render_tag_text(t);
        let rest = render_tag_texts(ts.drop_first());
        assert(s.skip(i) == r0 + rest);
        let nlen = t.name.len() as int;
        // layout: s[i] == ' ', s[i+1] == '@', name at [i+2, i+2+nlen), then
        // the value in parentheses when present.
        assert(s.skip(i).len() == s.len() - i);
        assert(r0.len() >= 2);
        assert(i + r0.len() + rest.len() == s.len());
        assert forall|j: int| 0 <= j < r0.len() implies s[i + j] == r0[j] by {
            assert(s.skip(i)[j] == s[i + j]);
            assert((r0 + rest)[j] == r0[j]);
        }
        assert(s[i + 0] == r0[0]);
        assert(s[i + 1] == r0[1]);
        assert(r0[0] == ' ');
        assert(r0[1] == '@');
        assert(s[i] == ' ');
        assert(s[i + 1] == '@');
        assert(tag_match_at(s, i) is None);
        let ne = i + 2 + nlen;
        assert(forall|j: int| i + 2 <= j < ne ==> is_word_char(#[trigger] s[j])) by {
            assert(forall|j: int| i + 2 <= j < ne ==> s[j] == r0[j - i] && r0[j - i] == t.name[j - i
                - 2]);
        }
        let end = i + r0.len();
        match t.value {
            Some(v) => {
                assert(r0[2 + nlen] == '(');
                assert(s[ne] == '(');
                assert(!is_word_char('('));
                lemma_word_run_value(s, i + 2, ne);
                let cp = ne + 1 + v.len() as int;
                assert(forall|j: int| ne + 1 <= j < cp ==> #[trigger] s[j] != ')') by {
                    assert(forall|j: int| ne + 1 <= j < cp ==> s[j] == r0[j - i] && r0[j - i] == v[j
                        - ne - 1]);
                }
                assert(cp - i == r0.len() - 1);
                assert(r0[cp - i] == ')');
                assert(s[i + (cp - i)] == r0[cp - i]);
                assert(s[cp] == ')');
                assert(cp < s.len());
                lemma_close_paren_value(s, ne + 1, cp);
                assert(tag_match_at(s, i + 1) matches Some((e2, t2)) && e2 == cp + 1 && t2.name
                    == s.subrange(i + 2, ne) && t2.value == Some(s.subrange(ne + 1, cp)));
                assert forall|j: int| 0 <= j < nlen implies s.subrange(i + 2, ne)[j]
                    == t.name[j] by {
                    assert(s[i + (2 + j)] == r0[2 + j]);
                    assert(r0[2 + j] == t.name[j]);
                }
                assert(s.subrange(i + 2, ne) =~= t.name);
                assert forall|j: int| 0 <= j < v.len() implies s.subrange(ne + 1, cp)[j]
                    == v[j] by {
                    assert(s[i + (3 + nlen + j)] == r0[3 + nlen + j]);
                    assert(r0[3 + nlen + j] == v[j]);
                    assert(s.subrange(ne + 1, cp)[j] == s[ne + 1 + j]);
                }
                assert(s.subrange(ne + 1, cp) =~= v);
                assert(end == cp + 1);
            },
            None => {
                if end < s.len() {
                    // the next rendered tag starts with a space
                    assert(rest.len() > 0);
                    assert(ts.drop_first().len() > 0);
                    lemma_render_tags_front(ts.drop_first());
                    assert(rest[0] == ' ');
                    assert(s.skip(i)[end - i] == s[i + (end - i)]);
                    assert(s.skip(i)[end - i] == (r0 + rest)[r0.len() as int]);
                    assert((r0 + rest)[r0.len() as int] == rest[0]);
                    assert(s[end] == ' ');
                    assert(!is_word_char(' '));
                }
                lemma_word_run_value(s, i + 2, ne);
                assert(ne == end);
                if ne < s.len() && s[ne] == '(' {
                    assert(false);
                }
                assert(tag_match_at(s, i + 1) matches Some((e2, t2)) && e2 == end && t2.name
                    == s.subrange(i + 2, ne) && t2.value is None);
                assert forall|j: int| 0 <= j < nlen implies s.subrange(i + 2, ne)[j]
                    == t.name[j] by {
                    assert(s[i + (2 + j)] == r0[2 + j]);
                    assert(r0[2 + j] == t.name[j]);
                }
                assert(s.subrange(i + 2, ne) =~= t.name);
            },
        }
        // step at i: a space is copied; step at i+1: the tag is consumed.
        assert(s.skip(end).len() == rest.len());
        assert forall|j: int| 0 <= j < rest.len() implies s.skip(end)[j] == rest[j] by {
            assert(s.skip(end)[j] == s[end + j]);
            assert(s[i + (r0.len() + j)] == s.skip(i)[r0.len() + j]);
            assert((r0 + rest)[r0.len() + j] == rest[j]);
        }
        assert(s.skip(end) =~= rest);
        lemma_extract_rendered_tags(s, end, ts.drop_first());
        assert(extract_from(s, i + 1).0 =~= seq![t] + extract_from(s, end).0);
        assert(extract_from(s, i + 1).1 == extract_from(s, end).1);
        assert(extract_from(s, i).0 == extract_from(s, i + 1).0);
        assert(extract_from(s, i).1 =~= seq![' '] + extract_from(s, i + 1).1);
        assert(seq![t] + ts.drop_first() =~= ts);
        assert(seq![' '] + spaces(ts.len() - 1) =~= spaces(ts.len() as int)) by {
            lemma_spaces_front(ts.len() as int);
        }
    }
}

/// A run of spaces is one space followed by one fewer.
proof fn lemma_spaces_front(n: int)
    requires
        n >= 1,
    ensures
        spaces(n) == seq![' '] + spaces(n - 1),
    decreases n,
{
    if n == 1 {
        assert(spaces(1) =~= seq![' '] + spaces(0));
    } else {
        lemma_spaces_front(n - 1);
        assert(spaces(n) == spaces(n - 1).push(' '));
        assert((seq![' '] + spaces(n - 2)).push(' ') =~= seq![' '] + spaces(n - 2).push(' '));
    }
}

/// Every character of a space run is a space.
proof fn lemma_spaces_all(n: int, j: int)
    requires
        0 <= j < n,
    ensures
        spaces(n).len() == n,
        is_space(spaces(n)[j]),
    decreases n,
{
    lemma_spaces_len(n);
    if j == n - 1 {
        lemma_spaces_len(n - 1);
        assert(spaces(n) == spaces(n - 1).push(' '));
    } else {
        lemma_spaces_all(n - 1, j);
        assert(spaces(n) == spaces(n - 1).push(' '));
    }
}

proof fn lemma_spaces_len(n: int)
    ensures
        spaces(n).len() == (if n >= 0 { n } else { 0 }),
    decreases n,
{
    if n >= 1 {
        lemma_spaces_len(n - 1);
    }
}

/// Trimming a clean description with trailing spaces yields it back.
proof fn lemma_trim_desc_spaces(d: Seq<char>, n: int)
    requires
        serializable_desc(d),
        n >= 0,
    ensures
        spec_trim(d + spaces(n)) == d,
    decreases n,
{
    lemma_spaces_len(n);
    if n == 0 {
        assert(d + spaces(0) =~= d);
        lemma_trim_clean(d);
    } else {
        let s = d + spaces(n);
        assert(s.len() > 0);
        assert(s[0] == d[0]);
        assert(!is_space(s[0]));
        lemma_spaces_all(n, n - 1);
        assert(s.last() == spaces(n)[n - 1]);
        assert(is_space(s.last()));
        assert(s.drop_last() =~= d + spaces(n - 1)) by {
            lemma_spaces_len(n - 1);
            assert(forall|j: int| 0 <= j < n - 1 ==> spaces(n)[j] == spaces(n - 1)[j]) by {
                lemma_spaces_prefix(n);
            }
        }
        lemma_trim_desc_spaces(d, n - 1);
    }
}

proof fn lemma_spaces_prefix(n: int)
    requires
        n >= 1,
    ensures
        forall|j: int| 0 <= j < n - 1 ==> spaces(n)[j] == spaces(n - 1)[j],
{
    lemma_spaces_len(n - 1);
    assert(spaces(n) == spaces(n - 1).push(' '));
}

/// Trimming keeps a non-whitespace last character.
proof fn lemma_trim_last(s: Seq<char>)
    requires
        s.len() > 0,
        !is_space(s.last()),
    ensures
        spec_trim(s).len() > 0,
        spec_trim(s).last() == s.last(),
    decreases s.len(),
{
    if is_space(s[0]) {
        assert(s.len() >= 2);
        assert(s.drop_first().last() == s.last());
        lemma_trim_last(s.drop_first());
    }
}

/// A clean description trims to itself.
proof fn lemma_trim_clean(d: Seq<char>)
    requires
        d.len() > 0,
        !is_space(d[0]),
        !is_space(d.last()),
    ensures
        spec_trim(d) == d,
{
}

/// A unique-named tag list folds to itself.
proof fn lemma_dedup_unique(ts: Seq<TagText>)
    requires
        text_names_unique(ts),
    ensures
        spec_dedup(ts) == ts,
    decreases ts.len(),
{
    if ts.len() > 0 {
        let pre = ts.drop_last();
        assert(text_names_unique(pre)) by {
            assert(forall|i: int, j: int|
                0 <= i < j < pre.len() ==> pre[i] == ts[i] && pre[j] == ts[j]);
        }
        lemma_dedup_unique(pre);
        let t = ts.last();
        assert(!(exists|i: int| 0 <= i < pre.len() && pre[i].name == t.name)) by {
            assert(forall|i: int| 0 <= i < pre.len() ==> pre[i] == ts[i]);
            assert(forall|i: int| 0 <= i < pre.len() ==> (#[trigger] ts[i]).name != ts[ts.len() - 1].name);
        }
        assert(spec_upsert_text(pre, t) == pre.push(t));
        assert(pre.push(t) =~= ts);
    }
}


/// A digit character is a digit.
proof fn lemma_digit_char_is_digit(d: int)
    requires
        0 <= d <= 9,
    ensures
        is_digit(digit_char(d)),
{
}

/// A rendered timestamp has the timestamp shape.
proof fn lemma_render_ts_shape(t: Timestamp)
    requires
        t.valid(),
    ensures
        is_timestamp_shape(spec_render_timestamp(t)),
{
    let s = spec_render_timestamp(t);
    assert(is_digit(s[0])) by { lemma_digit_char_is_digit(t.year as int / 1000 % 10); }
    assert(is_digit(s[1])) by { lemma_digit_char_is_digit(t.year as int / 100 % 10); }
    assert(is_digit(s[2])) by { lemma_digit_char_is_digit(t.year as int / 10 % 10); }
    assert(is_digit(s[3])) by { lemma_digit_char_is_digit(t.year as int % 10); }
    assert(is_digit(s[5])) by { lemma_digit_char_is_digit(t.month as int / 10 % 10); }
    assert(is_digit(s[6])) by { lemma_digit_char_is_digit(t.month as int % 10); }
    assert(is_digit(s[8])) by { lemma_digit_char_is_digit(t.day as int / 10 % 10); }
    assert(is_digit(s[9])) by { lemma_digit_char_is_digit(t.day as int % 10); }
    assert(is_digit(s[11])) by { lemma_digit_char_is_digit(t.hour as int / 10 % 10); }
    assert(is_digit(s[12])) by { lemma_digit_char_is_digit(t.hour as int % 10); }
    assert(is_digit(s[14])) by { lemma_digit_char_is_digit(t.minute as int / 10 % 10); }
    assert(is_digit(s[15])) by { lemma_digit_char_is_digit(t.minute as int % 10); }
}

/// The entry a rendered task line opens is the rendered entry, its note
/// still empty.
proof fn lemma_task_line_inverts(e: EntryView, sect: Seq<char>)
    requires
        serializable_entry(e),
    ensures
        !is_header_line(render_task_line(e)),
        is_task_line(render_task_line(e)),
        timestamp_of(task_ts_text(render_task_line(e))).valid(),
        is_id(task_id(render_task_line(e))),
        task_entry(render_task_line(e), sect) == (EntryView { section: sect, note: None, ..e }),
{
    let l = render_task_line(e);
    let ts = spec_render_timestamp(e.timestamp);
    let tr = render_tag_texts(e.tags);
    let dlen = e.description.len() as int;
    let trlen = tr.len() as int;
    let n = l.len() as int;
    assert(n == 22 + dlen + trlen + 39) by {
        assert(ts.len() == 16);
    }
    // index map into the concatenation
    assert forall|j: int| 0 <= j < n implies #[trigger] l[j] == (if j < 3 {
        seq![' ', '-', ' '][j]
    } else if j < 19 {
        ts[j - 3]
    } else if j < 22 {
        seq![' ', '|', ' '][j - 19]
    } else if j < 22 + dlen {
        e.description[j - 22]
    } else if j < 22 + dlen + trlen {
        tr[j - 22 - dlen]
    } else if j < 22 + dlen + trlen + 2 {
        seq![' ', '<'][j - 22 - dlen - trlen]
    } else if j < n - 1 {
        e.id[j - 24 - dlen - trlen]
    } else {
        '>'
    }) by {
        assert(ts.len() == 16);
    }
    assert(l.last() == '>');
    assert(!is_header_line(l)) by {
        lemma_trim_last(l);
    }
    // the timestamp field
    assert(task_ts_text(l) =~= ts);
    lemma_render_ts_shape(e.timestamp);
    lemma_timestamp_round_trip(e.timestamp);
    assert(timestamp_of(ts) == e.timestamp);
    // the id field
    assert(task_id(l) =~= e.id);
    assert(forall|k: int| n - 37 <= k < n - 1 ==> is_id_char(#[trigger] l[k])) by {
        assert(forall|k: int| n - 37 <= k < n - 1 ==> l[k] == e.id[k - (n - 37)]);
        assert(forall|j: int|
            0 <= j < 36 ==> is_id_char(#[trigger] e.id[j])) by {
            assert(forall|j: int|
                0 <= j < 36 ==> (if is_hyphen_pos(j) {
                    e.id[j] == '-'
                } else {
                    is_hex_char(#[trigger] e.id[j])
                }));
        }
    }
    assert(is_task_line(l));
    // the description clause
    let region = task_desc_region(l);
    assert(region =~= e.description + tr);
    assert(region.skip(dlen) =~= tr);
    assert(forall|j: int| 0 <= j < dlen ==> #[trigger] region[j] != '@');
    lemma_extract_no_at(region, 0, dlen);
    lemma_extract_rendered_tags(region, dlen, e.tags);
    assert(extract_from(region, 0).0 == e.tags);
    lemma_spaces_len(e.tags.len() as int);
    assert(extract_from(region, 0).1 =~= e.description + spaces(e.tags.len() as int)) by {
        assert(region.subrange(0, dlen) =~= e.description);
    }
    lemma_trim_desc_spaces(e.description, e.tags.len() as int);
    lemma_dedup_unique(e.tags);
    assert(task_entry(l, sect) == (EntryView { section: sect, note: None, ..e }));
}

/// An indented note line is read back as itself.
proof fn lemma_note_line_inverts(l: Seq<char>)
    requires
        l.len() > 0 ==> !is_space(l[0]) && !is_space(l.last()) && l.last() != ':',
    ensures
        !is_header_line(indent_line(l)),
        !is_task_line(indent_line(l)),
        is_note_line(indent_line(l)),
        spec_trim_start(indent_line(l)) == l,
{
    let il = indent_line(l);
    assert(il[1] == ' ');
    assert(!is_task_line(il));
    assert(il.drop_first() =~= seq![' '] + l);
    assert(il.drop_first().drop_first() =~= l);
    assert(spec_trim_start(il) == spec_trim_start(seq![' '] + l));
    assert(spec_trim_start(seq![' '] + l) == spec_trim_start(l));
    assert(spec_trim_start(l) == l);
    if l.len() > 0 {
        assert(il.last() == l.last());
        assert(!is_header_line(il)) by {
            lemma_trim_last(il);
        }
    } else {
        assert(il =~= seq![' ', ' ']);
        assert(spec_trim(seq![' ', ' ']).len() == 0) by {
            assert(seq![' ', ' '].drop_first() =~= seq![' ']);
            assert(is_space(seq![' ', ' '][0]));
            assert(spec_trim(seq![' ', ' ']) == spec_trim(seq![' ']));
            assert(seq![' '].drop_first() =~= Seq::<char>::empty());
            assert(is_space(seq![' '][0]));
            assert(spec_trim(seq![' ']) == spec_trim(Seq::<char>::empty()));
            assert(spec_trim(Seq::<char>::empty()).len() == 0);
        }
        assert(!is_header_line(il));
    }
}

/// Running a concatenation runs the two parts in order.
proof fn lemma_run_append(a: Seq<Seq<char>>, b: Seq<Seq<char>>, st: ParseState)
    ensures
        run_lines(a + b, st) == run_lines(b, run_lines(a, st)),
    decreases a.len(),
{
    if a.len() == 0 {
        assert(a + b =~= b);
    } else {
        assert((a + b)[0] == a[0]);
        assert((a + b).drop_first() =~= a.drop_first() + b);
        lemma_run_append(a.drop_first(), b, step_line(st, a[0]));
    }
}

/// What the note holds after a list of note lines.
pub open spec fn note_after(cur: Option<Seq<char>>, ls: Seq<Seq<char>>) -> Option<Seq<char>>
    decreases ls.len(),
{
    if ls.len() == 0 {
        cur
    } else {
        let joined = match cur {
            None => ls[0],
            Some(x) => x + seq!['\n'] + ls[0],
        };
        note_after(Some(joined), ls.drop_first())
    }
}

/// Joining unfolds at the front.
proof fn lemma_join_front(ls: Seq<Seq<char>>)
    requires
        ls.len() >= 2,
    ensures
        spec_join(ls) == ls[0] + seq!['\n'] + spec_join(ls.drop_first()),
    decreases ls.len(),
{
    if ls.len() == 2 {
        assert(ls.drop_last() =~= seq![ls[0]]);
        assert(ls.drop_first() =~= seq![ls[1]]);
        assert(spec_join(ls) == spec_join(ls.drop_last()) + seq!['\n'] + ls.last());
    } else {
        lemma_join_front(ls.drop_last());
        assert(ls.drop_last()[0] == ls[0]);
        assert(ls.drop_last().drop_first() =~= ls.drop_first().drop_last());
        assert(ls.drop_first().last() == ls.last());
        assert(spec_join(ls.drop_first()) == spec_join(ls.drop_first().drop_last()) + seq!['\n']
            + ls.drop_first().last());
        assert(ls[0] + seq!['\n'] + spec_join(ls.drop_first()) =~= (ls[0] + seq!['\n'] + spec_join(
            ls.drop_first().drop_last(),
        )) + seq!['\n'] + ls.last());
    }
}

/// Folding note lines onto `x` joins them after it.
proof fn lemma_note_after_some(x: Seq<char>, ls: Seq<Seq<char>>)
    ensures
        note_after(Some(x), ls) == Some(spec_join(seq![x] + ls)),
    decreases ls.len(),
{
    if ls.len() == 0 {
        assert(seq![x] + ls =~= seq![x]);
        assert(spec_join(seq![x]) == x);
    } else {
        lemma_note_after_some(x + seq!['\n'] + ls[0], ls.drop_first());
        assert(seq![x + seq!['\n'] + ls[0]] + ls.drop_first() =~= (seq![x] + ls).drop_first(
        ).drop_first().insert(0, x + seq!['\n'] + ls[0]));
        let big = seq![x] + ls;
        assert(big.len() >= 2);
        lemma_join_front(big);
        assert(big[0] == x);
        assert(big.drop_first() =~= ls);
        if ls.len() == 1 {
            assert(spec_join(ls) == ls[0]);
            assert(seq![x + seq!['\n'] + ls[0]] + ls.drop_first() =~= seq![x + seq!['\n'] + ls[0]]);
            assert(spec_join(seq![x + seq!['\n'] + ls[0]]) == x + seq!['\n'] + ls[0]);
            assert(spec_join(big) =~= x + seq!['\n'] + ls[0]);
        } else {
            lemma_join_front(ls);
            let mid = seq![x + seq!['\n'] + ls[0]] + ls.drop_first();
            assert(mid.len() >= 2);
            lemma_join_front(mid);
            assert(mid[0] == x + seq!['\n'] + ls[0]);
            assert(mid.drop_first() =~= ls.drop_first());
            assert(spec_join(mid) == (x + seq!['\n'] + ls[0]) + seq!['\n'] + spec_join(
                ls.drop_first(),
            ));
            assert(spec_join(big) == x + seq!['\n'] + spec_join(ls));
            assert(spec_join(ls) == ls[0] + seq!['\n'] + spec_join(ls.drop_first()));
            assert(x + seq!['\n'] + (ls[0] + seq!['\n'] + spec_join(ls.drop_first())) =~= (x
                + seq!['\n'] + ls[0]) + seq!['\n'] + spec_join(ls.drop_first()));
        }
    }
}

/// Running the indented note lines extends the open entry's note with them.
proof fn lemma_run_note_lines(ls: Seq<Seq<char>>, st: ParseState, e: EntryView)
    requires
        st.cur_entry == Some(e),
        forall|i: int|
            0 <= i < ls.len() ==> {
                let l = #[trigger] ls[i];
                l.len() > 0 ==> !is_space(l[0]) && !is_space(l.last()) && l.last() != ':'
            },
    ensures
        run_lines(ls.map(|i: int, l: Seq<char>| indent_line(l)), st) == (ParseState {
            cur_entry: Some(EntryView { note: note_after(e.note, ls), ..e }),
            ..st
        }),
    decreases ls.len(),
{
    let m = ls.map(|i: int, l: Seq<char>| indent_line(l));
    if ls.len() == 0 {
        assert(m.len() == 0);
        assert(st == (ParseState { cur_entry: Some(EntryView { note: note_after(e.note, ls), ..e }), ..st }));
    } else {
        assert(m[0] == indent_line(ls[0]));
        lemma_note_line_inverts(ls[0]);
        let e1 = append_note(e, indent_line(ls[0]));
        assert(step_line(st, m[0]) == (ParseState { cur_entry: Some(e1), ..st }));
        let st1 = ParseState { cur_entry: Some(e1), ..st };
        assert(m.drop_first() =~= ls.drop_first().map(|i: int, l: Seq<char>| indent_line(l))) by {
            assert(forall|i: int|
                0 <= i < ls.len() - 1 ==> m.drop_first()[i] == indent_line(ls.drop_first()[i]));
        }
        lemma_run_note_lines(ls.drop_first(), st1, e1);
        assert(note_after(e1.note, ls.drop_first()) == note_after(e.note, ls));
    }
}

/// Running one entry's lines closes the open entry and leaves this one open.
proof fn lemma_run_entry(e: EntryView, st: ParseState)
    requires
        serializable_entry(e),
        st.cur_section == e.section,
    ensures
        run_lines(entry_lines(e), st) == (ParseState {
            sections: flush_state(st).sections,
            cur_section: st.cur_section,
            cur_entry: Some(e),
        }),
{
    let l = render_task_line(e);
    lemma_task_line_inverts(e, st.cur_section);
    let e0 = EntryView { section: st.cur_section, note: None, ..e };
    let st1 = ParseState {
        sections: flush_state(st).sections,
        cur_section: st.cur_section,
        cur_entry: Some(e0),
    };
    assert(entry_lines(e)[0] == l);
    assert(step_line(st, l) == st1);
    assert(entry_lines(e).drop_first() =~= note_block_lines(e.note));
    lemma_run_append(seq![l], note_block_lines(e.note), st);
    assert(seq![l] + note_block_lines(e.note) =~= entry_lines(e));
    assert(run_lines(seq![l], st) == st1) by {
        assert(seq![l].len() == 1);
        assert(seq![l][0] == l);
        assert(seq![l].drop_first() =~= Seq::<Seq<char>>::empty());
        assert(run_lines(seq![l], st) == run_lines(seq![l].drop_first(), step_line(st, l)));
    }
    match e.note {
        Some(nt) => {
            let nls = spec_lines(nt);
            assert(note_block_lines(e.note) == nls.map(|i: int, x: Seq<char>| indent_line(x)));
            lemma_run_note_lines(nls, st1, e0);
            lemma_note_after_some(nls[0], nls.drop_first());
            assert(note_after(None, nls) == note_after(Some(nls[0]), nls.drop_first()));
            assert(seq![nls[0]] + nls.drop_first() =~= nls);
            assert(note_after(None, nls) == Some(spec_join(nls)));
            assert(spec_join(nls) == nt);
            assert(EntryView { note: note_after(e0.note, nls), ..e0 } == e);
        },
        None => {
            assert(note_block_lines(e.note) =~= Seq::<Seq<char>>::empty());
            assert(e0 == e);
        },
    }
}


/// The section index of the last element, when only it carries the name.
proof fn lemma_sec_index_last(ss: Seq<SectionView>, name: Seq<char>)
    requires
        ss.len() >= 1,
        ss.last().name == name,
        forall|j: int| 0 <= j < ss.len() - 1 ==> (#[trigger] ss[j]).name != name,
    ensures
        sec_index(ss, name) == ss.len() - 1,
{
    lemma_sec_index(ss, name);
    let idx = sec_index(ss, name);
    if idx < 0 {
        assert(ss[ss.len() - 1].name != name);
        assert(false);
    }
    if idx < ss.len() - 1 {
        assert(ss[idx].name != name);
        assert(false);
    }
}

/// Concatenated blocks unfold at the front.
proof fn lemma_concat_front(blocks: Seq<Seq<Seq<char>>>)
    requires
        blocks.len() > 0,
    ensures
        concat_lines(blocks) == blocks[0] + concat_lines(blocks.drop_first()),
    decreases blocks.len(),
{
    if blocks.len() == 1 {
        assert(blocks.drop_last() =~= Seq::<Seq<Seq<char>>>::empty());
        assert(blocks.drop_first() =~= Seq::<Seq<Seq<char>>>::empty());
        assert(concat_lines(blocks) =~= blocks[0] + concat_lines(blocks.drop_first()));
    } else {
        lemma_concat_front(blocks.drop_last());
        assert(blocks.drop_last()[0] == blocks[0]);
        assert(blocks.drop_last().drop_first() =~= blocks.drop_first().drop_last());
        assert(blocks.drop_first().last() == blocks.last());
        assert(blocks[0] + concat_lines(blocks.drop_first()) =~= blocks[0] + (concat_lines(
            blocks.drop_first().drop_last(),
        ) + blocks.last()));
        assert(concat_lines(blocks) =~= blocks[0] + concat_lines(blocks.drop_first()));
    }
}

/// The open entry a section's lines leave behind.
pub open spec fn open_entry(s: SectionView) -> Option<EntryView> {
    if s.entries.len() == 0 {
        None
    } else {
        Some(s.entries.last())
    }
}

/// The sections as they stand before the final flush: the last section of
/// the last-processed block still misses its open entry.
pub open spec fn pending_sections(ss: Seq<SectionView>) -> Seq<SectionView>
    recommends
        ss.len() >= 1,
{
    if ss.last().entries.len() == 0 {
        ss
    } else {
        ss.update(
            ss.len() - 1,
            SectionView { name: ss.last().name, entries: ss.last().entries.drop_last() },
        )
    }
}

/// Running the blocks of a section's entries fills the last section.
proof fn lemma_run_entries(es: Seq<EntryView>, name: Seq<char>, base: Seq<SectionView>)
    requires
        forall|i: int|
            0 <= i < es.len() ==> serializable_entry(#[trigger] es[i]) && es[i].section == name,
        base.len() >= 1,
        base.last().name == name,
        forall|j: int| 0 <= j < base.len() - 1 ==> (#[trigger] base[j]).name != name,
    ensures
        run_lines(
            concat_lines(es.map(|i: int, e: EntryView| entry_lines(e))),
            ParseState { sections: base, cur_section: name, cur_entry: None },
        ) == (if es.len() == 0 {
            ParseState { sections: base, cur_section: name, cur_entry: None }
        } else {
            ParseState {
                sections: base.update(
                    base.len() - 1,
                    SectionView {
                        name,
                        entries: base.last().entries + es.drop_last(),
                    },
                ),
                cur_section: name,
                cur_entry: Some(es.last()),
            }
        }),
    decreases es.len(),
{
    let st = ParseState { sections: base, cur_section: name, cur_entry: None };
    let blocks = es.map(|i: int, e: EntryView| entry_lines(e));
    if es.len() == 0 {
        assert(concat_lines(blocks) =~= Seq::<Seq<char>>::empty());
    } else {
        let pre = es.drop_last();
        let pre_blocks = pre.map(|i: int, e: EntryView| entry_lines(e));
        assert(blocks.drop_last() =~= pre_blocks) by {
            assert(forall|i: int|
                0 <= i < pre.len() ==> blocks.drop_last()[i] == entry_lines(pre[i]));
        }
        assert(concat_lines(blocks) == concat_lines(pre_blocks) + blocks.last());
        lemma_run_entries(pre, name, base);
        let mid = run_lines(concat_lines(pre_blocks), st);
        lemma_run_append(concat_lines(pre_blocks), blocks.last(), st);
        assert(blocks.last() == entry_lines(es.last()));
        lemma_run_entry(es.last(), mid);
        if pre.len() == 0 {
            assert(mid == st);
            assert(flush_state(mid).sections == base);
            assert(base.last().entries + es.drop_last() =~= base.last().entries);
            assert(base.update(
                base.len() - 1,
                SectionView { name, entries: base.last().entries },
            ) =~~= base);
        } else {
            let partial = SectionView { name, entries: base.last().entries + pre.drop_last() };
            assert(mid.sections == base.update(base.len() - 1, partial));
            assert(mid.cur_entry == Some(pre.last()));
            let msec = mid.sections;
            assert(msec.last() == partial);
            assert(forall|j: int|
                0 <= j < msec.len() - 1 ==> (#[trigger] msec[j]).name != name) by {
                assert(forall|j: int| 0 <= j < base.len() - 1 ==> msec[j] == base[j]);
            }
            lemma_sec_index_last(msec, name);
            assert(flush_state(mid).sections == msec.update(
                msec.len() - 1,
                SectionView { name, entries: partial.entries.push(pre.last()) },
            ));
            assert(partial.entries.push(pre.last()) =~= base.last().entries + es.drop_last()) by {
                assert(pre.drop_last().push(pre.last()) =~= pre);
                assert((base.last().entries + pre.drop_last()).push(pre.last())
                    =~= base.last().entries + pre);
            }
            assert(msec.update(
                msec.len() - 1,
                SectionView { name, entries: base.last().entries + es.drop_last() },
            ) =~~= base.update(
                base.len() - 1,
                SectionView { name, entries: base.last().entries + es.drop_last() },
            ));
        }
    }
}

/// Running one section's lines: the header opens (or finds) the section,
/// the entries fill it, the last entry stays open.
proof fn lemma_run_section(s: SectionView, st: ParseState)
    requires
        serializable_section(s),
        st.cur_entry is None,
        ensure_section_view(st.sections, s.name).len() >= 1,
        ensure_section_view(st.sections, s.name).last() == (SectionView {
            name: s.name,
            entries: Seq::empty(),
        }),
        forall|j: int|
            0 <= j < ensure_section_view(st.sections, s.name).len() - 1 ==> (
            #[trigger] ensure_section_view(st.sections, s.name)[j]).name != s.name,
    ensures
        run_lines(section_lines(s), st) == (if s.entries.len() == 0 {
            ParseState {
                sections: ensure_section_view(st.sections, s.name),
                cur_section: s.name,
                cur_entry: None,
            }
        } else {
            ParseState {
                sections: ensure_section_view(st.sections, s.name).update(
                    ensure_section_view(st.sections, s.name).len() - 1,
                    SectionView { name: s.name, entries: s.entries.drop_last() },
                ),
                cur_section: s.name,
                cur_entry: Some(s.entries.last()),
            }
        }),
{
    let header = s.name + seq![':'];
    assert(spec_trim(header) == header) by {
        assert(header[0] == s.name[0]);
        assert(header.last() == ':');
        lemma_trim_clean(header);
    }
    assert(is_header_line(header)) by {
        assert(header.last() == ':');
    }
    assert(header_name(header) =~= s.name);
    let p1 = ensure_section_view(st.sections, s.name);
    let st1 = ParseState { sections: p1, cur_section: s.name, cur_entry: None };
    assert(step_line(st, header) == st1);
    let blocks = s.entries.map(|i: int, e: EntryView| entry_lines(e));
    assert(section_lines(s) =~= seq![header] + concat_lines(blocks));
    lemma_run_append(seq![header], concat_lines(blocks), st);
    assert(run_lines(seq![header], st) == st1) by {
        assert(seq![header].len() == 1);
        assert(seq![header][0] == header);
        assert(seq![header].drop_first() =~= Seq::<Seq<char>>::empty());
        assert(run_lines(seq![header], st) == run_lines(
            seq![header].drop_first(),
            step_line(st, header),
        ));
    }
    lemma_run_entries(s.entries, s.name, p1);
    if s.entries.len() > 0 {
        assert(p1.last().entries + s.entries.drop_last() =~= s.entries.drop_last());
    }
}

/// Running the whole file's lines: every section is read back; the last
/// entry of the last section stays open for the final flush.
proof fn lemma_run_file(ss: Seq<SectionView>)
    requires
        serializable(ss),
    ensures
        run_lines(file_lines(ss), init_state()) == (ParseState {
            sections: pending_sections(ss),
            cur_section: ss.last().name,
            cur_entry: open_entry(ss.last()),
        }),
    decreases ss.len(),
{
    let init = init_state();
    if ss.len() == 1 {
        let s = ss[0];
        assert(file_lines(ss) == section_lines(s));
        assert(sec_index(init.sections, s.name) == 0);
        assert(ensure_section_view(init.sections, s.name) == init.sections);
        assert(init.sections.last() == (SectionView {
            name: s.name,
            entries: Seq::empty(),
        }));
        lemma_run_section(s, init);
        if s.entries.len() == 0 {
            assert(init.sections =~~= pending_sections(ss)) by {
                assert(ss[0] == (SectionView { name: "Currently"@, entries: Seq::empty() }));
                assert(init.sections =~= seq![ss[0]]);
            }
        } else {
            assert(init.sections.update(
                0,
                SectionView { name: s.name, entries: s.entries.drop_last() },
            ) =~~= pending_sections(ss));
        }
    } else {
        let pre = ss.drop_last();
        let s = ss.last();
        assert(serializable(pre)) by {
            assert(pre[0] == ss[0]);
            assert(forall|i: int| 0 <= i < pre.len() ==> pre[i] == ss[i]);
        }
        lemma_run_file(pre);
        assert(file_lines(ss) == file_lines(pre) + seq![Seq::<char>::empty()] + section_lines(s));
        let st_pre = ParseState {
            sections: pending_sections(pre),
            cur_section: pre.last().name,
            cur_entry: open_entry(pre.last()),
        };
        lemma_run_append(
            file_lines(pre) + seq![Seq::<char>::empty()],
            section_lines(s),
            init,
        );
        lemma_run_append(file_lines(pre), seq![Seq::<char>::empty()], init);
        assert((file_lines(pre) + seq![Seq::<char>::empty()]) + section_lines(s) =~= file_lines(
            ss,
        ));
        // the blank separator flushes the open entry
        let blank = Seq::<char>::empty();
        assert(is_blank_line(blank));
        assert(!is_header_line(blank));
        assert(!is_task_line(blank));
        assert(!is_note_line(blank));
        assert(step_line(st_pre, blank) == flush_state(st_pre));
        let st_blank = flush_state(st_pre);
        assert(run_lines(seq![blank], st_pre) == st_blank) by {
            assert(seq![blank].len() == 1);
            assert(seq![blank][0] == blank);
            assert(seq![blank].drop_first() =~= Seq::<Seq<char>>::empty());
            assert(run_lines(seq![blank], st_pre) == run_lines(
                seq![blank].drop_first(),
                step_line(st_pre, blank),
            ));
        }
        // after the flush, the previous sections stand complete
        assert(st_blank.sections =~~= pre) by {
            if pre.last().entries.len() == 0 {
                assert(pending_sections(pre) == pre);
                assert(open_entry(pre.last()) is None);
            } else {
                let e = pre.last().entries.last();
                assert(open_entry(pre.last()) == Some(e));
                let psec = pending_sections(pre);
                assert(psec.last() == (SectionView {
                    name: pre.last().name,
                    entries: pre.last().entries.drop_last(),
                }));
                assert(e.section == pre.last().name);
                assert(forall|j: int|
                    0 <= j < psec.len() - 1 ==> (#[trigger] psec[j]).name != e.section) by {
                    assert(forall|j: int| 0 <= j < pre.len() - 1 ==> psec[j] == pre[j]);
                    assert(forall|j: int|
                        0 <= j < pre.len() - 1 ==> (#[trigger] pre[j]).name != pre.last().name);
                }
                lemma_sec_index_last(psec, e.section);
                assert(st_blank.sections == psec.update(
                    psec.len() - 1,
                    SectionView {
                        name: e.section,
                        entries: psec.last().entries.push(e),
                    },
                ));
                assert(pre.last().entries.drop_last().push(e) =~= pre.last().entries);
                assert(psec.update(
                    psec.len() - 1,
                    SectionView { name: pre.last().name, entries: pre.last().entries },
                ) =~~= pre);
            }
        }
        let st2 = ParseState { sections: pre, cur_section: pre.last().name, cur_entry: None };
        assert(st_blank =~~= st2);
        assert(st_blank == st2);
        // the last section's name is fresh among the previous ones
        assert(forall|j: int| 0 <= j < pre.len() ==> (#[trigger] pre[j]).name != s.name) by {
            assert(forall|j: int| 0 <= j < ss.len() - 1 ==> (#[trigger] ss[j]).name != ss[ss.len() - 1].name);
            assert(forall|j: int| 0 <= j < pre.len() ==> pre[j] == ss[j]);
        }
        assert(!has_section(pre, s.name)) by {
            lemma_sec_index(pre, s.name);
            if sec_index(pre, s.name) >= 0 {
                assert(false);
            }
        }
        let p1 = ensure_section_view(pre, s.name);
        assert(p1 == pre.push(SectionView { name: s.name, entries: Seq::empty() }));
        assert(p1.last() == (SectionView { name: s.name, entries: Seq::empty() }));
        assert(forall|j: int| 0 <= j < p1.len() - 1 ==> (#[trigger] p1[j]).name != s.name) by {
            assert(forall|j: int| 0 <= j < pre.len() ==> p1[j] == pre[j]);
        }
        lemma_run_section(s, st2);
        if s.entries.len() == 0 {
            assert(p1 =~~= pending_sections(ss)) by {
                assert(forall|i: int| 0 <= i < pre.len() ==> p1[i] == ss[i]);
                assert(p1.last() =~~= ss.last());
            }
        } else {
            assert(p1.update(
                p1.len() - 1,
                SectionView { name: s.name, entries: s.entries.drop_last() },
            ) =~~= pending_sections(ss)) by {
                assert(forall|i: int| 0 <= i < pre.len() ==> p1[i] == ss[i]);
            }
        }
    }
}


/// A line as the joiner may emit it: no newline inside, no carriage return
/// at the end.
pub open spec fn line_ok(l: Seq<char>) -> bool {
    &&& (forall|j: int| 0 <= j < l.len() ==> #[trigger] l[j] != '\n')
    &&& (l.len() > 0 ==> l.last() != '\r')
}

/// Every line of the list is fit for joining.
pub open spec fn lines_ok(ls: Seq<Seq<char>>) -> bool {
    forall|i: int| 0 <= i < ls.len() ==> line_ok(#[trigger] ls[i])
}

/// Splitting inverts joining, for joinable lines ending in a nonempty one.
proof fn lemma_lines_of_join(s: Seq<char>, i: int, ls: Seq<Seq<char>>)
    requires
        0 <= i <= s.len(),
        s.skip(i) == spec_join(ls),
        lines_ok(ls),
        ls.len() > 0 ==> ls.last().len() > 0,
    ensures
        spec_lines_from(s, i) == ls,
    decreases ls.len(),
{
    if ls.len() == 0 {
        assert(s.skip(i) =~= Seq::<char>::empty());
        assert(i == s.len());
        assert(spec_lines_from(s, i) =~= ls);
    } else if ls.len() == 1 {
        let l0 = ls[0];
        assert(spec_join(ls) == l0);
        assert(s.skip(i).len() == s.len() - i);
        assert(l0.len() > 0);
        assert(i < s.len());
        assert forall|j: int| i <= j < s.len() implies #[trigger] s[j] != '\n' by {
            assert(s.skip(i)[j - i] == s[j]);
            assert(l0[j - i] != '\n');
        }
        lemma_first_nl_value(s, i, s.len() as int);
        assert(s.subrange(i, s.len() as int) =~= l0) by {
            assert(forall|j: int| 0 <= j < l0.len() ==> s.skip(i)[j] == s[i + j]);
        }
        assert(spec_lines_from(s, i) =~= ls);
    } else {
        let l0 = ls[0];
        let rest = ls.drop_first();
        lemma_join_front(ls);
        assert(s.skip(i) == l0 + seq!['\n'] + spec_join(rest));
        let k = i + l0.len() as int;
        assert(s.skip(i).len() == s.len() - i);
        assert forall|j: int| i <= j < k implies #[trigger] s[j] != '\n' by {
            assert(s.skip(i)[j - i] == s[j]);
            assert((l0 + seq!['\n'] + spec_join(rest))[j - i] == l0[j - i]);
        }
        assert(s[k] == '\n') by {
            assert(s.skip(i)[k - i] == s[k]);
            assert((l0 + seq!['\n'] + spec_join(rest))[l0.len() as int] == '\n');
        }
        assert(k < s.len());
        lemma_first_nl_value(s, i, k);
        assert(s.subrange(i, k) =~= l0) by {
            assert(forall|j: int| 0 <= j < l0.len() ==> s.skip(i)[j] == s[i + j]);
            assert(forall|j: int|
                0 <= j < l0.len() ==> (l0 + seq!['\n'] + spec_join(rest))[j] == l0[j]);
        }
        assert(strip_cr(s.subrange(i, k)) == l0) by {
            if l0.len() > 0 {
                assert(l0.last() != '\r');
            }
        }
        assert(s.skip(k + 1) =~= spec_join(rest)) by {
            assert(s.skip(k + 1).len() == s.len() - k - 1);
            assert(s.skip(i).len() == s.len() - i);
            assert forall|j: int| 0 <= j < spec_join(rest).len() implies s.skip(k + 1)[j]
                == spec_join(rest)[j] by {
                assert(s.skip(k + 1)[j] == s[k + 1 + j]);
                assert(s.skip(i)[k + 1 + j - i] == s[i + (k + 1 + j - i)]);
                assert((l0 + seq!['\n'] + spec_join(rest))[l0.len() + 1 + j] == spec_join(
                    rest,
                )[j]);
            }
        }
        assert(lines_ok(rest)) by {
            assert(forall|j: int| 0 <= j < rest.len() ==> rest[j] == ls[j + 1]);
        }
        assert(rest.last() == ls.last());
        lemma_lines_of_join(s, k + 1, rest);
        assert(spec_lines_from(s, i) =~= seq![l0] + spec_lines_from(s, k + 1));
        assert(seq![l0] + rest =~= ls);
    }
}

/// The rendered tag text holds no newline.
proof fn lemma_render_tags_no_nl(ts: Seq<TagText>)
    requires
        forall|i: int| 0 <= i < ts.len() ==> serializable_tag(#[trigger] ts[i]),
    ensures
        forall|j: int| 0 <= j < render_tag_texts(ts).len() ==> #[trigger] render_tag_texts(ts)[j]
            != '\n',
    decreases ts.len(),
{
    if ts.len() > 0 {
        let pre = ts.drop_last();
        assert(forall|i: int| 0 <= i < pre.len() ==> pre[i] == ts[i]);
        lemma_render_tags_no_nl(pre);
        let t = ts.last();
        let r = render_tag_text(t);
        assert(serializable_tag(t));
        assert forall|j: int| 0 <= j < r.len() implies #[trigger] r[j] != '\n' by {
            match t.value {
                Some(v) => {
                    if 2 <= j < 2 + t.name.len() {
                        assert(r[j] == t.name[j - 2]);
                        assert(is_word_char(t.name[j - 2]));
                    } else if 3 + t.name.len() <= j < 3 + t.name.len() + v.len() {
                        assert(r[j] == v[j - 3 - t.name.len()]);
                    }
                },
                None => {
                    if 2 <= j < 2 + t.name.len() {
                        assert(r[j] == t.name[j - 2]);
                        assert(is_word_char(t.name[j - 2]));
                    }
                },
            }
        }
        assert(render_tag_texts(ts) == render_tag_texts(pre) + r);
        assert(forall|j: int|
            0 <= j < render_tag_texts(pre).len() ==> render_tag_texts(ts)[j] == render_tag_texts(
                pre,
            )[j]);
        assert(forall|j: int|
            render_tag_texts(pre).len() <= j < render_tag_texts(ts).len() ==> render_tag_texts(
                ts,
            )[j] == r[j - render_tag_texts(pre).len()]);
    }
}

/// Every line of a serializable entry's block is fit for joining, nonempty,
/// and free of newlines.
proof fn lemma_entry_lines_ok(e: EntryView)
    requires
        serializable_entry(e),
    ensures
        lines_ok(entry_lines(e)),
        forall|i: int| 0 <= i < entry_lines(e).len() ==> (#[trigger] entry_lines(e)[i]).len() > 0,
{
    let l = render_task_line(e);
    let ts = spec_render_timestamp(e.timestamp);
    let tr = render_tag_texts(e.tags);
    let dlen = e.description.len() as int;
    let trlen = tr.len() as int;
    let n = l.len() as int;
    lemma_render_ts_shape(e.timestamp);
    lemma_render_tags_no_nl(e.tags);
    assert(n == 22 + dlen + trlen + 39) by {
        assert(ts.len() == 16);
    }
    assert(line_ok(l)) by {
        assert(l.last() == '>');
        assert forall|j: int| 0 <= j < n implies #[trigger] l[j] != '\n' by {
            assert(ts.len() == 16);
            if 3 <= j < 19 {
                assert(l[j] == ts[j - 3]);
                assert(is_timestamp_shape(ts));
                if j == 7 || j == 13 + 3 - 3 {
                }
                assert(ts[j - 3] != '\n') by {
                    let c = ts[j - 3];
                    if j - 3 == 4 || j - 3 == 7 {
                        assert(c == '-');
                    } else if j - 3 == 10 {
                        assert(c == ' ');
                    } else if j - 3 == 13 {
                        assert(c == ':');
                    } else {
                        assert(is_digit(c));
                    }
                }
            } else if 22 <= j < 22 + dlen {
                assert(l[j] == e.description[j - 22]);
            } else if 22 + dlen <= j < 22 + dlen + trlen {
                assert(l[j] == tr[j - 22 - dlen]);
            } else if 22 + dlen + trlen + 2 <= j < n - 1 {
                assert(l[j] == e.id[j - 24 - dlen - trlen]);
                assert(is_id(e.id));
                let k = j - 24 - dlen - trlen;
                assert(if is_hyphen_pos(k) {
                    e.id[k] == '-'
                } else {
                    is_hex_char(e.id[k])
                });
            }
        }
    }
    match e.note {
        Some(nt) => {
            let nls = spec_lines(nt);
            assert forall|i: int|
                0 <= i < entry_lines(e).len() implies line_ok(#[trigger] entry_lines(e)[i])
                && entry_lines(e)[i].len() > 0 by {
                if i == 0 {
                    assert(entry_lines(e)[0] == l);
                } else {
                    assert(entry_lines(e)[i] == indent_line(nls[i - 1]));
                    let x = nls[i - 1];
                    assert(forall|j: int| 0 <= j < x.len() ==> #[trigger] x[j] != '\n');
                    assert(x.len() > 0 ==> !is_space(x.last()));
                    if x.len() > 0 {
                        assert(indent_line(x).last() == x.last());
                        assert(x.last() != '\r');
                    } else {
                        assert(indent_line(x).last() == ' ');
                    }
                    assert(forall|j: int|
                        2 <= j < indent_line(x).len() ==> #[trigger] indent_line(x)[j] == x[j
                            - 2]);
                }
            }
        },
        None => {
            assert(entry_lines(e) =~= seq![l]);
        },
    }
}

/// Every line of a serializable section's block is fit for joining and
/// nonempty.
proof fn lemma_section_lines_ok(s: SectionView)
    requires
        serializable_section(s),
    ensures
        lines_ok(section_lines(s)),
        section_lines(s).len() > 0,
        forall|i: int| 0 <= i < section_lines(s).len() ==> (#[trigger] section_lines(s)[i]).len()
            > 0,
{
    let header = s.name + seq![':'];
    assert(line_ok(header)) by {
        assert(header.last() == ':');
        assert(forall|j: int| 0 <= j < s.name.len() ==> header[j] == s.name[j]);
    }
    let blocks = s.entries.map(|i: int, e: EntryView| entry_lines(e));
    lemma_concat_ok(blocks, s);
    let body = concat_lines(blocks);
    assert forall|i: int|
        0 <= i < section_lines(s).len() implies line_ok(#[trigger] section_lines(s)[i])
        && section_lines(s)[i].len() > 0 by {
        if i == 0 {
            assert(section_lines(s)[0] == header);
        } else {
            assert(section_lines(s)[i] == body[i - 1]);
        }
    }
}

/// Concatenating the entry blocks keeps every line fit and nonempty.
proof fn lemma_concat_ok(blocks: Seq<Seq<Seq<char>>>, s: SectionView)
    requires
        serializable_section(s),
        blocks.len() <= s.entries.len(),
        forall|i: int| 0 <= i < blocks.len() ==> #[trigger] blocks[i] == entry_lines(s.entries[i]),
    ensures
        forall|i: int|
            0 <= i < concat_lines(blocks).len() ==> line_ok(#[trigger] concat_lines(blocks)[i])
                && concat_lines(blocks)[i].len() > 0,
    decreases blocks.len(),
{
    if blocks.len() > 0 {
        let pre = blocks.drop_last();
        assert(forall|i: int| 0 <= i < pre.len() ==> pre[i] == blocks[i]);
        lemma_concat_ok(pre, s);
        let e = s.entries[blocks.len() - 1];
        assert(serializable_entry(e));
        lemma_entry_lines_ok(e);
        let last = blocks.last();
        assert(last == entry_lines(e));
        assert(concat_lines(blocks) == concat_lines(pre) + last);
        assert(forall|i: int|
            0 <= i < concat_lines(pre).len() ==> concat_lines(blocks)[i] == concat_lines(pre)[i]);
        assert(forall|i: int|
            concat_lines(pre).len() <= i < concat_lines(blocks).len() ==> concat_lines(blocks)[i]
                == last[i - concat_lines(pre).len()]);
    }
}

/// Every line of the whole file is fit for joining, and the last one is
/// nonempty.
proof fn lemma_file_lines_ok(ss: Seq<SectionView>)
    requires
        forall|i: int| 0 <= i < ss.len() ==> serializable_section(#[trigger] ss[i]),
    ensures
        lines_ok(file_lines(ss)),
        ss.len() > 0 ==> file_lines(ss).len() > 0 && file_lines(ss).last().len() > 0,
    decreases ss.len(),
{
    if ss.len() == 1 {
        lemma_section_lines_ok(ss[0]);
    } else if ss.len() > 1 {
        let pre = ss.drop_last();
        assert(forall|i: int| 0 <= i < pre.len() ==> pre[i] == ss[i]);
        lemma_file_lines_ok(pre);
        lemma_section_lines_ok(ss.last());
        let fl = file_lines(ss);
        let a = file_lines(pre);
        let b = section_lines(ss.last());
        assert(fl == a + seq![Seq::<char>::empty()] + b);
        assert forall|i: int| 0 <= i < fl.len() implies line_ok(#[trigger] fl[i]) by {
            if i < a.len() {
                assert(fl[i] == a[i]);
            } else if i == a.len() {
                assert(fl[i] =~= Seq::<char>::empty());
            } else {
                assert(fl[i] == b[i - a.len() - 1]);
            }
        }
        assert(fl.last() == b.last());
    }
}

/// Parsing inverts serialization: a serializable container read back from
/// its own rendering is itself.
pub proof fn lemma_parse_round_trip(ss: Seq<SectionView>)
    requires
        serializable(ss),
    ensures
        spec_parse(spec_serialize(ss)) == ss,
{
    let text = spec_serialize(ss);
    lemma_file_lines_ok(ss);
    assert(text.skip(0) =~= text);
    lemma_lines_of_join(text, 0, file_lines(ss));
    assert(spec_lines(text) == file_lines(ss));
    lemma_run_file(ss);
    let st = ParseState {
        sections: pending_sections(ss),
        cur_section: ss.last().name,
        cur_entry: open_entry(ss.last()),
    };
    if ss.last().entries.len() == 0 {
        assert(flush_state(st).sections == ss);
    } else {
        let e = ss.last().entries.last();
        let psec = pending_sections(ss);
        assert(e.section == ss.last().name);
        assert(forall|j: int|
            0 <= j < psec.len() - 1 ==> (#[trigger] psec[j]).name != e.section) by {
            assert(forall|j: int| 0 <= j < ss.len() - 1 ==> psec[j] == ss[j]);
            assert(forall|j: int|
                0 <= j < ss.len() - 1 ==> (#[trigger] ss[j]).name != ss[ss.len() - 1].name);
        }
        lemma_sec_index_last(psec, e.section);
        assert(flush_state(st).sections == psec.update(
            psec.len() - 1,
            SectionView { name: e.section, entries: psec.last().entries.push(e) },
        ));
        assert(ss.last().entries.drop_last().push(e) =~= ss.last().entries);
        assert(psec.update(
            psec.len() - 1,
            SectionView { name: ss.last().name, entries: ss.last().entries },
        ) =~~= ss);
    }
}

/// Re-serializing what was parsed from a rendering yields the same text:
/// serialization is idempotent across a parse.
pub proof fn lemma_serialize_idempotent(ss: Seq<SectionView>)
    requires
        serializable(ss),
    ensures
        spec_serialize(spec_parse(spec_serialize(ss))) == spec_serialize(ss),
{
    lemma_parse_round_trip(ss);
}

} // verus!
