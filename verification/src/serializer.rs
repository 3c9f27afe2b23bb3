//! Rendering the model back to text.
//!
//! Every section, in stored order, becomes its header line followed by one
//! task line per entry (tags inlined, the id in angle brackets) and the
//! note's lines indented by two spaces; a single blank line separates
//! sections, and the text carries no trailing newline.

use vstd::prelude::*;
use crate::model::Entry;
use crate::container::{DoingFile, SectionEntries, EntryView, SectionView};
use crate::tags::{render_tag_texts, render_tags};
use crate::timetext::{spec_render_timestamp, render_timestamp_chars};
use crate::lines::{spec_lines, spec_join, line_views, split_lines, join_lines};
use crate::chars::{chars_to_string, string_chars};

verus! {

/// The task line of an entry: ` - <timestamp> | <description><tags> <id>`.
pub open spec fn render_task_line(e: EntryView) -> Seq<char> {
    seq![' ', '-', ' '] + spec_render_timestamp(e.timestamp) + seq![' ', '|', ' ']
        + e.description + render_tag_texts(e.tags) + seq![' ', '<'] + e.id + seq!['>']
}

/// A note line as it stands in the file: indented by two spaces.
pub open spec fn indent_line(l: Seq<char>) -> Seq<char> {
    seq![' ', ' '] + l
}

/// The note's lines, indented; none when there is no note.
pub open spec fn note_block_lines(note: Option<Seq<char>>) -> Seq<Seq<char>> {
    match note {
        Some(n) => spec_lines(n).map(|i: int, l: Seq<char>| indent_line(l)),
        None => Seq::empty(),
    }
}

/// All lines of one entry: its task line, then its note lines.
pub open spec fn entry_lines(e: EntryView) -> Seq<Seq<char>> {
    seq![render_task_line(e)] + note_block_lines(e.note)
}

/// Blocks of lines, concatenated.
pub open spec fn concat_lines(blocks: Seq<Seq<Seq<char>>>) -> Seq<Seq<char>>
    decreases blocks.len(),
{
    if blocks.len() == 0 {
        Seq::empty()
    } else {
        concat_lines(blocks.drop_last()) + blocks.last()
    }
}

/// All lines of one section: its header line, then its entries' lines.
pub open spec fn section_lines(s: SectionView) -> Seq<Seq<char>> {
    seq![s.name + seq![':']] + concat_lines(s.entries.map(|i: int, e: EntryView| entry_lines(e)))
}

/// All lines of the file: the sections' lines, one blank line between
/// consecutive sections.
pub open spec fn file_lines(ss: Seq<SectionView>) -> Seq<Seq<char>>
    decreases ss.len(),
{
    if ss.len() == 0 {
        Seq::empty()
    } else if ss.len() == 1 {
        section_lines(ss[0])
    } else {
        file_lines(ss.drop_last()) + seq![Seq::<char>::empty()] + section_lines(ss.last())
    }
}

/// The whole serialized text.
pub open spec fn spec_serialize(ss: Seq<SectionView>) -> Seq<char> {
    spec_join(file_lines(ss))
}

fn push_all(out: &mut Vec<char>, s: &[char])
    ensures
        final(out)@ == old(out)@ + s@,
{
    let mut i: usize = 0;
    while i < s.len()
        invariant
            i <= s@.len(),
            out@ =~= old(out)@ + s@.subrange(0, i as int),
        decreases s@.len() - i,
    {
        out.push(s[i]);
        assert(out@ =~= old(out)@ + s@.subrange(0, i + 1));
        i = i + 1;
    }
    assert(out@ =~= old(out)@ + s@);
}

/// Render the task line of an entry.
#[verifier::rlimit(60)]
pub fn render_task_line_chars(e: &Entry) -> (r: Vec<char>)
    requires
        e.timestamp.valid(),
    ensures
        r@ == render_task_line(e@),
{
    let mut out: Vec<char> = Vec::new();
    out.push(' ');
    out.push('-');
    out.push(' ');
    let ts = render_timestamp_chars(&e.timestamp);
    push_all(&mut out, ts.as_slice());
    out.push(' ');
    out.push('|');
    out.push(' ');
    let desc = string_chars(e.description.as_str());
    push_all(&mut out, desc.as_slice());
    let tags = render_tags(&e.tags);
    push_all(&mut out, tags.as_slice());
    out.push(' ');
    out.push('<');
    let id = string_chars(e.id.as_str());
    push_all(&mut out, id.as_slice());
    out.push('>');
    assert(out@ =~= render_task_line(e@));
    out
}

/// Render all lines of one entry.
pub fn entry_lines_chars(e: &Entry) -> (r: Vec<Vec<char>>)
    requires
        e.timestamp.valid(),
    ensures
        line_views(r@) == entry_lines(e@),
{
    let mut out: Vec<Vec<char>> = Vec::new();
    out.push(render_task_line_chars(e));
    match &e.note {
        Some(n) => {
            let nchars = string_chars(n.as_str());
            let nlines = split_lines(nchars.as_slice());
            let ghost spec_note = spec_lines(n@).map(|i: int, l: Seq<char>| indent_line(l));
            let m = nlines.len();
            let mut k: usize = 0;
            while k < m
                invariant
                    m == nlines@.len(),
                    k <= m,
                    line_views(nlines@) == spec_lines(n@),
                    spec_note == spec_lines(n@).map(|i: int, l: Seq<char>| indent_line(l)),
                    line_views(out@) =~= seq![render_task_line(e@)] + spec_note.take(k as int),
                decreases m - k,
            {
                let ghost before = line_views(out@);
                let mut line: Vec<char> = Vec::new();
                line.push(' ');
                line.push(' ');
                push_all(&mut line, nlines[k].as_slice());
                assert(line@ =~= indent_line(nlines@[k as int]@));
                assert(line@ == spec_note[k as int]);
                out.push(line);
                assert(line_views(out@) =~= before + seq![spec_note[k as int]]);
                assert(spec_note.take(k + 1) =~= spec_note.take(k as int) + seq![
                    spec_note[k as int],
                ]);
                k = k + 1;
            }
            assert(spec_note.take(m as int) =~= spec_note);
            assert(line_views(out@) =~= entry_lines(e@));
        },
        None => {
            assert(note_block_lines(e@.note) =~= Seq::<Seq<char>>::empty());
            assert(line_views(out@) =~= entry_lines(e@));
        },
    }
    out
}

fn push_lines(out: &mut Vec<Vec<char>>, mut ls: Vec<Vec<char>>)
    ensures
        line_views(final(out)@) == line_views(old(out)@) + line_views(ls@),
{
    let ghost orig = line_views(ls@);
    let n = ls.len();
    let mut k: usize = 0;
    while k < n
        invariant
            n == orig.len(),
            k <= n,
            ls@.len() == n - k,
            line_views(ls@) =~= orig.subrange(k as int, n as int),
            line_views(out@) =~= line_views(old(out)@) + orig.take(k as int),
        decreases n - k,
    {
        let ghost before = line_views(out@);
        let ghost lsv = ls@;
        let l = ls.remove(0);
        assert(l == lsv[0]);
        assert(line_views(lsv)[0] == lsv[0]@);
        assert(l@ == orig[k as int]);
        out.push(l);
        assert(line_views(out@) =~= before + seq![orig[k as int]]);
        assert(forall|j: int| 0 <= j < ls@.len() ==> ls@[j] == lsv[j + 1]);
        assert(forall|j: int| 0 <= j < ls@.len() ==> line_views(ls@)[j] == ls@[j]@ && line_views(
            lsv,
        )[j + 1] == lsv[j + 1]@);
        assert(line_views(ls@) =~= orig.subrange(k + 1, n as int));
        assert(orig.take(k + 1) =~= orig.take(k as int) + seq![orig[k as int]]);
        k = k + 1;
    }
    assert(orig.take(n as int) =~= orig);
    assert(line_views(out@) =~= line_views(old(out)@) + orig);
}

/// Render all lines of one section.
pub fn section_lines_chars(s: &SectionEntries) -> (r: Vec<Vec<char>>)
    requires
        forall|j: int| 0 <= j < s.entries@.len() ==> (#[trigger] s.entries@[j]).timestamp.valid(),
    ensures
        line_views(r@) == section_lines(s@),
{
    let mut out: Vec<Vec<char>> = Vec::new();
    let mut header: Vec<char> = Vec::new();
    let name_chars = string_chars(s.name.as_str());
    push_all(&mut header, name_chars.as_slice());
    header.push(':');
    assert(header@ =~= s@.name + seq![':']);
    out.push(header);
    let ghost blocks = s@.entries.map(|i: int, e: EntryView| entry_lines(e));
    let n = s.entries.len();
    let mut k: usize = 0;
    while k < n
        invariant
            n == s.entries@.len(),
            k <= n,
            blocks == s@.entries.map(|i: int, e: EntryView| entry_lines(e)),
            forall|j: int|
                0 <= j < s.entries@.len() ==> (#[trigger] s.entries@[j]).timestamp.valid(),
            line_views(out@) =~= seq![s@.name + seq![':']] + concat_lines(blocks.take(k as int)),
        decreases n - k,
    {
        let ghost before = line_views(out@);
        let els = entry_lines_chars(&s.entries[k]);
        assert(line_views(els@) == blocks[k as int]);
        push_lines(&mut out, els);
        proof {
            assert(blocks.take(k + 1).drop_last() =~= blocks.take(k as int));
            assert(blocks.take(k + 1).last() == blocks[k as int]);
            assert(line_views(out@) =~= before + blocks[k as int]);
        }
        k = k + 1;
    }
    assert(blocks.take(n as int) =~= blocks);
    assert(line_views(out@) =~= section_lines(s@));
    out
}

impl DoingFile {
    /// Render the whole log as text: sections in stored order, one blank
    /// line between them, no trailing newline.
    pub fn to_taskpaper(&self) -> (r: String)
        requires
            self.wf(),
        ensures
            r@ == spec_serialize(self@),
    {
        let mut out: Vec<Vec<char>> = Vec::new();
        let n = self.sections.len();
        let mut k: usize = 0;
        while k < n
            invariant
                n == self.sections@.len(),
                k <= n,
                self.wf(),
                line_views(out@) =~= file_lines(self@.take(k as int)),
            decreases n - k,
        {
            let ghost before = line_views(out@);
            if k > 0 {
                out.push(Vec::new());
            }
            assert(forall|j: int|
                0 <= j < self.sections@[k as int].entries@.len() ==> (#[trigger] self.sections@[
                k as int].entries@[j]).timestamp.valid()) by {
                assert(crate::container::sections_wf(self.sections@));
            }
            let sls = section_lines_chars(&self.sections[k]);
            push_lines(&mut out, sls);
            proof {
                let full = self@;
                assert(full.take(k + 1).drop_last() =~= full.take(k as int));
                assert(full.take(k + 1).last() == full[k as int]);
                if k == 0 {
                    assert(line_views(out@) =~= section_lines(full[0]));
                    assert(file_lines(full.take(1)) =~= section_lines(full.take(1)[0]));
                } else {
                    assert(line_views(out@) =~= before + seq![Seq::<char>::empty()]
                        + section_lines(full[k as int]));
                }
            }
            k = k + 1;
        }
        assert(self@.take(n as int) =~= self@);
        let joined = join_lines(&out);
        chars_to_string(joined.as_slice())
    }
}


impl Entry {
    /// Render this entry's file lines: the task line, then the indented
    /// note lines, joined by newlines.
    pub fn to_taskpaper(&self) -> (r: String)
        requires
            self.timestamp.valid(),
        ensures
            r@ == spec_join(entry_lines(self@)),
    {
        let ls = entry_lines_chars(self);
        let joined = join_lines(&ls);
        chars_to_string(joined.as_slice())
    }
}

} // verus!
