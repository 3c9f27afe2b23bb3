//! Operations on the log: lookups, edits and section management.
//!
//! Every edit addresses an entry by its id — never by field equality, since
//! two entries may share their text — and touches exactly the first
//! occurrence in stored order.  Section removal may archive the removed
//! entries, rewriting their section field so the container stays
//! consistent.

use vstd::prelude::*;
use crate::chars::str_eq;
use crate::container::{
    DoingFile, SectionEntries, EntryView, SectionView, sec_index, has_section, lemma_sec_index,
    entry_views,
};
use crate::model::{Entry, clone_entry, spec_has_tag, opt_view};
use crate::tags::tag_texts;
use crate::time::Timestamp;
use crate::parser::add_entry_view;

verus! {

/// Why an operation on the log failed.
#[derive(Clone, Debug)]
pub enum LogError {
    /// A section of this name already exists.
    SectionExists(String),
    /// No section of this name exists.
    SectionMissing(String),
    /// The default section cannot be removed.
    CannotRemoveDefault,
    /// No entry carries this id.
    EntryMissing(String),
}

impl LogError {
    /// A human-readable description of the failure.
    pub fn message(&self) -> (r: String)
        ensures
            self matches LogError::SectionExists(n) ==> r@ == "section already exists: "@ + n@,
            self matches LogError::SectionMissing(n) ==> r@ == "section does not exist: "@ + n@,
            self is CannotRemoveDefault ==> r@ == "cannot remove the default section"@,
            self matches LogError::EntryMissing(n) ==> r@ == "no entry with id: "@ + n@,
    {
        let mut s = String::new();
        match self {
            LogError::SectionExists(n) => {
                s.append("section already exists: ");
                s.append(n.as_str());
            },
            LogError::SectionMissing(n) => {
                s.append("section does not exist: ");
                s.append(n.as_str());
            },
            LogError::CannotRemoveDefault => {
                s.append("cannot remove the default section");
            },
            LogError::EntryMissing(n) => {
                s.append("no entry with id: ");
                s.append(n.as_str());
            },
        }
        s
    }
}

/// The first index in `es` whose entry carries `id`, or -1.
pub open spec fn entry_index(es: Seq<EntryView>, id: Seq<char>) -> int
    decreases es.len(),
{
    if es.len() == 0 {
        -1
    } else if es[0].id == id {
        0
    } else {
        let r = entry_index(es.drop_first(), id);
        if r < 0 {
            -1
        } else {
            r + 1
        }
    }
}

pub proof fn lemma_entry_index(es: Seq<EntryView>, id: Seq<char>)
    ensures
        entry_index(es, id) >= 0 ==> {
            &&& entry_index(es, id) < es.len()
            &&& es[entry_index(es, id)].id == id
            &&& forall|j: int| 0 <= j < entry_index(es, id) ==> (#[trigger] es[j]).id != id
        },
        entry_index(es, id) < 0 ==> (forall|j: int| 0 <= j < es.len() ==> (#[trigger] es[j]).id
            != id),
    decreases es.len(),
{
    if es.len() > 0 && es[0].id != id {
        let tail = es.drop_first();
        lemma_entry_index(tail, id);
        assert(forall|j: int| 0 <= j < tail.len() ==> tail[j] == es[j + 1]);
        let r = entry_index(tail, id);
        if r >= 0 {
            assert(tail[r] == es[r + 1]);
            assert forall|j: int| 0 <= j < r + 1 implies (#[trigger] es[j]).id != id by {
                if j >= 1 {
                    assert(tail[j - 1] == es[j]);
                }
            }
        } else {
            assert forall|j: int| 0 <= j < es.len() implies (#[trigger] es[j]).id != id by {
                if j >= 1 {
                    assert(tail[j - 1] == es[j]);
                }
            }
        }
    }
}

/// The position of the first entry carrying `id`, in stored order: the
/// first section that holds it, and the first index within that section.
pub open spec fn find_pos(ss: Seq<SectionView>, id: Seq<char>) -> Option<(int, int)>
    decreases ss.len(),
{
    if ss.len() == 0 {
        None
    } else {
        let j = entry_index(ss[0].entries, id);
        if j >= 0 {
            Some((0, j))
        } else {
            match find_pos(ss.drop_first(), id) {
                Some((i2, j2)) => Some((i2 + 1, j2)),
                None => None,
            }
        }
    }
}

/// Whether some entry of the log carries `id`.
pub open spec fn has_id(ss: Seq<SectionView>, id: Seq<char>) -> bool {
    find_pos(ss, id) is Some
}

pub proof fn lemma_find_pos(ss: Seq<SectionView>, id: Seq<char>)
    ensures
        find_pos(ss, id) matches Some((i, j)) ==> {
            &&& 0 <= i < ss.len()
            &&& 0 <= j < ss[i].entries.len()
            &&& ss[i].entries[j].id == id
        },
        find_pos(ss, id) is None ==> (forall|i: int, j: int|
            0 <= i < ss.len() && 0 <= j < ss[i].entries.len() ==> (#[trigger] ss[i].entries[j]).id
                != id),
    decreases ss.len(),
{
    if ss.len() > 0 {
        lemma_entry_index(ss[0].entries, id);
        let tail = ss.drop_first();
        lemma_find_pos(tail, id);
        assert(forall|k: int| 0 <= k < tail.len() ==> tail[k] == ss[k + 1]);
        if entry_index(ss[0].entries, id) < 0 && find_pos(tail, id) is None {
            assert forall|i: int, j: int|
                0 <= i < ss.len() && 0 <= j < ss[i].entries.len() implies (
            #[trigger] ss[i].entries[j]).id != id by {
                if i >= 1 {
                    assert(tail[i - 1] == ss[i]);
                }
            }
        }
    }
}

fn entry_pos_in(es: &Vec<Entry>, id: &str) -> (r: Option<usize>)
    ensures
        r matches Some(j) ==> entry_index(entry_views(es@), id@) == j as int && j < es@.len(),
        r is None ==> entry_index(entry_views(es@), id@) < 0,
{
    let n = es.len();
    let mut j: usize = 0;
    while j < n
        invariant
            n == es@.len(),
            j <= n,
            forall|k: int| 0 <= k < j ==> (#[trigger] entry_views(es@)[k]).id != id@,
        decreases n - j,
    {
        assert(entry_views(es@)[j as int].id == es@[j as int].id@);
        if str_eq(es[j].id.as_str(), id) {
            proof {
                lemma_entry_index_prefix(entry_views(es@), id@, j as int);
            }
            return Some(j);
        }
        j = j + 1;
    }
    proof {
        lemma_entry_index(entry_views(es@), id@);
        if entry_index(entry_views(es@), id@) >= 0 {
            assert(false);
        }
    }
    None
}

proof fn lemma_entry_index_prefix(es: Seq<EntryView>, id: Seq<char>, i: int)
    requires
        0 <= i < es.len(),
        es[i].id == id,
        forall|j: int| 0 <= j < i ==> (#[trigger] es[j]).id != id,
    ensures
        entry_index(es, id) == i,
    decreases i,
{
    if i > 0 {
        assert(es.drop_first()[i - 1].id == id);
        assert(forall|j: int| 0 <= j < i - 1 ==> es.drop_first()[j] == es[j + 1]);
        lemma_entry_index_prefix(es.drop_first(), id, i - 1);
    }
}

impl DoingFile {
    /// Find the first entry carrying `id`: its section index and its index
    /// within that section.
    pub fn find_entry(&self, id: &str) -> (r: Option<(usize, usize)>)
        ensures
            r matches Some((i, j)) ==> find_pos(self@, id@) == Some((i as int, j as int)) && i
                < self@.len() && j < self@[i as int].entries.len(),
            r is None ==> find_pos(self@, id@) is None,
    {
        let n = self.sections.len();
        let mut i: usize = 0;
        while i < n
            invariant
                n == self.sections@.len(),
                i <= n,
                forall|k: int| 0 <= k < i ==> entry_index((#[trigger] self@[k]).entries, id@) < 0,
            decreases n - i,
        {
            match entry_pos_in(&self.sections[i].entries, id) {
                Some(j) => {
                    proof {
                        lemma_find_pos_prefix(self@, id@, i as int, j as int);
                    }
                    return Some((i, j));
                },
                None => {},
            }
            i = i + 1;
        }
        proof {
            lemma_find_pos_none(self@, id@);
        }
        None
    }

    /// A copy of the first entry carrying `id`.
    pub fn get_entry_by_id(&self, id: &str) -> (r: Option<Entry>)
        ensures
            r is Some <==> has_id(self@, id@),
            r matches Some(e) ==> (find_pos(self@, id@) matches Some((i, j)) && e@ == self@[
                i
            ].entries[j]),
    {
        match self.find_entry(id) {
            Some((i, j)) => {
                let e = clone_entry(&self.sections[i].entries[j]);
                assert(e@ =~~= self@[i as int].entries[j as int]);
                Some(e)
            },
            None => None,
        }
    }
}

proof fn lemma_find_pos_prefix(ss: Seq<SectionView>, id: Seq<char>, i: int, j: int)
    requires
        0 <= i < ss.len(),
        entry_index(ss[i].entries, id) == j,
        j >= 0,
        forall|k: int| 0 <= k < i ==> entry_index((#[trigger] ss[k]).entries, id) < 0,
    ensures
        find_pos(ss, id) == Some((i, j)),
    decreases i,
{
    if i > 0 {
        assert(ss.drop_first()[i - 1] == ss[i]);
        assert(forall|k: int| 0 <= k < i - 1 ==> ss.drop_first()[k] == ss[k + 1]);
        lemma_find_pos_prefix(ss.drop_first(), id, i - 1, j);
    }
}

proof fn lemma_find_pos_none(ss: Seq<SectionView>, id: Seq<char>)
    requires
        forall|k: int| 0 <= k < ss.len() ==> entry_index((#[trigger] ss[k]).entries, id) < 0,
    ensures
        find_pos(ss, id) is None,
    decreases ss.len(),
{
    if ss.len() > 0 {
        assert(forall|k: int| 0 <= k < ss.len() - 1 ==> ss.drop_first()[k] == ss[k + 1]);
        lemma_find_pos_none(ss.drop_first(), id);
    }
}



/// A completion tag in view form: named `done`, valued with some valid
/// timestamp rendered at minute precision.
pub open spec fn is_done_stamp_text(t: crate::tags::TagText) -> bool {
    &&& t.name == "done"@
    &&& t.value matches Some(v) && (exists|ts: Timestamp|
        (#[trigger] ts.valid()) && v == crate::timetext::spec_render_timestamp(ts))
}

impl DoingFile {
    /// Replace the entry at a known position.
    pub fn replace_entry_at(&mut self, i: usize, j: usize, e: Entry)
        requires
            old(self).wf(),
            i < old(self)@.len(),
            j < old(self)@[i as int].entries.len(),
            e.wf(),
            e.section@ == old(self)@[i as int].name,
        ensures
            final(self).wf(),
            final(self)@ =~~= old(self)@.update(
                i as int,
                SectionView {
                    name: old(self)@[i as int].name,
                    entries: old(self)@[i as int].entries.update(j as int, e@),
                },
            ),
    {
        let ghost before = self@;
        let mut sec = self.sections.remove(i);
        let ghost sec_before = sec@;
        sec.entries.set(j, e);
        assert(sec@.entries =~= sec_before.entries.update(j as int, e@)) by {
            assert(forall|k: int|
                0 <= k < sec.entries@.len() ==> entry_views(sec.entries@)[k] == sec.entries@[k]@);
        }
        self.sections.insert(i, sec);
        assert(self@ =~~= before.update(
            i as int,
            SectionView {
                name: before[i as int].name,
                entries: before[i as int].entries.update(j as int, e@),
            },
        )) by {
            assert(forall|k: int|
                0 <= k < self.sections@.len() ==> self@[k] == self.sections@[k]@);
        }
        assert(final(self).wf()) by {
            assert(crate::container::section_names_unique(self@)) by {
                assert(forall|k: int| 0 <= k < self@.len() ==> self@[k].name == before[k].name);
            }
            assert(crate::container::sections_wf(self.sections@)) by {
                assert(forall|a: int, b: int|
                    0 <= a < self.sections@.len() && 0 <= b < self.sections@[a].entries@.len() && !(
                    a == i as int && b == j as int) ==> #[trigger] self.sections@[a].entries@[b]
                        == old(self).sections@[a].entries@[b]);
                assert(self.sections@[i as int].entries@[j as int] == e);
                assert(forall|a: int|
                    0 <= a < self.sections@.len() ==> (#[trigger] self.sections@[a]).name == old(
                        self,
                    ).sections@[a].name);
            }
        }
    }

    /// Toggle the `done` state of the first entry carrying `id`: remove the
    /// tag when present, else set it valued with the current time.  Yields
    /// a copy of the updated entry, or the id when no entry carries it.
    pub fn toggle_done_by_uuid(&mut self, id: &str) -> (r: Result<Entry, LogError>)
        requires
            old(self).wf(),
        ensures
            final(self).wf(),
            r is Ok <==> has_id(old(self)@, id@),
            !has_id(old(self)@, id@) ==> final(self)@ == old(self)@,
            r matches Ok(e) ==> {
                &&& find_pos(old(self)@, id@) matches Some((i, j))
                &&& e@ == final(self)@[i].entries[j]
                &&& e@.description == old(self)@[i].entries[j].description
                &&& e@.timestamp == old(self)@[i].entries[j].timestamp
                &&& e@.section == old(self)@[i].entries[j].section
                &&& e@.note == old(self)@[i].entries[j].note
                &&& e@.id == old(self)@[i].entries[j].id
                &&& e.id@ == id@
                &&& spec_has_tag(e.tags@, "done"@) == !(exists|k: int|
                    0 <= k < old(self)@[i].entries[j].tags.len()
                        && (#[trigger] old(self)@[i].entries[j].tags[k]).name == "done"@)
                &&& ((exists|k: int|
                    0 <= k < old(self)@[i].entries[j].tags.len() && (#[trigger] old(
                        self,
                    )@[i].entries[j].tags[k]).name == "done"@ && (e@.tags =~= old(
                        self,
                    )@[i].entries[j].tags.remove(k))) || ((!exists|k: int|
                    0 <= k < old(self)@[i].entries[j].tags.len() && (#[trigger] old(
                        self,
                    )@[i].entries[j].tags[k]).name == "done"@) && (exists|t: crate::tags::TagText|
                    (#[trigger] is_done_stamp_text(t)) && (e@.tags =~= old(
                        self,
                    )@[i].entries[j].tags.push(t)))))
                &&& final(self)@ =~~= old(self)@.update(
                    i,
                    SectionView {
                        name: old(self)@[i].name,
                        entries: old(self)@[i].entries.update(j, e@),
                    },
                )
            },
    {
        proof {
            lemma_find_pos(self@, id@);
        }
        match self.find_entry(id) {
            Some((i, j)) => {
                let ghost before = self@;
                let mut e = clone_entry(&self.sections[i].entries[j]);
                assert(e@ =~~= before[i as int].entries[j as int]);
                assert(e.wf() && e.section@ == before[i as int].name) by {
                    assert(crate::container::sections_wf(self.sections@));
                    assert(self.sections@[i as int].entries@[j as int].wf());
                }
                let ghost old_tags = e.tags@;
                let was_done = e.is_done();
                if was_done {
                    e.remove_tag("done");
                } else {
                    e.mark_done();
                }
                proof {
                    assert(spec_has_tag(e.tags@, "done"@) == !was_done);
                    let ev = before[i as int].entries[j as int];
                    assert(ev.tags == tag_texts(old_tags));
                    assert((exists|k: int|
                        0 <= k < ev.tags.len() && (#[trigger] ev.tags[k]).name == "done"@)
                        == was_done) by {
                        if was_done {
                            let w = choose|k: int|
                                0 <= k < old_tags.len() && old_tags[k].name@ == "done"@;
                            assert(tag_texts(old_tags)[w].name == "done"@);
                        }
                        if exists|k: int|
                            0 <= k < ev.tags.len() && (#[trigger] ev.tags[k]).name == "done"@ {
                            let w = choose|k: int|
                                0 <= k < ev.tags.len() && (#[trigger] ev.tags[k]).name
                                    == "done"@;
                            assert(old_tags[w].name@ == "done"@);
                        }
                    }
                    if was_done {
                        let k = choose|k: int|
                            0 <= k < old_tags.len() && old_tags[k].name@ == "done"@ && (e.tags@
                                =~= old_tags.remove(k));
                        assert(ev.tags[k].name == "done"@);
                        assert(tag_texts(e.tags@) =~= ev.tags.remove(k)) by {
                            assert(forall|q: int|
                                0 <= q < e.tags@.len() ==> #[trigger] tag_texts(e.tags@)[q]
                                    == crate::tags::text_of(e.tags@[q]));
                            assert(forall|q: int|
                                0 <= q < e.tags@.len() ==> e.tags@[q] == (if q < k {
                                    old_tags[q]
                                } else {
                                    old_tags[q + 1]
                                }));
                        }
                        assert(exists|k2: int|
                            0 <= k2 < ev.tags.len() && (#[trigger] ev.tags[k2]).name == "done"@
                                && (tag_texts(e.tags@) =~= ev.tags.remove(k2)));
                    } else {
                        let t = choose|t: crate::model::Tag|
                            crate::model::is_done_stamp(t) && ((exists|q: int|
                                0 <= q < old_tags.len() && old_tags[q].name@ == "done"@ && (e.tags@
                                    =~= old_tags.update(q, t))) || (!spec_has_tag(
                                old_tags,
                                "done"@,
                            ) && (e.tags@ =~= old_tags.push(t))));
                        if exists|q: int|
                            0 <= q < old_tags.len() && (#[trigger] old_tags[q]).name@
                                == "done"@ {
                            let w = choose|q: int|
                                0 <= q < old_tags.len() && (#[trigger] old_tags[q]).name@
                                    == "done"@;
                            assert(spec_has_tag(old_tags, "done"@));
                            assert(false);
                        }
                        assert(e.tags@ =~= old_tags.push(t));
                        let tt = crate::tags::text_of(t);
                        assert(is_done_stamp_text(tt));
                        assert(tag_texts(e.tags@) =~= ev.tags.push(tt)) by {
                            assert(forall|q: int|
                                0 <= q < e.tags@.len() ==> #[trigger] tag_texts(e.tags@)[q]
                                    == crate::tags::text_of(e.tags@[q]));
                            assert(forall|q: int|
                                0 <= q < old_tags.len() ==> e.tags@[q] == old_tags[q]);
                            assert(e.tags@[old_tags.len() as int] == t);
                        }
                        assert(exists|t2: crate::tags::TagText|
                            (#[trigger] is_done_stamp_text(t2)) && (tag_texts(e.tags@) =~= ev.tags.push(
                                t2,
                            )));
                    }
                }
                let out = clone_entry(&e);
                assert(out@ =~~= e@);
                self.replace_entry_at(i, j, e);
                Ok(out)
            },
            None => {
                let mut m = String::new();
                m.append(id);
                Err(LogError::EntryMissing(m))
            },
        }
    }
}



impl DoingFile {
    /// Rewrite the description of the first entry carrying `id`.
    pub fn update_entry_description(&mut self, id: &str, new_description: String) -> (r: Result<
        Entry,
        LogError,
    >)
        requires
            old(self).wf(),
        ensures
            final(self).wf(),
            r is Ok <==> has_id(old(self)@, id@),
            !has_id(old(self)@, id@) ==> final(self)@ == old(self)@,
            r matches Ok(e) ==> {
                &&& find_pos(old(self)@, id@) matches Some((i, j))
                &&& e@ == (EntryView {
                    description: new_description@,
                    ..old(self)@[i].entries[j]
                })
                &&& final(self)@ =~~= old(self)@.update(
                    i,
                    SectionView {
                        name: old(self)@[i].name,
                        entries: old(self)@[i].entries.update(j, e@),
                    },
                )
            },
    {
        proof {
            lemma_find_pos(self@, id@);
        }
        match self.find_entry(id) {
            Some((i, j)) => {
                let ghost before = self@;
                let mut e = clone_entry(&self.sections[i].entries[j]);
                assert(e@ =~~= before[i as int].entries[j as int]);
                assert(e.wf() && e.section@ == before[i as int].name) by {
                    assert(crate::container::sections_wf(self.sections@));
                    assert(self.sections@[i as int].entries@[j as int].wf());
                }
                e.description = new_description;
                let out = clone_entry(&e);
                assert(out@ =~~= e@);
                self.replace_entry_at(i, j, e);
                Ok(out)
            },
            None => {
                let mut m = String::new();
                m.append(id);
                Err(LogError::EntryMissing(m))
            },
        }
    }

    /// Rewrite (or clear) the note of the first entry carrying `id`.
    pub fn update_entry_note(&mut self, id: &str, new_note: Option<String>) -> (r: Result<
        Entry,
        LogError,
    >)
        requires
            old(self).wf(),
        ensures
            final(self).wf(),
            r is Ok <==> has_id(old(self)@, id@),
            !has_id(old(self)@, id@) ==> final(self)@ == old(self)@,
            r matches Ok(e) ==> {
                &&& find_pos(old(self)@, id@) matches Some((i, j))
                &&& e@ == (EntryView { note: opt_view(new_note), ..old(self)@[i].entries[j] })
                &&& final(self)@ =~~= old(self)@.update(
                    i,
                    SectionView {
                        name: old(self)@[i].name,
                        entries: old(self)@[i].entries.update(j, e@),
                    },
                )
            },
    {
        proof {
            lemma_find_pos(self@, id@);
        }
        match self.find_entry(id) {
            Some((i, j)) => {
                let ghost before = self@;
                let mut e = clone_entry(&self.sections[i].entries[j]);
                assert(e@ =~~= before[i as int].entries[j as int]);
                assert(e.wf() && e.section@ == before[i as int].name) by {
                    assert(crate::container::sections_wf(self.sections@));
                    assert(self.sections@[i as int].entries@[j as int].wf());
                }
                e.note = new_note;
                let out = clone_entry(&e);
                assert(out@ =~~= e@);
                self.replace_entry_at(i, j, e);
                Ok(out)
            },
            None => {
                let mut m = String::new();
                m.append(id);
                Err(LogError::EntryMissing(m))
            },
        }
    }

    /// Set a tag on the first entry carrying `id`; an existing tag of that
    /// name is overwritten.
    pub fn set_tag_by_id(&mut self, id: &str, name: String, value: Option<String>) -> (r: Result<
        Entry,
        LogError,
    >)
        requires
            old(self).wf(),
        ensures
            final(self).wf(),
            r is Ok <==> has_id(old(self)@, id@),
            !has_id(old(self)@, id@) ==> final(self)@ == old(self)@,
            r matches Ok(e) ==> {
                &&& find_pos(old(self)@, id@) matches Some((i, j))
                &&& spec_has_tag(e.tags@, name@)
                &&& e@.description == old(self)@[i].entries[j].description
                &&& e@.timestamp == old(self)@[i].entries[j].timestamp
                &&& e@.note == old(self)@[i].entries[j].note
                &&& e@.id == old(self)@[i].entries[j].id
                &&& final(self)@ =~~= old(self)@.update(
                    i,
                    SectionView {
                        name: old(self)@[i].name,
                        entries: old(self)@[i].entries.update(j, e@),
                    },
                )
            },
    {
        proof {
            lemma_find_pos(self@, id@);
        }
        match self.find_entry(id) {
            Some((i, j)) => {
                let ghost before = self@;
                let mut e = clone_entry(&self.sections[i].entries[j]);
                assert(e@ =~~= before[i as int].entries[j as int]);
                assert(e.wf() && e.section@ == before[i as int].name) by {
                    assert(crate::container::sections_wf(self.sections@));
                    assert(self.sections@[i as int].entries@[j as int].wf());
                }
                e.insert_tag(name, value);
                let out = clone_entry(&e);
                assert(out@ =~~= e@);
                self.replace_entry_at(i, j, e);
                Ok(out)
            },
            None => {
                let mut m = String::new();
                m.append(id);
                Err(LogError::EntryMissing(m))
            },
        }
    }

    /// Remove a tag from the first entry carrying `id`.
    pub fn remove_tag_by_id(&mut self, id: &str, name: &str) -> (r: Result<Entry, LogError>)
        requires
            old(self).wf(),
        ensures
            final(self).wf(),
            r is Ok <==> has_id(old(self)@, id@),
            !has_id(old(self)@, id@) ==> final(self)@ == old(self)@,
            r matches Ok(e) ==> {
                &&& find_pos(old(self)@, id@) matches Some((i, j))
                &&& !spec_has_tag(e.tags@, name@)
                &&& e@.description == old(self)@[i].entries[j].description
                &&& e@.timestamp == old(self)@[i].entries[j].timestamp
                &&& e@.note == old(self)@[i].entries[j].note
                &&& e@.id == old(self)@[i].entries[j].id
                &&& final(self)@ =~~= old(self)@.update(
                    i,
                    SectionView {
                        name: old(self)@[i].name,
                        entries: old(self)@[i].entries.update(j, e@),
                    },
                )
            },
    {
        proof {
            lemma_find_pos(self@, id@);
        }
        match self.find_entry(id) {
            Some((i, j)) => {
                let ghost before = self@;
                let mut e = clone_entry(&self.sections[i].entries[j]);
                assert(e@ =~~= before[i as int].entries[j as int]);
                assert(e.wf() && e.section@ == before[i as int].name) by {
                    assert(crate::container::sections_wf(self.sections@));
                    assert(self.sections@[i as int].entries@[j as int].wf());
                }
                e.remove_tag(name);
                let out = clone_entry(&e);
                assert(out@ =~~= e@);
                self.replace_entry_at(i, j, e);
                Ok(out)
            },
            None => {
                let mut m = String::new();
                m.append(id);
                Err(LogError::EntryMissing(m))
            },
        }
    }

    /// Delete every entry carrying `id` from the first section that holds
    /// one; other sections stay untouched.
    pub fn delete_by_uuid(&mut self, id: &str) -> (r: Result<(), LogError>)
        requires
            old(self).wf(),
        ensures
            final(self).wf(),
            r is Ok <==> has_id(old(self)@, id@),
            !has_id(old(self)@, id@) ==> final(self)@ == old(self)@,
            r is Ok ==> (find_pos(old(self)@, id@) matches Some((i, j)) && final(self)@
                =~~= old(self)@.update(
                i,
                SectionView {
                    name: old(self)@[i].name,
                    entries: old(self)@[i].entries.filter(|e: EntryView| e.id != id@),
                },
            )),
    {
        proof {
            lemma_find_pos(self@, id@);
        }
        match self.find_entry(id) {
            Some((i, j)) => {
                let ghost before = self@;
                assert(crate::container::sections_wf(self.sections@));
                let mut sec = self.sections.remove(i);
                let ghost secname = before[i as int].name;
                let ghost old_entries = sec.entries@;
                assert(forall|b: int|
                    0 <= b < old_entries.len() ==> (#[trigger] old_entries[b]).wf()
                        && old_entries[b].section@ == secname);
                let ghost pred = |e: EntryView| e.id != id@;
                let mut kept: Vec<Entry> = Vec::new();
                let n = sec.entries.len();
                let mut k: usize = 0;
                while k < n
                    invariant
                        n == old_entries.len(),
                        k <= n,
                        sec.entries@ =~= old_entries,
                        pred == (|e: EntryView| e.id != id@),
                        entry_views(kept@) =~= entry_views(old_entries).take(k as int).filter(
                            pred,
                        ),
                        forall|b: int|
                            0 <= b < old_entries.len() ==> (#[trigger] old_entries[b]).wf()
                                && old_entries[b].section@ == secname,
                        forall|a: int|
                            0 <= a < kept@.len() ==> (#[trigger] kept@[a]).wf()
                                && kept@[a].section@ == secname,
                    decreases n - k,
                {
                    let ghost prev = entry_views(kept@);
                    let keep = !str_eq(sec.entries[k].id.as_str(), id);
                    assert(entry_views(old_entries)[k as int] == old_entries[k as int]@);
                    if keep {
                        let e = clone_entry(&sec.entries[k]);
                        assert(e@ =~~= old_entries[k as int]@);
                        assert(e.wf() && e.section@ == secname) by {
                            assert(old_entries[k as int].wf());
                        }
                        kept.push(e);
                        assert(entry_views(kept@) =~= prev + seq![old_entries[k as int]@]);
                    }
                    proof {
                        let full = entry_views(old_entries);
                        crate::ops::lemma_filter_push_entries(full.take(k as int), full[k as int], pred);
                        assert(full.take(k + 1) =~= full.take(k as int).push(full[k as int]));
                    }
                    k = k + 1;
                }
                assert(entry_views(old_entries).take(n as int) =~= entry_views(old_entries));
                sec.entries = kept;
                self.sections.insert(i, sec);
                assert(self@ =~~= before.update(
                    i as int,
                    SectionView {
                        name: before[i as int].name,
                        entries: before[i as int].entries.filter(|e: EntryView| e.id != id@),
                    },
                )) by {
                    assert(forall|a: int|
                        0 <= a < self.sections@.len() ==> self@[a] == self.sections@[a]@);
                }
                assert(self.wf()) by {
                    assert(crate::container::section_names_unique(self@)) by {
                        assert(forall|a: int|
                            0 <= a < self@.len() ==> self@[a].name == before[a].name);
                    }
                    assert(crate::container::sections_wf(self.sections@)) by {
                        assert(forall|a: int, b: int|
                            0 <= a < self.sections@.len() && a != i as int && 0 <= b
                                < self.sections@[a].entries@.len()
                                ==> #[trigger] self.sections@[a].entries@[b] == old(
                                self,
                            ).sections@[a].entries@[b]);
                        assert(forall|b: int|
                            0 <= b < self.sections@[i as int].entries@.len() ==> (
                            #[trigger] self.sections@[i as int].entries@[b]).wf()
                                && self.sections@[i as int].entries@[b].section@ == secname);
                        assert(forall|a: int|
                            0 <= a < self.sections@.len() ==> (#[trigger] self.sections@[a]).name
                                == old(self).sections@[a].name);
                    }
                }
                Ok(())
            },
            None => {
                let mut m = String::new();
                m.append(id);
                Err(LogError::EntryMissing(m))
            },
        }
    }
}

/// Filtering distributes over extending the list by one entry.
pub proof fn lemma_filter_push_entries(
    s: Seq<EntryView>,
    x: EntryView,
    pred: spec_fn(EntryView) -> bool,
)
    ensures
        s.push(x).filter(pred) == if pred(x) {
            s.filter(pred).push(x)
        } else {
            s.filter(pred)
        },
{
    reveal(Seq::filter);
    assert(s.push(x).drop_last() =~= s);
    assert(s.push(x).last() == x);
}


/// All entries of all sections, in stored order.
pub open spec fn spec_all_entries(ss: Seq<SectionView>) -> Seq<EntryView>
    decreases ss.len(),
{
    if ss.len() == 0 {
        Seq::empty()
    } else {
        spec_all_entries(ss.drop_last()) + ss.last().entries
    }
}

/// `e` inserted into a descending list, after every entry at least as new.
pub open spec fn insert_desc(e: EntryView, s: Seq<EntryView>) -> Seq<EntryView>
    decreases s.len(),
{
    if s.len() == 0 {
        seq![e]
    } else if s[0].timestamp.spec_key() >= e.timestamp.spec_key() {
        seq![s[0]] + insert_desc(e, s.drop_first())
    } else {
        seq![e] + s
    }
}

/// The entries sorted by timestamp, newest first; entries of equal time
/// keep their stored order.
pub open spec fn sort_desc(s: Seq<EntryView>) -> Seq<EntryView>
    decreases s.len(),
{
    if s.len() == 0 {
        Seq::empty()
    } else {
        insert_desc(s.last(), sort_desc(s.drop_last()))
    }
}

proof fn lemma_insert_desc_at(s: Seq<EntryView>, e: EntryView, p: int)
    requires
        0 <= p <= s.len(),
        forall|q: int| 0 <= q < p ==> (#[trigger] s[q]).timestamp.spec_key()
            >= e.timestamp.spec_key(),
        p == s.len() || s[p].timestamp.spec_key() < e.timestamp.spec_key(),
    ensures
        insert_desc(e, s) == s.take(p) + seq![e] + s.skip(p),
    decreases p,
{
    if p == 0 {
        if s.len() == 0 {
            assert(insert_desc(e, s) =~= s.take(0) + seq![e] + s.skip(0));
        } else {
            assert(s[0].timestamp.spec_key() < e.timestamp.spec_key());
            assert(insert_desc(e, s) =~= s.take(0) + seq![e] + s.skip(0));
        }
    } else {
        let tail = s.drop_first();
        assert(forall|q: int| 0 <= q < p - 1 ==> tail[q] == s[q + 1]);
        if p - 1 < tail.len() {
            assert(tail[p - 1] == s[p]);
        }
        lemma_insert_desc_at(tail, e, p - 1);
        assert(insert_desc(e, s) == seq![s[0]] + insert_desc(e, tail));
        assert(seq![s[0]] + (tail.take(p - 1) + seq![e] + tail.skip(p - 1)) =~= s.take(p) + seq![e]
            + s.skip(p));
    }
}

impl DoingFile {
    /// Append `entry` to the named section, rewriting its own section
    /// field, creating the section at the end when missing.
    pub fn add_entry_to_section(&mut self, entry: Entry, section: String)
        requires
            old(self).wf(),
            entry.wf(),
        ensures
            final(self).wf(),
            final(self)@ =~~= add_entry_view(
                old(self)@,
                EntryView { section: section@, ..entry@ },
            ),
    {
        let e = Entry { section, ..entry };
        proof {
            lemma_sec_index(self@, e.section@);
        }
        self.add_entry(e);
    }

    /// Copies of all entries, section by section in stored order.
    pub fn get_all_entries(&self) -> (r: Vec<Entry>)
        ensures
            entry_views(r@) == spec_all_entries(self@),
    {
        let mut out: Vec<Entry> = Vec::new();
        let n = self.sections.len();
        let mut i: usize = 0;
        while i < n
            invariant
                n == self.sections@.len(),
                i <= n,
                entry_views(out@) =~= spec_all_entries(self@.take(i as int)),
            decreases n - i,
        {
            let ghost before = entry_views(out@);
            let m = self.sections[i].entries.len();
            let mut j: usize = 0;
            while j < m
                invariant
                    i < n,
                    n == self.sections@.len(),
                    m == self.sections@[i as int].entries@.len(),
                    j <= m,
                    entry_views(out@) =~= before + self@[i as int].entries.take(j as int),
                decreases m - j,
            {
                let ghost prev = entry_views(out@);
                let e = clone_entry(&self.sections[i].entries[j]);
                assert(e@ =~~= self@[i as int].entries[j as int]);
                out.push(e);
                assert(entry_views(out@) =~= prev + seq![self@[i as int].entries[j as int]]);
                assert(self@[i as int].entries.take(j + 1) =~= self@[i as int].entries.take(
                    j as int,
                ) + seq![self@[i as int].entries[j as int]]);
                j = j + 1;
            }
            proof {
                assert(self@[i as int].entries.take(m as int) =~= self@[i as int].entries);
                assert(self@.take(i + 1).drop_last() =~= self@.take(i as int));
                assert(self@.take(i + 1).last() == self@[i as int]);
            }
            i = i + 1;
        }
        assert(self@.take(n as int) =~= self@);
        out
    }

    /// A borrow of the named section's entries.
    pub fn get_entries(&self, section: &str) -> (r: Option<&Vec<Entry>>)
        ensures
            r is Some <==> has_section(self@, section@),
            r matches Some(v) ==> entry_views(v@) == self@[sec_index(self@, section@)].entries,
    {
        proof {
            lemma_sec_index(self@, section@);
        }
        match self.find_section(section) {
            Some(i) => Some(&self.sections[i].entries),
            None => None,
        }
    }

    /// Copies of the entries timestamped at or after `since`, in stored
    /// order.
    pub fn get_entries_since(&self, since: Timestamp) -> (r: Vec<Entry>)
        ensures
            entry_views(r@) == spec_all_entries(self@).filter(
                |e: EntryView| e.timestamp.spec_key() >= since.spec_key(),
            ),
    {
        let all = self.get_all_entries();
        let ghost views = entry_views(all@);
        let ghost pred = |e: EntryView| e.timestamp.spec_key() >= since.spec_key();
        let mut out: Vec<Entry> = Vec::new();
        let n = all.len();
        let mut k: usize = 0;
        while k < n
            invariant
                n == all@.len(),
                k <= n,
                views == entry_views(all@),
                pred == (|e: EntryView| e.timestamp.spec_key() >= since.spec_key()),
                entry_views(out@) =~= views.take(k as int).filter(pred),
            decreases n - k,
        {
            let ghost prev = entry_views(out@);
            assert(views[k as int] == all@[k as int]@);
            if since.le(&all[k].timestamp) {
                let e = clone_entry(&all[k]);
                assert(e@ =~~= views[k as int]);
                out.push(e);
                assert(entry_views(out@) =~= prev + seq![views[k as int]]);
            }
            proof {
                lemma_filter_push_entries(views.take(k as int), views[k as int], pred);
                assert(views.take(k + 1) =~= views.take(k as int).push(views[k as int]));
            }
            k = k + 1;
        }
        assert(views.take(n as int) =~= views);
        out
    }

    /// A copy of the newest entry; among entries of equal time, the one
    /// stored last.
    pub fn get_last_entry(&self) -> (r: Option<Entry>)
        ensures
            r is Some <==> spec_all_entries(self@).len() > 0,
            r matches Some(e) ==> exists|k: int|
                0 <= k < spec_all_entries(self@).len() && e@ == spec_all_entries(self@)[k] && (
                forall|q: int|
                    0 <= q < spec_all_entries(self@).len() ==> (
                    #[trigger] spec_all_entries(self@)[q]).timestamp.spec_key()
                        <= e@.timestamp.spec_key()),
    {
        let all = self.get_all_entries();
        let ghost views = entry_views(all@);
        if all.len() == 0 {
            return None;
        }
        let n = all.len();
        let mut best: usize = 0;
        let mut k: usize = 1;
        while k < n
            invariant
                n == all@.len(),
                views == entry_views(all@),
                best < k <= n,
                forall|q: int| 0 <= q < k ==> (#[trigger] views[q]).timestamp.spec_key()
                    <= views[best as int].timestamp.spec_key(),
            decreases n - k,
        {
            assert(views[k as int] == all@[k as int]@);
            assert(views[best as int] == all@[best as int]@);
            if all[best].timestamp.le(&all[k].timestamp) {
                best = k;
            }
            k = k + 1;
        }
        let e = clone_entry(&all[best]);
        assert(e@ =~~= views[best as int]);
        Some(e)
    }

    /// Copies of the `count` newest entries, newest first; entries of equal
    /// time keep their stored order.
    pub fn get_recent_entries(&self, count: usize) -> (r: Vec<Entry>)
        ensures
            entry_views(r@) == sort_desc(spec_all_entries(self@)).take(
                if count <= spec_all_entries(self@).len() {
                    count as int
                } else {
                    spec_all_entries(self@).len() as int
                },
            ),
    {
        let mut all = self.get_all_entries();
        let ghost views = entry_views(all@);
        let mut sorted: Vec<Entry> = Vec::new();
        let n = all.len();
        let mut k: usize = 0;
        while k < n
            invariant
                n == views.len(),
                k <= n,
                all@.len() == n - k,
                entry_views(all@) =~= views.skip(k as int),
                entry_views(sorted@) =~= sort_desc(views.take(k as int)),
                sorted@.len() == k,
                forall|a: int, b: int|
                    0 <= a < b < k ==> (#[trigger] entry_views(sorted@)[a]).timestamp.spec_key()
                        >= (#[trigger] entry_views(sorted@)[b]).timestamp.spec_key(),
            decreases n - k,
        {
            let ghost allv = entry_views(all@);
            let e = all.remove(0);
            assert(e@ == views[k as int]) by {
                assert(allv[0] == views.skip(k as int)[0]);
                assert(e@ == allv[0]);
            }
            assert(entry_views(all@) =~= views.skip(k + 1)) by {
                assert(forall|q: int|
                    0 <= q < entry_views(all@).len() ==> #[trigger] entry_views(all@)[q] == allv[q
                        + 1]);
                assert(forall|q: int|
                    0 <= q < views.skip(k + 1).len() ==> #[trigger] views.skip(k + 1)[q]
                        == views.skip(k as int)[q + 1]);
            }
            let m = sorted.len();
            let mut p: usize = 0;
            while p < m && e.timestamp.le(&sorted[p].timestamp)
                invariant
                    m == sorted@.len(),
                    p <= m,
                    forall|q: int|
                        0 <= q < p ==> (#[trigger] entry_views(sorted@)[q]).timestamp.spec_key()
                            >= e@.timestamp.spec_key(),
                decreases m - p,
            {
                assert(entry_views(sorted@)[p as int] == sorted@[p as int]@);
                p = p + 1;
            }
            assert(p < m ==> entry_views(sorted@)[p as int].timestamp.spec_key()
                < e@.timestamp.spec_key()) by {
                if p < m {
                    assert(entry_views(sorted@)[p as int] == sorted@[p as int]@);
                }
            }
            let ghost svs = entry_views(sorted@);
            proof {
                lemma_insert_desc_at(svs, e@, p as int);
            }
            sorted.insert(p, e);
            assert(entry_views(sorted@) =~= svs.take(p as int) + seq![views[k as int]] + svs.skip(
                p as int,
            )) by {
                assert(forall|q: int|
                    0 <= q < sorted@.len() ==> entry_views(sorted@)[q] == sorted@[q]@);
            }
            proof {
                assert(views.take(k + 1).drop_last() =~= views.take(k as int));
                assert(views.take(k + 1).last() == views[k as int]);
                assert(entry_views(sorted@) =~= sort_desc(views.take(k + 1)));
            }
            assert(forall|a: int, b: int|
                0 <= a < b < k + 1 ==> (#[trigger] entry_views(sorted@)[a]).timestamp.spec_key()
                    >= (#[trigger] entry_views(sorted@)[b]).timestamp.spec_key()) by {
                let new = entry_views(sorted@);
                assert(forall|q: int| 0 <= q < p ==> new[q] == svs[q]);
                assert(new[p as int] == views[k as int]);
                assert(forall|q: int| p < q < k + 1 ==> new[q] == svs[q - 1]);
            }
            k = k + 1;
        }
        assert(views.take(n as int) =~= views);
        let limit = if count < sorted.len() {
            count
        } else {
            sorted.len()
        };
        let mut out: Vec<Entry> = Vec::new();
        let mut q: usize = 0;
        while q < limit
            invariant
                limit <= sorted@.len(),
                q <= limit,
                entry_views(out@) =~= entry_views(sorted@).take(q as int),
            decreases limit - q,
        {
            let ghost prev = entry_views(out@);
            let e = clone_entry(&sorted[q]);
            assert(e@ =~~= entry_views(sorted@)[q as int]) by {
                assert(entry_views(sorted@)[q as int] == sorted@[q as int]@);
            }
            out.push(e);
            assert(entry_views(out@) =~= prev + seq![entry_views(sorted@)[q as int]]);
            assert(entry_views(sorted@).take(q + 1) =~= entry_views(sorted@).take(q as int)
                + seq![entry_views(sorted@)[q as int]]);
            q = q + 1;
        }
        assert(entry_views(out@) =~= sort_desc(views).take(limit as int));
        out
    }
}



/// The entries of a removed section, re-homed to the archive.
pub open spec fn archived_views(es: Seq<EntryView>) -> Seq<EntryView> {
    es.map(|q: int, e: EntryView| EntryView { section: "Archive"@, ..e })
}

impl DoingFile {
    /// Add an empty section; an already-taken name is refused.
    pub fn add_section(&mut self, name: &str) -> (r: Result<(), LogError>)
        requires
            old(self).wf(),
        ensures
            final(self).wf(),
            r is Ok <==> !has_section(old(self)@, name@),
            r is Err ==> final(self)@ == old(self)@,
            r is Ok ==> final(self)@ =~~= old(self)@.push(
                SectionView { name: name@, entries: Seq::empty() },
            ),
    {
        if self.has_section(name) {
            let mut n = String::new();
            n.append(name);
            Err(LogError::SectionExists(n))
        } else {
            self.ensure_section(name);
            Ok(())
        }
    }

    /// Remove a section.  The default section stays; with `archive` set the
    /// removed entries move, re-homed, to the front of the `Archive`
    /// section, which is created at the end when missing.
    pub fn remove_section(&mut self, name: &str, archive: bool) -> (r: Result<(), LogError>)
        requires
            old(self).wf(),
        ensures
            final(self).wf(),
            r is Err ==> final(self)@ == old(self)@,
            !has_section(old(self)@, name@) ==> (r matches Err(LogError::SectionMissing(_))),
            has_section(old(self)@, name@) && name@ == "Currently"@ ==> (r matches
                Err(LogError::CannotRemoveDefault)),
            has_section(old(self)@, name@) && name@ != "Currently"@ ==> r is Ok,
            r is Ok ==> ({
                let i = sec_index(old(self)@, name@);
                let base = old(self)@.remove(i);
                let moved = archived_views(old(self)@[i].entries);
                &&& (!archive || moved.len() == 0 ==> final(self)@ =~~= base)
                &&& (archive && moved.len() > 0 && has_section(base, "Archive"@)
                    ==> final(self)@ =~~= base.update(
                    sec_index(base, "Archive"@),
                    SectionView {
                        name: "Archive"@,
                        entries: moved + base[sec_index(base, "Archive"@)].entries,
                    },
                ))
                &&& (archive && moved.len() > 0 && !has_section(base, "Archive"@)
                    ==> final(self)@ =~~= base.push(
                    SectionView { name: "Archive"@, entries: moved },
                ))
            }),
    {
        proof {
            lemma_sec_index(self@, name@);
        }
        let pos = self.find_section(name);
        match pos {
            None => {
                let mut n = String::new();
                n.append(name);
                Err(LogError::SectionMissing(n))
            },
            Some(i) => {
                if str_eq(name, "Currently") {
                    return Err(LogError::CannotRemoveDefault);
                }
                let ghost before = self@;
                assert(crate::container::sections_wf(self.sections@));
                let removed = self.sections.remove(i);
                let ghost base = self@;
                assert(base =~= before.remove(i as int)) by {
                    assert(forall|q: int|
                        0 <= q < self.sections@.len() ==> self@[q] == self.sections@[q]@);
                    assert(forall|q: int|
                        0 <= q < base.len() ==> base[q] == before.remove(i as int)[q]);
                }
                assert(crate::container::section_names_unique(base)) by {
                    assert(forall|q: int|
                        0 <= q < base.len() ==> base[q] == (if q < i as int {
                            before[q]
                        } else {
                            before[q + 1]
                        }));
                }
                assert(self.wf()) by {
                    assert(forall|a: int|
                        0 <= a < self.sections@.len() ==> self.sections@[a] == (if a < i as int {
                            old(self).sections@[a]
                        } else {
                            old(self).sections@[a + 1]
                        }));
                }
                if !archive || removed.entries.len() == 0 {
                    // nothing moves: the archive section is not created
                    return Ok(());
                }
                // re-home the removed entries
                let ghost moved_spec = archived_views(before[i as int].entries);
                let mut moved: Vec<Entry> = Vec::new();
                let m = removed.entries.len();
                let mut q: usize = 0;
                while q < m
                    invariant
                        m == removed.entries@.len(),
                        q <= m,
                        moved_spec == archived_views(entry_views(removed.entries@)),
                        forall|b: int|
                            0 <= b < removed.entries@.len() ==> (
                            #[trigger] removed.entries@[b]).wf(),
                        entry_views(moved@) =~= moved_spec.take(q as int),
                        forall|a: int|
                            0 <= a < moved@.len() ==> (#[trigger] moved@[a]).wf()
                                && moved@[a].section@ == "Archive"@,
                    decreases m - q,
                {
                    let ghost prev = entry_views(moved@);
                    let mut archive_name = String::new();
                    archive_name.append("Archive");
                    assert(archive_name@ =~= "Archive"@);
                    let e0 = clone_entry(&removed.entries[q]);
                    let e = Entry { section: archive_name, ..e0 };
                    assert(e@ =~~= moved_spec[q as int]) by {
                        assert(moved_spec[q as int] == (EntryView {
                            section: "Archive"@,
                            ..entry_views(removed.entries@)[q as int]
                        }));
                        assert(entry_views(removed.entries@)[q as int] == removed.entries@[
                        q as int]@);
                    }
                    assert(e.wf()) by {
                        assert(removed.entries@[q as int].wf());
                    }
                    moved.push(e);
                    assert(entry_views(moved@) =~= prev + seq![moved_spec[q as int]]);
                    assert(moved_spec.take(q + 1) =~= moved_spec.take(q as int) + seq![
                        moved_spec[q as int],
                    ]);
                    q = q + 1;
                }
                assert(moved_spec.take(m as int) =~= moved_spec);
                proof {
                    lemma_sec_index(base, "Archive"@);
                }
                match self.find_section("Archive") {
                    Some(ai) => {
                        let ghost mid = self@;
                        let mut asec = self.sections.remove(ai);
                        let ghost old_archive_entries = asec.entries@;
                        assert(forall|b: int|
                            0 <= b < old_archive_entries.len() ==> (
                            #[trigger] old_archive_entries[b]).wf()
                                && old_archive_entries[b].section@ == "Archive"@) by {
                            assert(crate::container::sections_wf(old(self).sections@));
                        }
                        let mut combined = moved;
                        let ghost combined_before = entry_views(combined@);
                        let mut w: usize = 0;
                        let wn = asec.entries.len();
                        while w < wn
                            invariant
                                wn == old_archive_entries.len(),
                                asec.entries@ =~= old_archive_entries,
                                w <= wn,
                                entry_views(combined@) =~= combined_before + entry_views(
                                    old_archive_entries,
                                ).take(w as int),
                                forall|b: int|
                                    0 <= b < old_archive_entries.len() ==> (
                                    #[trigger] old_archive_entries[b]).wf()
                                        && old_archive_entries[b].section@ == "Archive"@,
                                forall|a: int|
                                    0 <= a < combined@.len() ==> (#[trigger] combined@[a]).wf()
                                        && combined@[a].section@ == "Archive"@,
                            decreases wn - w,
                        {
                            let ghost prev = entry_views(combined@);
                            let e = clone_entry(&asec.entries[w]);
                            assert(e@ =~~= entry_views(old_archive_entries)[w as int]) by {
                                assert(entry_views(old_archive_entries)[w as int]
                                    == old_archive_entries[w as int]@);
                            }
                            assert(e.wf() && e.section@ == "Archive"@) by {
                                assert(old_archive_entries[w as int].wf());
                            }
                            combined.push(e);
                            assert(entry_views(combined@) =~= prev + seq![
                                entry_views(old_archive_entries)[w as int],
                            ]);
                            assert(entry_views(old_archive_entries).take(w + 1) =~= entry_views(
                                old_archive_entries,
                            ).take(w as int) + seq![entry_views(old_archive_entries)[w as int]]);
                            w = w + 1;
                        }
                        assert(entry_views(old_archive_entries).take(wn as int) =~= entry_views(
                            old_archive_entries,
                        ));
                        asec.entries = combined;
                        self.sections.insert(ai, asec);
                        assert(self@ =~~= mid.update(
                            ai as int,
                            SectionView {
                                name: "Archive"@,
                                entries: moved_spec + entry_views(old_archive_entries),
                            },
                        )) by {
                            assert(forall|a: int|
                                0 <= a < self.sections@.len() ==> self@[a] == self.sections@[a]@);
                            assert(mid[ai as int].name == "Archive"@);
                        }
                        assert(self.wf()) by {
                            assert(crate::container::section_names_unique(self@)) by {
                                assert(forall|a: int|
                                    0 <= a < self@.len() ==> self@[a].name == mid[a].name);
                            }
                            assert(crate::container::sections_wf(self.sections@)) by {
                                assert(forall|a: int, b: int|
                                    0 <= a < self.sections@.len() && a != ai as int && 0 <= b
                                        < self.sections@[a].entries@.len()
                                        ==> #[trigger] self.sections@[a].entries@[b] == mid_sec(
                                        old(self).sections@,
                                        i as int,
                                        a,
                                    ).entries@[b]);
                            }
                        }
                        Ok(())
                    },
                    None => {
                        let mut archive_name = String::new();
                        archive_name.append("Archive");
                        assert(archive_name@ =~= "Archive"@);
                        let ghost mid = self@;
                        self.sections.push(SectionEntries { name: archive_name, entries: moved });
                        assert(self@ =~~= mid.push(
                            SectionView { name: "Archive"@, entries: moved_spec },
                        )) by {
                            assert(forall|a: int|
                                0 <= a < self.sections@.len() ==> self@[a] == self.sections@[a]@);
                        }
                        assert(self.wf()) by {
                            assert(crate::container::section_names_unique(self@)) by {
                                assert(forall|a: int|
                                    0 <= a < mid.len() ==> self@[a].name == mid[a].name);
                            }
                            assert(crate::container::sections_wf(self.sections@)) by {
                                assert(forall|a: int, b: int|
                                    0 <= a < self.sections@.len() - 1 && 0 <= b < self.sections@[
                                    a].entries@.len() ==> #[trigger] self.sections@[a].entries@[b]
                                        == old_mid_entry(old(self).sections@, i as int, a, b));
                            }
                        }
                        Ok(())
                    },
                }
            },
        }
    }
}

/// The section at `a` after removing index `i` (a proof naming helper).
pub open spec fn mid_sec(ss: Seq<SectionEntries>, i: int, a: int) -> SectionEntries {
    if a < i {
        ss[a]
    } else {
        ss[a + 1]
    }
}

/// The entry at `(a, b)` after removing section `i` (a proof naming helper).
pub open spec fn old_mid_entry(ss: Seq<SectionEntries>, i: int, a: int, b: int) -> Entry {
    mid_sec(ss, i, a).entries@[b]
}


/// How many entries of the list carry a tag of the given name.
pub open spec fn count_with_tag(es: Seq<EntryView>, name: Seq<char>) -> int
    decreases es.len(),
{
    if es.len() == 0 {
        0
    } else {
        count_with_tag(es.drop_last(), name) + (if has_tag_name(es.last(), name) {
            1int
        } else {
            0int
        })
    }
}

/// Whether an entry's tag list carries the name.
pub open spec fn has_tag_name(e: EntryView, name: Seq<char>) -> bool {
    exists|k: int| 0 <= k < e.tags.len() && (#[trigger] e.tags[k]).name == name
}

fn find_tally(tally: &Vec<(String, u64)>, name: &str) -> (r: Option<usize>)
    ensures
        r matches Some(a) ==> a < tally@.len() && tally@[a as int].0@ == name@,
        r is None ==> forall|q: int| 0 <= q < tally@.len() ==> (#[trigger] tally@[q]).0@ != name@,
{
    let n = tally.len();
    let mut a: usize = 0;
    while a < n
        invariant
            n == tally@.len(),
            a <= n,
            forall|q: int| 0 <= q < a ==> (#[trigger] tally@[q]).0@ != name@,
        decreases n - a,
    {
        if crate::chars::str_eq(tally[a].0.as_str(), name) {
            return Some(a);
        }
        a = a + 1;
    }
    None
}

/// Every entry collected from a consistent log has unique tag names.
proof fn lemma_all_entries_tags_unique(file: DoingFile)
    requires
        file.wf(),
    ensures
        forall|a: int|
            0 <= a < spec_all_entries(file@).len() ==> crate::tags::text_names_unique(
                (#[trigger] spec_all_entries(file@)[a]).tags,
            ),
{
    lemma_sections_entries_tags_unique(file.sections@, file.sections@.len() as int);
    assert(crate::container::section_views(file.sections@).take(
        file.sections@.len() as int,
    ) =~= file@);
}

proof fn lemma_sections_entries_tags_unique(ss: Seq<SectionEntries>, k: int)
    requires
        crate::container::sections_wf(ss),
        0 <= k <= ss.len(),
    ensures
        forall|a: int|
            0 <= a < spec_all_entries(crate::container::section_views(ss).take(k)).len()
                ==> crate::tags::text_names_unique(
                (#[trigger] spec_all_entries(crate::container::section_views(ss).take(k))[a]).tags,
            ),
    decreases k,
{
    let views = crate::container::section_views(ss);
    if k > 0 {
        lemma_sections_entries_tags_unique(ss, k - 1);
        assert(views.take(k).drop_last() =~= views.take(k - 1));
        assert(views.take(k).last() == views[k - 1]);
        let pre = spec_all_entries(views.take(k - 1));
        let cur = views[k - 1].entries;
        assert(spec_all_entries(views.take(k)) == pre + cur);
        assert forall|a: int|
            0 <= a < (pre + cur).len() implies crate::tags::text_names_unique(
            (#[trigger] (pre + cur)[a]).tags,
        ) by {
            if a < pre.len() {
                assert((pre + cur)[a] == pre[a]);
            } else {
                assert((pre + cur)[a] == cur[a - pre.len()]);
                let e = ss[k - 1].entries@[a - pre.len()];
                assert(e.wf());
                assert(cur[a - pre.len()] == e@);
                assert(crate::tags::text_names_unique(e@.tags)) by {
                    assert forall|x: int, y: int|
                        0 <= x < y < e@.tags.len() implies (#[trigger] e@.tags[x]).name != (
                    #[trigger] e@.tags[y]).name by {
                        assert(e@.tags[x].name == e.tags@[x].name@);
                        assert(e@.tags[y].name == e.tags@[y].name@);
                    }
                }
            }
        }
    }
}

impl DoingFile {
    /// Tally the tags over all entries: each tag name in order of first
    /// appearance, with the number of entries carrying it.  An entry's tag
    /// names are unique, so this counts entries, not repetitions.
    pub fn tag_counts(&self) -> (r: Vec<(String, u64)>)
        requires
            self.wf(),
        ensures
            forall|a: int, b: int| 0 <= a < b < r@.len() ==> (#[trigger] r@[a]).0@ != (
            #[trigger] r@[b]).0@,
            forall|a: int|
                0 <= a < r@.len() ==> (#[trigger] r@[a]).1 as int == count_with_tag(
                    spec_all_entries(self@),
                    r@[a].0@,
                ) && r@[a].1 > 0,
            forall|name: Seq<char>|
                count_with_tag(spec_all_entries(self@), name) > 0 ==> exists|a: int|
                    0 <= a < r@.len() && (#[trigger] r@[a]).0@ == name,
    {
        let all = self.get_all_entries();
        let ghost views = entry_views(all@);
        proof {
            lemma_all_entries_tags_unique(*self);
        }
        let mut tally: Vec<(String, u64)> = Vec::new();
        let n = all.len();
        let mut k: usize = 0;
        while k < n
            invariant
                n == all@.len(),
                views == entry_views(all@),
                k <= n,
                forall|a: int, b: int| 0 <= a < b < tally@.len() ==> (#[trigger] tally@[a]).0@ != (
                #[trigger] tally@[b]).0@,
                forall|a: int|
                    0 <= a < tally@.len() ==> (#[trigger] tally@[a]).1 as int == count_with_tag(
                        views.take(k as int),
                        tally@[a].0@,
                    ) && tally@[a].1 > 0,
                forall|name: Seq<char>|
                    #![trigger count_with_tag(views.take(k as int), name)]
                    count_with_tag(views.take(k as int), name) > 0 ==> exists|a: int|
                        0 <= a < tally@.len() && (#[trigger] tally@[a]).0@ == name,
                forall|a: int|
                    0 <= a < views.len() ==> crate::tags::text_names_unique(
                        (#[trigger] views[a]).tags,
                    ),
            decreases n - k,
        {
            let e = &all[k];
            assert(e@ == views[k as int]);
            let ghost prev = views.take(k as int);
            let m = e.tags.len();
            let mut j: usize = 0;
            while j < m
                invariant
                    m == e.tags@.len(),
                    j <= m,
                    k < n,
                    n == all@.len(),
                    e == &all@[k as int],
                    e@ == views[k as int],
                    views == entry_views(all@),
                    crate::tags::text_names_unique(views[k as int].tags),
                    prev == views.take(k as int),
                    forall|a: int, b: int|
                        0 <= a < b < tally@.len() ==> (#[trigger] tally@[a]).0@ != (
                        #[trigger] tally@[b]).0@,
                    forall|a: int|
                        0 <= a < tally@.len() ==> (#[trigger] tally@[a]).1 as int == count_with_tag(
                            prev,
                            tally@[a].0@,
                        ) + (if has_tag_name_below(e@, tally@[a].0@, j as int) {
                            1int
                        } else {
                            0int
                        }) && tally@[a].1 > 0,
                    forall|name: Seq<char>|
                        #![trigger count_with_tag(prev, name)]
                        count_with_tag(prev, name) > 0 || has_tag_name_below(e@, name, j as int)
                            ==> exists|a: int|
                            0 <= a < tally@.len() && (#[trigger] tally@[a]).0@ == name,
                decreases m - j,
            {
                let ghost tname = e@.tags[j as int].name;
                assert(tname == e.tags@[j as int].name@) by {
                    assert(e@.tags[j as int] == crate::tags::text_of(e.tags@[j as int]));
                }
                assert(!has_tag_name_below(e@, tname, j as int)) by {
                    if has_tag_name_below(e@, tname, j as int) {
                        let w = choose|w: int|
                            0 <= w < j as int && w < e@.tags.len() && (#[trigger] e@.tags[w]).name
                                == tname;
                        assert(e@.tags[w].name != e@.tags[j as int].name);
                    }
                }
                match find_tally(&tally, e.tags[j].name.as_str()) {
                    Some(a) => {
                        let ghost pre_tally = tally@;
                        let c = tally[a].1;
                        proof {
                            lemma_count_bounded(prev, tname);
                        }
                        let name_copy = tally[a].0.clone();
                        tally.set(a, (name_copy, c + 1));
                        assert(forall|q: int|
                            0 <= q < tally@.len() && q != a as int ==> tally@[q] == pre_tally[q]);
                        assert(tally@[a as int].0@ == tname && tally@[a as int].1 == c + 1);
                        proof {
                            lemma_below_step(e@, j as int);
                            assert forall|name: Seq<char>|
                                count_with_tag(prev, name) > 0 || has_tag_name_below(
                                    e@,
                                    name,
                                    j + 1,
                                ) implies exists|q: int|
                                0 <= q < tally@.len() && (#[trigger] tally@[q]).0@ == name by {
                                if name == tname {
                                    assert(tally@[a as int].0@ == name);
                                } else {
                                    assert(count_with_tag(prev, name) > 0 || has_tag_name_below(
                                        e@,
                                        name,
                                        j as int,
                                    ));
                                    let w = choose|w: int|
                                        0 <= w < pre_tally.len() && (#[trigger] pre_tally[w]).0@
                                            == name;
                                    assert(tally@[w] == pre_tally[w]);
                                }
                            }
                        }
                    },
                    None => {
                        let ghost pre_tally = tally@;
                        assert(count_with_tag(prev, tname) == 0) by {
                            lemma_count_bounded(prev, tname);
                            if count_with_tag(prev, tname) > 0 {
                                let w = choose|w: int|
                                    0 <= w < pre_tally.len() && (#[trigger] pre_tally[w]).0@
                                        == tname;
                            }
                        }
                        tally.push((e.tags[j].name.clone(), 1));
                        assert(forall|q: int|
                            0 <= q < pre_tally.len() ==> tally@[q] == pre_tally[q]);
                        assert(tally@[tally@.len() - 1].0@ == tname && tally@[tally@.len() - 1].1
                            == 1);
                        proof {
                            lemma_below_step(e@, j as int);
                            assert forall|name: Seq<char>|
                                count_with_tag(prev, name) > 0 || has_tag_name_below(
                                    e@,
                                    name,
                                    j + 1,
                                ) implies exists|q: int|
                                0 <= q < tally@.len() && (#[trigger] tally@[q]).0@ == name by {
                                if name == tname {
                                    assert(tally@[tally@.len() - 1].0@ == name);
                                } else {
                                    assert(count_with_tag(prev, name) > 0 || has_tag_name_below(
                                        e@,
                                        name,
                                        j as int,
                                    ));
                                    let w = choose|w: int|
                                        0 <= w < pre_tally.len() && (#[trigger] pre_tally[w]).0@
                                            == name;
                                    assert(tally@[w] == pre_tally[w]);
                                }
                            }
                        }
                    },
                }
                j = j + 1;
            }
            proof {
                assert(views.take(k + 1).drop_last() =~= prev);
                assert(views.take(k + 1).last() == views[k as int]);
                assert(forall|name: Seq<char>|
                    #[trigger] has_tag_name(views[k as int], name) == has_tag_name_below(
                        e@,
                        name,
                        m as int,
                    ));
                assert forall|name: Seq<char>|
                    #![trigger count_with_tag(views.take(k + 1), name)]
                    count_with_tag(views.take(k + 1), name) > 0 implies exists|a: int|
                    0 <= a < tally@.len() && (#[trigger] tally@[a]).0@ == name by {
                    lemma_count_bounded(prev, name);
                    assert(count_with_tag(views.take(k + 1), name) == count_with_tag(prev, name)
                        + (if has_tag_name(views[k as int], name) {
                        1int
                    } else {
                        0int
                    }));
                    assert(count_with_tag(prev, name) > 0 || has_tag_name_below(
                        e@,
                        name,
                        m as int,
                    ));
                }
            }
            k = k + 1;
        }
        assert(views.take(n as int) =~= views);
        tally
    }
}

/// Whether one of the first `j` tags of the entry carries the name.
pub open spec fn has_tag_name_below(e: EntryView, name: Seq<char>, j: int) -> bool {
    exists|k: int| 0 <= k < j && k < e.tags.len() && (#[trigger] e.tags[k]).name == name
}

proof fn lemma_below_step(e: EntryView, j: int)
    requires
        0 <= j < e.tags.len(),
    ensures
        forall|name: Seq<char>|
            #[trigger] has_tag_name_below(e, name, j + 1) == (has_tag_name_below(e, name, j)
                || e.tags[j].name == name),
{
    assert forall|name: Seq<char>|
        #[trigger] has_tag_name_below(e, name, j + 1) == (has_tag_name_below(e, name, j)
            || e.tags[j].name == name) by {
        if has_tag_name_below(e, name, j + 1) {
            let w = choose|k: int| 0 <= k < j + 1 && k < e.tags.len() && (#[trigger] e.tags[k]).name == name;
            if w < j {
                assert(has_tag_name_below(e, name, j));
            }
        }
        if has_tag_name_below(e, name, j) || e.tags[j].name == name {
            if e.tags[j].name == name {
                assert(0 <= j < j + 1 && j < e.tags.len() && e.tags[j].name == name);
            } else {
                let w = choose|k: int| 0 <= k < j && k < e.tags.len() && (#[trigger] e.tags[k]).name == name;
                assert(0 <= w < j + 1 && w < e.tags.len() && e.tags[w].name == name);
            }
        }
    }
}

proof fn lemma_count_bounded(es: Seq<EntryView>, name: Seq<char>)
    ensures
        0 <= count_with_tag(es, name) <= es.len(),
    decreases es.len(),
{
    if es.len() > 0 {
        lemma_count_bounded(es.drop_last(), name);
    }
}

} // verus!
