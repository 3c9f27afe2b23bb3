//! The section container: named sections, each an ordered list of entries.
//!
//! Section names are unique and every entry's `section` field names the
//! section that holds it.  Sections keep their insertion order, and the
//! default section `Currently` is seeded first; serialization walks the
//! sections in this stored order, which makes it deterministic.

use vstd::prelude::*;
use crate::model::{Entry, Tag, opt_view, tag_names_unique};
use crate::tags::{TagText, tag_texts};
use crate::time::Timestamp;
use crate::chars::str_eq;

verus! {

/// The mathematical model of an entry: every field as plain values.
#[verifier::ext_equal]
pub struct EntryView {
    pub description: Seq<char>,
    pub timestamp: Timestamp,
    pub section: Seq<char>,
    pub tags: Seq<TagText>,
    pub note: Option<Seq<char>>,
    pub id: Seq<char>,
}

/// The mathematical model of one section.
#[verifier::ext_equal]
pub struct SectionView {
    pub name: Seq<char>,
    pub entries: Seq<EntryView>,
}

impl View for Entry {
    type V = EntryView;

    open spec fn view(&self) -> EntryView {
        EntryView {
            description: self.description@,
            timestamp: self.timestamp,
            section: self.section@,
            tags: tag_texts(self.tags@),
            note: opt_view(self.note),
            id: self.id@,
        }
    }
}

/// The views of a list of entries.
pub open spec fn entry_views(es: Seq<Entry>) -> Seq<EntryView> {
    es.map(|i: int, e: Entry| e@)
}

/// One named section holding its entries in order.
#[derive(Clone, Debug)]
pub struct SectionEntries {
    pub name: String,
    pub entries: Vec<Entry>,
}

impl View for SectionEntries {
    type V = SectionView;

    open spec fn view(&self) -> SectionView {
        SectionView { name: self.name@, entries: entry_views(self.entries@) }
    }
}

/// The views of the section list.
pub open spec fn section_views(ss: Seq<SectionEntries>) -> Seq<SectionView> {
    ss.map(|i: int, s: SectionEntries| s@)
}

/// The whole log: sections in stored order.
#[derive(Clone, Debug)]
pub struct DoingFile {
    pub sections: Vec<SectionEntries>,
}

impl View for DoingFile {
    type V = Seq<SectionView>;

    open spec fn view(&self) -> Seq<SectionView> {
        section_views(self.sections@)
    }
}

/// The first index whose section carries `name`, or -1.
pub open spec fn sec_index(ss: Seq<SectionView>, name: Seq<char>) -> int
    decreases ss.len(),
{
    if ss.len() == 0 {
        -1
    } else if ss[0].name == name {
        0
    } else {
        let r = sec_index(ss.drop_first(), name);
        if r < 0 {
            -1
        } else {
            r + 1
        }
    }
}

/// Whether a section of the given name exists.
pub open spec fn has_section(ss: Seq<SectionView>, name: Seq<char>) -> bool {
    sec_index(ss, name) >= 0
}

pub proof fn lemma_sec_index(ss: Seq<SectionView>, name: Seq<char>)
    ensures
        sec_index(ss, name) >= 0 ==> {
            &&& sec_index(ss, name) < ss.len()
            &&& ss[sec_index(ss, name)].name == name
            &&& forall|j: int| 0 <= j < sec_index(ss, name) ==> ss[j].name != name
        },
        sec_index(ss, name) < 0 ==> (forall|j: int| 0 <= j < ss.len() ==> ss[j].name != name),
    decreases ss.len(),
{
    if ss.len() > 0 && ss[0].name != name {
        let tail = ss.drop_first();
        lemma_sec_index(tail, name);
        assert(forall|j: int| 0 <= j < tail.len() ==> tail[j] == ss[j + 1]);
        let r = sec_index(tail, name);
        if r >= 0 {
            assert(tail[r] == ss[r + 1]);
            assert forall|j: int| 0 <= j < r + 1 implies ss[j].name != name by {
                if j >= 1 {
                    assert(tail[j - 1] == ss[j]);
                    assert(tail[j - 1].name != name);
                }
            }
        } else {
            assert forall|j: int| 0 <= j < ss.len() implies ss[j].name != name by {
                if j >= 1 {
                    assert(tail[j - 1] == ss[j]);
                }
            }
        }
    }
}

/// Section names are unique.
pub open spec fn section_names_unique(ss: Seq<SectionView>) -> bool {
    forall|i: int, j: int| 0 <= i < j < ss.len() ==> ss[i].name != ss[j].name
}

/// Every entry of every section is internally consistent and names its own
/// section.
pub open spec fn sections_wf(ss: Seq<SectionEntries>) -> bool {
    forall|i: int, j: int|
        0 <= i < ss.len() && 0 <= j < ss[i].entries@.len() ==> (#[trigger] ss[i].entries@[j]).wf()
            && ss[i].entries@[j].section@ == ss[i].name@
}

impl DoingFile {
    /// Internal consistency of the whole log.
    pub open spec fn wf(self) -> bool {
        &&& section_names_unique(self@)
        &&& sections_wf(self.sections@)
    }

    /// A fresh log holding only the empty default section.
    pub fn new() -> (r: DoingFile)
        ensures
            r.wf(),
            r@.len() == 1,
            r@[0].name == "Currently"@,
            r@[0].entries.len() == 0,
            has_section(r@, "Currently"@),
    {
        let mut sections: Vec<SectionEntries> = Vec::new();
        let mut name = String::new();
        name.append("Currently");
        sections.push(SectionEntries { name, entries: Vec::new() });
        let r = DoingFile { sections };
        assert(r@[0].name =~= "Currently"@);
        assert(r@[0].entries =~= Seq::<EntryView>::empty());
        assert(r@ =~~= seq![SectionView { name: "Currently"@, entries: Seq::empty() }]);
        r
    }

    /// Find the position of the section with the given name.
    pub fn find_section(&self, name: &str) -> (r: Option<usize>)
        ensures
            r matches Some(i) ==> 0 <= i < self@.len() && sec_index(self@, name@) == i as int,
            r is None ==> sec_index(self@, name@) < 0,
    {
        let n = self.sections.len();
        let mut i: usize = 0;
        while i < n
            invariant
                n == self.sections@.len(),
                i <= n,
                forall|j: int| 0 <= j < i ==> self@[j].name != name@,
            decreases n - i,
        {
            if str_eq(self.sections[i].name.as_str(), name) {
                proof {
                    lemma_sec_index_prefix(self@, name@, i as int);
                }
                return Some(i);
            }
            i = i + 1;
        }
        proof {
            lemma_sec_index(self@, name@);
            if sec_index(self@, name@) >= 0 {
                assert(false);
            }
        }
        None
    }

    /// Whether a section of the given name exists.
    pub fn has_section(&self, name: &str) -> (r: bool)
        ensures
            r == has_section(self@, name@),
    {
        self.find_section(name).is_some()
    }

    /// Append an empty section of the given name; nothing changes when the
    /// name is already taken.
    pub fn ensure_section(&mut self, name: &str)
        requires
            old(self).wf(),
        ensures
            final(self).wf(),
            has_section(old(self)@, name@) ==> final(self)@ == old(self)@,
            !has_section(old(self)@, name@) ==> (final(self)@ =~~= old(self)@.push(
                SectionView { name: name@, entries: Seq::empty() },
            )),
    {
        if !self.has_section(name) {
            let mut n = String::new();
            n.append(name);
            let ghost before = self@;
            assert(n@ =~= name@);
            self.sections.push(SectionEntries { name: n, entries: Vec::new() });
            assert(self@ =~~= before.push(SectionView { name: name@, entries: Seq::empty() }));
            proof {
                lemma_sec_index(before, name@);
            }
        }
    }

    /// Append `entry` to the section its own `section` field names, creating
    /// that section at the end when it does not exist yet.
    pub fn add_entry(&mut self, entry: Entry)
        requires
            old(self).wf(),
            entry.wf(),
        ensures
            final(self).wf(),
            has_section(old(self)@, entry.section@) ==> final(self)@ =~= old(self)@.update(
                sec_index(old(self)@, entry.section@),
                SectionView {
                    name: entry.section@,
                    entries: old(self)@[sec_index(old(self)@, entry.section@)].entries.push(
                        entry@,
                    ),
                },
            ),
            !has_section(old(self)@, entry.section@) ==> final(self)@ =~= old(self)@.push(
                SectionView { name: entry.section@, entries: seq![entry@] },
            ),
    {
        let ghost before = self@;
        proof {
            lemma_sec_index(before, entry.section@);
        }
        let pos = self.find_section(entry.section.as_str());
        match pos {
            Some(i) => {
                let ghost old_secs = self.sections@;
                let sec = &mut self.sections[i];
                // hold the borrow narrow: push and let the view follow
                sec.entries.push(entry);
                proof {
                    assert(self.sections@[i as int].entries@ =~= old_secs[i as int].entries@.push(
                        entry,
                    ));
                    assert(forall|j: int|
                        0 <= j < old_secs.len() && j != i as int ==> self.sections@[j] == old_secs[
                            j
                        ]);
                    assert(entry_views(self.sections@[i as int].entries@) =~= entry_views(
                        old_secs[i as int].entries@,
                    ).push(entry@));
                    assert(self@ =~= before.update(
                        i as int,
                        SectionView {
                            name: entry.section@,
                            entries: before[i as int].entries.push(entry@),
                        },
                    ));
                }
            },
            None => {
                let mut name = String::new();
                name.append(entry.section.as_str());
                let mut entries: Vec<Entry> = Vec::new();
                entries.push(entry);
                self.sections.push(SectionEntries { name, entries });
                assert(entry_views(self.sections@.last().entries@) =~= seq![entry@]);
                assert(self@ =~= before.push(
                    SectionView { name: entry.section@, entries: seq![entry@] },
                ));
            },
        }
    }
}

proof fn lemma_sec_index_prefix(ss: Seq<SectionView>, name: Seq<char>, i: int)
    requires
        0 <= i < ss.len(),
        ss[i].name == name,
        forall|j: int| 0 <= j < i ==> ss[j].name != name,
    ensures
        sec_index(ss, name) == i,
    decreases i,
{
    if i > 0 {
        assert(ss.drop_first()[i - 1].name == name);
        lemma_sec_index_prefix(ss.drop_first(), name, i - 1);
    }
}

} // verus!
