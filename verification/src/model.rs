//! The data model: tags and entries.
//!
//! An entry is one logged activity: a description, a minute-precision
//! timestamp, the name of the section that holds it, a set of named tags
//! (unique by name, a later insert overwrites), an optional multi-line note,
//! and a unique identifier.  The tag named `done` marks an entry complete,
//! whatever its value.

use vstd::prelude::*;
use crate::time::{Timestamp, now_timestamp};
use crate::ids::{fresh_id, is_id};
use crate::chars::str_eq;
use crate::timetext::format_timestamp;

verus! {

/// A named tag with an optional value.
#[derive(Clone, Debug)]
pub struct Tag {
    pub name: String,
    pub value: Option<String>,
}

/// The view of an optional string.
pub open spec fn opt_view(v: Option<String>) -> Option<Seq<char>> {
    match v {
        Some(s) => Some(s@),
        None => None,
    }
}

/// Whether a tag of the given name is present.
pub open spec fn spec_has_tag(tags: Seq<Tag>, name: Seq<char>) -> bool {
    exists|i: int| 0 <= i < tags.len() && tags[i].name@ == name
}

/// Tag names are unique within one entry.
pub open spec fn tag_names_unique(tags: Seq<Tag>) -> bool {
    forall|i: int, j: int| 0 <= i < j < tags.len() ==> tags[i].name@ != tags[j].name@
}

/// One logged activity.
#[derive(Clone, Debug)]
pub struct Entry {
    pub description: String,
    pub timestamp: Timestamp,
    pub section: String,
    pub tags: Vec<Tag>,
    pub note: Option<String>,
    pub id: String,
}

impl Entry {
    /// Internal consistency: a valid timestamp, a well-shaped id, and
    /// tag names unique.
    pub open spec fn wf(self) -> bool {
        &&& self.timestamp.valid()
        &&& is_id(self.id@)
        &&& tag_names_unique(self.tags@)
    }

    /// A fresh entry: the given description and section, the current local
    /// time, a fresh identifier, no tags and no note.
    pub fn new(description: String, section: String) -> (r: Entry)
        ensures
            r.wf(),
            r.description == description,
            r.section == section,
            r.tags@.len() == 0,
            r.note is None,
    {
        Entry {
            description,
            timestamp: now_timestamp(),
            section,
            tags: Vec::new(),
            note: None,
            id: fresh_id(),
        }
    }

    /// The entry with its timestamp replaced.
    pub fn with_timestamp(self, timestamp: Timestamp) -> (r: Entry)
        ensures
            r == (Entry { timestamp, ..self }),
    {
        Entry { timestamp, ..self }
    }

    /// The entry with the tag `key` set to `value`; an existing tag of that
    /// name is overwritten in place, otherwise the tag is appended.
    pub fn with_tag(self, key: String, value: Option<String>) -> (r: Entry)
        ensures
            r.description == self.description,
            r.timestamp == self.timestamp,
            r.section == self.section,
            r.note == self.note,
            r.id == self.id,
            spec_has_tag(r.tags@, key@),
            (exists|i: int|
                0 <= i < self.tags@.len() && self.tags@[i].name@ == key@
                    && r.tags@ =~= self.tags@.update(i, Tag { name: key, value }))
                || (!spec_has_tag(self.tags@, key@)
                    && r.tags@ =~= self.tags@.push(Tag { name: key, value })),
            tag_names_unique(self.tags@) ==> tag_names_unique(r.tags@),
    {
        let mut e = self;
        e.insert_tag(key, value);
        e
    }

    /// The entry with the given note.
    pub fn with_note(self, note: String) -> (r: Entry)
        ensures
            r == (Entry { note: Some(note), ..self }),
    {
        Entry { note: Some(note), ..self }
    }

    /// Set the tag `key` to `value`: an existing tag of that name is
    /// overwritten in place, otherwise the tag is appended.  Afterwards the
    /// tag is present; a last write wins.
    pub fn insert_tag(&mut self, key: String, value: Option<String>)
        ensures
            final(self).description == old(self).description,
            final(self).timestamp == old(self).timestamp,
            final(self).section == old(self).section,
            final(self).note == old(self).note,
            final(self).id == old(self).id,
            spec_has_tag(final(self).tags@, key@),
            (exists|i: int|
                0 <= i < old(self).tags@.len() && old(self).tags@[i].name@ == key@
                    && final(self).tags@ =~= old(self).tags@.update(i, Tag { name: key, value }))
                || (!spec_has_tag(old(self).tags@, key@)
                    && final(self).tags@ =~= old(self).tags@.push(Tag { name: key, value })),
            tag_names_unique(old(self).tags@) ==> tag_names_unique(final(self).tags@),
    {
        let n = self.tags.len();
        let mut i: usize = 0;
        while i < n
            invariant
                n == self.tags@.len(),
                i <= n,
                *self == *old(self),
                forall|j: int| 0 <= j < i ==> self.tags@[j].name@ != key@,
            decreases n - i,
        {
            if str_eq(self.tags[i].name.as_str(), key.as_str()) {
                let t = Tag { name: key, value };
                self.tags.set(i, t);
                assert(final(self).tags@[i as int].name@ == key@);
                return ;
            }
            i = i + 1;
        }
        self.tags.push(Tag { name: key, value });
        assert(final(self).tags@[old(self).tags@.len() as int].name@ == key@);
    }

    /// Remove the tag of the given name, if present.  With unique tag names
    /// the tag is absent afterwards.
    pub fn remove_tag(&mut self, key: &str)
        ensures
            final(self).description == old(self).description,
            final(self).timestamp == old(self).timestamp,
            final(self).section == old(self).section,
            final(self).note == old(self).note,
            final(self).id == old(self).id,
            (exists|i: int|
                0 <= i < old(self).tags@.len() && old(self).tags@[i].name@ == key@
                    && final(self).tags@ =~= old(self).tags@.remove(i))
                || (!spec_has_tag(old(self).tags@, key@)
                    && final(self).tags@ =~= old(self).tags@),
            tag_names_unique(old(self).tags@) ==> tag_names_unique(final(self).tags@),
            tag_names_unique(old(self).tags@) ==> !spec_has_tag(final(self).tags@, key@),
    {
        let n = self.tags.len();
        let mut i: usize = 0;
        while i < n
            invariant
                n == self.tags@.len(),
                i <= n,
                *self == *old(self),
                forall|j: int| 0 <= j < i ==> self.tags@[j].name@ != key@,
            decreases n - i,
        {
            if str_eq(self.tags[i].name.as_str(), key) {
                self.tags.remove(i);
                assert(final(self).tags@ =~= old(self).tags@.remove(i as int));
                assert(tag_names_unique(old(self).tags@) ==> !spec_has_tag(
                    final(self).tags@,
                    key@,
                )) by {
                    if tag_names_unique(old(self).tags@) {
                        assert(forall|j: int|
                            0 <= j < final(self).tags@.len() ==> final(self).tags@[j] == (if j < i {
                                old(self).tags@[j]
                            } else {
                                old(self).tags@[j + 1]
                            }));
                    }
                }
                return ;
            }
            i = i + 1;
        }
    }

    /// Whether a tag of the given name is present.
    pub fn has_tag(&self, name: &str) -> (r: bool)
        ensures
            r == spec_has_tag(self.tags@, name@),
    {
        let n = self.tags.len();
        let mut i: usize = 0;
        while i < n
            invariant
                n == self.tags@.len(),
                i <= n,
                forall|j: int| 0 <= j < i ==> self.tags@[j].name@ != name@,
            decreases n - i,
        {
            if str_eq(self.tags[i].name.as_str(), name) {
                return true;
            }
            i = i + 1;
        }
        false
    }

    /// The value of the tag of the given name: `None` when the tag is
    /// absent, `Some(v)` when it is present with value `v`.
    pub fn get_tag(&self, name: &str) -> (r: Option<&Option<String>>)
        ensures
            r is Some <==> spec_has_tag(self.tags@, name@),
            r matches Some(v) ==> exists|i: int|
                0 <= i < self.tags@.len() && self.tags@[i].name@ == name@ && self.tags@[i].value
                    == *v,
    {
        let n = self.tags.len();
        let mut i: usize = 0;
        while i < n
            invariant
                n == self.tags@.len(),
                i <= n,
                forall|j: int| 0 <= j < i ==> self.tags@[j].name@ != name@,
            decreases n - i,
        {
            if str_eq(self.tags[i].name.as_str(), name) {
                return Some(&self.tags[i].value);
            }
            i = i + 1;
        }
        None
    }

    /// An entry is complete exactly when it carries a tag named `done`,
    /// whatever that tag's value.
    pub fn is_done(&self) -> (r: bool)
        ensures
            r == spec_has_tag(self.tags@, "done"@),
    {
        self.has_tag("done")
    }

    /// Mark the entry complete: set the `done` tag, valued with the current
    /// local time rendered at minute precision.  An existing `done` tag is
    /// overwritten in place; every other tag survives unchanged.
    pub fn mark_done(&mut self)
        ensures
            spec_has_tag(final(self).tags@, "done"@),
            final(self).description == old(self).description,
            final(self).timestamp == old(self).timestamp,
            final(self).section == old(self).section,
            final(self).note == old(self).note,
            final(self).id == old(self).id,
            exists|t: Tag|
                #[trigger] is_done_stamp(t) && ((exists|i: int|
                    0 <= i < old(self).tags@.len() && old(self).tags@[i].name@ == "done"@
                        && final(self).tags@ =~= old(self).tags@.update(i, t)) || (!spec_has_tag(
                    old(self).tags@,
                    "done"@,
                ) && final(self).tags@ =~= old(self).tags@.push(t))),
            tag_names_unique(old(self).tags@) ==> tag_names_unique(final(self).tags@),
    {
        let now = now_timestamp();
        let stamp = format_timestamp(&now);
        let key = chars_to_string_done();
        let ghost witness = Tag { name: key, value: Some(stamp) };
        proof {
            assert(is_done_stamp(witness));
        }
        self.insert_tag(key, Some(stamp));
    }
}


/// A tag that marks completion: named `done`, valued with some valid
/// timestamp rendered at minute precision.
pub open spec fn is_done_stamp(t: Tag) -> bool {
    &&& t.name@ == "done"@
    &&& t.value matches Some(v) && (exists|ts: crate::time::Timestamp|
        (#[trigger] ts.valid()) && v@ == crate::timetext::spec_render_timestamp(ts))
}

/// Clone one tag, field for field.
pub fn clone_tag(t: &Tag) -> (r: Tag)
    ensures
        r == *t,
{
    let value = match &t.value {
        Some(v) => Some(v.clone()),
        None => None,
    };
    Tag { name: t.name.clone(), value }
}

/// Clone a tag list, element for element.
pub fn clone_tags(ts: &Vec<Tag>) -> (r: Vec<Tag>)
    ensures
        r@ == ts@,
{
    let mut out: Vec<Tag> = Vec::new();
    let n = ts.len();
    let mut i: usize = 0;
    while i < n
        invariant
            n == ts@.len(),
            i <= n,
            out@ =~= ts@.subrange(0, i as int),
        decreases n - i,
    {
        out.push(clone_tag(&ts[i]));
        assert(out@ =~= ts@.subrange(0, i + 1));
        i = i + 1;
    }
    assert(out@ =~= ts@);
    out
}

/// Clone an entry, field for field.
pub fn clone_entry(e: &Entry) -> (r: Entry)
    ensures
        r.description == e.description,
        r.timestamp == e.timestamp,
        r.section == e.section,
        r.note == e.note,
        r.id == e.id,
        r.tags@ == e.tags@,
{
    let note = match &e.note {
        Some(n) => Some(n.clone()),
        None => None,
    };
    Entry {
        description: e.description.clone(),
        timestamp: e.timestamp,
        section: e.section.clone(),
        tags: clone_tags(&e.tags),
        note,
        id: e.id.clone(),
    }
}

fn chars_to_string_done() -> (r: String)
    ensures
        r@ == "done"@,
{
    let mut s = String::new();
    s.append("done");
    s
}

} // verus!
