//! The inline tag grammar.
//!
//! Inside a task line's description clause, a tag is written `@name` or
//! `@name(value)`: `@`, then a longest run of word characters, then
//! optionally a parenthesized value — a nonempty run of characters up to
//! the first `)`.  An opening paren with no such close, or an empty `()`,
//! is not part of the tag.  Extraction walks the clause left to right,
//! records each tag (a later duplicate name overwrites the earlier value)
//! and removes the matched spans; the rest, trimmed of surrounding
//! whitespace, is the clean description.
//!
//! Word characters are ASCII only: letters, digits and `_`.  Any other
//! character — including every non-ASCII letter — ends a tag name and
//! otherwise passes through as ordinary description or value text, so a
//! tag name is always plain ASCII.

use vstd::prelude::*;
use crate::model::{Tag, opt_view, spec_has_tag, tag_names_unique};
use crate::chars::chars_to_string;

verus! {

/// An ASCII word character: a letter, a digit or `_`.
pub open spec fn is_word_char(c: char) -> bool {
    ||| (48 <= c as u32 && c as u32 <= 57)
    ||| (65 <= c as u32 && c as u32 <= 90)
    ||| (97 <= c as u32 && c as u32 <= 122)
    ||| c == '_'
}

/// Whitespace as the trimmer sees it.
pub open spec fn is_space(c: char) -> bool {
    c == ' ' || c == '\t' || c == '\r' || c == '\n'
}

pub fn word_char(c: char) -> (r: bool)
    ensures
        r == is_word_char(c),
{
    let u = c as u32;
    (48 <= u && u <= 57) || (65 <= u && u <= 90) || (97 <= u && u <= 122) || c == '_'
}

pub fn space_char(c: char) -> (r: bool)
    ensures
        r == is_space(c),
{
    c == ' ' || c == '\t' || c == '\r' || c == '\n'
}

/// The end of the word-character run starting at `i`.
pub open spec fn word_run_end(s: Seq<char>, i: int) -> int
    recommends
        0 <= i <= s.len(),
    decreases s.len() - i,
    when 0 <= i <= s.len()
{
    if i < s.len() && is_word_char(s[i]) {
        word_run_end(s, i + 1)
    } else {
        i
    }
}

/// The first `)` at or after `i`, or the length of `s` when there is none.
pub open spec fn close_paren_at(s: Seq<char>, i: int) -> int
    recommends
        0 <= i <= s.len(),
    decreases s.len() - i,
    when 0 <= i <= s.len()
{
    if i < s.len() && s[i] != ')' {
        close_paren_at(s, i + 1)
    } else {
        i
    }
}

/// A tag name with its optional value, as character sequences.
pub struct TagText {
    pub name: Seq<char>,
    pub value: Option<Seq<char>>,
}

/// The tag match starting at position `i`, if any: the position just past
/// the match, the name, and the value.
pub open spec fn tag_match_at(s: Seq<char>, i: int) -> Option<(int, TagText)>
    recommends
        0 <= i < s.len(),
{
    if s[i] == '@' && i + 1 < s.len() && is_word_char(s[i + 1]) {
        let ne = word_run_end(s, i + 1);
        let name = s.subrange(i + 1, ne);
        if ne < s.len() && s[ne] == '(' {
            let cp = close_paren_at(s, ne + 1);
            if cp < s.len() && cp > ne + 1 {
                Some(((cp + 1), TagText { name, value: Some(s.subrange(ne + 1, cp)) }))
            } else {
                Some((ne, TagText { name, value: None }))
            }
        } else {
            Some((ne, TagText { name, value: None }))
        }
    } else {
        None
    }
}

proof fn lemma_word_run_bounds(s: Seq<char>, i: int)
    requires
        0 <= i <= s.len(),
    ensures
        i <= word_run_end(s, i) <= s.len(),
    decreases s.len() - i,
{
    if i < s.len() && is_word_char(s[i]) {
        lemma_word_run_bounds(s, i + 1);
    }
}

proof fn lemma_close_paren_bounds(s: Seq<char>, i: int)
    requires
        0 <= i <= s.len(),
    ensures
        i <= close_paren_at(s, i) <= s.len(),
    decreases s.len() - i,
{
    if i < s.len() && s[i] != ')' {
        lemma_close_paren_bounds(s, i + 1);
    }
}

/// Bounds of a tag match: it consumes at least the `@` and one word
/// character, and stays inside `s`.
pub proof fn lemma_tag_match_bounds(s: Seq<char>, i: int)
    requires
        0 <= i < s.len(),
    ensures
        tag_match_at(s, i) matches Some((end, _)) ==> i + 2 <= end <= s.len(),
{
    if s[i] == '@' && i + 1 < s.len() && is_word_char(s[i + 1]) {
        lemma_word_run_bounds(s, i + 2);
        assert(word_run_end(s, i + 1) == word_run_end(s, i + 2));
        let ne = word_run_end(s, i + 1);
        if ne < s.len() && s[ne] == '(' {
            lemma_close_paren_bounds(s, ne + 1);
        }
    }
}

/// The tags found from position `i` on, in order of appearance, and the
/// leftover description text (not yet trimmed).
pub open spec fn extract_from(s: Seq<char>, i: int) -> (Seq<TagText>, Seq<char>)
    recommends
        0 <= i <= s.len(),
    decreases s.len() - i,
    when 0 <= i <= s.len()
    via extract_from_decreases
{
    if i >= s.len() {
        (Seq::empty(), Seq::empty())
    } else {
        match tag_match_at(s, i) {
            Some((end, t)) => {
                let (ts, d) = extract_from(s, end);
                (seq![t] + ts, d)
            },
            None => {
                let (ts, d) = extract_from(s, i + 1);
                (ts, seq![s[i]] + d)
            },
        }
    }
}

#[via_fn]
proof fn extract_from_decreases(s: Seq<char>, i: int) {
    if i < s.len() {
        lemma_tag_match_bounds(s, i);
    }
}

/// `s` with surrounding whitespace removed.
pub open spec fn spec_trim(s: Seq<char>) -> Seq<char>
    decreases s.len(),
{
    if s.len() > 0 && is_space(s[0]) {
        spec_trim(s.drop_first())
    } else if s.len() > 0 && is_space(s.last()) {
        spec_trim(s.drop_last())
    } else {
        s
    }
}

pub fn trim(s: &[char]) -> (r: Vec<char>)
    ensures
        r@ == spec_trim(s@),
{
    let mut start: usize = 0;
    let mut end: usize = s.len();
    assert(s@.subrange(0, s@.len() as int) =~= s@);
    while start < end && space_char(s[start])
        invariant
            0 <= start <= end <= s@.len(),
            spec_trim(s@) == spec_trim(s@.subrange(start as int, end as int)),
        decreases end - start,
    {
        assert(s@.subrange(start as int, end as int).drop_first() =~= s@.subrange(
            start + 1,
            end as int,
        ));
        start = start + 1;
    }
    while end > start && space_char(s[end - 1])
        invariant
            0 <= start <= end <= s@.len(),
            spec_trim(s@) == spec_trim(s@.subrange(start as int, end as int)),
            start < end ==> !is_space(s@[start as int]),
        decreases end,
    {
        assert(s@.subrange(start as int, end as int).drop_last() =~= s@.subrange(
            start as int,
            end - 1,
        ));
        end = end - 1;
    }
    let mut r: Vec<char> = Vec::new();
    let mut i: usize = start;
    while i < end
        invariant
            start <= i <= end <= s@.len(),
            r@ =~= s@.subrange(start as int, i as int),
        decreases end - i,
    {
        r.push(s[i]);
        assert(r@ =~= s@.subrange(start as int, i + 1));
        i = i + 1;
    }
    assert(r@ =~= s@.subrange(start as int, end as int));
    assert(spec_trim(s@.subrange(start as int, end as int)) == s@.subrange(
        start as int,
        end as int,
    ));
    r
}


/// The text view of a tag.
pub open spec fn text_of(t: Tag) -> TagText {
    TagText { name: t.name@, value: opt_view(t.value) }
}

/// The text views of a tag vector, in order.
pub open spec fn tag_texts(tags: Seq<Tag>) -> Seq<TagText> {
    tags.map(|i: int, t: Tag| text_of(t))
}

fn copy_range(s: &[char], a: usize, b: usize) -> (r: Vec<char>)
    requires
        a <= b <= s@.len(),
    ensures
        r@ == s@.subrange(a as int, b as int),
{
    let mut r: Vec<char> = Vec::new();
    let mut i: usize = a;
    while i < b
        invariant
            a <= i <= b <= s@.len(),
            r@ =~= s@.subrange(a as int, i as int),
        decreases b - i,
    {
        r.push(s[i]);
        assert(r@ =~= s@.subrange(a as int, i + 1));
        i = i + 1;
    }
    assert(r@ =~= s@.subrange(a as int, b as int));
    r
}

/// Scan the word run starting at `i`.
fn find_word_run_end(s: &[char], i: usize) -> (r: usize)
    requires
        i <= s@.len(),
    ensures
        r == word_run_end(s@, i as int),
        i <= r <= s@.len(),
{
    let mut j: usize = i;
    while j < s.len() && word_char(s[j])
        invariant
            i <= j <= s@.len(),
            word_run_end(s@, i as int) == word_run_end(s@, j as int),
        decreases s@.len() - j,
    {
        j = j + 1;
    }
    j
}

/// Scan for the first `)` at or after `i`.
fn find_close_paren(s: &[char], i: usize) -> (r: usize)
    requires
        i <= s@.len(),
    ensures
        r == close_paren_at(s@, i as int),
        i <= r <= s@.len(),
{
    let mut j: usize = i;
    while j < s.len() && s[j] != ')'
        invariant
            i <= j <= s@.len(),
            close_paren_at(s@, i as int) == close_paren_at(s@, j as int),
        decreases s@.len() - j,
    {
        j = j + 1;
    }
    j
}

/// Walk `s` once: the tags in order of appearance (duplicates kept) and the
/// leftover description text with the matched spans removed.
pub fn scan_tags(s: &[char]) -> (r: (Vec<Tag>, Vec<char>))
    ensures
        tag_texts(r.0@) =~= extract_from(s@, 0).0,
        r.1@ =~= extract_from(s@, 0).1,
{
    let mut out_tags: Vec<Tag> = Vec::new();
    let mut out_desc: Vec<char> = Vec::new();
    let n = s.len();
    let mut i: usize = 0;
    while i < n
        invariant
            n == s@.len(),
            i <= n,
            extract_from(s@, 0).0 =~= tag_texts(out_tags@) + extract_from(s@, i as int).0,
            extract_from(s@, 0).1 =~= out_desc@ + extract_from(s@, i as int).1,
        decreases n - i,
    {
        let ghost prev_tags = tag_texts(out_tags@);
        let ghost prev_desc = out_desc@;
        let c = s[i];
        let mut matched = false;
        if c == '@' && i + 1 < n && word_char(s[i + 1]) {
            let ne = find_word_run_end(s, i + 1);
            assert(word_run_end(s@, i + 1) == word_run_end(s@, i + 2));
            let name = copy_range(s, i + 1, ne);
            let mut end: usize = ne;
            let mut value: Option<String> = None;
            if ne < n && s[ne] == '(' {
                let cp = find_close_paren(s, ne + 1);
                if cp < n && cp > ne + 1 {
                    let v = copy_range(s, ne + 1, cp);
                    value = Some(chars_to_string(v.as_slice()));
                    end = cp + 1;
                }
            }
            let ghost t = (tag_match_at(s@, i as int)->0).1;
            let tag = Tag { name: chars_to_string(name.as_slice()), value };
            assert(text_of(tag) == t);
            assert((tag_match_at(s@, i as int)->0).0 == end as int);
            out_tags.push(tag);
            assert(tag_texts(out_tags@) =~= prev_tags + seq![t]);
            proof {
                lemma_tag_match_bounds(s@, i as int);
            }
            assert(extract_from(s@, i as int).0 =~= seq![t] + extract_from(s@, end as int).0);
            assert(extract_from(s@, i as int).1 =~= extract_from(s@, end as int).1);
            assert(prev_tags + (seq![t] + extract_from(s@, end as int).0) =~= (prev_tags + seq![t])
                + extract_from(s@, end as int).0);
            i = end;
            matched = true;
        }
        if !matched {
            assert(tag_match_at(s@, i as int) is None);
            out_desc.push(c);
            assert(out_desc@ =~= prev_desc + seq![c]);
            assert(extract_from(s@, i as int).1 =~= seq![c] + extract_from(s@, i + 1).1);
            assert(prev_desc + (seq![c] + extract_from(s@, i + 1).1) =~= (prev_desc + seq![c])
                + extract_from(s@, i + 1).1);
            i = i + 1;
        }
    }
    (out_tags, out_desc)
}

/// Set `t` into `tags`: overwrite the tag of the same name in place, else
/// append.
pub open spec fn spec_upsert_text(acc: Seq<TagText>, t: TagText) -> Seq<TagText> {
    if exists|i: int| 0 <= i < acc.len() && acc[i].name == t.name {
        acc.update(choose|i: int| 0 <= i < acc.len() && acc[i].name == t.name, t)
    } else {
        acc.push(t)
    }
}

/// Fold a tag list down to unique names, a later value overwriting an
/// earlier one in place.
pub open spec fn spec_dedup(ts: Seq<TagText>) -> Seq<TagText>
    decreases ts.len(),
{
    if ts.len() == 0 {
        Seq::empty()
    } else {
        spec_upsert_text(spec_dedup(ts.drop_last()), ts.last())
    }
}

/// Names are unique within a tag text list.
pub open spec fn text_names_unique(ts: Seq<TagText>) -> bool {
    forall|i: int, j: int| 0 <= i < j < ts.len() ==> ts[i].name != ts[j].name
}

fn vec_upsert_tag(tags: &mut Vec<Tag>, t: Tag)
    requires
        tag_names_unique(old(tags)@),
    ensures
        tag_names_unique(final(tags)@),
        tag_texts(final(tags)@) =~= spec_upsert_text(tag_texts(old(tags)@), text_of(t)),
{
    let ghost acc = tag_texts(old(tags)@);
    let ghost tt = text_of(t);
    let n = tags.len();
    let mut i: usize = 0;
    while i < n
        invariant
            n == tags@.len(),
            i <= n,
            *tags == *old(tags),
            acc == tag_texts(tags@),
            tt == text_of(t),
            tag_names_unique(tags@),
            forall|j: int| 0 <= j < i ==> tags@[j].name@ != t.name@,
        decreases n - i,
    {
        if crate::chars::str_eq(tags[i].name.as_str(), t.name.as_str()) {
            proof {
                assert(acc[i as int].name == tt.name);
                let w = choose|k: int| 0 <= k < acc.len() && acc[k].name == tt.name;
                assert(0 <= w < acc.len() && acc[w].name == tt.name);
                assert(tags@[w].name@ == acc[w].name);
                assert(tags@[i as int].name@ == acc[i as int].name);
                if w < i as int {
                    assert(tags@[w].name@ != tags@[i as int].name@);
                    assert(false);
                } else if (i as int) < w {
                    assert(tags@[i as int].name@ != tags@[w].name@);
                    assert(false);
                }
                assert(w == i as int);
                assert(spec_upsert_text(acc, tt) == acc.update(i as int, tt));
            }
            let ghost before = tags@;
            tags.set(i, t);
            assert(tag_texts(tags@) =~= acc.update(i as int, tt));
            assert(tag_names_unique(tags@)) by {
                assert(forall|a: int| 0 <= a < tags@.len() ==> tags@[a].name@ == before[a].name@);
            }
            return ;
        }
        i = i + 1;
    }
    assert(!(exists|k: int| 0 <= k < acc.len() && acc[k].name == tt.name)) by {
        assert(forall|k: int| 0 <= k < acc.len() ==> acc[k].name == tags@[k].name@);
    }
    let ghost before = tags@;
    tags.push(t);
    assert(tag_texts(tags@) =~= acc.push(tt));
    assert(tag_names_unique(tags@)) by {
        assert(forall|a: int| 0 <= a < before.len() ==> tags@[a].name@ == before[a].name@);
        assert(forall|a: int| 0 <= a < before.len() ==> tags@[a].name@ != tt.name);
        assert(tags@[before.len() as int].name@ == tt.name);
    }
}

/// Fold the scanned tags down to unique names.
pub fn dedup_tags(raw: Vec<Tag>) -> (r: Vec<Tag>)
    ensures
        tag_names_unique(r@),
        tag_texts(r@) =~= spec_dedup(tag_texts(raw@)),
{
    let ghost orig = raw@;
    let ghost full = tag_texts(raw@);
    let mut rest = raw;
    let mut acc: Vec<Tag> = Vec::new();
    let n = rest.len();
    let mut k: usize = 0;
    while k < n
        invariant
            n == orig.len(),
            k <= n,
            full == tag_texts(orig),
            rest@ =~= orig.subrange(k as int, n as int),
            tag_names_unique(acc@),
            tag_texts(acc@) =~= spec_dedup(full.take(k as int)),
        decreases n - k,
    {
        let t = rest.remove(0);
        assert(t == orig[k as int]);
        assert(text_of(t) == full[k as int]);
        vec_upsert_tag(&mut acc, t);
        proof {
            assert(full.take(k + 1).drop_last() =~= full.take(k as int));
            assert(full.take(k + 1).last() == full[k as int]);
            assert(rest@ =~= orig.subrange(k + 1, n as int));
        }
        k = k + 1;
    }
    assert(full.take(n as int) =~= full);
    acc
}

/// The rendered form of one tag: a space, `@`, the name, and the value in
/// parentheses when present.
pub open spec fn render_tag_text(t: TagText) -> Seq<char> {
    match t.value {
        Some(v) => seq![' ', '@'] + t.name + seq!['('] + v + seq![')'],
        None => seq![' ', '@'] + t.name,
    }
}

/// The rendered form of a tag list, in order.
pub open spec fn render_tag_texts(ts: Seq<TagText>) -> Seq<char>
    decreases ts.len(),
{
    if ts.len() == 0 {
        Seq::empty()
    } else {
        render_tag_texts(ts.drop_last()) + render_tag_text(ts.last())
    }
}

fn push_all(out: &mut Vec<char>, s: &[char])
    ensures
        final(out)@ == old(out)@ + s@,
{
    let mut i: usize = 0;
    while i < s.len()
        invariant
            i <= s@.len(),
            out@ =~= old(out)@ + s@.subrange(0, i as int),
        decreases s@.len() - i,
    {
        out.push(s[i]);
        assert(out@ =~= old(out)@ + s@.subrange(0, i + 1));
        i = i + 1;
    }
    assert(out@ =~= old(out)@ + s@);
}

/// Render the tags of an entry for its task line.
pub fn render_tags(list: &Vec<Tag>) -> (r: Vec<char>)
    ensures
        r@ == render_tag_texts(tag_texts(list@)),
{
    let mut out: Vec<char> = Vec::new();
    let n = list.len();
    let mut k: usize = 0;
    while k < n
        invariant
            n == list@.len(),
            k <= n,
            out@ =~= render_tag_texts(tag_texts(list@).take(k as int)),
        decreases n - k,
    {
        let ghost full = tag_texts(list@);
        let ghost before = out@;
        out.push(' ');
        out.push('@');
        let name_chars = crate::chars::string_chars(list[k].name.as_str());
        push_all(&mut out, name_chars.as_slice());
        if let Some(v) = &list[k].value {
            out.push('(');
            let val_chars = crate::chars::string_chars(v.as_str());
            push_all(&mut out, val_chars.as_slice());
            out.push(')');
        }
        proof {
            assert(full.take(k + 1).drop_last() =~= full.take(k as int));
            assert(full.take(k + 1).last() == full[k as int]);
            assert(out@ =~= before + render_tag_text(full[k as int]));
        }
        k = k + 1;
    }
    assert(tag_texts(list@).take(n as int) =~= tag_texts(list@));
    assert(out@ =~= render_tag_texts(tag_texts(list@)));
    out
}

} // verus!
