//! Character-level text utilities.
//!
//! The parser, serializer and matcher all work over `Vec<char>` so that every
//! step is plain verified code; these helpers convert to and from `String`
//! and give the substring and case primitives the engine needs.

use vstd::prelude::*;

verus! {

broadcast use vstd::utf8::char_is_scalar;

/// Relies on `String::from_iter` over `str::chars`: collecting the characters
/// of a vector yields the string with exactly that character sequence.
#[verifier::external_body]
pub fn chars_to_string(v: &[char]) -> (r: String)
    ensures
        r@ == v@,
{
    v.iter().collect()
}

/// Relies on `str::chars`: the characters of a string, in order, are its
/// character sequence.
#[verifier::external_body]
pub fn string_chars(s: &str) -> (r: Vec<char>)
    ensures
        r@ == s@,
{
    s.chars().collect()
}

/// Relies on `str`'s `PartialEq`: two string slices are `==` exactly when
/// their character sequences are equal.
#[verifier::external_body]
pub fn str_eq(a: &str, b: &str) -> (r: bool)
    ensures
        r == (a@ == b@),
{
    a == b
}

/// What `char::is_uppercase` returns: whether the character has the Unicode
/// `Uppercase` property.  It depends on the character alone.
pub uninterp spec fn char_is_uppercase(c: char) -> bool;

/// Relies on `char::is_uppercase`; on ASCII it holds of exactly `'A'..='Z'`.
#[verifier::external_body]
pub fn is_uppercase(c: char) -> (r: bool)
    ensures
        r == char_is_uppercase(c),
        (c as u32) < 128 ==> (r == (65 <= c as u32 && c as u32 <= 90)),
{
    c.is_uppercase()
}

/// What `str::to_lowercase` returns: the Unicode-lowercased character
/// sequence, a function of the input characters alone.
pub uninterp spec fn lower_of(s: Seq<char>) -> Seq<char>;

/// Relies on `str::to_lowercase`: the result depends on the characters alone.
#[verifier::external_body]
pub fn to_lowercase(s: &str) -> (r: String)
    ensures
        r@ == lower_of(s@),
{
    s.to_lowercase()
}

/// Whether some character of `s` is an uppercase letter.
pub open spec fn spec_has_uppercase(s: Seq<char>) -> bool {
    exists|i: int| 0 <= i < s.len() && char_is_uppercase(s[i])
}

pub fn has_uppercase(s: &[char]) -> (r: bool)
    ensures
        r == spec_has_uppercase(s@),
{
    let mut i: usize = 0;
    while i < s.len()
        invariant
            i <= s@.len(),
            forall|j: int| 0 <= j < i ==> !char_is_uppercase(s@[j]),
        decreases s@.len() - i,
    {
        if is_uppercase(s[i]) {
            return true;
        }
        i = i + 1;
    }
    false
}

/// ASCII-case-insensitive character equality: equal outright, or an
/// ASCII letter pair differing only in case.
pub open spec fn ascii_eq_char(a: char, b: char) -> bool {
    ||| a == b
    ||| (65 <= a as u32 && a as u32 <= 90 && b as u32 == a as u32 + 32)
    ||| (65 <= b as u32 && b as u32 <= 90 && a as u32 == b as u32 + 32)
}

/// ASCII-case-insensitive equality of two character sequences.
pub open spec fn spec_ascii_eq(a: Seq<char>, b: Seq<char>) -> bool {
    a.len() == b.len() && forall|i: int| 0 <= i < a.len() ==> ascii_eq_char(a[i], b[i])
}

pub fn ascii_eq_ignore_case(a: &[char], b: &[char]) -> (r: bool)
    ensures
        r == spec_ascii_eq(a@, b@),
{
    if a.len() != b.len() {
        return false;
    }
    let mut i: usize = 0;
    while i < a.len()
        invariant
            a@.len() == b@.len(),
            i <= a@.len(),
            forall|j: int| 0 <= j < i ==> ascii_eq_char(a@[j], b@[j]),
        decreases a@.len() - i,
    {
        let x = a[i];
        let y = b[i];
        let xu: u32 = x as u32;
        let yu: u32 = y as u32;
        let same = x == y;
        let x_up = 65 <= xu && xu <= 90 && yu == xu + 32;
        let y_up = 65 <= yu && yu <= 90 && xu == yu + 32;
        if !(same || x_up || y_up) {
            return false;
        }
        i = i + 1;
    }
    true
}

/// Whether `needle` occurs in `hay` starting at `at`.
pub open spec fn matches_at(hay: Seq<char>, needle: Seq<char>, at: int) -> bool {
    &&& 0 <= at
    &&& at + needle.len() <= hay.len()
    &&& hay.subrange(at, at + needle.len()) =~= needle
}

/// Whether `needle` occurs contiguously in `hay`.
pub open spec fn is_substring(hay: Seq<char>, needle: Seq<char>) -> bool {
    exists|i: int| #[trigger] matches_at(hay, needle, i)
}

pub fn starts_with_at(hay: &[char], needle: &[char], at: usize) -> (r: bool)
    requires
        at <= hay@.len(),
    ensures
        r == matches_at(hay@, needle@, at as int),
{
    let hn: usize = hay.len();
    let nn: usize = needle.len();
    if hn - at < nn {
        assert(!matches_at(hay@, needle@, at as int));
        return false;
    }
    let mut i: usize = 0;
    while i < nn
        invariant
            hn == hay@.len(),
            nn == needle@.len(),
            at + nn <= hn,
            i <= nn,
            forall|j: int| 0 <= j < i ==> hay@[at + j] == needle@[j],
        decreases nn - i,
    {
        if hay[at + i] != needle[i] {
            assert(hay@.subrange(at as int, at + needle@.len())[i as int] != needle@[i as int]);
            return false;
        }
        i = i + 1;
    }
    assert(hay@.subrange(at as int, at + needle@.len()) =~= needle@);
    true
}

pub fn contains_sub(hay: &[char], needle: &[char]) -> (r: bool)
    ensures
        r == is_substring(hay@, needle@),
{
    if needle.len() > hay.len() {
        return false;
    }
    let mut i: usize = 0;
    while i <= hay.len() - needle.len()
        invariant
            needle@.len() <= hay@.len(),
            i <= hay@.len() - needle@.len() + 1,
            forall|j: int| 0 <= j < i ==> !matches_at(hay@, needle@, j),
        decreases hay@.len() - needle@.len() - i + 1,
    {
        if starts_with_at(hay, needle, i) {
            return true;
        }
        i = i + 1;
    }
    false
}

} // verus!
