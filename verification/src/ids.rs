//! Entry identifiers.
//!
//! An entry id is the canonical hyphenated form of a 128-bit identifier:
//! 36 characters, lowercase hex digits with `-` at positions 8, 13, 18 and
//! 23.  That shape is part of the file grammar and is checked in verified
//! code; only the generation of a fresh random id goes through the `uuid`
//! crate.

use vstd::prelude::*;

verus! {

/// A lowercase hexadecimal digit.
pub open spec fn is_hex_char(c: char) -> bool {
    (48 <= c as u32 && c as u32 <= 57) || (97 <= c as u32 && c as u32 <= 102)
}

/// Whether position `i` carries a hyphen in the canonical id form.
pub open spec fn is_hyphen_pos(i: int) -> bool {
    i == 8 || i == 13 || i == 18 || i == 23
}

/// The canonical hyphenated id shape: 8-4-4-4-12 lowercase hex digits.
pub open spec fn is_id(s: Seq<char>) -> bool {
    &&& s.len() == 36
    &&& forall|i: int|
        0 <= i < 36 ==> (if is_hyphen_pos(i) {
            s[i] == '-'
        } else {
            is_hex_char(s[i])
        })
}

pub fn hex_char(c: char) -> (r: bool)
    ensures
        r == is_hex_char(c),
{
    let u = c as u32;
    (48 <= u && u <= 57) || (97 <= u && u <= 102)
}

/// Whether `s` has the canonical hyphenated id shape.
pub fn valid_id(s: &[char]) -> (r: bool)
    ensures
        r == is_id(s@),
{
    if s.len() != 36 {
        return false;
    }
    let mut i: usize = 0;
    while i < 36
        invariant
            s@.len() == 36,
            i <= 36,
            forall|j: int|
                0 <= j < i ==> (if is_hyphen_pos(j) {
                    s@[j] == '-'
                } else {
                    is_hex_char(s@[j])
                }),
        decreases 36 - i,
    {
        let c = s[i];
        if i == 8 || i == 13 || i == 18 || i == 23 {
            if c != '-' {
                return false;
            }
        } else {
            if !hex_char(c) {
                return false;
            }
        }
        i = i + 1;
    }
    true
}

/// Relies on `uuid::Uuid::new_v4` and its hyphenated rendering: a fresh
/// random identifier, printed as 36 lowercase hex-and-hyphen characters.
/// Nothing is promised of the value beyond its shape.
#[verifier::external_body]
pub fn fresh_id() -> (r: String)
    ensures
        is_id(r@),
{
    uuid::Uuid::new_v4().as_hyphenated().to_string()
}

} // verus!
