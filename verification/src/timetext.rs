//! The text form of timestamps: `YYYY-MM-DD HH:MM`, 16 characters, minute
//! precision.  Rendering and reading are both verified, and reading inverts
//! rendering on every valid timestamp.

use vstd::prelude::*;
use crate::time::Timestamp;
use crate::chars::chars_to_string;

verus! {

pub open spec fn is_digit(c: char) -> bool {
    48 <= c as u32 && c as u32 <= 57
}

pub open spec fn digit_val(c: char) -> int {
    c as u32 - 48
}

/// The decimal digit character for `d` in `0..=9`.
pub open spec fn digit_char(d: int) -> char {
    if d == 0 {
        '0'
    } else if d == 1 {
        '1'
    } else if d == 2 {
        '2'
    } else if d == 3 {
        '3'
    } else if d == 4 {
        '4'
    } else if d == 5 {
        '5'
    } else if d == 6 {
        '6'
    } else if d == 7 {
        '7'
    } else if d == 8 {
        '8'
    } else {
        '9'
    }
}

/// The 16-character shape `dddd-dd-dd dd:dd`.
pub open spec fn is_timestamp_shape(s: Seq<char>) -> bool {
    &&& s.len() == 16
    &&& is_digit(s[0])
    &&& is_digit(s[1])
    &&& is_digit(s[2])
    &&& is_digit(s[3])
    &&& s[4] == '-'
    &&& is_digit(s[5])
    &&& is_digit(s[6])
    &&& s[7] == '-'
    &&& is_digit(s[8])
    &&& is_digit(s[9])
    &&& s[10] == ' '
    &&& is_digit(s[11])
    &&& is_digit(s[12])
    &&& s[13] == ':'
    &&& is_digit(s[14])
    &&& is_digit(s[15])
}

/// The fields read from a well-shaped timestamp text.
pub open spec fn timestamp_of(s: Seq<char>) -> Timestamp {
    Timestamp {
        year: (digit_val(s[0]) * 1000 + digit_val(s[1]) * 100 + digit_val(s[2]) * 10 + digit_val(
            s[3],
        )) as u16,
        month: (digit_val(s[5]) * 10 + digit_val(s[6])) as u8,
        day: (digit_val(s[8]) * 10 + digit_val(s[9])) as u8,
        hour: (digit_val(s[11]) * 10 + digit_val(s[12])) as u8,
        minute: (digit_val(s[14]) * 10 + digit_val(s[15])) as u8,
    }
}

/// What reading a timestamp text yields: the fields when the text has the
/// right shape and names a real date and time, nothing otherwise.
pub open spec fn spec_parse_timestamp(s: Seq<char>) -> Option<Timestamp> {
    if is_timestamp_shape(s) && timestamp_of(s).valid() {
        Some(timestamp_of(s))
    } else {
        None
    }
}

/// The canonical 16-character rendering of a timestamp.
pub open spec fn spec_render_timestamp(t: Timestamp) -> Seq<char> {
    seq![
        digit_char(t.year as int / 1000 % 10),
        digit_char(t.year as int / 100 % 10),
        digit_char(t.year as int / 10 % 10),
        digit_char(t.year as int % 10),
        '-',
        digit_char(t.month as int / 10 % 10),
        digit_char(t.month as int % 10),
        '-',
        digit_char(t.day as int / 10 % 10),
        digit_char(t.day as int % 10),
        ' ',
        digit_char(t.hour as int / 10 % 10),
        digit_char(t.hour as int % 10),
        ':',
        digit_char(t.minute as int / 10 % 10),
        digit_char(t.minute as int % 10),
    ]
}

fn digit(d: u16) -> (r: char)
    requires
        d <= 9,
    ensures
        r == digit_char(d as int),
{
    if d == 0 {
        '0'
    } else if d == 1 {
        '1'
    } else if d == 2 {
        '2'
    } else if d == 3 {
        '3'
    } else if d == 4 {
        '4'
    } else if d == 5 {
        '5'
    } else if d == 6 {
        '6'
    } else if d == 7 {
        '7'
    } else if d == 8 {
        '8'
    } else {
        '9'
    }
}

/// Render a timestamp as the 16 characters `YYYY-MM-DD HH:MM`.
pub fn render_timestamp_chars(t: &Timestamp) -> (r: Vec<char>)
    requires
        t.valid(),
    ensures
        r@ == spec_render_timestamp(*t),
{
    let mut v: Vec<char> = Vec::new();
    v.push(digit(t.year / 1000 % 10));
    v.push(digit(t.year / 100 % 10));
    v.push(digit(t.year / 10 % 10));
    v.push(digit(t.year % 10));
    v.push('-');
    v.push(digit(t.month as u16 / 10 % 10));
    v.push(digit(t.month as u16 % 10));
    v.push('-');
    v.push(digit(t.day as u16 / 10 % 10));
    v.push(digit(t.day as u16 % 10));
    v.push(' ');
    v.push(digit(t.hour as u16 / 10 % 10));
    v.push(digit(t.hour as u16 % 10));
    v.push(':');
    v.push(digit(t.minute as u16 / 10 % 10));
    v.push(digit(t.minute as u16 % 10));
    assert(v@ =~= spec_render_timestamp(*t));
    v
}

/// Render a timestamp as a 16-character string.
pub fn format_timestamp(t: &Timestamp) -> (r: String)
    requires
        t.valid(),
    ensures
        r@ == spec_render_timestamp(*t),
{
    let v = render_timestamp_chars(t);
    chars_to_string(v.as_slice())
}

fn digit_of(c: char) -> (r: Option<u16>)
    ensures
        r is Some <==> is_digit(c),
        r matches Some(d) ==> d == digit_val(c) && d <= 9,
{
    let u = c as u32;
    if 48 <= u && u <= 57 {
        Some((u - 48) as u16)
    } else {
        None
    }
}

/// Read the 16-character timestamp text at `s[at..at+16]`.  Yields the
/// timestamp exactly when the shape is right and the fields name a real
/// date and time.
pub fn parse_timestamp_at(s: &[char], at: usize) -> (r: Option<Timestamp>)
    requires
        at + 16 <= s@.len(),
    ensures
        r == spec_parse_timestamp(s@.subrange(at as int, at + 16)),
{
    let ghost sub = s@.subrange(at as int, at + 16);
    let d0 = digit_of(s[at]);
    let d1 = digit_of(s[at + 1]);
    let d2 = digit_of(s[at + 2]);
    let d3 = digit_of(s[at + 3]);
    let h0 = s[at + 4] == '-';
    let d5 = digit_of(s[at + 5]);
    let d6 = digit_of(s[at + 6]);
    let h1 = s[at + 7] == '-';
    let d8 = digit_of(s[at + 8]);
    let d9 = digit_of(s[at + 9]);
    let sp = s[at + 10] == ' ';
    let d11 = digit_of(s[at + 11]);
    let d12 = digit_of(s[at + 12]);
    let co = s[at + 13] == ':';
    let d14 = digit_of(s[at + 14]);
    let d15 = digit_of(s[at + 15]);
    assert(forall|k: int| 0 <= k < 16 ==> sub[k] == s@[at + k]);
    match (d0, d1, d2, d3, d5, d6, d8, d9, d11, d12, d14, d15) {
        (
            Some(y0),
            Some(y1),
            Some(y2),
            Some(y3),
            Some(m0),
            Some(m1),
            Some(dd0),
            Some(dd1),
            Some(hh0),
            Some(hh1),
            Some(mi0),
            Some(mi1),
        ) => {
            if h0 && h1 && sp && co {
                let t = Timestamp {
                    year: y0 * 1000 + y1 * 100 + y2 * 10 + y3,
                    month: (m0 * 10 + m1) as u8,
                    day: (dd0 * 10 + dd1) as u8,
                    hour: (hh0 * 10 + hh1) as u8,
                    minute: (mi0 * 10 + mi1) as u8,
                };
                assert(is_timestamp_shape(sub));
                assert(t == timestamp_of(sub));
                if t.month >= 1 && t.month <= 12 && t.day >= 1 && t.day
                    <= crate::time::days_in_month(t.year, t.month) && t.hour <= 23 && t.minute
                    <= 59 {
                    assert(t.valid());
                    Some(t)
                } else {
                    assert(!t.valid());
                    None
                }
            } else {
                assert(!is_timestamp_shape(sub));
                None
            }
        },
        _ => {
            assert(!is_timestamp_shape(sub));
            None
        },
    }
}


/// Whether the 16 characters at `s[at..at+16]` have the timestamp shape.
pub fn timestamp_shape_at(s: &[char], at: usize) -> (r: bool)
    requires
        at + 16 <= s@.len(),
    ensures
        r == is_timestamp_shape(s@.subrange(at as int, at + 16)),
{
    let ghost sub = s@.subrange(at as int, at + 16);
    assert(forall|k: int| 0 <= k < 16 ==> sub[k] == s@[at + k]);
    let r = digit_of(s[at]).is_some() && digit_of(s[at + 1]).is_some() && digit_of(
        s[at + 2],
    ).is_some() && digit_of(s[at + 3]).is_some() && s[at + 4] == '-' && digit_of(
        s[at + 5],
    ).is_some() && digit_of(s[at + 6]).is_some() && s[at + 7] == '-' && digit_of(
        s[at + 8],
    ).is_some() && digit_of(s[at + 9]).is_some() && s[at + 10] == ' ' && digit_of(
        s[at + 11],
    ).is_some() && digit_of(s[at + 12]).is_some() && s[at + 13] == ':' && digit_of(
        s[at + 14],
    ).is_some() && digit_of(s[at + 15]).is_some();
    r
}

/// Reading inverts rendering: every valid timestamp comes back from its own
/// 16-character text.
pub proof fn lemma_timestamp_round_trip(t: Timestamp)
    requires
        t.valid(),
    ensures
        spec_parse_timestamp(spec_render_timestamp(t)) == Some(t),
{
    let s = spec_render_timestamp(t);
    assert(is_timestamp_shape(s));
    assert(digit_val(s[0]) == t.year as int / 1000 % 10);
    assert(t.year as int / 1000 % 10 * 1000 + t.year as int / 100 % 10 * 100 + t.year as int / 10
        % 10 * 10 + t.year as int % 10 == t.year as int) by {
        assert(t.year as int / 1000 % 10 == t.year as int / 1000);
        assert(t.year as int == t.year as int / 1000 * 1000 + t.year as int % 1000);
        assert(t.year as int % 1000 == t.year as int % 1000 / 100 * 100 + t.year as int % 1000
            % 100);
        assert(t.year as int % 1000 / 100 == t.year as int / 100 % 10) by (nonlinear_arith)
            requires
                0 <= t.year as int <= 9999,
        ;
        assert(t.year as int % 1000 % 100 == t.year as int % 100);
        assert(t.year as int % 100 == t.year as int % 100 / 10 * 10 + t.year as int % 100 % 10);
        assert(t.year as int % 100 / 10 == t.year as int / 10 % 10) by (nonlinear_arith)
            requires
                0 <= t.year as int <= 9999,
        ;
        assert(t.year as int % 100 % 10 == t.year as int % 10);
    }
    assert(t.month as int / 10 % 10 * 10 + t.month as int % 10 == t.month as int);
    assert(t.day as int / 10 % 10 * 10 + t.day as int % 10 == t.day as int);
    assert(t.hour as int / 10 % 10 * 10 + t.hour as int % 10 == t.hour as int);
    assert(t.minute as int / 10 % 10 * 10 + t.minute as int % 10 == t.minute as int);
    assert(timestamp_of(s) == t);
}

} // verus!
