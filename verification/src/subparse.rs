//! Small query sub-parsers: case-policy words, durations, times of day and
//! range splitting.
//!
//! These read the plain fragments of user input that need no calendar
//! knowledge; resolving natural-language dates stays with the caller.

use vstd::prelude::*;
use crate::chars::{string_chars, chars_to_string, spec_has_uppercase, has_uppercase, matches_at, starts_with_at};
use crate::time::TimeOfDay;
use crate::timetext::{is_digit, digit_val};

verus! {

/// Whether matching under the named case policy is case-insensitive for
/// this pattern: `i`/`ignore` always, `c`/`case-sensitive` never, and
/// `s`/`smart` (or anything else) exactly when the pattern has no
/// uppercase letter.
pub open spec fn spec_smart_case(case: Seq<char>, pattern: Seq<char>) -> bool {
    if case == "i"@ || case == "ignore"@ {
        true
    } else if case == "c"@ || case == "case-sensitive"@ {
        false
    } else {
        !spec_has_uppercase(pattern)
    }
}

/// Decide case-insensitivity from a policy word and the pattern itself.
pub fn parse_smart_case(case: &str, pattern: &str) -> (r: bool)
    ensures
        r == spec_smart_case(case@, pattern@),
{
    let c = crate::chars::str_eq(case, "i") || crate::chars::str_eq(case, "ignore");
    if c {
        true
    } else if crate::chars::str_eq(case, "c") || crate::chars::str_eq(case, "case-sensitive") {
        false
    } else {
        let p = string_chars(pattern);
        !has_uppercase(p.as_slice())
    }
}

/// The digit run starting at `i`.
pub open spec fn digit_run_end(s: Seq<char>, i: int) -> int
    recommends
        0 <= i <= s.len(),
    decreases s.len() - i,
    when 0 <= i <= s.len()
{
    if i < s.len() && is_digit(s[i]) {
        digit_run_end(s, i + 1)
    } else {
        i
    }
}

/// The value of the digit run `s[a..b)`.
pub open spec fn digits_value(s: Seq<char>, a: int, b: int) -> int
    recommends
        0 <= a <= b <= s.len(),
    decreases b - a,
    when 0 <= a <= b <= s.len()
{
    if a >= b {
        0
    } else {
        digits_value(s, a, b - 1) * 10 + digit_val(s[b - 1])
    }
}

/// A duration unit letter, in seconds.
pub open spec fn unit_seconds(c: char) -> int {
    if c == 's' {
        1
    } else if c == 'm' {
        60
    } else if c == 'h' {
        3600
    } else if c == 'd' {
        86400
    } else {
        0
    }
}

pub open spec fn is_unit(c: char) -> bool {
    c == 's' || c == 'm' || c == 'h' || c == 'd'
}

/// The total seconds of the compound tokens from `i` on, and whether any
/// token was found: a token is a maximal digit run directly followed by a
/// unit letter.
pub open spec fn compound_from(s: Seq<char>, i: int) -> (int, bool)
    recommends
        0 <= i <= s.len(),
    decreases s.len() - i,
    when 0 <= i <= s.len()
    via compound_from_decreases
{
    if i >= s.len() {
        (0, false)
    } else if is_digit(s[i]) {
        let e = digit_run_end(s, i);
        if e < s.len() && is_unit(s[e]) {
            let (rest, any) = compound_from(s, e + 1);
            (digits_value(s, i, e) * unit_seconds(s[e]) + rest, true)
        } else {
            compound_from(s, e)
        }
    } else {
        compound_from(s, i + 1)
    }
}

proof fn lemma_digit_run_bounds(s: Seq<char>, i: int)
    requires
        0 <= i <= s.len(),
    ensures
        i <= digit_run_end(s, i) <= s.len(),
        i < s.len() && is_digit(s[i]) ==> i < digit_run_end(s, i),
    decreases s.len() - i,
{
    if i < s.len() && is_digit(s[i]) {
        lemma_digit_run_bounds(s, i + 1);
    }
}

#[via_fn]
proof fn compound_from_decreases(s: Seq<char>, i: int) {
    if i < s.len() && is_digit(s[i]) {
        lemma_digit_run_bounds(s, i);
    }
}

/// The shape `H:MM` or `HH:MM` — a short digit run, a colon, two digits —
/// read as hours and minutes of arbitrary size.
pub open spec fn is_hm_shape(s: Seq<char>) -> bool {
    exists|c: int|
        0 < c < s.len() && #[trigger] s[c] == ':' && (forall|j: int|
            0 <= j < s.len() && j != c ==> is_digit(#[trigger] s[j]))
}

/// The total seconds the duration text names: `H…H:M…M` as hours and
/// minutes, else the sum of the compound tokens.
pub open spec fn spec_duration_seconds(s: Seq<char>) -> Option<int> {
    if is_hm_shape(s) {
        let c = choose|c: int|
            0 < c < s.len() && #[trigger] s[c] == ':' && (forall|j: int|
                0 <= j < s.len() && j != c ==> is_digit(#[trigger] s[j]));
        Some(digits_value(s, 0, c) * 3600 + digits_value(s, c + 1, s.len() as int) * 60)
    } else {
        let (total, any) = compound_from(s, 0);
        if any {
            Some(total)
        } else {
            None
        }
    }
}

fn find_digit_run_end(s: &[char], i: usize) -> (r: usize)
    requires
        i <= s@.len(),
    ensures
        r == digit_run_end(s@, i as int),
        i <= r <= s@.len(),
{
    let mut j: usize = i;
    while j < s.len() && digit_exec(s[j])
        invariant
            i <= j <= s@.len(),
            digit_run_end(s@, i as int) == digit_run_end(s@, j as int),
        decreases s@.len() - j,
    {
        j = j + 1;
    }
    j
}

fn digit_exec(c: char) -> (r: bool)
    ensures
        r == is_digit(c),
{
    let u = c as u32;
    48 <= u && u <= 57
}

/// Read the digit run `s[a..b)` as a number, refusing overflow.
fn read_digits(s: &[char], a: usize, b: usize) -> (r: Option<u64>)
    requires
        a <= b <= s@.len(),
        forall|j: int| a <= j < b ==> is_digit(#[trigger] s@[j]),
    ensures
        r matches Some(v) ==> v == digits_value(s@, a as int, b as int),
        r is None <==> digits_value(s@, a as int, b as int) > u64::MAX,
    decreases b - a,
{
    let mut acc: u64 = 0;
    let mut j: usize = a;
    while j < b
        invariant
            a <= j <= b <= s@.len(),
            forall|k: int| a <= k < b ==> is_digit(#[trigger] s@[k]),
            acc == digits_value(s@, a as int, j as int),
        decreases b - j,
    {
        let u = s[j] as u32;
        assert(is_digit(s@[j as int]));
        let d = (u - 48) as u64;
        if acc > (u64::MAX - d) / 10 {
            proof {
                lemma_digits_value_grow(s@, a as int, j + 1, b as int);
                assert(digits_value(s@, a as int, j + 1) == acc * 10 + d);
            }
            return None;
        }
        acc = acc * 10 + d;
        j = j + 1;
    }
    Some(acc)
}

/// Digit values never shrink as the run extends.
proof fn lemma_digits_value_grow(s: Seq<char>, a: int, j: int, b: int)
    requires
        0 <= a <= j <= b <= s.len(),
        forall|k: int| a <= k < b ==> is_digit(#[trigger] s[k]),
    ensures
        digits_value(s, a, b) >= digits_value(s, a, j),
    decreases b - j,
{
    if j < b {
        lemma_digits_value_grow(s, a, j + 1, b);
        assert(digits_value(s, a, j + 1) == digits_value(s, a, j) * 10 + digit_val(s[j]));
        assert(digit_val(s[j]) >= 0);
        assert(digits_value(s, a, j) >= 0) by {
            lemma_digits_value_nonneg(s, a, j);
        }
    }
}

proof fn lemma_digits_value_nonneg(s: Seq<char>, a: int, b: int)
    requires
        0 <= a <= b <= s.len(),
        forall|k: int| a <= k < b ==> is_digit(#[trigger] s[k]),
    ensures
        digits_value(s, a, b) >= 0,
    decreases b - a,
{
    if a < b {
        lemma_digits_value_nonneg(s, a, b - 1);
    }
}

/// A value above `n / b` multiplied by `b` exceeds `n`.
proof fn lemma_div_mul_bound(a: int, n: int, b: int)
    requires
        b > 0,
        n >= 0,
        a > n / b,
    ensures
        a * b > n,
{
    vstd::arithmetic::div_mod::lemma_fundamental_div_mod(n, b);
    assert(n == b * (n / b) + n % b);
    assert(a * b >= (n / b + 1) * b) by (nonlinear_arith)
        requires
            b > 0 && a >= n / b + 1,
    ;
    assert((n / b + 1) * b == (n / b) * b + b) by (nonlinear_arith);
    assert(b * (n / b) == (n / b) * b) by (nonlinear_arith);
}

/// A nonnegative number times a positive one is at least the number.
proof fn lemma_mul_ge(a: int, b: int)
    requires
        a >= 0,
        b >= 1,
    ensures
        a * b >= a,
{
    assert(a * b >= a * 1) by (nonlinear_arith)
        requires
            a >= 0 && b >= 1,
    ;
}

/// Read a duration: `H:MM`-style hours and minutes, or compound tokens
/// like `2h30m` (`d`, `h`, `m`, `s`).  Yields total seconds; text naming no
/// duration, or one beyond the representable range, is refused.
pub fn parse_duration(duration_str: &str) -> (r: Option<u64>)
    ensures
        r matches Some(v) ==> spec_duration_seconds(duration_str@) == Some(v as int),
        r is None ==> (spec_duration_seconds(duration_str@) is None || (
        spec_duration_seconds(duration_str@) matches Some(t) && t > u64::MAX)),
{
    let s = string_chars(duration_str);
    let n = s.len();
    // try the H:MM shape first: find the colon, check everything else is a digit
    let mut colon: Option<usize> = None;
    let mut all_ok = true;
    let mut k: usize = 0;
    while k < n
        invariant
            n == s@.len(),
            k <= n,
            colon matches Some(c) ==> 0 < c < n && s@[c as int] == ':' && (c as int) < k,
            all_ok && k > 0 ==> (forall|j: int|
                0 <= j < k && (colon matches Some(c) ==> j != c as int) ==> is_digit(
                    #[trigger] s@[j],
                )),
            colon is None && all_ok ==> (forall|j: int| 0 <= j < k ==> is_digit(#[trigger] s@[j])),
            !all_ok ==> !is_hm_shape(s@),
        decreases n - k,
    {
        let c = s[k];
        let u = c as u32;
        if c == ':' {
            if k == 0 {
                proof {
                    if is_hm_shape(s@) {
                        let w = choose|w: int|
                            0 < w < s@.len() && #[trigger] s@[w] == ':' && (forall|j: int|
                                0 <= j < s@.len() && j != w ==> is_digit(#[trigger] s@[j]));
                        assert(is_digit(s@[0]));
                        assert(false);
                    }
                }
                all_ok = false;
            } else if colon.is_some() {
                proof {
                    let c0 = colon->0 as int;
                    if is_hm_shape(s@) {
                        let w = choose|w: int|
                            0 < w < s@.len() && #[trigger] s@[w] == ':' && (forall|j: int|
                                0 <= j < s@.len() && j != w ==> is_digit(#[trigger] s@[j]));
                        if w == c0 {
                            assert(is_digit(s@[k as int]));
                        } else {
                            assert(is_digit(s@[c0]));
                        }
                        assert(false);
                    }
                }
                all_ok = false;
            } else {
                colon = Some(k);
            }
        } else if !(48 <= u && u <= 57) {
            proof {
                if is_hm_shape(s@) {
                    let w = choose|w: int|
                        0 < w < s@.len() && #[trigger] s@[w] == ':' && (forall|j: int|
                            0 <= j < s@.len() && j != w ==> is_digit(#[trigger] s@[j]));
                    if w == k as int {
                        assert(s@[w] == ':');
                    } else {
                        assert(is_digit(s@[k as int]));
                    }
                    assert(false);
                }
            }
            all_ok = false;
        }
        k = k + 1;
    }
    if all_ok && colon.is_some() {
        let c = match colon {
            Some(c) => c,
            None => 0,
        };
        assert(is_hm_shape(s@)) by {
            assert(0 < c < n && s@[c as int] == ':');
            assert(forall|j: int| 0 <= j < n && j != c as int ==> is_digit(#[trigger] s@[j]));
        }
        proof {
            let w = choose|w: int|
                0 < w < s@.len() && #[trigger] s@[w] == ':' && (forall|j: int|
                    0 <= j < s@.len() && j != w ==> is_digit(#[trigger] s@[j]));
            if w != c as int {
                assert(is_digit(s@[w]));
                assert(false);
            }
        }
        let hours = read_digits(s.as_slice(), 0, c);
        let minutes = read_digits(s.as_slice(), c + 1, n);
        let ghost hv = digits_value(s@, 0, c as int);
        let ghost mv = digits_value(s@, c + 1, n as int);
        proof {
            lemma_digits_value_nonneg(s@, 0, c as int);
            lemma_digits_value_nonneg(s@, c + 1, n as int);
        }
        match (hours, minutes) {
            (Some(h), Some(m)) => {
                if h > u64::MAX / 3600 {
                    proof {
                        lemma_div_mul_bound(h as int, u64::MAX as int, 3600);
                        lemma_mul_ge(mv, 60);
                    }
                    return None;
                }
                let hsec = h * 3600;
                if m > (u64::MAX - hsec) / 60 {
                    proof {
                        lemma_div_mul_bound(m as int, u64::MAX as int - hsec as int, 60);
                    }
                    return None;
                }
                proof {
                    lemma_div_mul_bound_inv(m as int, u64::MAX as int - hsec as int, 60);
                }
                Some(hsec + m * 60)
            },
            (None, _) => {
                proof {
                    lemma_mul_ge(hv, 3600);
                    lemma_mul_ge(mv, 60);
                }
                None
            },
            (_, None) => {
                proof {
                    lemma_mul_ge(hv, 3600);
                    lemma_mul_ge(mv, 60);
                }
                None
            },
        }
    } else {
        assert(!is_hm_shape(s@)) by {
            if is_hm_shape(s@) {
                match colon {
                    Some(c) => {
                        assert(!all_ok);
                    },
                    None => {
                        if all_ok {
                            let w = choose|w: int|
                                0 < w < s@.len() && #[trigger] s@[w] == ':' && (forall|j: int|
                                    0 <= j < s@.len() && j != w ==> is_digit(#[trigger] s@[j]));
                            assert(n > 0);
                            assert(is_digit(s@[w]) || s@[w] == ':');
                            assert(s@[w] == ':');
                            assert(forall|j: int| 0 <= j < n ==> is_digit(#[trigger] s@[j]));
                            assert(false);
                        }
                    },
                }
            }
        }
        parse_compound(s.as_slice())
    }
}

/// A value at or below `(n) / b` multiplied by `b` stays at or below `n`.
proof fn lemma_div_mul_bound_inv(a: int, n: int, b: int)
    requires
        b > 0,
        n >= 0,
        0 <= a <= n / b,
    ensures
        a * b <= n,
{
    vstd::arithmetic::div_mod::lemma_fundamental_div_mod(n, b);
    assert(n == b * (n / b) + n % b);
    assert(n % b >= 0) by {
        vstd::arithmetic::div_mod::lemma_mod_bound(n, b);
    }
    assert(a * b <= (n / b) * b) by (nonlinear_arith)
        requires
            b > 0 && 0 <= a <= n / b,
    ;
    assert(b * (n / b) == (n / b) * b) by (nonlinear_arith);
}

/// Read the compound duration tokens of `s`.
fn parse_compound(s: &[char]) -> (r: Option<u64>)
    ensures
        ({
            let (total, any) = compound_from(s@, 0);
            &&& (r matches Some(v) ==> any && v == total)
            &&& (r is None ==> !any || total > u64::MAX)
        }),
{
    let n = s.len();
    let mut total: u64 = 0;
    let mut any = false;
    let mut i: usize = 0;
    while i < n
        invariant
            n == s@.len(),
            i <= n,
            ({
                let (rest, rany) = compound_from(s@, i as int);
                let (full, fany) = compound_from(s@, 0);
                &&& full == total + rest
                &&& fany == (any || rany)
                &&& total <= u64::MAX
            }),
        decreases n - i,
    {
        let c = s[i];
        let u = c as u32;
        if 48 <= u && u <= 57 {
            let e = find_digit_run_end(s, i);
            proof {
                lemma_digit_run_bounds(s@, i as int);
            }
            if e < n && (s[e] == 's' || s[e] == 'm' || s[e] == 'h' || s[e] == 'd') {
                assert(forall|j: int| i <= j < e ==> is_digit(#[trigger] s@[j])) by {
                    lemma_digit_run_all(s@, i as int, e as int);
                }
                let v = read_digits(s, i, e);
                proof {
                    lemma_digits_value_nonneg(s@, i as int, e as int);
                }
                let unit: u64 = if s[e] == 's' {
                    1
                } else if s[e] == 'm' {
                    60
                } else if s[e] == 'h' {
                    3600
                } else {
                    86400
                };
                match v {
                    Some(v) => {
                        if v > u64::MAX / unit {
                            proof {
                                lemma_compound_nonneg(s@, e + 1);
                            }
                            return None;
                        }
                        let add = v * unit;
                        if total > u64::MAX - add {
                            proof {
                                lemma_compound_nonneg(s@, e + 1);
                            }
                            return None;
                        }
                        total = total + add;
                        any = true;
                        i = e + 1;
                    },
                    None => {
                        proof {
                            lemma_compound_nonneg(s@, e + 1);
                        }
                        return None;
                    },
                }
            } else {
                i = e;
            }
        } else {
            i = i + 1;
        }
    }
    if any {
        Some(total)
    } else {
        None
    }
}

/// Every position of a digit run holds a digit.
proof fn lemma_digit_run_all(s: Seq<char>, i: int, e: int)
    requires
        0 <= i <= s.len(),
        e == digit_run_end(s, i),
    ensures
        forall|j: int| i <= j < e ==> is_digit(#[trigger] s[j]),
    decreases s.len() - i,
{
    lemma_digit_run_bounds(s, i);
    if i < s.len() && is_digit(s[i]) {
        lemma_digit_run_all(s, i + 1, e);
    }
}

/// Compound totals are never negative.
proof fn lemma_compound_nonneg(s: Seq<char>, i: int)
    requires
        0 <= i <= s.len(),
    ensures
        compound_from(s, i).0 >= 0,
    decreases s.len() - i,
{
    if i < s.len() {
        if is_digit(s[i]) {
            let e = digit_run_end(s, i);
            lemma_digit_run_bounds(s, i);
            if e < s.len() && is_unit(s[e]) {
                lemma_compound_nonneg(s, e + 1);
                lemma_digit_run_all(s, i, e);
                lemma_digits_value_nonneg(s, i, e);
                crate::subparse::lemma_mul_nonneg(digits_value(s, i, e), unit_seconds(s[e]));
            } else {
                lemma_compound_nonneg(s, e);
            }
        } else {
            lemma_compound_nonneg(s, i + 1);
        }
    }
}

/// The product of two non-negative numbers is non-negative.
pub proof fn lemma_mul_nonneg(a: int, b: int)
    requires
        a >= 0,
        b >= 0,
    ensures
        a * b >= 0,
{
    if a > 0 && b > 0 {
        assert(a * b > 0) by (nonlinear_arith)
            requires
                a > 0 && b > 0,
        ;
    }
}


/// The 24-hour `H:MM`/`HH:MM` clock shape with in-range fields.
pub open spec fn clock_shape(s: Seq<char>) -> Option<TimeOfDay> {
    if s.len() == 4 && is_digit(s[0]) && s[1] == ':' && is_digit(s[2]) && is_digit(s[3]) {
        let h = digit_val(s[0]);
        let m = digit_val(s[2]) * 10 + digit_val(s[3]);
        if m <= 59 {
            Some(TimeOfDay { hour: h as u8, minute: m as u8 })
        } else {
            None
        }
    } else if s.len() == 5 && is_digit(s[0]) && is_digit(s[1]) && s[2] == ':' && is_digit(s[3])
        && is_digit(s[4]) {
        let h = digit_val(s[0]) * 10 + digit_val(s[1]);
        let m = digit_val(s[3]) * 10 + digit_val(s[4]);
        if h <= 23 && m <= 59 {
            Some(TimeOfDay { hour: h as u8, minute: m as u8 })
        } else {
            None
        }
    } else {
        None
    }
}

/// Read a bare time of day in 24-hour clock form (`8:30`, `15:00`).
pub fn parse_clock(s: &str) -> (r: Option<TimeOfDay>)
    ensures
        r == clock_shape(s@),
        r matches Some(t) ==> t.valid(),
{
    let v = string_chars(s);
    let n = v.len();
    if n == 4 && digit_exec(v[0]) && v[1] == ':' && digit_exec(v[2]) && digit_exec(v[3]) {
        let h = (v[0] as u32 - 48) as u8;
        let m = ((v[2] as u32 - 48) * 10 + (v[3] as u32 - 48)) as u8;
        if m <= 59 {
            Some(TimeOfDay { hour: h, minute: m })
        } else {
            None
        }
    } else if n == 5 && digit_exec(v[0]) && digit_exec(v[1]) && v[2] == ':' && digit_exec(v[3])
        && digit_exec(v[4]) {
        let h = ((v[0] as u32 - 48) * 10 + (v[1] as u32 - 48)) as u8;
        let m = ((v[3] as u32 - 48) * 10 + (v[4] as u32 - 48)) as u8;
        if h <= 23 && m <= 59 {
            Some(TimeOfDay { hour: h, minute: m })
        } else {
            None
        }
    } else {
        None
    }
}

/// The position of the first occurrence of `sep` in `s`, if any.
pub open spec fn first_occurrence(s: Seq<char>, sep: Seq<char>) -> int
    decreases s.len(),
{
    if matches_at(s, sep, 0) {
        0
    } else if s.len() == 0 {
        -1
    } else {
        let r = first_occurrence(s.drop_first(), sep);
        if r < 0 {
            -1
        } else {
            r + 1
        }
    }
}

fn find_first(s: &[char], sep: &[char]) -> (r: Option<usize>)
    requires
        sep@.len() > 0,
    ensures
        r matches Some(p) ==> first_occurrence(s@, sep@) == p as int && p + sep@.len() <= s@.len(),
        r is None ==> first_occurrence(s@, sep@) < 0,
{
    let n = s.len();
    let mut i: usize = 0;
    while i < n
        invariant
            n == s@.len(),
            sep@.len() > 0,
            i <= n,
            forall|q: int| 0 <= q < i ==> !matches_at(s@, sep@, q),
        decreases n - i,
    {
        if starts_with_at(s, sep, i) {
            proof {
                lemma_first_occurrence_at(s@, sep@, i as int);
            }
            return Some(i);
        }
        i = i + 1;
    }
    proof {
        assert(forall|q: int| 0 <= q <= s@.len() ==> !matches_at(s@, sep@, q)) by {
            assert(!matches_at(s@, sep@, s@.len() as int));
        }
        lemma_first_occurrence_none(s@, sep@);
    }
    None
}

proof fn lemma_first_occurrence_at(s: Seq<char>, sep: Seq<char>, p: int)
    requires
        sep.len() > 0,
        0 <= p,
        matches_at(s, sep, p),
        forall|q: int| 0 <= q < p ==> !matches_at(s, sep, q),
    ensures
        first_occurrence(s, sep) == p,
    decreases p,
{
    if p == 0 {
    } else {
        assert(s.len() > 0);
        let tail = s.drop_first();
        assert(matches_at(tail, sep, p - 1)) by {
            assert(tail.subrange(p - 1, p - 1 + sep.len()) =~= s.subrange(p, p + sep.len()));
        }
        assert forall|q: int| 0 <= q < p - 1 implies !matches_at(tail, sep, q) by {
            if matches_at(tail, sep, q) {
                assert(matches_at(s, sep, q + 1)) by {
                    assert(s.subrange(q + 1, q + 1 + sep.len()) =~= tail.subrange(
                        q,
                        q + sep.len(),
                    ));
                }
            }
        }
        lemma_first_occurrence_at(tail, sep, p - 1);
        assert(!matches_at(s, sep, 0));
    }
}

proof fn lemma_first_occurrence_none(s: Seq<char>, sep: Seq<char>)
    requires
        sep.len() > 0,
        forall|q: int| 0 <= q <= s.len() ==> !matches_at(s, sep, q),
    ensures
        first_occurrence(s, sep) < 0,
    decreases s.len(),
{
    assert(!matches_at(s, sep, 0));
    if s.len() > 0 {
        let tail = s.drop_first();
        assert forall|q: int| 0 <= q <= tail.len() implies !matches_at(tail, sep, q) by {
            if matches_at(tail, sep, q) {
                assert(matches_at(s, sep, q + 1)) by {
                    assert(s.subrange(q + 1, q + 1 + sep.len()) =~= tail.subrange(
                        q,
                        q + sep.len(),
                    ));
                }
            }
        }
        lemma_first_occurrence_none(tail, sep);
    }
}

/// Split a range expression at the first ` to `, ` through ` or ` - `
/// separator — tried in that order over the whole text — into its start and
/// end parts; text with no separator is a single start.
pub fn split_range(range_str: &str) -> (r: (String, Option<String>))
    ensures
        ({
            let s = range_str@;
            let p_to = first_occurrence(s, " to "@);
            let p_thru = first_occurrence(s, " through "@);
            let p_dash = first_occurrence(s, " - "@);
            &&& (p_to >= 0 ==> r.0@ == s.take(p_to) && (r.1 matches Some(e) && e@ == s.skip(
                p_to + 4,
            )))
            &&& (p_to < 0 && p_thru >= 0 ==> r.0@ == s.take(p_thru) && (r.1 matches Some(e) && e@
                == s.skip(p_thru + 9)))
            &&& (p_to < 0 && p_thru < 0 && p_dash >= 0 ==> r.0@ == s.take(p_dash) && (r.1 matches
                Some(e) && e@ == s.skip(p_dash + 3)))
            &&& (p_to < 0 && p_thru < 0 && p_dash < 0 ==> r.0@ == s && r.1 is None)
        }),
{
    let v = string_chars(range_str);
    let vlen = v.len();
    proof {
        reveal_strlit(" to ");
        reveal_strlit(" through ");
        reveal_strlit(" - ");
    }
    let sep_to = string_chars(" to ");
    let sep_thru = string_chars(" through ");
    let sep_dash = string_chars(" - ");
    assert(sep_to@.len() == 4);
    assert(sep_thru@.len() == 9);
    assert(sep_dash@.len() == 3);
    match find_first(v.as_slice(), sep_to.as_slice()) {
        Some(p) => {
            assert(p + 4 <= vlen);
            let start = copy_prefix(v.as_slice(), p);
            let end = copy_suffix(v.as_slice(), p + 4);
            return (chars_to_string(start.as_slice()), Some(chars_to_string(end.as_slice())));
        },
        None => {},
    }
    match find_first(v.as_slice(), sep_thru.as_slice()) {
        Some(p) => {
            assert(p + 9 <= vlen);
            let start = copy_prefix(v.as_slice(), p);
            let end = copy_suffix(v.as_slice(), p + 9);
            return (chars_to_string(start.as_slice()), Some(chars_to_string(end.as_slice())));
        },
        None => {},
    }
    match find_first(v.as_slice(), sep_dash.as_slice()) {
        Some(p) => {
            assert(p + 3 <= vlen);
            let start = copy_prefix(v.as_slice(), p);
            let end = copy_suffix(v.as_slice(), p + 3);
            return (chars_to_string(start.as_slice()), Some(chars_to_string(end.as_slice())));
        },
        None => {},
    }
    let whole = copy_prefix(v.as_slice(), v.len());
    (chars_to_string(whole.as_slice()), None)
}

fn copy_prefix(s: &[char], p: usize) -> (r: Vec<char>)
    requires
        p <= s@.len(),
    ensures
        r@ == s@.take(p as int),
{
    let mut r: Vec<char> = Vec::new();
    let mut i: usize = 0;
    while i < p
        invariant
            i <= p <= s@.len(),
            r@ =~= s@.take(i as int),
        decreases p - i,
    {
        r.push(s[i]);
        assert(r@ =~= s@.take(i + 1));
        i = i + 1;
    }
    r
}

fn copy_suffix(s: &[char], p: usize) -> (r: Vec<char>)
    requires
        p <= s@.len(),
    ensures
        r@ == s@.skip(p as int),
{
    let mut r: Vec<char> = Vec::new();
    let mut i: usize = p;
    while i < s.len()
        invariant
            p <= i <= s@.len(),
            r@ =~= s@.subrange(p as int, i as int),
        decreases s@.len() - i,
    {
        r.push(s[i]);
        assert(r@ =~= s@.subrange(p as int, i + 1));
        i = i + 1;
    }
    assert(r@ =~= s@.skip(p as int));
    r
}


/// The whitespace run starting at `i`.
pub open spec fn space_run_end(s: Seq<char>, i: int) -> int
    recommends
        0 <= i <= s.len(),
    decreases s.len() - i,
    when 0 <= i <= s.len()
{
    if i < s.len() && crate::tags::is_space(s[i]) {
        space_run_end(s, i + 1)
    } else {
        i
    }
}

/// The meridian suffix starting at `i`, after optional whitespace: `am`
/// yields `Some(false)`, `pm` yields `Some(true)` (ASCII case folded),
/// anything else nothing.
pub open spec fn meridian_suffix(s: Seq<char>, i: int) -> Option<bool>
    recommends
        0 <= i <= s.len(),
{
    let j = space_run_end(s, i);
    if j + 2 == s.len() && (s[j + 1] == 'm' || s[j + 1] == 'M') {
        if s[j] == 'a' || s[j] == 'A' {
            Some(false)
        } else if s[j] == 'p' || s[j] == 'P' {
            Some(true)
        } else {
            None
        }
    } else {
        None
    }
}

/// A 12-hour hour and the meridian flag folded to a 24-hour hour.
pub open spec fn fold_meridian(h: int, pm: bool) -> int {
    if pm && h != 12 {
        h + 12
    } else if !pm && h == 12 {
        0
    } else {
        h
    }
}

/// The time of day an am/pm expression names: one or two hour digits, an
/// optional `:MM`, optional whitespace, then `am` or `pm` in any ASCII
/// case.  Text whose folded hour or minutes name no real time of day
/// yields nothing.
pub open spec fn meridian_of(s: Seq<char>) -> Option<TimeOfDay> {
    let de = digit_run_end(s, 0);
    if 1 <= de <= 2 {
        let parts: Option<(int, int)> = if de < s.len() && s[de] == ':' {
            if de + 3 <= s.len() && is_digit(s[de + 1]) && is_digit(s[de + 2]) {
                match meridian_suffix(s, de + 3) {
                    Some(pm) => Some(
                        (
                            fold_meridian(digits_value(s, 0, de), pm),
                            digits_value(s, de + 1, de + 3),
                        ),
                    ),
                    None => None,
                }
            } else {
                None
            }
        } else {
            match meridian_suffix(s, de) {
                Some(pm) => Some((fold_meridian(digits_value(s, 0, de), pm), 0int)),
                None => None,
            }
        };
        match parts {
            Some((h, m)) => {
                if 0 <= h <= 23 && 0 <= m <= 59 {
                    Some(TimeOfDay { hour: h as u8, minute: m as u8 })
                } else {
                    None
                }
            },
            None => None,
        }
    } else {
        None
    }
}

fn find_space_run_end(s: &[char], i: usize) -> (r: usize)
    requires
        i <= s@.len(),
    ensures
        r == space_run_end(s@, i as int),
        i <= r <= s@.len(),
{
    let mut j: usize = i;
    while j < s.len() && crate::tags::space_char(s[j])
        invariant
            i <= j <= s@.len(),
            space_run_end(s@, i as int) == space_run_end(s@, j as int),
        decreases s@.len() - j,
    {
        j = j + 1;
    }
    j
}

fn read_meridian_suffix(s: &[char], i: usize) -> (r: Option<bool>)
    requires
        i <= s@.len(),
    ensures
        r == meridian_suffix(s@, i as int),
{
    let j = find_space_run_end(s, i);
    let n = s.len();
    if n >= 2 && j == n - 2 && (s[j + 1] == 'm' || s[j + 1] == 'M') {
        if s[j] == 'a' || s[j] == 'A' {
            Some(false)
        } else if s[j] == 'p' || s[j] == 'P' {
            Some(true)
        } else {
            None
        }
    } else {
        None
    }
}

/// Read a 12-hour am/pm time of day (`8am`, `12:30 PM`).
pub fn parse_meridian(s: &str) -> (r: Option<TimeOfDay>)
    ensures
        r == meridian_of(s@),
        r matches Some(t) ==> t.valid(),
{
    let v = string_chars(s);
    let de = find_digit_run_end(v.as_slice(), 0);
    if de < 1 || de > 2 {
        return None;
    }
    proof {
        lemma_digit_run_all(v@, 0, de as int);
        lemma_digits_value_nonneg(v@, 0, de as int);
    }
    let hour_raw = match read_digits(v.as_slice(), 0, de) {
        Some(h) => h,
        None => {
            proof {
                assert(false) by {
                    lemma_digits_value_small(v@, 0, de as int);
                }
            }
            0
        },
    };
    let parts: Option<(u64, u64)> = if de < v.len() && v[de] == ':' {
        if de + 3 <= v.len() && digit_exec(v[de + 1]) && digit_exec(v[de + 2]) {
            match read_meridian_suffix(v.as_slice(), de + 3) {
                Some(pm) => {
                    let m0 = (v[de + 1] as u32 - 48) as u64;
                    let m1 = (v[de + 2] as u32 - 48) as u64;
                    let minute = m0 * 10 + m1;
                    assert(minute == digits_value(v@, de + 1, de + 3)) by {
                        assert(digits_value(v@, de + 1, de + 3) == digits_value(
                            v@,
                            de + 1,
                            de + 2,
                        ) * 10 + digit_val(v@[de + 2]));
                        assert(digits_value(v@, de + 1, de + 2) == digits_value(
                            v@,
                            de + 1,
                            de + 1,
                        ) * 10 + digit_val(v@[de + 1]));
                    }
                    proof {
                        lemma_digits_value_small(v@, 0, de as int);
                    }
                    Some((fold_hour(hour_raw, pm), minute))
                },
                None => None,
            }
        } else {
            None
        }
    } else {
        match read_meridian_suffix(v.as_slice(), de) {
            Some(pm) => {
                proof {
                    lemma_digits_value_small(v@, 0, de as int);
                }
                Some((fold_hour(hour_raw, pm), 0))
            },
            None => None,
        }
    };
    match parts {
        Some((h, m)) => {
            if h <= 23 && m <= 59 {
                Some(TimeOfDay { hour: h as u8, minute: m as u8 })
            } else {
                None
            }
        },
        None => None,
    }
}

/// The value of at most two digits stays far below any overflow.
proof fn lemma_digits_value_small(s: Seq<char>, a: int, b: int)
    requires
        0 <= a <= b <= s.len(),
        b - a <= 2,
        forall|k: int| a <= k < b ==> is_digit(#[trigger] s[k]),
    ensures
        digits_value(s, a, b) <= 99,
{
    lemma_digits_value_nonneg(s, a, b);
    if b - a == 1 {
        assert(digits_value(s, a, b) == digits_value(s, a, b - 1) * 10 + digit_val(s[b - 1]));
        assert(digits_value(s, a, b - 1) == 0);
    } else if b - a == 2 {
        assert(digits_value(s, a, b) == digits_value(s, a, b - 1) * 10 + digit_val(s[b - 1]));
        assert(digits_value(s, a, b - 1) == digits_value(s, a, b - 2) * 10 + digit_val(s[b - 2]));
        assert(digits_value(s, a, b - 2) == 0);
    }
}

fn fold_hour(h: u64, pm: bool) -> (r: u64)
    requires
        h <= 99,
    ensures
        r == fold_meridian(h as int, pm),
{
    if pm && h != 12 {
        h + 12
    } else if !pm && h == 12 {
        0
    } else {
        h
    }
}

/// Read a bare time of day: the 24-hour clock form, else the am/pm form.
pub fn parse_time_of_day(s: &str) -> (r: Option<TimeOfDay>)
    ensures
        clock_shape(s@) is Some ==> r == clock_shape(s@),
        clock_shape(s@) is None ==> r == meridian_of(s@),
        r matches Some(t) ==> t.valid(),
{
    match parse_clock(s) {
        Some(t) => Some(t),
        None => parse_meridian(s),
    }
}

} // verus!
