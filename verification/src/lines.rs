//! Splitting text into lines and joining lines back.
//!
//! Lines are split at `\n`, a `\r` directly before the split is dropped, and
//! a final line ending is optional: text ending in `\n` yields no empty last
//! line.  Joining puts a single `\n` between lines and none at the end.

use vstd::prelude::*;

verus! {

/// The first `\n` at or after `i`, or the length of `s`.
pub open spec fn first_nl(s: Seq<char>, i: int) -> int
    recommends
        0 <= i <= s.len(),
    decreases s.len() - i,
    when 0 <= i <= s.len()
{
    if i < s.len() && s[i] != '\n' {
        first_nl(s, i + 1)
    } else {
        i
    }
}

pub proof fn lemma_first_nl_bounds(s: Seq<char>, i: int)
    requires
        0 <= i <= s.len(),
    ensures
        i <= first_nl(s, i) <= s.len(),
    decreases s.len() - i,
{
    if i < s.len() && s[i] != '\n' {
        lemma_first_nl_bounds(s, i + 1);
    }
}

/// A line with a trailing carriage return dropped.
pub open spec fn strip_cr(l: Seq<char>) -> Seq<char> {
    if l.len() > 0 && l.last() == '\r' {
        l.drop_last()
    } else {
        l
    }
}

/// The lines of `s` from position `i` on.
pub open spec fn spec_lines_from(s: Seq<char>, i: int) -> Seq<Seq<char>>
    recommends
        0 <= i <= s.len(),
    decreases s.len() - i,
    when 0 <= i <= s.len()
    via spec_lines_from_decreases
{
    if i >= s.len() {
        Seq::empty()
    } else {
        let nl = first_nl(s, i);
        if nl >= s.len() {
            seq![s.subrange(i, s.len() as int)]
        } else {
            seq![strip_cr(s.subrange(i, nl))] + spec_lines_from(s, nl + 1)
        }
    }
}

#[via_fn]
proof fn spec_lines_from_decreases(s: Seq<char>, i: int) {
    if i < s.len() {
        lemma_first_nl_bounds(s, i);
    }
}

/// The lines of `s`.
pub open spec fn spec_lines(s: Seq<char>) -> Seq<Seq<char>> {
    spec_lines_from(s, 0)
}

/// The views of a vector of character lines.
pub open spec fn line_views(ls: Seq<Vec<char>>) -> Seq<Seq<char>> {
    ls.map(|i: int, l: Vec<char>| l@)
}

fn find_nl(s: &[char], i: usize) -> (r: usize)
    requires
        i <= s@.len(),
    ensures
        r == first_nl(s@, i as int),
        i <= r <= s@.len(),
{
    let mut j: usize = i;
    while j < s.len() && s[j] != '\n'
        invariant
            i <= j <= s@.len(),
            first_nl(s@, i as int) == first_nl(s@, j as int),
        decreases s@.len() - j,
    {
        j = j + 1;
    }
    j
}

fn copy_range(s: &[char], a: usize, b: usize) -> (r: Vec<char>)
    requires
        a <= b <= s@.len(),
    ensures
        r@ == s@.subrange(a as int, b as int),
{
    let mut r: Vec<char> = Vec::new();
    let mut i: usize = a;
    while i < b
        invariant
            a <= i <= b <= s@.len(),
            r@ =~= s@.subrange(a as int, i as int),
        decreases b - i,
    {
        r.push(s[i]);
        assert(r@ =~= s@.subrange(a as int, i + 1));
        i = i + 1;
    }
    assert(r@ =~= s@.subrange(a as int, b as int));
    r
}

/// Split `s` into its lines.
pub fn split_lines(s: &[char]) -> (r: Vec<Vec<char>>)
    ensures
        line_views(r@) == spec_lines(s@),
{
    let n = s.len();
    let mut out: Vec<Vec<char>> = Vec::new();
    let mut i: usize = 0;
    while i < n
        invariant
            n == s@.len(),
            i <= n,
            spec_lines(s@) =~= line_views(out@) + spec_lines_from(s@, i as int),
        decreases n - i,
    {
        let ghost before = line_views(out@);
        let nl = find_nl(s, i);
        let mut line = copy_range(s, i, nl);
        if nl < n {
            if line.len() > 0 && line[line.len() - 1] == '\r' {
                let _ = line.pop();
                assert(line@ =~= strip_cr(s@.subrange(i as int, nl as int)));
            }
            assert(line@ == strip_cr(s@.subrange(i as int, nl as int)));
            out.push(line);
            assert(line_views(out@) =~= before + seq![strip_cr(s@.subrange(i as int, nl as int))]);
            assert(spec_lines_from(s@, i as int) =~= seq![
                strip_cr(s@.subrange(i as int, nl as int)),
            ] + spec_lines_from(s@, nl + 1));
            assert(before + (seq![strip_cr(s@.subrange(i as int, nl as int))] + spec_lines_from(
                s@,
                nl + 1,
            )) =~= (before + seq![strip_cr(s@.subrange(i as int, nl as int))]) + spec_lines_from(
                s@,
                nl + 1,
            ));
            i = nl + 1;
        } else {
            assert(line@ == s@.subrange(i as int, n as int));
            out.push(line);
            assert(line_views(out@) =~= before + seq![s@.subrange(i as int, n as int)]);
            assert(spec_lines_from(s@, i as int) =~= seq![s@.subrange(i as int, n as int)]);
            i = n;
            assert(spec_lines_from(s@, i as int) =~= Seq::<Seq<char>>::empty());
        }
    }
    assert(spec_lines_from(s@, i as int) =~= Seq::<Seq<char>>::empty());
    assert(line_views(out@) =~= spec_lines(s@));
    out
}

/// Lines joined by a single `\n`, with no trailing newline.
pub open spec fn spec_join(ls: Seq<Seq<char>>) -> Seq<char>
    decreases ls.len(),
{
    if ls.len() == 0 {
        Seq::empty()
    } else if ls.len() == 1 {
        ls[0]
    } else {
        spec_join(ls.drop_last()) + seq!['\n'] + ls.last()
    }
}

fn push_all(out: &mut Vec<char>, s: &[char])
    ensures
        final(out)@ == old(out)@ + s@,
{
    let mut i: usize = 0;
    while i < s.len()
        invariant
            i <= s@.len(),
            out@ =~= old(out)@ + s@.subrange(0, i as int),
        decreases s@.len() - i,
    {
        out.push(s[i]);
        assert(out@ =~= old(out)@ + s@.subrange(0, i + 1));
        i = i + 1;
    }
    assert(out@ =~= old(out)@ + s@);
}

/// Join lines with `\n`.
pub fn join_lines(ls: &Vec<Vec<char>>) -> (r: Vec<char>)
    ensures
        r@ == spec_join(line_views(ls@)),
{
    let n = ls.len();
    let mut out: Vec<char> = Vec::new();
    let mut k: usize = 0;
    while k < n
        invariant
            n == ls@.len(),
            k <= n,
            out@ =~= spec_join(line_views(ls@).take(k as int)),
        decreases n - k,
    {
        let ghost full = line_views(ls@);
        let ghost before = out@;
        if k > 0 {
            out.push('\n');
        }
        push_all(&mut out, ls[k].as_slice());
        proof {
            assert(full.take(k + 1).drop_last() =~= full.take(k as int));
            assert(full.take(k + 1).last() == full[k as int]);
            if k == 0 {
                assert(full.take(1) =~= seq![full[0]]);
                assert(out@ =~= full[0]);
            } else {
                assert(out@ =~= spec_join(full.take(k as int)) + seq!['\n'] + full[k as int]);
            }
        }
        k = k + 1;
    }
    assert(line_views(ls@).take(n as int) =~= line_views(ls@));
    out
}

} // verus!
