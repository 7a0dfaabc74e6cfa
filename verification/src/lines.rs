//! Splitting file content into lines, and the byte-offset arithmetic that
//! turns a (line, column) location back into an offset within the content.
//!
//! Lines are split on newline bytes; one trailing carriage return is stripped
//! from each piece, and a final newline does not open an empty last line.

use vstd::prelude::*;

verus! {

broadcast use vstd::slice::group_slice_axioms;

/// The byte that separates lines.
pub const NEWLINE: u8 = 10;

/// The carriage-return byte, stripped from a line's end.
pub const CARRIAGE_RETURN: u8 = 13;

/// `l` with one trailing carriage return removed, if it ends in one.
pub open spec fn strip_cr(l: Seq<u8>) -> Seq<u8> {
    if l.len() > 0 && l.last() == CARRIAGE_RETURN {
        l.drop_last()
    } else {
        l
    }
}

/// Index of the first newline byte in `s`, or -1 if there is none.
pub open spec fn find_newline(s: Seq<u8>) -> int
    decreases s.len(),
{
    if s.len() == 0 {
        -1
    } else if s[0] == NEWLINE {
        0
    } else {
        let r = find_newline(s.drop_first());
        if r < 0 {
            -1
        } else {
            r + 1
        }
    }
}

/// `find_newline` is the least index of a newline byte, and is -1 exactly
/// when `s` holds no newline byte.
proof fn lemma_find_newline(s: Seq<u8>)
    ensures
        find_newline(s) >= 0 ==> {
            let f = find_newline(s);
            &&& f < s.len()
            &&& s[f] == NEWLINE
            &&& forall|k: int| 0 <= k < f ==> s[k] != NEWLINE
        },
        find_newline(s) < 0 ==> find_newline(s) == -1 && (forall|k: int|
            0 <= k < s.len() ==> s[k] != NEWLINE),
    decreases s.len(),
{
    if s.len() == 0 {
    } else if s[0] == NEWLINE {
    } else {
        lemma_find_newline(s.drop_first());
        let r = find_newline(s.drop_first());
        if r >= 0 {
            assert(forall|k: int| 0 <= k < r ==> s.drop_first()[k] != NEWLINE);
            assert forall|k: int| 0 <= k < r + 1 implies s[k] != NEWLINE by {
                if k >= 1 {
                    assert(s[k] == s.drop_first()[k - 1]);
                }
            }
        } else {
            assert forall|k: int| 0 <= k < s.len() implies s[k] != NEWLINE by {
                if k >= 1 {
                    assert(s[k] == s.drop_first()[k - 1]);
                }
            }
        }
    }
}

/// The lines of `s`.
pub open spec fn split_lines_spec(s: Seq<u8>) -> Seq<Seq<u8>>
    decreases s.len(),
{
    if s.len() == 0 {
        Seq::empty()
    } else {
        let i = find_newline(s);
        if 0 <= i && i < s.len() {
            seq![strip_cr(s.subrange(0, i))] + split_lines_spec(s.subrange(i + 1, s.len() as int))
        } else {
            seq![strip_cr(s)]
        }
    }
}

/// Scans forward from `pos` for the next newline byte; returns the content
/// length when there is none.
fn scan_to_newline(content: &[u8], pos: usize) -> (j: usize)
    requires
        pos <= content@.len(),
    ensures
        pos <= j <= content@.len(),
        forall|k: int| pos <= k < j ==> content@[k] != NEWLINE,
        j < content@.len() ==> content@[j as int] == NEWLINE,
{
    let n = content.len();
    let mut j = pos;
    while j < n
        invariant
            pos <= j <= n,
            n == content@.len(),
            forall|k: int| pos <= k < j ==> content@[k] != NEWLINE,
        decreases n - j,
    {
        if *vstd::slice::slice_index_get(content, j) == NEWLINE {
            return j;
        }
        j += 1;
    }
    j
}

/// Splits `content` into its lines.
pub fn split_lines(content: &[u8]) -> (r: Vec<Vec<u8>>)
    ensures
        r.deep_view() == split_lines_spec(content@),
{
    let n = content.len();
    let mut lines: Vec<Vec<u8>> = Vec::new();
    let mut pos: usize = 0;
    assert(content@.subrange(0, n as int) =~= content@);
    assert(lines.deep_view() =~= Seq::<Seq<u8>>::empty());
    assert(Seq::<Seq<u8>>::empty() + split_lines_spec(content@) =~= split_lines_spec(content@));
    while pos < n
        invariant
            n == content@.len(),
            0 <= pos <= n,
            split_lines_spec(content@) == lines.deep_view() + split_lines_spec(
                content@.subrange(pos as int, n as int),
            ),
        decreases n - pos,
    {
        let ghost prev_lines = lines.deep_view();
        let ghost suffix = content@.subrange(pos as int, n as int);
        let j = scan_to_newline(content, pos);
        let mut line: Vec<u8> = vstd::slice::slice_to_vec(vstd::slice::slice_subrange(
            content,
            pos,
            j,
        ));
        if line.len() > 0 && line[line.len() - 1] == CARRIAGE_RETURN {
            line.pop();
        }
        assert(line@ == strip_cr(content@.subrange(pos as int, j as int)));
        proof {
            lemma_find_newline(suffix);
            let f = find_newline(suffix);
            if j < n {
                assert(suffix[j - pos] == NEWLINE);
                assert(f >= 0) by {
                    if f < 0 {
                        assert(suffix[j - pos] != NEWLINE);
                    }
                }
                assert(f == j - pos) by {
                    if f < j - pos {
                        assert(content@[pos + f] == suffix[f]);
                    }
                }
                assert(suffix.subrange(0, f) =~= content@.subrange(pos as int, j as int));
                assert(suffix.subrange(f + 1, suffix.len() as int) =~= content@.subrange(
                    j + 1,
                    n as int,
                ));
                assert(strip_cr(suffix.subrange(0, f)) == line@);
                assert(split_lines_spec(suffix) == seq![strip_cr(suffix.subrange(0, f))]
                    + split_lines_spec(suffix.subrange(f + 1, suffix.len() as int)));
                assert(split_lines_spec(suffix) =~= seq![line@] + split_lines_spec(
                    content@.subrange(j + 1, n as int),
                ));
            } else {
                assert(f == -1) by {
                    if f >= 0 {
                        assert(suffix[f] == NEWLINE);
                    }
                }
                assert(suffix =~= content@.subrange(pos as int, j as int));
                assert(split_lines_spec(suffix) == seq![line@]);
                assert(content@.subrange(n as int, n as int) =~= Seq::<u8>::empty());
            }
        }
        lines.push(line);
        assert(lines.deep_view() =~~= prev_lines.push(line@));
        assert(prev_lines.push(line@) =~= prev_lines + seq![line@]);
        if j < n {
            pos = j + 1;
        } else {
            pos = n;
        }
        assert(prev_lines + (seq![line@] + split_lines_spec(
            content@.subrange(pos as int, n as int),
        )) =~= (prev_lines + seq![line@]) + split_lines_spec(
            content@.subrange(pos as int, n as int),
        ));
    }
    assert(content@.subrange(pos as int, n as int) =~= Seq::<u8>::empty());
    assert(lines.deep_view() + Seq::<Seq<u8>>::empty() =~= lines.deep_view());
    lines
}

/// Byte offset of the start of line `n` (0-based) within the content the
/// lines were split from: the lengths of the `n` preceding lines, plus one
/// separator byte after each.
pub open spec fn offset_sum(lines: Seq<Seq<u8>>, n: int) -> int
    decreases n,
{
    if n <= 0 {
        0
    } else {
        offset_sum(lines, n - 1) + lines[n - 1].len() + 1
    }
}

proof fn lemma_offset_sum_nonneg(lines: Seq<Seq<u8>>, n: int)
    ensures
        n >= 0 ==> offset_sum(lines, n) >= 0,
    decreases n,
{
    if n > 0 {
        lemma_offset_sum_nonneg(lines, n - 1);
    }
}

pub proof fn lemma_offset_sum_monotone(lines: Seq<Seq<u8>>, a: int, b: int)
    requires
        0 <= a <= b,
    ensures
        0 <= offset_sum(lines, a) <= offset_sum(lines, b),
    decreases b - a,
{
    lemma_offset_sum_nonneg(lines, a);
    if a < b {
        lemma_offset_sum_monotone(lines, a, b - 1);
    }
}

proof fn lemma_offset_sum_cons(l0: Seq<u8>, rest: Seq<Seq<u8>>, n: int)
    requires
        0 <= n <= rest.len(),
    ensures
        offset_sum(seq![l0] + rest, n + 1) == l0.len() + 1 + offset_sum(rest, n),
    decreases n,
{
    let cons = seq![l0] + rest;
    assert(offset_sum(cons, n + 1) == offset_sum(cons, n) + cons[n].len() + 1);
    if n == 0 {
        assert(cons[0] == l0);
    } else {
        lemma_offset_sum_cons(l0, rest, n - 1);
        assert(cons[n] == rest[n - 1]);
        assert(offset_sum(rest, n) == offset_sum(rest, n - 1) + rest[n - 1].len() + 1);
    }
}

/// The first `n` lines together with their separators, and the line after
/// them, all fit within the content they were split from.
pub proof fn lemma_offset_sum_bound(s: Seq<u8>, n: int)
    requires
        0 <= n < split_lines_spec(s).len(),
    ensures
        offset_sum(split_lines_spec(s), n) + split_lines_spec(s)[n].len() <= s.len(),
    decreases s.len(),
{
    let lines = split_lines_spec(s);
    lemma_find_newline(s);
    let i = find_newline(s);
    if n == 0 {
        assert(offset_sum(lines, 0) == 0);
        if s.len() > 0 && 0 <= i < s.len() {
            assert(lines[0] == strip_cr(s.subrange(0, i)));
        }
    } else {
        assert(s.len() > 0 && 0 <= i < s.len());
        let l0 = strip_cr(s.subrange(0, i));
        let rest_content = s.subrange(i + 1, s.len() as int);
        let rest = split_lines_spec(rest_content);
        assert(lines == seq![l0] + rest);
        assert(lines[n] == rest[n - 1]);
        lemma_offset_sum_bound(rest_content, n - 1);
        lemma_offset_sum_cons(l0, rest, n - 1);
        assert(l0.len() <= i);
    }
}

} // verus!
