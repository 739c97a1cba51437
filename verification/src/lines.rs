//! Splitting file contents into lines, and trimming a line for display.
//!
//! A line break is a line feed byte; a carriage return directly before a
//! line feed belongs to the break, not to the line. Content after the last
//! break forms a final line; a trailing break adds no empty line.

use crate::rules::is_line_ws;
use vstd::prelude::*;
use vstd::slice::{slice_subrange, slice_to_vec};

verus! {

/// The index of the first line feed byte of `s`, or `s.len()` if there is
/// none.
pub open spec fn first_nl(s: Seq<u8>) -> int
    decreases s.len(),
{
    if s.len() == 0 {
        0
    } else if s[0] == 10 {
        0
    } else {
        1 + first_nl(s.subrange(1, s.len() as int))
    }
}

/// The first line feed is at `k` when nothing before `k` is a line feed and
/// `k` is one, or is past the end.
pub proof fn lemma_first_nl_at(s: Seq<u8>, k: int)
    requires
        0 <= k <= s.len(),
        forall|t: int| 0 <= t < k ==> #[trigger] s[t] != 10,
        k < s.len() ==> s[k] == 10,
    ensures
        first_nl(s) == k,
    decreases k,
{
    if k == 0 {
    } else {
        let tail = s.subrange(1, s.len() as int);
        assert forall|t: int| 0 <= t < k - 1 implies #[trigger] tail[t] != 10 by {
            assert(s[t + 1] != 10);
        }
        lemma_first_nl_at(tail, k - 1);
    }
}

/// Drops a single carriage return from the end of a line, if present.
pub open spec fn strip_cr(s: Seq<u8>) -> Seq<u8> {
    if s.len() > 0 && s[s.len() - 1] == 13 {
        s.subrange(0, s.len() - 1)
    } else {
        s
    }
}

/// The lines of `s`: the piece up to each line feed, with a carriage return
/// just before the line feed dropped, and whatever follows the last line
/// feed as a final line if it is not empty.
pub open spec fn split_lines(s: Seq<u8>) -> Seq<Seq<u8>>
    decreases s.len(),
{
    if s.len() == 0 {
        Seq::empty()
    } else {
        let k = first_nl(s);
        if 0 <= k < s.len() {
            seq![strip_cr(s.subrange(0, k))] + split_lines(s.subrange(k + 1, s.len() as int))
        } else {
            seq![s]
        }
    }
}

/// Returns the first position at or after `from` holding a line feed, or
/// the length of `s` when there is none.
fn find_nl(s: &[u8], from: usize) -> (r: usize)
    requires
        from <= s.len(),
    ensures
        from <= r <= s@.len(),
        forall|t: int| from <= t < r ==> #[trigger] s@[t] != 10,
        r < s@.len() ==> s@[r as int] == 10,
{
    let n = s.len();
    let mut i = from;
    while i < n
        invariant
            from <= i <= n,
            n == s@.len(),
            forall|t: int| from <= t < i ==> #[trigger] s@[t] != 10,
        decreases n - i,
    {
        if s[i] == 10 {
            return i;
        }
        i = i + 1;
    }
    i
}

/// Splits file content into its lines, as [`split_lines`] describes.
pub fn split_into_lines(content: &[u8]) -> (r: Vec<Vec<u8>>)
    ensures
        r@.map_values(|l: Vec<u8>| l@) == split_lines(content@),
{
    let n = content.len();
    let mut out: Vec<Vec<u8>> = Vec::new();
    let mut pos: usize = 0;
    proof {
        assert(content@.subrange(0, n as int) =~= content@);
    }
    while pos < n
        invariant
            pos <= n,
            n == content@.len(),
            split_lines(content@) == out@.map_values(|l: Vec<u8>| l@) + split_lines(
                content@.subrange(pos as int, n as int),
            ),
        decreases n - pos,
    {
        let k = find_nl(content, pos);
        let end = if k < n && k > pos && content[k - 1] == 13 {
            k - 1
        } else {
            k
        };
        let line = slice_to_vec(slice_subrange(content, pos, end));
        let ghost old_map = out@.map_values(|l: Vec<u8>| l@);
        out.push(line);
        proof {
            let rest = content@.subrange(pos as int, n as int);
            assert forall|t: int| 0 <= t < k - pos implies #[trigger] rest[t] != 10 by {
                assert(content@[pos + t] != 10);
            }
            lemma_first_nl_at(rest, k - pos);
            assert(out@.map_values(|l: Vec<u8>| l@) =~= old_map + seq![line@]);
            if k < n {
                assert(strip_cr(rest.subrange(0, k - pos)) =~= line@);
                assert(rest.subrange(k - pos + 1, rest.len() as int) =~= content@.subrange(
                    k + 1,
                    n as int,
                ));
                assert(split_lines(rest) == seq![line@] + split_lines(
                    content@.subrange(k + 1, n as int),
                ));
            } else {
                assert(rest =~= line@);
                assert(split_lines(rest) == seq![line@]);
            }
        }
        if k < n {
            pos = k + 1;
        } else {
            pos = n;
        }
    }
    proof {
        assert(content@.subrange(n as int, n as int) =~= Seq::<u8>::empty());
    }
    out
}

/// `s` with leading whitespace removed.
pub open spec fn trim_start(s: Seq<u8>) -> Seq<u8>
    decreases s.len(),
{
    if s.len() > 0 && is_line_ws(s[0]) {
        trim_start(s.subrange(1, s.len() as int))
    } else {
        s
    }
}

/// `s` with trailing whitespace removed.
pub open spec fn trim_end(s: Seq<u8>) -> Seq<u8>
    decreases s.len(),
{
    if s.len() > 0 && is_line_ws(s[s.len() - 1]) {
        trim_end(s.subrange(0, s.len() - 1))
    } else {
        s
    }
}

/// `s` with whitespace removed from both ends.
pub open spec fn trimmed(s: Seq<u8>) -> Seq<u8> {
    trim_end(trim_start(s))
}

/// When everything before `a` is whitespace and `a` is not past one,
/// trimming the start cuts exactly at `a`.
proof fn lemma_trim_start_at(s: Seq<u8>, a: int)
    requires
        0 <= a <= s.len(),
        forall|t: int| 0 <= t < a ==> is_line_ws(#[trigger] s[t]),
        a < s.len() ==> !is_line_ws(s[a]),
    ensures
        trim_start(s) == s.subrange(a, s.len() as int),
    decreases a,
{
    if a == 0 {
        assert(s.subrange(0, s.len() as int) =~= s);
    } else {
        let tail = s.subrange(1, s.len() as int);
        assert forall|t: int| 0 <= t < a - 1 implies is_line_ws(#[trigger] tail[t]) by {
            assert(is_line_ws(s[t + 1]));
        }
        lemma_trim_start_at(tail, a - 1);
        assert(tail.subrange(a - 1, tail.len() as int) =~= s.subrange(a, s.len() as int));
    }
}

/// When everything from `b` on is whitespace and the byte before `b`, if
/// any, is not, trimming the end cuts exactly at `b`.
proof fn lemma_trim_end_at(s: Seq<u8>, b: int)
    requires
        0 <= b <= s.len(),
        forall|t: int| b <= t < s.len() ==> is_line_ws(#[trigger] s[t]),
        b > 0 ==> !is_line_ws(s[b - 1]),
    ensures
        trim_end(s) == s.subrange(0, b),
    decreases s.len() - b,
{
    if b == s.len() {
        assert(s.subrange(0, s.len() as int) =~= s);
    } else {
        let head = s.subrange(0, s.len() - 1);
        assert forall|t: int| b <= t < head.len() implies is_line_ws(#[trigger] head[t]) by {
            assert(is_line_ws(s[t]));
        }
        lemma_trim_end_at(head, b);
        assert(head.subrange(0, b) =~= s.subrange(0, b));
    }
}

/// Returns `line` with leading and trailing whitespace removed.
pub fn trim_bytes(line: &[u8]) -> (r: Vec<u8>)
    ensures
        r@ == trimmed(line@),
{
    let n = line.len();
    let a = crate::rules::skip_ws(line, 0);
    let mut b = n;
    while b > a && crate::rules::byte_is_ws(line[b - 1])
        invariant
            a <= b <= n,
            n == line@.len(),
            forall|t: int| b <= t < n ==> is_line_ws(#[trigger] line@[t]),
        decreases b,
    {
        b = b - 1;
    }
    proof {
        lemma_trim_start_at(line@, a as int);
        let sub = line@.subrange(a as int, n as int);
        assert forall|t: int| b - a <= t < sub.len() implies is_line_ws(#[trigger] sub[t]) by {
            assert(is_line_ws(line@[a + t]));
        }
        lemma_trim_end_at(sub, b - a);
        assert(sub.subrange(0, b - a) =~= line@.subrange(a as int, b as int));
    }
    slice_to_vec(slice_subrange(line, a, b))
}

} // verus!
