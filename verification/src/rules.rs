//! The fixed rule set: what it means for a line to trip each rule, and the
//! verified matchers that decide it.
//!
//! A line is a sequence of bytes; every rule is a pattern over such a
//! sequence. The whitespace and word classes are the ASCII ones: a byte
//! outside ASCII never counts as whitespace or as a word character.

use vstd::prelude::*;

verus! {

/// Whether a byte is pattern whitespace: space, tab, line feed, vertical
/// tab, form feed or carriage return.
pub open spec fn is_line_ws(c: u8) -> bool {
    c == 32 || c == 9 || c == 10 || c == 11 || c == 12 || c == 13
}

/// Whether a byte is a word character: an ASCII letter, digit or underscore.
pub open spec fn is_word_byte(c: u8) -> bool {
    (97 <= c && c <= 122) || (65 <= c && c <= 90) || (48 <= c && c <= 57) || c == 95
}

/// Whether a byte can end a comparison operator's first half: `=`, `!`, `<`
/// or `>`. An `=` right after one of these is part of `==`, `!=`, `<=` or
/// `>=`, not a bare assignment.
pub open spec fn is_cmp_head(c: u8) -> bool {
    c == 61 || c == 33 || c == 60 || c == 62
}

/// Decides [`is_line_ws`] on a concrete byte.
pub fn byte_is_ws(c: u8) -> (r: bool)
    ensures
        r == is_line_ws(c),
{
    c == 32 || c == 9 || c == 10 || c == 11 || c == 12 || c == 13
}

/// Every byte of `s` in `[a, b)` is whitespace.
pub open spec fn ws_between(s: Seq<u8>, a: int, b: int) -> bool {
    forall|t: int| a <= t < b ==> is_line_ws(#[trigger] s[t])
}

/// No byte of `s` in `[a, b)` is a closing parenthesis.
pub open spec fn no_close_between(s: Seq<u8>, a: int, b: int) -> bool {
    forall|t: int| a <= t < b ==> #[trigger] s[t] != 41
}

/// Some byte of `s` at or after `a` is a closing parenthesis.
pub open spec fn has_close_at_or_after(s: Seq<u8>, a: int) -> bool {
    exists|q: int| a <= q < s.len() && #[trigger] s[q] == 41
}

/// After position `a`, optional whitespace runs up to an opening parenthesis
/// at position `j`.
pub open spec fn open_paren_after(s: Seq<u8>, a: int, j: int) -> bool {
    &&& a <= j < s.len()
    &&& ws_between(s, a, j)
    &&& s[j] == 40
}

/// The keyword `if` starts at position `i`.
pub open spec fn kw_if_at(s: Seq<u8>, i: int) -> bool {
    0 <= i && i + 2 <= s.len() && s[i] == 105 && s[i + 1] == 102
}

/// The keyword `elseif` starts at position `i`.
pub open spec fn kw_elseif_at(s: Seq<u8>, i: int) -> bool {
    &&& 0 <= i && i + 6 <= s.len()
    &&& s[i] == 101 && s[i + 1] == 108 && s[i + 2] == 115 && s[i + 3] == 101
    &&& s[i + 4] == 105 && s[i + 5] == 102
}

/// The keyword `while` starts at position `i`.
pub open spec fn kw_while_at(s: Seq<u8>, i: int) -> bool {
    &&& 0 <= i && i + 5 <= s.len()
    &&& s[i] == 119 && s[i + 1] == 104 && s[i + 2] == 105 && s[i + 3] == 108
    &&& s[i + 4] == 101
}

/// Returns the first position at or after `from` whose byte is not
/// whitespace, or the length of `s` when only whitespace remains.
pub fn skip_ws(s: &[u8], from: usize) -> (r: usize)
    requires
        from <= s.len(),
    ensures
        from <= r <= s@.len(),
        ws_between(s@, from as int, r as int),
        r < s@.len() ==> !is_line_ws(s@[r as int]),
{
    let n = s.len();
    let mut i = from;
    while i < n
        invariant
            from <= i <= n,
            n == s@.len(),
            ws_between(s@, from as int, i as int),
        decreases n - i,
    {
        let c = s[i];
        if !(c == 32 || c == 9 || c == 10 || c == 11 || c == 12 || c == 13) {
            return i;
        }
        i = i + 1;
    }
    i
}

/// Returns the first position at or after `from` holding a closing
/// parenthesis, or the length of `s` when there is none.
pub fn find_close_paren(s: &[u8], from: usize) -> (r: usize)
    requires
        from <= s.len(),
    ensures
        from <= r <= s@.len(),
        no_close_between(s@, from as int, r as int),
        r < s@.len() ==> s@[r as int] == 41,
        (r < s@.len()) == has_close_at_or_after(s@, from as int),
{
    let n = s.len();
    let mut i = from;
    while i < n
        invariant
            from <= i <= n,
            n == s@.len(),
            no_close_between(s@, from as int, i as int),
        decreases n - i,
    {
        if s[i] == 41 {
            return i;
        }
        i = i + 1;
    }
    assert(!has_close_at_or_after(s@, from as int));
    i
}

/// Finds the position `j` with `open_paren_after(s, a, j)`, which is unique
/// when it exists: the whitespace run from `a` must stop exactly at the
/// opening parenthesis.
pub fn find_open_paren(s: &[u8], a: usize) -> (r: Option<usize>)
    requires
        a <= s.len(),
    ensures
        match r {
            Some(j) => a <= j < s@.len() && open_paren_after(s@, a as int, j as int),
            None => forall|j: int| !open_paren_after(s@, a as int, j),
        },
{
    let n = s.len();
    let j = skip_ws(s, a);
    if j < n && s[j] == 40 {
        Some(j)
    } else {
        proof {
            assert forall|j2: int| !open_paren_after(s@, a as int, j2) by {
                if open_paren_after(s@, a as int, j2) {
                    if j2 < j {
                        assert(is_line_ws(s@[j2]));
                    } else if j2 > j {
                        assert(j < n);
                        assert(is_line_ws(s@[j as int]));
                    }
                }
            }
        }
        None
    }
}

/// Inside a condition that opened at `c`, an assignment pattern sits at `p`:
/// no closing parenthesis up to `p`, a byte that does not complete a
/// comparison, then `=` not followed by another `=`, with a closing
/// parenthesis somewhere after.
pub open spec fn assignment_in_cond_at(s: Seq<u8>, c: int, p: int) -> bool {
    &&& c <= p
    &&& p + 2 < s.len()
    &&& no_close_between(s, c, p)
    &&& !is_cmp_head(s[p])
    &&& s[p + 1] == 61
    &&& s[p + 2] != 61
    &&& has_close_at_or_after(s, p + 3)
}

/// A condition opening at `c` holds an assignment pattern somewhere.
pub open spec fn has_assignment_in_cond(s: Seq<u8>, c: int) -> bool {
    exists|p: int| assignment_in_cond_at(s, c, p)
}

/// One of the keywords `if`, `elseif` or `while` starts at `i`, with its
/// opening parenthesis at `j`.
pub open spec fn assignment_keyword_at(s: Seq<u8>, i: int, j: int) -> bool {
    ||| (kw_if_at(s, i) && open_paren_after(s, i + 2, j))
    ||| (kw_elseif_at(s, i) && open_paren_after(s, i + 6, j))
    ||| (kw_while_at(s, i) && open_paren_after(s, i + 5, j))
}

/// The accidental-assignment rule matches at keyword position `i` with the
/// condition opening at `j`.
pub open spec fn assignment_match_at(s: Seq<u8>, i: int, j: int) -> bool {
    assignment_keyword_at(s, i, j) && has_assignment_in_cond(s, j + 1)
}

/// The accidental-assignment rule fires on the line `s`: a bare `=` inside
/// the parenthesized condition of an `if`, `elseif` or `while`.
pub open spec fn flags_assignment(s: Seq<u8>) -> bool {
    exists|i: int, j: int| assignment_match_at(s, i, j)
}

/// Like [`assignment_keyword_at`] but for `if` and `while` alone. Every
/// `elseif` contains `if` as a suffix, so searching these two heads decides
/// the whole rule.
pub open spec fn assignment_head_at(s: Seq<u8>, i: int, j: int) -> bool {
    ||| (kw_if_at(s, i) && open_paren_after(s, i + 2, j))
    ||| (kw_while_at(s, i) && open_paren_after(s, i + 5, j))
}

/// An `if` or `while` head at `i` whose condition holds an assignment.
pub open spec fn assignment_hit_at(s: Seq<u8>, i: int) -> bool {
    exists|j: int| assignment_head_at(s, i, j) && has_assignment_in_cond(s, j + 1)
}

/// The rule fires exactly when some `if` or `while` head hits: the `elseif`
/// alternative adds nothing, since its trailing `if` is a head of its own.
pub proof fn lemma_assignment_hits(s: Seq<u8>)
    ensures
        flags_assignment(s) <==> exists|i: int| assignment_hit_at(s, i),
{
    if flags_assignment(s) {
        let (i, j) = choose|i: int, j: int| assignment_match_at(s, i, j);
        if kw_elseif_at(s, i) && open_paren_after(s, i + 6, j) {
            assert(kw_if_at(s, i + 4));
            assert(assignment_head_at(s, i + 4, j));
            assert(assignment_hit_at(s, i + 4));
        } else {
            assert(assignment_head_at(s, i, j));
            assert(assignment_hit_at(s, i));
        }
    }
    if exists|i: int| assignment_hit_at(s, i) {
        let i = choose|i: int| assignment_hit_at(s, i);
        let j = choose|j: int| assignment_head_at(s, i, j) && has_assignment_in_cond(s, j + 1);
        assert(assignment_keyword_at(s, i, j));
        assert(assignment_match_at(s, i, j));
    }
}

/// Scans the condition that opened at `c` for an assignment pattern.
fn check_assignment_cond(s: &[u8], c: usize) -> (r: bool)
    requires
        c <= s.len(),
    ensures
        r == has_assignment_in_cond(s@, c as int),
{
    let n = s.len();
    let close = find_close_paren(s, c);
    let mut p = c;
    while p <= close && n >= 3 && p <= n - 3
        invariant
            c <= p <= n,
            n == s@.len(),
            c <= close <= n,
            no_close_between(s@, c as int, close as int),
            close < n ==> s@[close as int] == 41,
            forall|p2: int| c <= p2 < p ==> !(#[trigger] assignment_in_cond_at(s@, c as int, p2)),
        decreases n - p,
    {
        let a = s[p];
        if !(a == 61 || a == 33 || a == 60 || a == 62) && s[p + 1] == 61 && s[p + 2] != 61 {
            let q = find_close_paren(s, p + 3);
            if q < n {
                proof {
                    assert(assignment_in_cond_at(s@, c as int, p as int));
                }
                return true;
            } else {
                proof {
                    assert forall|p2: int| !(#[trigger] assignment_in_cond_at(
                        s@,
                        c as int,
                        p2,
                    )) by {
                        if assignment_in_cond_at(s@, c as int, p2) && p2 >= p {
                            let q2 = choose|q2: int|
                                p2 + 3 <= q2 < s@.len() && #[trigger] s@[q2] == 41;
                            assert(has_close_at_or_after(s@, p as int + 3));
                        }
                    }
                }
                return false;
            }
        }
        proof {
            assert(!assignment_in_cond_at(s@, c as int, p as int));
        }
        p = p + 1;
    }
    proof {
        assert forall|p2: int| !(#[trigger] assignment_in_cond_at(s@, c as int, p2)) by {
            if assignment_in_cond_at(s@, c as int, p2) && p2 >= p {
                if close < p {
                    assert(s@[close as int] != 41);
                } else {
                    assert(p2 + 2 < n);
                }
            }
        }
    }
    false
}

/// Decides [`assignment_hit_at`] at one position.
fn assignment_hit(line: &[u8], i: usize) -> (r: bool)
    requires
        i <= line.len(),
    ensures
        r == assignment_hit_at(line@, i as int),
{
    let n = line.len();
    if n >= 2 && i <= n - 2 && line[i] == 105 && line[i + 1] == 102 {
        match find_open_paren(line, i + 2) {
            Some(j) => {
                let hit = check_assignment_cond(line, j + 1);
                proof {
                    if hit {
                        assert(assignment_head_at(line@, i as int, j as int));
                        assert(assignment_hit_at(line@, i as int));
                    } else {
                        assert forall|j2: int|
                            assignment_head_at(line@, i as int, j2) implies !has_assignment_in_cond(
                            line@,
                            j2 + 1,
                        ) by {
                            if j2 < j {
                                assert(is_line_ws(line@[j2]));
                            } else if j2 > j {
                                assert(is_line_ws(line@[j as int]));
                            }
                        }
                    }
                }
                hit
            },
            None => {
                proof {
                    assert forall|j2: int| !assignment_head_at(line@, i as int, j2) by {
                        assert(!open_paren_after(line@, i as int + 2, j2));
                    }
                }
                false
            },
        }
    } else if n >= 5 && i <= n - 5 && line[i] == 119 && line[i + 1] == 104 && line[i + 2] == 105
        && line[i + 3] == 108 && line[i + 4] == 101 {
        match find_open_paren(line, i + 5) {
            Some(j) => {
                let hit = check_assignment_cond(line, j + 1);
                proof {
                    if hit {
                        assert(assignment_head_at(line@, i as int, j as int));
                        assert(assignment_hit_at(line@, i as int));
                    } else {
                        assert forall|j2: int|
                            assignment_head_at(line@, i as int, j2) implies !has_assignment_in_cond(
                            line@,
                            j2 + 1,
                        ) by {
                            if j2 < j {
                                assert(is_line_ws(line@[j2]));
                            } else if j2 > j {
                                assert(is_line_ws(line@[j as int]));
                            }
                        }
                    }
                }
                hit
            },
            None => {
                proof {
                    assert forall|j2: int| !assignment_head_at(line@, i as int, j2) by {
                        assert(!open_paren_after(line@, i as int + 5, j2));
                    }
                }
                false
            },
        }
    } else {
        proof {
            assert(!kw_if_at(line@, i as int));
            assert(!kw_while_at(line@, i as int));
        }
        false
    }
}

/// Decides whether the accidental-assignment rule fires on `line`.
pub fn line_has_assignment(line: &[u8]) -> (r: bool)
    ensures
        r == flags_assignment(line@),
{
    let n = line.len();
    let mut i: usize = 0;
    while i < n
        invariant
            i <= n,
            n == line@.len(),
            forall|i2: int| 0 <= i2 < i ==> !(#[trigger] assignment_hit_at(line@, i2)),
        decreases n - i,
    {
        if assignment_hit(line, i) {
            proof {
                lemma_assignment_hits(line@);
            }
            return true;
        }
        i = i + 1;
    }
    proof {
        assert forall|i2: int| !(#[trigger] assignment_hit_at(line@, i2)) by {
            if assignment_hit_at(line@, i2) {
                let j = choose|j: int|
                    assignment_head_at(line@, i2, j) && has_assignment_in_cond(line@, j + 1);
                assert(0 <= i2 < i);
            }
        }
        lemma_assignment_hits(line@);
    }
    false
}

/// Inside a condition that opened at `c`, an increment or decrement
/// operator (`++` or `--`) sits at `p`, with a closing parenthesis after.
pub open spec fn incdec_in_cond_at(s: Seq<u8>, c: int, p: int) -> bool {
    &&& c <= p
    &&& p + 1 < s.len()
    &&& no_close_between(s, c, p)
    &&& ((s[p] == 43 && s[p + 1] == 43) || (s[p] == 45 && s[p + 1] == 45))
    &&& has_close_at_or_after(s, p + 2)
}

/// A condition opening at `c` holds `++` or `--` somewhere.
pub open spec fn has_incdec_in_cond(s: Seq<u8>, c: int) -> bool {
    exists|p: int| incdec_in_cond_at(s, c, p)
}

/// One of the keywords `if` or `elseif` starts at `i`, with its opening
/// parenthesis at `j`. The increment rule does not look at `while`.
pub open spec fn increment_keyword_at(s: Seq<u8>, i: int, j: int) -> bool {
    ||| (kw_if_at(s, i) && open_paren_after(s, i + 2, j))
    ||| (kw_elseif_at(s, i) && open_paren_after(s, i + 6, j))
}

/// The increment rule matches at keyword position `i` with the condition
/// opening at `j`.
pub open spec fn increment_match_at(s: Seq<u8>, i: int, j: int) -> bool {
    increment_keyword_at(s, i, j) && has_incdec_in_cond(s, j + 1)
}

/// The increment rule fires on the line `s`: `++` or `--` inside the
/// parenthesized condition of an `if` or `elseif`.
pub open spec fn flags_increment(s: Seq<u8>) -> bool {
    exists|i: int, j: int| increment_match_at(s, i, j)
}

/// An `if` keyword at `i` with its opening parenthesis at `j`. Every
/// `elseif` ends in `if`, so `if` heads alone decide the increment rule.
pub open spec fn increment_head_at(s: Seq<u8>, i: int, j: int) -> bool {
    kw_if_at(s, i) && open_paren_after(s, i + 2, j)
}

/// An `if` head at `i` whose condition holds `++` or `--`.
pub open spec fn increment_hit_at(s: Seq<u8>, i: int) -> bool {
    exists|j: int| increment_head_at(s, i, j) && has_incdec_in_cond(s, j + 1)
}

/// The increment rule fires exactly when some `if` head hits.
pub proof fn lemma_increment_hits(s: Seq<u8>)
    ensures
        flags_increment(s) <==> exists|i: int| increment_hit_at(s, i),
{
    if flags_increment(s) {
        let (i, j) = choose|i: int, j: int| increment_match_at(s, i, j);
        if kw_elseif_at(s, i) && open_paren_after(s, i + 6, j) {
            assert(increment_head_at(s, i + 4, j));
            assert(increment_hit_at(s, i + 4));
        } else {
            assert(increment_head_at(s, i, j));
            assert(increment_hit_at(s, i));
        }
    }
    if exists|i: int| increment_hit_at(s, i) {
        let i = choose|i: int| increment_hit_at(s, i);
        let j = choose|j: int| increment_head_at(s, i, j) && has_incdec_in_cond(s, j + 1);
        assert(increment_keyword_at(s, i, j));
        assert(increment_match_at(s, i, j));
    }
}

/// Scans the condition that opened at `c` for `++` or `--`.
fn check_incdec_cond(s: &[u8], c: usize) -> (r: bool)
    requires
        c <= s.len(),
    ensures
        r == has_incdec_in_cond(s@, c as int),
{
    let n = s.len();
    let close = find_close_paren(s, c);
    let mut p = c;
    while p <= close && n >= 2 && p <= n - 2
        invariant
            c <= p <= n,
            n == s@.len(),
            c <= close <= n,
            no_close_between(s@, c as int, close as int),
            close < n ==> s@[close as int] == 41,
            forall|p2: int| c <= p2 < p ==> !(#[trigger] incdec_in_cond_at(s@, c as int, p2)),
        decreases n - p,
    {
        let a = s[p];
        let b = s[p + 1];
        if (a == 43 && b == 43) || (a == 45 && b == 45) {
            let q = find_close_paren(s, p + 2);
            if q < n {
                proof {
                    assert(incdec_in_cond_at(s@, c as int, p as int));
                }
                return true;
            } else {
                proof {
                    assert forall|p2: int| !(#[trigger] incdec_in_cond_at(s@, c as int, p2)) by {
                        if incdec_in_cond_at(s@, c as int, p2) && p2 >= p {
                            let q2 = choose|q2: int|
                                p2 + 2 <= q2 < s@.len() && #[trigger] s@[q2] == 41;
                            assert(has_close_at_or_after(s@, p as int + 2));
                        }
                    }
                }
                return false;
            }
        }
        proof {
            assert(!incdec_in_cond_at(s@, c as int, p as int));
        }
        p = p + 1;
    }
    proof {
        assert forall|p2: int| !(#[trigger] incdec_in_cond_at(s@, c as int, p2)) by {
            if incdec_in_cond_at(s@, c as int, p2) && p2 >= p {
                if close < p {
                    assert(s@[close as int] != 41);
                } else {
                    assert(p2 + 1 < n);
                }
            }
        }
    }
    false
}

/// Decides [`increment_hit_at`] at one position.
fn increment_hit(line: &[u8], i: usize) -> (r: bool)
    requires
        i <= line.len(),
    ensures
        r == increment_hit_at(line@, i as int),
{
    let n = line.len();
    if n >= 2 && i <= n - 2 && line[i] == 105 && line[i + 1] == 102 {
        match find_open_paren(line, i + 2) {
            Some(j) => {
                let hit = check_incdec_cond(line, j + 1);
                proof {
                    if hit {
                        assert(increment_head_at(line@, i as int, j as int));
                        assert(increment_hit_at(line@, i as int));
                    } else {
                        assert forall|j2: int|
                            increment_head_at(line@, i as int, j2) implies !has_incdec_in_cond(
                            line@,
                            j2 + 1,
                        ) by {
                            if j2 < j {
                                assert(is_line_ws(line@[j2]));
                            } else if j2 > j {
                                assert(is_line_ws(line@[j as int]));
                            }
                        }
                    }
                }
                hit
            },
            None => {
                proof {
                    assert forall|j2: int| !increment_head_at(line@, i as int, j2) by {
                        assert(!open_paren_after(line@, i as int + 2, j2));
                    }
                }
                false
            },
        }
    } else {
        proof {
            assert(!kw_if_at(line@, i as int));
        }
        false
    }
}

/// Decides whether the increment rule fires on `line`.
pub fn line_has_increment(line: &[u8]) -> (r: bool)
    ensures
        r == flags_increment(line@),
{
    let n = line.len();
    let mut i: usize = 0;
    while i < n
        invariant
            i <= n,
            n == line@.len(),
            forall|i2: int| 0 <= i2 < i ==> !(#[trigger] increment_hit_at(line@, i2)),
        decreases n - i,
    {
        if increment_hit(line, i) {
            proof {
                lemma_increment_hits(line@);
            }
            return true;
        }
        i = i + 1;
    }
    proof {
        assert forall|i2: int| !(#[trigger] increment_hit_at(line@, i2)) by {
            if increment_hit_at(line@, i2) {
                let j = choose|j: int|
                    increment_head_at(line@, i2, j) && has_incdec_in_cond(line@, j + 1);
                assert(0 <= i2 < i);
            }
        }
        lemma_increment_hits(line@);
    }
    false
}

/// A line whose every `=` completes a comparison operator — it follows
/// `=`, `!`, `<` or `>`, or another `=` follows it — never trips the
/// accidental-assignment rule, whatever conditions the line holds.
pub proof fn lemma_comparisons_never_flagged(line: Seq<u8>)
    requires
        forall|e: int|
            0 <= e < line.len() && #[trigger] line[e] == 61 ==> ((e > 0 && is_cmp_head(line[e - 1]))
                || (e + 1 < line.len() && line[e + 1] == 61)),
    ensures
        !flags_assignment(line),
{
    if flags_assignment(line) {
        let (i, j) = choose|i: int, j: int| assignment_match_at(line, i, j);
        let c = j + 1;
        assert(has_assignment_in_cond(line, c));
        let p = choose|p: int| assignment_in_cond_at(line, c, p);
        assert(line[p + 1] == 61);
        assert(!is_cmp_head(line[p]));
        assert(line[p + 2] != 61);
    }
}

/// A line with no `if` anywhere — and so no `elseif` either — never trips
/// the increment rule, wherever `++` or `--` stands on it.
pub proof fn lemma_increment_needs_if(line: Seq<u8>)
    requires
        forall|i: int| !kw_if_at(line, i),
    ensures
        !flags_increment(line),
{
    if flags_increment(line) {
        let (i, j) = choose|i: int, j: int| increment_match_at(line, i, j);
        if kw_elseif_at(line, i) {
            assert(kw_if_at(line, i + 4));
        }
    }
}

/// The token `eval` starts at `i` on a word boundary: the byte before it,
/// if any, is not a word character.
pub open spec fn eval_token_at(s: Seq<u8>, i: int) -> bool {
    &&& 0 <= i && i + 4 <= s.len()
    &&& s[i] == 101 && s[i + 1] == 118 && s[i + 2] == 97 && s[i + 3] == 108
    &&& (i == 0 || !is_word_byte(s[i - 1]))
}

/// The eval rule matches at token position `i` with the opening parenthesis
/// at `j`.
pub open spec fn eval_match_at(s: Seq<u8>, i: int, j: int) -> bool {
    eval_token_at(s, i) && open_paren_after(s, i + 4, j)
}

/// The eval rule fires on the line `s`: the word `eval`, then optional
/// whitespace and an opening parenthesis, anywhere on the line.
pub open spec fn flags_eval(s: Seq<u8>) -> bool {
    exists|i: int, j: int| eval_match_at(s, i, j)
}

/// An eval match starting at `i`.
pub open spec fn eval_hit_at(s: Seq<u8>, i: int) -> bool {
    exists|j: int| eval_match_at(s, i, j)
}

/// Pairs and unpairs the two quantifiers of [`flags_eval`].
pub proof fn lemma_eval_hits(s: Seq<u8>)
    ensures
        flags_eval(s) <==> exists|i: int| eval_hit_at(s, i),
{
    if flags_eval(s) {
        let (i, j) = choose|i: int, j: int| eval_match_at(s, i, j);
        assert(eval_hit_at(s, i));
    }
    if exists|i: int| eval_hit_at(s, i) {
        let i = choose|i: int| eval_hit_at(s, i);
        let j = choose|j: int| eval_match_at(s, i, j);
        assert(flags_eval(s));
    }
}

/// Decides [`is_word_byte`] on a concrete byte.
fn byte_is_word(c: u8) -> (r: bool)
    ensures
        r == is_word_byte(c),
{
    (97 <= c && c <= 122) || (65 <= c && c <= 90) || (48 <= c && c <= 57) || c == 95
}

/// Decides [`eval_hit_at`] at one position.
fn eval_hit(line: &[u8], i: usize) -> (r: bool)
    requires
        i <= line.len(),
    ensures
        r == eval_hit_at(line@, i as int),
{
    let n = line.len();
    if n >= 4 && i <= n - 4 && line[i] == 101 && line[i + 1] == 118 && line[i + 2] == 97 && line[i
        + 3] == 108 && (i == 0 || !byte_is_word(line[i - 1])) {
        match find_open_paren(line, i + 4) {
            Some(j) => {
                proof {
                    assert(eval_match_at(line@, i as int, j as int));
                }
                true
            },
            None => {
                proof {
                    assert forall|j2: int| !eval_match_at(line@, i as int, j2) by {
                        assert(!open_paren_after(line@, i as int + 4, j2));
                    }
                }
                false
            },
        }
    } else {
        proof {
            assert(!eval_token_at(line@, i as int));
        }
        false
    }
}

/// Decides whether the eval rule fires on `line`.
pub fn line_has_eval(line: &[u8]) -> (r: bool)
    ensures
        r == flags_eval(line@),
{
    let n = line.len();
    let mut i: usize = 0;
    while i < n
        invariant
            i <= n,
            n == line@.len(),
            forall|i2: int| 0 <= i2 < i ==> !(#[trigger] eval_hit_at(line@, i2)),
        decreases n - i,
    {
        if eval_hit(line, i) {
            proof {
                lemma_eval_hits(line@);
            }
            return true;
        }
        i = i + 1;
    }
    proof {
        assert forall|i2: int| !(#[trigger] eval_hit_at(line@, i2)) by {
            if eval_hit_at(line@, i2) {
                let j = choose|j: int| eval_match_at(line@, i2, j);
                assert(0 <= i2 < i);
            }
        }
        lemma_eval_hits(line@);
    }
    false
}

/// The token `var_dump` starts at `i` on a word boundary.
pub open spec fn var_dump_token_at(s: Seq<u8>, i: int) -> bool {
    &&& 0 <= i && i + 8 <= s.len()
    &&& s[i] == 118 && s[i + 1] == 97 && s[i + 2] == 114 && s[i + 3] == 95
    &&& s[i + 4] == 100 && s[i + 5] == 117 && s[i + 6] == 109 && s[i + 7] == 112
    &&& (i == 0 || !is_word_byte(s[i - 1]))
}

/// The var_dump rule matches at token position `i` with the opening
/// parenthesis at `j`.
pub open spec fn var_dump_match_at(s: Seq<u8>, i: int, j: int) -> bool {
    var_dump_token_at(s, i) && open_paren_after(s, i + 8, j)
}

/// The var_dump rule fires on the line `s`: the word `var_dump`, then
/// optional whitespace and an opening parenthesis, anywhere on the line.
pub open spec fn flags_var_dump(s: Seq<u8>) -> bool {
    exists|i: int, j: int| var_dump_match_at(s, i, j)
}

/// A var_dump match starting at `i`.
pub open spec fn var_dump_hit_at(s: Seq<u8>, i: int) -> bool {
    exists|j: int| var_dump_match_at(s, i, j)
}

/// Pairs and unpairs the two quantifiers of [`flags_var_dump`].
pub proof fn lemma_var_dump_hits(s: Seq<u8>)
    ensures
        flags_var_dump(s) <==> exists|i: int| var_dump_hit_at(s, i),
{
    if flags_var_dump(s) {
        let (i, j) = choose|i: int, j: int| var_dump_match_at(s, i, j);
        assert(var_dump_hit_at(s, i));
    }
    if exists|i: int| var_dump_hit_at(s, i) {
        let i = choose|i: int| var_dump_hit_at(s, i);
        let j = choose|j: int| var_dump_match_at(s, i, j);
        assert(flags_var_dump(s));
    }
}

/// Decides [`var_dump_hit_at`] at one position.
fn var_dump_hit(line: &[u8], i: usize) -> (r: bool)
    requires
        i <= line.len(),
    ensures
        r == var_dump_hit_at(line@, i as int),
{
    let n = line.len();
    if n >= 8 && i <= n - 8 && line[i] == 118 && line[i + 1] == 97 && line[i + 2] == 114 && line[i
        + 3] == 95 && line[i + 4] == 100 && line[i + 5] == 117 && line[i + 6] == 109 && line[i + 7]
        == 112 && (i == 0 || !byte_is_word(line[i - 1])) {
        match find_open_paren(line, i + 8) {
            Some(j) => {
                proof {
                    assert(var_dump_match_at(line@, i as int, j as int));
                }
                true
            },
            None => {
                proof {
                    assert forall|j2: int| !var_dump_match_at(line@, i as int, j2) by {
                        assert(!open_paren_after(line@, i as int + 8, j2));
                    }
                }
                false
            },
        }
    } else {
        proof {
            assert(!var_dump_token_at(line@, i as int));
        }
        false
    }
}

/// Decides whether the var_dump rule fires on `line`.
pub fn line_has_var_dump(line: &[u8]) -> (r: bool)
    ensures
        r == flags_var_dump(line@),
{
    let n = line.len();
    let mut i: usize = 0;
    while i < n
        invariant
            i <= n,
            n == line@.len(),
            forall|i2: int| 0 <= i2 < i ==> !(#[trigger] var_dump_hit_at(line@, i2)),
        decreases n - i,
    {
        if var_dump_hit(line, i) {
            proof {
                lemma_var_dump_hits(line@);
            }
            return true;
        }
        i = i + 1;
    }
    proof {
        assert forall|i2: int| !(#[trigger] var_dump_hit_at(line@, i2)) by {
            if var_dump_hit_at(line@, i2) {
                let j = choose|j: int| var_dump_match_at(line@, i2, j);
                assert(0 <= i2 < i);
            }
        }
        lemma_var_dump_hits(line@);
    }
    false
}

} // verus!
