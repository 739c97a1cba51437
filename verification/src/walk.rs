//! The walker's decisions: which discovered entry is scanned.
//!
//! Paths are byte strings with `/` as the separator. An entry is skipped
//! when some ignore entry is a component-wise prefix of its path — `a/b`
//! is a prefix of `a/b/c` but not of `a/bc` — and scanned only when its
//! final component ends in `.php` with a non-empty stem.

use vstd::prelude::*;

verus! {

/// `s` with trailing separator bytes (`/`) removed.
pub open spec fn strip_trailing_seps(s: Seq<u8>) -> Seq<u8>
    decreases s.len(),
{
    if s.len() > 0 && s[s.len() - 1] == 47 {
        strip_trailing_seps(s.subrange(0, s.len() - 1))
    } else {
        s
    }
}

/// `pre` is a component-wise prefix of `path`: after dropping trailing
/// separators it is an initial run of `path` that stops at the path's end
/// or at a separator. The empty prefix matches every path.
pub open spec fn is_path_prefix(pre: Seq<u8>, path: Seq<u8>) -> bool {
    let p = strip_trailing_seps(pre);
    ||| p.len() == 0
    ||| (p.len() <= path.len() && p == path.subrange(0, p.len() as int) && (p.len() == path.len()
        || path[p.len() as int] == 47))
}

/// Some entry of `ignores` is a component-wise prefix of `path`.
pub open spec fn ignored(path: Seq<u8>, ignores: Seq<Seq<u8>>) -> bool {
    exists|k: int| 0 <= k < ignores.len() && is_path_prefix(#[trigger] ignores[k], path)
}

/// The final component of `path`: its longest suffix free of separators.
pub open spec fn file_name(s: Seq<u8>) -> Seq<u8>
    decreases s.len(),
{
    if s.len() > 0 && has_sep(s) {
        file_name(s.subrange(1, s.len() as int))
    } else {
        s
    }
}

/// Some byte of `s` is a separator.
pub open spec fn has_sep(s: Seq<u8>) -> bool {
    exists|t: int| 0 <= t < s.len() && #[trigger] s[t] == 47
}

/// The path names a `.php` file: its final component ends in `.php` and
/// has a non-empty stem, so a bare `.php` does not count. The check is
/// case-sensitive.
pub open spec fn has_php_extension(path: Seq<u8>) -> bool {
    let name = file_name(path);
    &&& name.len() >= 5
    &&& name[name.len() - 4] == 46
    &&& name[name.len() - 3] == 112
    &&& name[name.len() - 2] == 104
    &&& name[name.len() - 1] == 112
}

/// Stripping trailing separators cuts exactly at `e` when everything from
/// `e` on is a separator and the byte before `e`, if any, is not.
proof fn lemma_strip_trailing_at(s: Seq<u8>, e: int)
    requires
        0 <= e <= s.len(),
        forall|t: int| e <= t < s.len() ==> #[trigger] s[t] == 47,
        e > 0 ==> s[e - 1] != 47,
    ensures
        strip_trailing_seps(s) == s.subrange(0, e),
    decreases s.len() - e,
{
    if e == s.len() {
        assert(s.subrange(0, s.len() as int) =~= s);
    } else {
        let head = s.subrange(0, s.len() - 1);
        assert forall|t: int| e <= t < head.len() implies #[trigger] head[t] == 47 by {
            assert(s[t] == 47);
        }
        lemma_strip_trailing_at(head, e);
        assert(head.subrange(0, e) =~= s.subrange(0, e));
    }
}

/// The final component starts at `k` when nothing from `k` on is a
/// separator and the byte before `k`, if any, is one.
proof fn lemma_file_name_at(s: Seq<u8>, k: int)
    requires
        0 <= k <= s.len(),
        forall|t: int| k <= t < s.len() ==> #[trigger] s[t] != 47,
        k > 0 ==> s[k - 1] == 47,
    ensures
        file_name(s) == s.subrange(k, s.len() as int),
    decreases k,
{
    if k == 0 {
        assert(!has_sep(s));
        assert(s.subrange(0, s.len() as int) =~= s);
    } else {
        assert(has_sep(s));
        let tail = s.subrange(1, s.len() as int);
        assert forall|t: int| k - 1 <= t < tail.len() implies #[trigger] tail[t] != 47 by {
            assert(s[t + 1] != 47);
        }
        lemma_file_name_at(tail, k - 1);
        assert(tail.subrange(k - 1, tail.len() as int) =~= s.subrange(k, s.len() as int));
    }
}

/// Returns the length of `pre` once trailing separators are dropped.
fn stripped_len(pre: &[u8]) -> (r: usize)
    ensures
        r <= pre@.len(),
        strip_trailing_seps(pre@) == pre@.subrange(0, r as int),
        r > 0 ==> pre@[r as int - 1] != 47,
{
    let n = pre.len();
    let mut e = n;
    while e > 0 && pre[e - 1] == 47
        invariant
            e <= n,
            n == pre@.len(),
            forall|t: int| e <= t < n ==> #[trigger] pre@[t] == 47,
        decreases e,
    {
        e = e - 1;
    }
    proof {
        lemma_strip_trailing_at(pre@, e as int);
    }
    e
}

/// Decides [`is_path_prefix`] on concrete paths.
pub fn path_has_prefix(path: &[u8], pre: &[u8]) -> (r: bool)
    ensures
        r == is_path_prefix(pre@, path@),
{
    let e = stripped_len(pre);
    let n = path.len();
    if e == 0 {
        return true;
    }
    if e > n {
        return false;
    }
    let mut t: usize = 0;
    while t < e
        invariant
            t <= e <= n,
            e <= pre@.len(),
            n == path@.len(),
            strip_trailing_seps(pre@) == pre@.subrange(0, e as int),
            forall|t2: int| 0 <= t2 < t ==> #[trigger] pre@[t2] == path@[t2],
        decreases e - t,
    {
        if pre[t] != path[t] {
            proof {
                let p = strip_trailing_seps(pre@);
                assert(p.len() == e);
                assert(p[t as int] == pre@[t as int]);
                if p == path@.subrange(0, p.len() as int) {
                    assert(p[t as int] == path@.subrange(0, p.len() as int)[t as int]);
                }
            }
            return false;
        }
        t = t + 1;
    }
    proof {
        assert(strip_trailing_seps(pre@) =~= path@.subrange(0, e as int));
    }
    if e == n {
        true
    } else {
        path[e] == 47
    }
}

/// Decides [`ignored`]: whether any ignore entry covers `path`.
pub fn is_ignored(path: &[u8], ignores: &Vec<Vec<u8>>) -> (r: bool)
    ensures
        r == ignored(path@, ignores@.map_values(|v: Vec<u8>| v@)),
{
    let m = ignores.len();
    let ghost igv = ignores@.map_values(|v: Vec<u8>| v@);
    let mut k: usize = 0;
    while k < m
        invariant
            k <= m,
            m == ignores@.len(),
            igv == ignores@.map_values(|v: Vec<u8>| v@),
            forall|k2: int| 0 <= k2 < k ==> !is_path_prefix(#[trigger] igv[k2], path@),
        decreases m - k,
    {
        if path_has_prefix(path, ignores[k].as_slice()) {
            proof {
                assert(is_path_prefix(igv[k as int], path@));
            }
            return true;
        }
        k = k + 1;
    }
    false
}

/// Decides [`has_php_extension`] on a concrete path.
pub fn has_php_ext(path: &[u8]) -> (r: bool)
    ensures
        r == has_php_extension(path@),
{
    let n = path.len();
    let mut k = n;
    while k > 0 && path[k - 1] != 47
        invariant
            k <= n,
            n == path@.len(),
            forall|t: int| k <= t < n ==> #[trigger] path@[t] != 47,
        decreases k,
    {
        k = k - 1;
    }
    proof {
        lemma_file_name_at(path@, k as int);
    }
    n - k >= 5 && path[n - 4] == 46 && path[n - 3] == 112 && path[n - 2] == 104 && path[n - 1]
        == 112
}

/// The walker's whole decision for one discovered entry: scan it when no
/// ignore entry covers it and it names a `.php` file.
pub fn should_scan(path: &[u8], ignores: &Vec<Vec<u8>>) -> (r: bool)
    ensures
        r == (!ignored(path@, ignores@.map_values(|v: Vec<u8>| v@)) && has_php_extension(path@)),
{
    if is_ignored(path, ignores) {
        false
    } else {
        has_php_ext(path)
    }
}

} // verus!
