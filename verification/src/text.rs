//! Byte-string helpers: case-insensitive matching, suffix tests, and
//! set-style operations on lists of file paths.

use vstd::prelude::*;

use crate::ids::bytes_equal;

verus! {

/// The ASCII lower-case form of one byte.
pub open spec fn lower_byte(b: u8) -> u8 {
    if 65 <= b <= 90 {
        (b + 32) as u8
    } else {
        b
    }
}

/// The ASCII lower-case form of a byte string.
pub open spec fn lower_bytes(s: Seq<u8>) -> Seq<u8> {
    s.map_values(|b: u8| lower_byte(b))
}

/// True when `needle` occurs in `hay` starting at position `at`.
pub open spec fn matches_at(hay: Seq<u8>, needle: Seq<u8>, at: int) -> bool {
    0 <= at && at + needle.len() <= hay.len() && hay.subrange(at, at + needle.len()) == needle
}

/// True when `needle` occurs somewhere in `hay`.
pub open spec fn contains_sub(hay: Seq<u8>, needle: Seq<u8>) -> bool {
    exists|at: int| matches_at(hay, needle, at)
}

/// True when `needle` occurs in `hay` ignoring ASCII case.
pub open spec fn contains_ci(hay: Seq<u8>, needle: Seq<u8>) -> bool {
    contains_sub(lower_bytes(hay), lower_bytes(needle))
}

/// A fresh vector holding the same bytes.
pub fn copy_bytes(v: &Vec<u8>) -> (r: Vec<u8>)
    ensures
        r@ == v@,
{
    let n = v.len();
    let mut out: Vec<u8> = Vec::new();
    let mut i: usize = 0;
    while i < n
        invariant
            n == v@.len(),
            0 <= i <= n,
            out@.len() == i,
            forall|j: int| 0 <= j < i ==> out@[j] == v@[j],
        decreases n - i,
    {
        out.push(v[i]);
        i = i + 1;
    }
    proof {
        assert(out@ =~= v@);
    }
    out
}

/// The ASCII lower-case form of one byte.
pub fn lower_byte_exec(b: u8) -> (r: u8)
    ensures
        r == lower_byte(b),
{
    if 65 <= b && b <= 90 {
        b + 32
    } else {
        b
    }
}

/// True when `needle` occurs in `hay` at position `at`, ignoring ASCII case.
fn matches_ci_at(hay: &Vec<u8>, needle: &Vec<u8>, at: usize) -> (r: bool)
    requires
        at + needle@.len() <= hay@.len(),
    ensures
        r == matches_at(lower_bytes(hay@), lower_bytes(needle@), at as int),
{
    let hn = hay.len();
    let n = needle.len();
    let mut j: usize = 0;
    while j < n
        invariant
            hn == hay@.len(),
            n == needle@.len(),
            at + n <= hn,
            0 <= j <= n,
            forall|t: int| 0 <= t < j ==> lower_bytes(hay@)[at + t] == lower_bytes(needle@)[t],
        decreases n - j,
    {
        if lower_byte_exec(hay[at + j]) != lower_byte_exec(needle[j]) {
            proof {
                assert(lower_bytes(hay@)[at + j] != lower_bytes(needle@)[j as int]);
                assert(!matches_at(lower_bytes(hay@), lower_bytes(needle@), at as int)) by {
                    if matches_at(lower_bytes(hay@), lower_bytes(needle@), at as int) {
                        assert(lower_bytes(hay@).subrange(
                            at as int,
                            at + lower_bytes(needle@).len(),
                        )[j as int] == lower_bytes(needle@)[j as int]);
                    }
                }
            }
            return false;
        }
        j = j + 1;
    }
    proof {
        assert(lower_bytes(hay@).subrange(at as int, at + lower_bytes(needle@).len())
            =~= lower_bytes(needle@));
    }
    true
}

/// True when `needle` occurs somewhere in `hay`, ignoring ASCII case.
pub fn contains_ci_exec(hay: &Vec<u8>, needle: &Vec<u8>) -> (r: bool)
    ensures
        r == contains_ci(hay@, needle@),
{
    if needle.len() == 0 {
        proof {
            assert(lower_bytes(hay@).subrange(0, 0) =~= lower_bytes(needle@));
            assert(matches_at(lower_bytes(hay@), lower_bytes(needle@), 0));
        }
        return true;
    }
    if needle.len() > hay.len() {
        proof {
            assert(!contains_ci(hay@, needle@)) by {
                if contains_ci(hay@, needle@) {
                    let at = choose|at: int| matches_at(lower_bytes(hay@), lower_bytes(needle@), at);
                }
            }
        }
        return false;
    }
    let last = hay.len() - needle.len();
    let mut at: usize = 0;
    while at <= last
        invariant
            1 <= needle@.len() <= hay@.len(),
            hay@.len() <= usize::MAX,
            last == hay@.len() - needle@.len(),
            0 <= at <= last + 1,
            forall|t: int| 0 <= t < at ==> !matches_at(lower_bytes(hay@), lower_bytes(needle@), t),
        decreases last + 1 - at,
    {
        if matches_ci_at(hay, needle, at) {
            return true;
        }
        at = at + 1;
    }
    proof {
        assert(!contains_ci(hay@, needle@)) by {
            if contains_ci(hay@, needle@) {
                let t = choose|t: int| matches_at(lower_bytes(hay@), lower_bytes(needle@), t);
                assert(0 <= t <= last);
            }
        }
    }
    false
}

/// True when `s` ends with `suffix`.
pub open spec fn ends_with(s: Seq<u8>, suffix: Seq<u8>) -> bool {
    s.len() >= suffix.len() && s.subrange(s.len() - suffix.len(), s.len() as int) == suffix
}

/// True when `s` ends with `suffix`.
pub fn ends_with_exec(s: &Vec<u8>, suffix: &Vec<u8>) -> (r: bool)
    ensures
        r == ends_with(s@, suffix@),
{
    let n = s.len();
    let k = suffix.len();
    if n < k {
        return false;
    }
    let start = n - k;
    let mut j: usize = 0;
    while j < k
        invariant
            n == s@.len(),
            k == suffix@.len(),
            k <= n,
            start == n - k,
            0 <= j <= k,
            forall|t: int| 0 <= t < j ==> s@[start + t] == suffix@[t],
        decreases k - j,
    {
        if s[start + j] != suffix[j] {
            proof {
                assert(!ends_with(s@, suffix@)) by {
                    if ends_with(s@, suffix@) {
                        assert(s@.subrange(s@.len() - suffix@.len(), s@.len() as int)[j as int]
                            == suffix@[j as int]);
                    }
                }
            }
            return false;
        }
        j = j + 1;
    }
    proof {
        assert(s@.subrange(s@.len() - suffix@.len(), s@.len() as int) =~= suffix@);
    }
    true
}

/// True when the extension list places no restriction, or the path ends with
/// one of the listed suffixes.  An empty list means every path is considered.
pub open spec fn path_passes_ext(path: Seq<u8>, exts: Seq<Seq<u8>>) -> bool {
    exts.len() == 0 || exists|k: int| 0 <= k < exts.len() && ends_with(path, #[trigger] exts[k])
}

/// True when the extension list places no restriction, or the path ends with
/// one of the listed suffixes.
pub fn path_passes_ext_exec(path: &Vec<u8>, exts: &Vec<Vec<u8>>) -> (r: bool)
    ensures
        r == path_passes_ext(path@, exts.deep_view()),
{
    if exts.len() == 0 {
        return true;
    }
    let n = exts.len();
    let mut k: usize = 0;
    while k < n
        invariant
            n == exts@.len(),
            0 <= k <= n,
            forall|t: int| 0 <= t < k ==> !ends_with(path@, #[trigger] exts.deep_view()[t]),
        decreases n - k,
    {
        let hit = ends_with_exec(path, &exts[k]);
        proof {
            assert(exts.deep_view()[k as int] == exts@[k as int]@);
        }
        if hit {
            return true;
        }
        k = k + 1;
    }
    false
}

/// True when some byte string occurs in both lists.
pub open spec fn lists_intersect(a: Seq<Seq<u8>>, b: Seq<Seq<u8>>) -> bool {
    exists|i: int, j: int| 0 <= i < a.len() && 0 <= j < b.len() && a[i] == b[j]
}

/// True when `v` holds `x`.
pub fn list_contains(v: &Vec<Vec<u8>>, x: &Vec<u8>) -> (r: bool)
    ensures
        r == v.deep_view().contains(x@),
{
    let n = v.len();
    let mut i: usize = 0;
    while i < n
        invariant
            n == v@.len(),
            0 <= i <= n,
            forall|t: int| 0 <= t < i ==> v.deep_view()[t] != x@,
        decreases n - i,
    {
        let hit = bytes_equal(&v[i], x);
        proof {
            assert(v.deep_view()[i as int] == v@[i as int]@);
        }
        if hit {
            proof {
                assert(v.deep_view()[i as int] == x@);
            }
            return true;
        }
        i = i + 1;
    }
    proof {
        if v.deep_view().contains(x@) {
            let t = choose|t: int| 0 <= t < v.deep_view().len() && v.deep_view()[t] == x@;
        }
    }
    false
}

/// True when some byte string occurs in both lists.
pub fn lists_intersect_exec(a: &Vec<Vec<u8>>, b: &Vec<Vec<u8>>) -> (r: bool)
    ensures
        r == lists_intersect(a.deep_view(), b.deep_view()),
{
    let n = a.len();
    let mut i: usize = 0;
    while i < n
        invariant
            n == a@.len(),
            0 <= i <= n,
            forall|t: int, j: int|
                0 <= t < i && 0 <= j < b.deep_view().len() ==> #[trigger] a.deep_view()[t]
                    != #[trigger] b.deep_view()[j],
        decreases n - i,
    {
        let hit = list_contains(b, &a[i]);
        proof {
            assert(a.deep_view()[i as int] == a@[i as int]@);
        }
        if hit {
            proof {
                let j = choose|j: int|
                    0 <= j < b.deep_view().len() && b.deep_view()[j] == a.deep_view()[i as int];
                assert(lists_intersect(a.deep_view(), b.deep_view()));
            }
            return true;
        }
        proof {
            if b.deep_view().contains(a.deep_view()[i as int]) {
                let j = choose|j: int|
                    0 <= j < b.deep_view().len() && b.deep_view()[j] == a.deep_view()[i as int];
            }
        }
        i = i + 1;
    }
    false
}

/// Pushing an element extends the membership of a list by that element.
proof fn lemma_push_contains(s: Seq<Seq<u8>>, x: Seq<u8>)
    ensures
        forall|y: Seq<u8>| s.push(x).contains(y) == (s.contains(y) || y == x),
{
    assert forall|y: Seq<u8>| s.push(x).contains(y) == (s.contains(y) || y == x) by {
        if s.push(x).contains(y) {
            let t = choose|t: int| 0 <= t < s.push(x).len() && s.push(x)[t] == y;
            if t < s.len() {
                assert(s[t] == y);
            }
        }
        if s.contains(y) {
            let t = choose|t: int| 0 <= t < s.len() && s[t] == y;
            assert(s.push(x)[t] == y);
        }
        if y == x {
            assert(s.push(x)[s.len() as int] == y);
        }
    }
}

/// Extending a prefix by one element extends its membership by that element.
proof fn lemma_prefix_extend(s: Seq<Seq<u8>>, i: int)
    requires
        0 <= i < s.len(),
    ensures
        forall|y: Seq<u8>|
            s.subrange(0, i + 1).contains(y) == (s.subrange(0, i).contains(y) || y == s[i]),
{
    assert(s.subrange(0, i + 1) =~= s.subrange(0, i).push(s[i]));
    lemma_push_contains(s.subrange(0, i), s[i]);
}

/// The elements of `a` that also occur in `b`, without duplicates, in the
/// order they appear in `a`.
pub fn intersect_lists(a: &Vec<Vec<u8>>, b: &Vec<Vec<u8>>) -> (r: Vec<Vec<u8>>)
    ensures
        forall|x: Seq<u8>|
            #[trigger] r.deep_view().contains(x) == (a.deep_view().contains(x)
                && b.deep_view().contains(x)),
        forall|i: int, j: int|
            0 <= i < j < r.deep_view().len() ==> r.deep_view()[i] != r.deep_view()[j],
        subsequence_of(r.deep_view(), a.deep_view()),
{
    let n = a.len();
    let mut out: Vec<Vec<u8>> = Vec::new();
    let mut i: usize = 0;
    while i < n
        invariant
            n == a@.len(),
            0 <= i <= n,
            forall|x: Seq<u8>|
                #[trigger] out.deep_view().contains(x) == (a.deep_view().subrange(
                    0,
                    i as int,
                ).contains(x) && b.deep_view().contains(x)),
            forall|s: int, t: int|
                0 <= s < t < out.deep_view().len() ==> out.deep_view()[s] != out.deep_view()[t],
            subsequence_of(out.deep_view(), a.deep_view().subrange(0, i as int)),
        decreases n - i,
    {
        let ghost pre = out.deep_view();
        let in_b = list_contains(b, &a[i]);
        let seen = list_contains(&out, &a[i]);
        proof {
            assert(a.deep_view()[i as int] == a@[i as int]@);
        }
        if in_b && !seen {
            let x = copy_bytes(&a[i]);
            out.push(x);
            proof {
                assert(out.deep_view() =~= pre.push(a.deep_view()[i as int]));
                lemma_push_contains(pre, a.deep_view()[i as int]);
            }
        }
        proof {
            lemma_prefix_extend(a.deep_view(), i as int);
            let ai = a.deep_view()[i as int];
            assert forall|x: Seq<u8>|
                #[trigger] out.deep_view().contains(x) == (a.deep_view().subrange(
                    0,
                    i as int + 1,
                ).contains(x) && b.deep_view().contains(x)) by {
                if in_b && !seen {
                    assert(out.deep_view().contains(x) == pre.push(ai).contains(x));
                    assert(pre.push(ai).contains(x) == (pre.contains(x) || x == ai));
                } else {
                    assert(out.deep_view() == pre);
                    if x == ai && in_b {
                        assert(pre.contains(x));
                    }
                }
            }
            assert(a.deep_view().subrange(0, i as int + 1) =~= a.deep_view().subrange(
                0,
                i as int,
            ).push(ai));
            if in_b && !seen {
                lemma_subsequence_extend_both(pre, a.deep_view().subrange(0, i as int), ai);
            } else {
                lemma_subsequence_extend(pre, a.deep_view().subrange(0, i as int), ai);
            }
        }
        i = i + 1;
    }
    proof {
        assert(a.deep_view().subrange(0, n as int) =~= a.deep_view());
    }
    out
}

/// The elements of `v` without duplicates, in the order they appear.
pub fn dedup_list(v: &Vec<Vec<u8>>) -> (r: Vec<Vec<u8>>)
    ensures
        forall|x: Seq<u8>| #[trigger] r.deep_view().contains(x) == v.deep_view().contains(x),
        forall|i: int, j: int|
            0 <= i < j < r.deep_view().len() ==> r.deep_view()[i] != r.deep_view()[j],
        subsequence_of(r.deep_view(), v.deep_view()),
{
    let n = v.len();
    let mut out: Vec<Vec<u8>> = Vec::new();
    let mut i: usize = 0;
    while i < n
        invariant
            n == v@.len(),
            0 <= i <= n,
            forall|x: Seq<u8>|
                #[trigger] out.deep_view().contains(x) == v.deep_view().subrange(
                    0,
                    i as int,
                ).contains(x),
            forall|s: int, t: int|
                0 <= s < t < out.deep_view().len() ==> out.deep_view()[s] != out.deep_view()[t],
            subsequence_of(out.deep_view(), v.deep_view().subrange(0, i as int)),
        decreases n - i,
    {
        let ghost pre = out.deep_view();
        let seen = list_contains(&out, &v[i]);
        proof {
            assert(v.deep_view()[i as int] == v@[i as int]@);
        }
        if !seen {
            let x = copy_bytes(&v[i]);
            out.push(x);
            proof {
                assert(out.deep_view() =~= pre.push(v.deep_view()[i as int]));
                lemma_push_contains(pre, v.deep_view()[i as int]);
            }
        }
        proof {
            lemma_prefix_extend(v.deep_view(), i as int);
            let vi = v.deep_view()[i as int];
            assert forall|x: Seq<u8>|
                #[trigger] out.deep_view().contains(x) == v.deep_view().subrange(
                    0,
                    i as int + 1,
                ).contains(x) by {
                if !seen {
                    assert(out.deep_view().contains(x) == pre.push(vi).contains(x));
                    assert(pre.push(vi).contains(x) == (pre.contains(x) || x == vi));
                } else {
                    assert(out.deep_view() == pre);
                    if x == vi {
                        assert(pre.contains(x));
                    }
                }
            }
            assert(v.deep_view().subrange(0, i as int + 1) =~= v.deep_view().subrange(
                0,
                i as int,
            ).push(vi));
            if !seen {
                lemma_subsequence_extend_both(pre, v.deep_view().subrange(0, i as int), vi);
            } else {
                lemma_subsequence_extend(pre, v.deep_view().subrange(0, i as int), vi);
            }
        }
        i = i + 1;
    }
    proof {
        assert(v.deep_view().subrange(0, n as int) =~= v.deep_view());
    }
    out
}

/// The paths that pass the extension filter, in order.
pub fn filter_paths_by_ext(paths: &Vec<Vec<u8>>, exts: &Vec<Vec<u8>>) -> (r: Vec<Vec<u8>>)
    ensures
        r.deep_view() == paths.deep_view().filter(
            |p: Seq<u8>| path_passes_ext(p, exts.deep_view()),
        ),
{
    let ghost pred = |p: Seq<u8>| path_passes_ext(p, exts.deep_view());
    let n = paths.len();
    let mut out: Vec<Vec<u8>> = Vec::new();
    let mut i: usize = 0;
    while i < n
        invariant
            pred == (|p: Seq<u8>| path_passes_ext(p, exts.deep_view())),
            n == paths@.len(),
            0 <= i <= n,
            out.deep_view() == paths.deep_view().subrange(0, i as int).filter(pred),
        decreases n - i,
    {
        let ghost pre = out.deep_view();
        let keep = path_passes_ext_exec(&paths[i], exts);
        proof {
            assert(paths.deep_view()[i as int] == paths@[i as int]@);
        }
        if keep {
            out.push(copy_bytes(&paths[i]));
            proof {
                assert(out.deep_view() =~= pre.push(paths.deep_view()[i as int]));
            }
        }
        proof {
            reveal_with_fuel(Seq::filter, 2);
            let sub1 = paths.deep_view().subrange(0, i as int + 1);
            assert(sub1.drop_last() =~= paths.deep_view().subrange(0, i as int));
            assert(sub1.last() == paths.deep_view()[i as int]);
            assert(out.deep_view() == sub1.filter(pred));
        }
        i = i + 1;
    }
    proof {
        assert(paths.deep_view().subrange(0, n as int) =~= paths.deep_view());
    }
    out
}


/// True when `sub` is a subsequence of `sup`: its elements occur in `sup`
/// in the same order.
pub open spec fn subsequence_of(sub: Seq<Seq<u8>>, sup: Seq<Seq<u8>>) -> bool
    decreases sup.len(),
{
    if sub.len() == 0 {
        true
    } else if sup.len() == 0 {
        false
    } else if sub.last() == sup.last() && subsequence_of(sub.drop_last(), sup.drop_last()) {
        true
    } else {
        subsequence_of(sub, sup.drop_last())
    }
}

/// A subsequence of `sup` is one of `sup` extended by anything.
pub proof fn lemma_subsequence_extend(sub: Seq<Seq<u8>>, sup: Seq<Seq<u8>>, x: Seq<u8>)
    requires
        subsequence_of(sub, sup),
    ensures
        subsequence_of(sub, sup.push(x)),
{
    assert(sup.push(x).drop_last() =~= sup);
}

/// Extending both lists by the same element keeps the subsequence relation.
pub proof fn lemma_subsequence_extend_both(sub: Seq<Seq<u8>>, sup: Seq<Seq<u8>>, x: Seq<u8>)
    requires
        subsequence_of(sub, sup),
    ensures
        subsequence_of(sub.push(x), sup.push(x)),
{
    assert(sub.push(x).drop_last() =~= sub);
    assert(sup.push(x).drop_last() =~= sup);
    assert(sub.push(x).last() == sup.push(x).last());
}

/// True when the two file lists share a path that passes the extension
/// filter: the exact decision of the same-file-touched test, over the
/// lists a pair of diffs handed back.
pub fn file_overlap_decision(
    files1: &Vec<Vec<u8>>,
    files2: &Vec<Vec<u8>>,
    exts: &Vec<Vec<u8>>,
) -> (r: bool)
    ensures
        r == lists_intersect(
            files1.deep_view().filter(|p: Seq<u8>| path_passes_ext(p, exts.deep_view())),
            files2.deep_view().filter(|p: Seq<u8>| path_passes_ext(p, exts.deep_view())),
        ),
{
    let kept1 = filter_paths_by_ext(files1, exts);
    let kept2 = filter_paths_by_ext(files2, exts);
    lists_intersect_exec(&kept1, &kept2)
}


} // verus!
