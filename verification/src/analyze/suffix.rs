//! The suffix array of a sequence of integers and the longest common
//! prefixes of neighbouring suffixes.
use vstd::prelude::*;
use crate::sort::{is_perm, lemma_perm_onto};

verus! {

/// The suffix of `t` from `a` sorts strictly before the one from `b`:
/// element by element, an exhausted suffix first.
pub open spec fn suffix_lt(t: Seq<i64>, a: int, b: int) -> bool
    decreases t.len() - a,
{
    if b < 0 || b >= t.len() || a < 0 {
        false
    } else if a >= t.len() {
        true
    } else if t[a] < t[b] {
        true
    } else if t[a] > t[b] {
        false
    } else {
        suffix_lt(t, a + 1, b + 1)
    }
}

/// The number of leading elements the suffixes from `a` and `b` share.
pub open spec fn lcp_from(t: Seq<i64>, a: int, b: int) -> nat
    decreases t.len() - a,
{
    if 0 <= a < t.len() && 0 <= b < t.len() && t[a] == t[b] {
        1 + lcp_from(t, a + 1, b + 1)
    } else {
        0
    }
}

pub proof fn lemma_suffix_lt_irrefl(t: Seq<i64>, a: int)
    ensures
        !suffix_lt(t, a, a),
    decreases t.len() - a,
{
    if 0 <= a < t.len() {
        lemma_suffix_lt_irrefl(t, a + 1);
    }
}

pub proof fn lemma_suffix_lt_trans(t: Seq<i64>, a: int, b: int, c: int)
    requires
        suffix_lt(t, a, b),
        suffix_lt(t, b, c),
    ensures
        suffix_lt(t, a, c),
    decreases t.len() - a,
{
    if a < t.len() && b < t.len() && c < t.len() && t[a] == t[b] && t[b] == t[c] {
        lemma_suffix_lt_trans(t, a + 1, b + 1, c + 1);
    }
}

pub proof fn lemma_suffix_lt_total(t: Seq<i64>, a: int, b: int)
    requires
        0 <= a <= t.len(),
        0 <= b <= t.len(),
        a != b,
    ensures
        suffix_lt(t, a, b) || suffix_lt(t, b, a),
    decreases t.len() - a,
{
    if a < t.len() && b < t.len() && t[a] == t[b] {
        lemma_suffix_lt_total(t, a + 1, b + 1);
    }
}

pub proof fn lemma_suffix_lt_asym(t: Seq<i64>, a: int, b: int)
    requires
        suffix_lt(t, a, b),
    ensures
        !suffix_lt(t, b, a),
{
    if suffix_lt(t, b, a) {
        lemma_suffix_lt_trans(t, a, b, a);
        lemma_suffix_lt_irrefl(t, a);
    }
}

/// Whether the suffix from `a` sorts before the one from `b`, and the
/// length of their common prefix.
pub fn compare_suffixes(t: &Vec<i64>, a: usize, b: usize) -> (r: (bool, usize))
    requires
        a <= t@.len(),
        b <= t@.len(),
    ensures
        r.0 == suffix_lt(t@, a as int, b as int),
        r.1 == lcp_from(t@, a as int, b as int),
{
    let n = t.len();
    let mut h: usize = 0;
    while a + h < n && b + h < n && t[a + h] == t[b + h]
        invariant
            a <= n,
            b <= n,
            n == t@.len(),
            a + h <= n,
            b + h <= n,
            suffix_lt(t@, a as int, b as int) == suffix_lt(t@, a + h, b + h),
            lcp_from(t@, a as int, b as int) == h + lcp_from(t@, a + h, b + h),
        decreases n - a - h,
    {
        h += 1;
    }
    let lt = if b + h >= n {
        false
    } else if a + h >= n {
        true
    } else {
        t[a + h] < t[b + h]
    };
    (lt, h)
}

/// `v` is strictly increasing in suffix order.
pub open spec fn suffix_sorted(t: Seq<i64>, v: Seq<usize>) -> bool {
    forall|i: int, j: int| 0 <= i < j < v.len() ==> suffix_lt(t, #[trigger] v[i] as int, #[trigger] v[j] as int)
}

fn merge(t: &Vec<i64>, a: Vec<usize>, b: Vec<usize>) -> (r: Vec<usize>)
    requires
        forall|i: int| 0 <= i < a@.len() ==> #[trigger] a@[i] <= t@.len(),
        forall|i: int| 0 <= i < b@.len() ==> #[trigger] b@[i] <= t@.len(),
        suffix_sorted(t@, a@),
        suffix_sorted(t@, b@),
        forall|i: int, j: int| 0 <= i < a@.len() && 0 <= j < b@.len() ==> #[trigger] a@[i] != #[trigger] b@[j],
    ensures
        r@.len() == a@.len() + b@.len(),
        suffix_sorted(t@, r@),
        forall|k: int| 0 <= k < r@.len() ==> a@.contains(#[trigger] r@[k]) || b@.contains(r@[k]),
{
    let mut out: Vec<usize> = Vec::new();
    let mut i: usize = 0;
    let mut j: usize = 0;
    while i < a.len() || j < b.len()
        invariant
            forall|x: int| 0 <= x < a@.len() ==> #[trigger] a@[x] <= t@.len(),
            forall|x: int| 0 <= x < b@.len() ==> #[trigger] b@[x] <= t@.len(),
            suffix_sorted(t@, a@),
            suffix_sorted(t@, b@),
            forall|x: int, y: int| 0 <= x < a@.len() && 0 <= y < b@.len() ==> #[trigger] a@[x] != #[trigger] b@[y],
            i <= a@.len(),
            j <= b@.len(),
            out@.len() == i + j,
            suffix_sorted(t@, out@),
            forall|k: int| 0 <= k < out@.len() ==> a@.contains(#[trigger] out@[k]) || b@.contains(out@[k]),
            forall|k: int, x: int| 0 <= k < out@.len() && i <= x < a@.len() ==> suffix_lt(t@, #[trigger] out@[k] as int, #[trigger] a@[x] as int),
            forall|k: int, y: int| 0 <= k < out@.len() && j <= y < b@.len() ==> suffix_lt(t@, #[trigger] out@[k] as int, #[trigger] b@[y] as int),
        decreases a@.len() + b@.len() - i - j,
    {
        let take_a = if i >= a.len() {
            false
        } else if j >= b.len() {
            true
        } else {
            compare_suffixes(t, a[i], b[j]).0
        };
        let ghost old_out = out@;
        if take_a {
            let x = a[i];
            proof {
                if j < b@.len() {
                    lemma_suffix_lt_total(t@, a@[i as int] as int, b@[j as int] as int);
                }
                assert forall|y: int| j <= y < b@.len() implies suffix_lt(t@, x as int, #[trigger] b@[y] as int) by {
                    if y > j {
                        lemma_suffix_lt_trans(t@, x as int, b@[j as int] as int, b@[y] as int);
                    }
                }
                assert(a@.contains(x));
            }
            out.push(x);
            i += 1;
        } else {
            let y = b[j];
            proof {
                if i < a@.len() {
                    lemma_suffix_lt_total(t@, a@[i as int] as int, b@[j as int] as int);
                    lemma_suffix_lt_asym(t@, b@[j as int] as int, a@[i as int] as int);
                }
                assert forall|x: int| i <= x < a@.len() implies suffix_lt(t@, y as int, #[trigger] a@[x] as int) by {
                    if x > i {
                        lemma_suffix_lt_trans(t@, y as int, a@[i as int] as int, a@[x] as int);
                    }
                }
                assert(b@.contains(y));
            }
            out.push(y);
            j += 1;
        }
        proof {
            assert forall|p: int, q: int| 0 <= p < q < out@.len() implies suffix_lt(t@, #[trigger] out@[p] as int, #[trigger] out@[q] as int) by {
                if q == out@.len() - 1 {
                    assert(out@[p] == old_out[p]);
                }
            }
            assert forall|k: int| 0 <= k < out@.len() implies a@.contains(#[trigger] out@[k]) || b@.contains(out@[k]) by {
                if k < old_out.len() {
                    assert(out@[k] == old_out[k]);
                }
            }
        }
    }
    out
}

/// Sorts distinct positions into suffix order.
fn sort_suffixes(t: &Vec<i64>, v: Vec<usize>) -> (r: Vec<usize>)
    requires
        forall|i: int| 0 <= i < v@.len() ==> #[trigger] v@[i] <= t@.len(),
        v@.no_duplicates(),
    ensures
        r@.len() == v@.len(),
        suffix_sorted(t@, r@),
        forall|k: int| 0 <= k < r@.len() ==> v@.contains(#[trigger] r@[k]),
    decreases v@.len(),
{
    let n = v.len();
    if n <= 1 {
        return v;
    }
    let mid = n / 2;
    let mut left: Vec<usize> = Vec::new();
    let mut right: Vec<usize> = Vec::new();
    let mut k: usize = 0;
    while k < n
        invariant
            n == v@.len(),
            mid <= n,
            k <= n,
            left@ == v@.subrange(0, if k < mid { k as int } else { mid as int }),
            right@ == v@.subrange(mid as int, if k < mid { mid as int } else { k as int }),
        decreases n - k,
    {
        if k < mid {
            left.push(v[k]);
        } else {
            right.push(v[k]);
        }
        k += 1;
    }
    proof {
        assert forall|i: int, j: int| 0 <= i < left@.len() && 0 <= j < right@.len() implies #[trigger] left@[i] != #[trigger] right@[j] by {
            assert(left@[i] == v@[i]);
            assert(right@[j] == v@[mid + j]);
        }
        assert(left@.no_duplicates());
        assert(right@.no_duplicates());
    }
    let ghost lv = left@;
    let ghost rv = right@;
    let sl = sort_suffixes(t, left);
    let sr = sort_suffixes(t, right);
    proof {
        assert forall|i: int, j: int| 0 <= i < sl@.len() && 0 <= j < sr@.len() implies #[trigger] sl@[i] != #[trigger] sr@[j] by {
            let a = choose|a: int| 0 <= a < lv.len() && lv[a] == sl@[i];
            let b = choose|b: int| 0 <= b < rv.len() && rv[b] == sr@[j];
        }
    }
    let r = merge(t, sl, sr);
    proof {
        assert forall|k: int| 0 <= k < r@.len() implies v@.contains(#[trigger] r@[k]) by {
            if sl@.contains(r@[k]) {
                let a = choose|a: int| 0 <= a < lv.len() && lv[a] == r@[k];
                assert(v@[a] == r@[k]);
            } else {
                let b = choose|b: int| 0 <= b < rv.len() && rv[b] == r@[k];
                assert(v@[mid + b] == r@[k]);
            }
        }
    }
    r
}

/// `sa` is the suffix array of `t`: every position once, in suffix order.
pub open spec fn is_suffix_array(t: Seq<i64>, sa: Seq<usize>) -> bool {
    &&& sa.len() == t.len()
    &&& forall|i: int| 0 <= i < sa.len() ==> #[trigger] sa[i] < t.len()
    &&& suffix_sorted(t, sa)
}

/// The suffix array of `t`.
pub fn suffix_array(t: &Vec<i64>) -> (r: Vec<usize>)
    ensures
        is_suffix_array(t@, r@),
{
    let n = t.len();
    let mut v: Vec<usize> = Vec::new();
    let mut i: usize = 0;
    while i < n
        invariant
            i <= n == t@.len(),
            v@.len() == i,
            forall|k: int| 0 <= k < i ==> #[trigger] v@[k] == k,
        decreases n - i,
    {
        v.push(i);
        i += 1;
    }
    let ghost vv = v@;
    let r = sort_suffixes(t, v);
    proof {
        assert forall|k: int| 0 <= k < r@.len() implies #[trigger] r@[k] < t@.len() by {
            let a = choose|a: int| 0 <= a < vv.len() && vv[a] == r@[k];
        }
    }
    r
}

/// `lcp[i]` is the common prefix length of the suffixes at `sa[i - 1]` and
/// `sa[i]`; `lcp[0]` is 0.
pub open spec fn is_lcp_array(t: Seq<i64>, sa: Seq<usize>, lcp: Seq<usize>) -> bool {
    &&& lcp.len() == sa.len()
    &&& (lcp.len() > 0 ==> lcp[0] == 0)
    &&& forall|i: int| 1 <= i < lcp.len() ==> #[trigger] lcp[i] == lcp_from(t, sa[i - 1] as int, sa[i] as int)
}

proof fn lemma_lcp_sym(t: Seq<i64>, a: int, b: int)
    ensures
        lcp_from(t, a, b) == lcp_from(t, b, a),
    decreases t.len() - a,
{
    if 0 <= a < t.len() && 0 <= b < t.len() && t[a] == t[b] {
        lemma_lcp_sym(t, a + 1, b + 1);
    }
}

proof fn lemma_lcp_bound(t: Seq<i64>, a: int, b: int)
    requires
        0 <= a,
        0 <= b,
    ensures
        a + lcp_from(t, a, b) <= t.len() || lcp_from(t, a, b) == 0,
        b + lcp_from(t, a, b) <= t.len() || lcp_from(t, a, b) == 0,
    decreases t.len() - a,
{
    if 0 <= a < t.len() && 0 <= b < t.len() && t[a] == t[b] {
        lemma_lcp_bound(t, a + 1, b + 1);
    }
}

/// The first `k` shared elements, split off.
proof fn lemma_lcp_split(t: Seq<i64>, a: int, b: int, k: int)
    requires
        0 <= k <= lcp_from(t, a, b),
    ensures
        lcp_from(t, a, b) == k + lcp_from(t, a + k, b + k),
    decreases k,
{
    if k > 0 {
        lemma_lcp_split(t, a + 1, b + 1, k - 1);
    }
}

/// A suffix sorted between two others shares with the last at least as
/// much as the first does.
proof fn lemma_lcp_between(t: Seq<i64>, x: int, y: int, z: int)
    requires
        suffix_lt(t, x, y),
        suffix_lt(t, y, z),
    ensures
        lcp_from(t, x, z) <= lcp_from(t, y, z),
    decreases t.len() - x,
{
    if lcp_from(t, x, z) > 0 {
        assert(0 <= x < t.len() && 0 <= z < t.len() && t[x] == t[z]);
        assert(0 <= y < t.len());
        assert(t[y] == t[x]);
        lemma_lcp_between(t, x + 1, y + 1, z + 1);
    }
}

/// The LCP array of `t` over its suffix array `sa` (Kasai's algorithm: the
/// suffixes are visited in text order, and the common prefix found for one
/// is at least one shorter for the next).
pub fn lcp_array(t: &Vec<i64>, sa: &Vec<usize>) -> (r: Vec<usize>)
    requires
        is_suffix_array(t@, sa@),
    ensures
        is_lcp_array(t@, sa@, r@),
{
    let n = t.len();
    let ghost tv = t@;
    let ghost sv = sa@;
    proof {
        assert forall|p: int, q: int| 0 <= p < q < n implies sv[p] != sv[q] by {
            assert(suffix_lt(tv, sv[p] as int, sv[q] as int));
            lemma_suffix_lt_irrefl(tv, sv[p] as int);
        }
    }
    let mut rank: Vec<usize> = Vec::new();
    let mut k: usize = 0;
    while k < n
        invariant
            k <= n,
            rank@.len() == k,
        decreases n - k,
    {
        rank.push(0);
        k += 1;
    }
    let mut lcp: Vec<usize> = Vec::new();
    k = 0;
    while k < n
        invariant
            k <= n,
            lcp@.len() == k,
            forall|q: int| 0 <= q < k ==> #[trigger] lcp@[q] == 0,
        decreases n - k,
    {
        lcp.push(0);
        k += 1;
    }
    k = 0;
    while k < n
        invariant
            n == tv.len() == sv.len(),
            sv == sa@,
            k <= n,
            rank@.len() == n,
            forall|p: int, q: int| 0 <= p < q < n ==> sv[p] != sv[q],
            forall|i: int| 0 <= i < n ==> #[trigger] sv[i] < n,
            forall|q: int| 0 <= q < k ==> #[trigger] rank@[sv[q] as int] == q,
        decreases n - k,
    {
        rank.set(sa[k], k);
        k += 1;
    }
    proof {
        let ps = sv.map_values(|v: usize| v as int);
        assert(is_perm(ps, n as int)) by {
            assert forall|i: int| 0 <= i < n implies 0 <= #[trigger] ps[i] < n by {
                assert(ps[i] == sv[i] as int);
            }
            assert forall|p: int, q: int| 0 <= p < q < n implies ps[p] != ps[q] by {
                assert(sv[p] != sv[q]);
            }
        }
        assert forall|x: int| 0 <= x < n implies #[trigger] rank@[x] < n && sv[rank@[x] as int] == x by {
            lemma_perm_onto(ps, n as int, x);
            let q = choose|q: int| 0 <= q < n && ps[q] == x;
            assert(rank@[sv[q] as int] == q);
        }
    }
    let mut h: usize = 0;
    let mut i: usize = 0;
    while i < n
        invariant
            n == tv.len() == sv.len(),
            tv == t@,
            sv == sa@,
            is_suffix_array(tv, sv),
            i <= n,
            h <= n,
            rank@.len() == n,
            lcp@.len() == n,
            forall|p: int, q: int| 0 <= p < q < n ==> sv[p] != sv[q],
            forall|q: int| 0 <= q < n ==> #[trigger] rank@[sv[q] as int] == q,
            forall|x: int| 0 <= x < n ==> #[trigger] rank@[x] < n && sv[rank@[x] as int] == x,
            n > 0 ==> lcp@[0] == 0,
            forall|x: int|
                0 <= x < i && rank@[x] > 0 ==> #[trigger] lcp@[rank@[x] as int] == lcp_from(
                    tv,
                    sv[rank@[x] - 1] as int,
                    x,
                ),
            i < n && rank@[i as int] > 0 ==> h <= lcp_from(tv, sv[rank@[i as int] - 1] as int, i as int),
        decreases n - i,
    {
        if rank[i] > 0 {
            let r = rank[i];
            let j = sa[r - 1];
            proof {
                assert(sv[r as int] == i);
                assert(j != i);
                lemma_lcp_bound(tv, j as int, i as int);
            }
            while i + h < n && j + h < n && t[i + h] == t[j + h]
                invariant
                    n == tv.len(),
                    tv == t@,
                    i < n,
                    j < n,
                    h <= lcp_from(tv, j as int, i as int),
                    i + lcp_from(tv, j as int, i as int) <= n,
                    j + lcp_from(tv, j as int, i as int) <= n,
                decreases n - h,
            {
                proof {
                    lemma_lcp_split(tv, j as int, i as int, h as int);
                }
                h += 1;
            }
            proof {
                lemma_lcp_split(tv, j as int, i as int, h as int);
                assert(lcp_from(tv, j as int, i as int) == h);
            }
            let ghost before = lcp@;
            lcp.set(r, h);
            proof {
                assert forall|x: int|
                    0 <= x < i + 1 && rank@[x] > 0 implies #[trigger] lcp@[rank@[x] as int] == lcp_from(
                        tv,
                        sv[rank@[x] - 1] as int,
                        x,
                    ) by {
                    if x != i {
                        assert(rank@[x] != r) by {
                            assert(sv[rank@[x] as int] == x);
                        }
                        assert(lcp@[rank@[x] as int] == before[rank@[x] as int]);
                    }
                }
                if i + 1 < n && h > 0 {
                    let x = (i + 1) as int;
                    let jj = j as int;
                    // `jj` sorts just before `i` and shares `h` with it, so
                    // `jj + 1` sorts before `x` and shares `h - 1`; the suffix
                    // just before `x` lies between them and shares as much
                    assert(suffix_lt(tv, jj, i as int)) by {
                        assert(rank@[jj] == r - 1);
                        assert(sv[r - 1] == j && sv[r as int] == i);
                    }
                    assert(suffix_lt(tv, jj + 1, x));
                    assert(lcp_from(tv, jj + 1, x) == h - 1);
                    if jj + 1 < n {
                        let rj = rank@[jj + 1] as int;
                        let rx = rank@[x] as int;
                        assert(sv[rj] == jj + 1 && sv[rx] == x);
                        assert(rj < rx) by {
                            if rj == rx {
                            } else if rj > rx {
                                assert(suffix_lt(tv, sv[rx] as int, sv[rj] as int));
                                lemma_suffix_lt_asym(tv, jj + 1, x);
                            }
                        }
                        let pp = sv[rx - 1] as int;
                        if rx - 1 > rj {
                            assert(suffix_lt(tv, sv[rj] as int, sv[rx - 1] as int));
                            assert(suffix_lt(tv, sv[rx - 1] as int, sv[rx] as int));
                            lemma_lcp_between(tv, jj + 1, pp, x);
                        }
                    }
                }
            }
            if h > 0 {
                h -= 1;
            }
        } else {
            h = 0;
        }
        i += 1;
    }
    proof {
        assert forall|q: int| 1 <= q < lcp@.len() implies #[trigger] lcp@[q] == lcp_from(tv, sv[q - 1] as int, sv[q] as int) by {
            let x = sv[q] as int;
            assert(rank@[x] == q);
        }
    }
    lcp
}

} // verus!
