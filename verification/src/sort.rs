//! Stable sorting by a total preorder, and the lexicographic order of
//! character sequences (the order of `str`'s `Ord`).
use vstd::prelude::*;

verus! {

/// A total preorder: the key by which a type is sorted.
pub trait Ordered: Sized {
    spec fn le(a: Self, b: Self) -> bool;

    proof fn le_total(a: Self, b: Self)
        ensures
            Self::le(a, b) || Self::le(b, a),
    ;

    proof fn le_trans(a: Self, b: Self, c: Self)
        requires
            Self::le(a, b),
            Self::le(b, c),
        ensures
            Self::le(a, c),
    ;

    fn le_exec(&self, other: &Self) -> (r: bool)
        ensures
            r == Self::le(*self, *other),
    ;
}

pub open spec fn sorted_by<T: Ordered>(s: Seq<T>) -> bool {
    forall|i: int, j: int| 0 <= i < j < s.len() ==> T::le(s[i], s[j])
}

/// `p` is a permutation of `0..n`.
pub open spec fn is_perm(p: Seq<int>, n: int) -> bool {
    &&& p.len() == n
    &&& forall|i: int| 0 <= i < n ==> 0 <= #[trigger] p[i] < n
    &&& forall|i: int, j: int| 0 <= i < j < n ==> p[i] != p[j]
}

/// `r` is `s` sorted stably: a permutation of `s`, in order, with equal
/// keys kept in their original order.
pub open spec fn stable_sort_of<T: Ordered>(s: Seq<T>, r: Seq<T>) -> bool {
    exists|p: Seq<int>|
        {
            &&& is_perm(p, s.len() as int)
            &&& r.len() == s.len()
            &&& (forall|i: int| 0 <= i < r.len() ==> r[i] == s[#[trigger] p[i]])
            &&& sorted_by(r)
            &&& (forall|i: int, j: int|
                0 <= i < j < r.len() && T::le(r[j], r[i]) ==> #[trigger] p[i] < #[trigger] p[j])
        }
}

/// Every element of `s` is in `r` and the other way round.
pub proof fn lemma_stable_sort_same_elements<T: Ordered>(s: Seq<T>, r: Seq<T>)
    requires
        stable_sort_of(s, r),
    ensures
        r.len() == s.len(),
        forall|i: int| 0 <= i < r.len() ==> s.contains(#[trigger] r[i]),
        forall|i: int| 0 <= i < s.len() ==> r.contains(#[trigger] s[i]),
{
    let p = choose|p: Seq<int>|
        {
            &&& is_perm(p, s.len() as int)
            &&& r.len() == s.len()
            &&& (forall|i: int| 0 <= i < r.len() ==> r[i] == s[#[trigger] p[i]])
            &&& sorted_by(r)
            &&& (forall|i: int, j: int|
                0 <= i < j < r.len() && T::le(r[j], r[i]) ==> #[trigger] p[i] < #[trigger] p[j])
        };
    assert forall|i: int| 0 <= i < r.len() implies s.contains(#[trigger] r[i]) by {
        assert(s[p[i]] == r[i]);
    }
    assert forall|i: int| 0 <= i < s.len() implies r.contains(#[trigger] s[i]) by {
        lemma_perm_onto(p, s.len() as int, i);
        let k = choose|k: int| 0 <= k < s.len() && p[k] == i;
        assert(r[k] == s[i]);
    }
}

/// A permutation of `0..n` hits every index.
pub proof fn lemma_perm_onto(p: Seq<int>, n: int, x: int)
    requires
        is_perm(p, n),
        0 <= x < n,
    ensures
        exists|k: int| 0 <= k < n && p[k] == x,
{
    if !(exists|k: int| 0 <= k < n && p[k] == x) {
        // p maps 0..n into 0..n without x, one-to-one: too many values
        let f = |i: int| p[i];
        let dom = vstd::set_lib::set_int_range(0, n);
        let img = vstd::set_lib::set_int_range(0, n).remove(x);
        vstd::set_lib::lemma_int_range(0, n);
        let img_of = dom.map(f);
        assert forall|v: int| img_of.contains(v) implies img.contains(v) by {
            let i = choose|i: int| dom.contains(i) && f(i) == v;
        }
        assert(img.len() == n - 1);
        assert(img_of.subset_of(img));
        vstd::set_lib::lemma_len_subset(img_of, img);
        assert(vstd::relations::injective_on(f, dom)) by {
            assert forall|a: int, b: int|
                dom.contains(a) && dom.contains(b) && #[trigger] f(a) == #[trigger] f(b) implies a
                == b by {
                if a < b {
                } else if b < a {
                }
            }
        }
        vstd::set_lib::lemma_map_size(dom, img_of, f);
        assert(false);
    }
}

/// A permutation that only grows is the identity.
proof fn lemma_increasing_perm(p: Seq<int>, n: int)
    requires
        is_perm(p, n),
        forall|i: int, j: int| 0 <= i < j < n ==> #[trigger] p[i] < #[trigger] p[j],
    ensures
        forall|i: int| 0 <= i < n ==> #[trigger] p[i] == i,
{
    assert forall|i: int| 0 <= i < n implies #[trigger] p[i] >= i by {
        lemma_increasing_perm_low(p, n, i);
    }
    assert forall|i: int| 0 <= i < n implies #[trigger] p[i] <= i by {
        lemma_increasing_perm_high(p, n, i);
    }
}

proof fn lemma_increasing_perm_low(p: Seq<int>, n: int, i: int)
    requires
        is_perm(p, n),
        forall|a: int, b: int| 0 <= a < b < n ==> #[trigger] p[a] < #[trigger] p[b],
        0 <= i < n,
    ensures
        p[i] >= i,
    decreases i,
{
    if i > 0 {
        lemma_increasing_perm_low(p, n, i - 1);
        assert(p[i - 1] < p[i]);
    }
}

proof fn lemma_increasing_perm_high(p: Seq<int>, n: int, i: int)
    requires
        is_perm(p, n),
        forall|a: int, b: int| 0 <= a < b < n ==> #[trigger] p[a] < #[trigger] p[b],
        0 <= i < n,
    ensures
        p[i] <= i,
    decreases n - i,
{
    if i < n - 1 {
        lemma_increasing_perm_high(p, n, i + 1);
        assert(p[i] < p[i + 1]);
    }
}

/// Sorting stably what is already in order leaves it as it is.
pub proof fn lemma_stable_sort_of_sorted<T: Ordered>(s: Seq<T>, r: Seq<T>)
    requires
        sorted_by(s),
        stable_sort_of(s, r),
    ensures
        r == s,
{
    let p = choose|p: Seq<int>|
        {
            &&& is_perm(p, s.len() as int)
            &&& r.len() == s.len()
            &&& (forall|i: int| 0 <= i < r.len() ==> r[i] == s[#[trigger] p[i]])
            &&& sorted_by(r)
            &&& (forall|i: int, j: int|
                0 <= i < j < r.len() && T::le(r[j], r[i]) ==> #[trigger] p[i] < #[trigger] p[j])
        };
    let n = s.len() as int;
    assert forall|i: int, j: int| 0 <= i < j < n implies #[trigger] p[i] < #[trigger] p[j] by {
        if !T::le(r[j], r[i]) {
            if p[j] < p[i] {
                assert(r[j] == s[p[j]]);
                assert(r[i] == s[p[i]]);
                assert(T::le(s[p[j]], s[p[i]]));
            }
            assert(p[i] != p[j]);
        }
    }
    lemma_increasing_perm(p, n);
    assert forall|i: int| 0 <= i < n implies r[i] == s[i] by {
        assert(r[i] == s[p[i]]);
    }
    assert(r =~= s);
}

/// Sorts `v` stably by `T::le` (insertion sort).
pub fn sort_stable<T: Ordered>(v: Vec<T>) -> (r: Vec<T>)
    ensures
        stable_sort_of(v@, r@),
{
    let ghost orig = v@;
    let n = v.len();
    let mut rest = v;
    let mut out: Vec<T> = Vec::new();
    let ghost mut p: Seq<int> = Seq::empty();
    let mut k: usize = 0;
    while k < n
        invariant
            n == orig.len(),
            k <= n,
            rest@ == orig.subrange(k as int, n as int),
            out@.len() == k,
            p.len() == k,
            forall|i: int| 0 <= i < k ==> 0 <= #[trigger] p[i] < k,
            forall|i: int, j: int| 0 <= i < j < k ==> p[i] != p[j],
            forall|i: int| 0 <= i < k ==> out@[i] == orig[#[trigger] p[i]],
            sorted_by(out@),
            forall|i: int, j: int|
                0 <= i < j < k && T::le(out@[j], out@[i]) ==> #[trigger] p[i] < #[trigger] p[j],
        decreases n - k,
    {
        let x = rest.remove(0);
        assert(x == orig[k as int]);
        let mut q: usize = 0;
        while q < out.len() && out[q].le_exec(&x)
            invariant
                q <= out@.len(),
                forall|i: int| 0 <= i < q ==> T::le(#[trigger] out@[i], x),
            decreases out@.len() - q,
        {
            q += 1;
        }
        // everything from q on is strictly above x
        proof {
            if q < out@.len() {
                assert forall|i: int| q <= i < out@.len() implies !T::le(#[trigger] out@[i], x) by {
                    if T::le(out@[i], x) {
                        T::le_trans(out@[q as int], out@[i], x);
                    }
                }
            }
        }
        let ghost old_out = out@;
        let ghost old_p = p;
        out.insert(q, x);
        proof {
            p = old_p.insert(q as int, k as int);
            assert forall|i: int, j: int| 0 <= i < j < out@.len() implies T::le(
                out@[i],
                out@[j],
            ) by {
                if j < q {
                    assert(out@[i] == old_out[i] && out@[j] == old_out[j]);
                } else if j == q {
                    assert(out@[i] == old_out[i]);
                } else if i == q {
                    assert(out@[j] == old_out[j - 1]);
                    T::le_total(x, old_out[j - 1]);
                } else if i < q {
                    assert(out@[i] == old_out[i] && out@[j] == old_out[j - 1]);
                } else {
                    assert(out@[i] == old_out[i - 1] && out@[j] == old_out[j - 1]);
                }
            }
            assert forall|i: int, j: int|
                0 <= i < j < out@.len() && T::le(out@[j], out@[i]) implies #[trigger] p[i]
                < #[trigger] p[j] by {
                if j < q {
                    assert(p[i] == old_p[i] && p[j] == old_p[j]);
                } else if j == q {
                    assert(p[i] == old_p[i]);
                } else if i == q {
                    assert(out@[j] == old_out[j - 1]);
                    assert(!T::le(old_out[j - 1], x));
                } else if i < q {
                    assert(p[i] == old_p[i] && p[j] == old_p[j - 1]);
                } else {
                    assert(p[i] == old_p[i - 1] && p[j] == old_p[j - 1]);
                }
            }
            assert forall|i: int| 0 <= i < k + 1 implies out@[i] == orig[#[trigger] p[i]] by {
                if i < q {
                } else if i == q {
                } else {
                    assert(out@[i] == old_out[i - 1]);
                    assert(p[i] == old_p[i - 1]);
                }
            }
            assert forall|i: int| 0 <= i < k + 1 implies 0 <= #[trigger] p[i] < k + 1 by {
                if i < q {
                } else if i == q {
                } else {
                    assert(p[i] == old_p[i - 1]);
                }
            }
            assert forall|i: int, j: int| 0 <= i < j < k + 1 implies p[i] != p[j] by {
                if j < q {
                } else if j == q {
                    assert(old_p[i] < k);
                } else if i == q {
                    assert(p[j] == old_p[j - 1]);
                } else if i < q {
                    assert(p[j] == old_p[j - 1]);
                } else {
                    assert(p[i] == old_p[i - 1]);
                    assert(p[j] == old_p[j - 1]);
                }
            }
            assert(rest@ =~= orig.subrange(k + 1, n as int));
        }
        k += 1;
    }
    proof {
        assert(is_perm(p, orig.len() as int));
    }
    out
}

// ---------------------------------------------------------------------------
// Lexicographic order on characters
// ---------------------------------------------------------------------------

/// `a <= b` lexicographically by code point, comparing from position `i`.
pub open spec fn lex_le_from(a: Seq<char>, b: Seq<char>, i: int) -> bool
    decreases a.len() - i,
{
    if i < 0 || i >= a.len() {
        true
    } else if i >= b.len() {
        false
    } else if (a[i] as u32) < (b[i] as u32) {
        true
    } else if (a[i] as u32) > (b[i] as u32) {
        false
    } else {
        lex_le_from(a, b, i + 1)
    }
}

/// `a <= b` in the order of `str`'s `Ord` (byte order of UTF-8, which is
/// code point order).
pub open spec fn lex_le(a: Seq<char>, b: Seq<char>) -> bool {
    lex_le_from(a, b, 0)
}

pub proof fn lemma_lex_total(a: Seq<char>, b: Seq<char>, i: int)
    requires
        0 <= i,
    ensures
        lex_le_from(a, b, i) || lex_le_from(b, a, i),
    decreases a.len() - i,
{
    if i < a.len() && i < b.len() && a[i] as u32 == b[i] as u32 {
        lemma_lex_total(a, b, i + 1);
    }
}

pub proof fn lemma_lex_trans(a: Seq<char>, b: Seq<char>, c: Seq<char>, i: int)
    requires
        0 <= i,
        lex_le_from(a, b, i),
        lex_le_from(b, c, i),
    ensures
        lex_le_from(a, c, i),
    decreases a.len() - i,
{
    if i < a.len() && i < b.len() && i < c.len() && a[i] as u32 == b[i] as u32 && b[i] as u32
        == c[i] as u32 {
        lemma_lex_trans(a, b, c, i + 1);
    }
}

/// `a` and `b` agree from `i` on when each is below the other.
pub proof fn lemma_lex_antisym(a: Seq<char>, b: Seq<char>, i: int)
    requires
        0 <= i <= a.len(),
        i <= b.len(),
        lex_le_from(a, b, i),
        lex_le_from(b, a, i),
    ensures
        a.len() == b.len(),
        forall|k: int| i <= k < a.len() ==> a[k] == b[k],
    decreases a.len() - i,
{
    if i < a.len() && i < b.len() {
        lemma_lex_antisym(a, b, i + 1);
        assert(a[i] as u32 == b[i] as u32);
        vstd::utf8::char_u32_cast(a[i], a[i] as u32);
        vstd::utf8::char_u32_cast(b[i], b[i] as u32);
    }
}

pub fn lex_le_exec(a: &Vec<char>, b: &Vec<char>) -> (r: bool)
    ensures
        r == lex_le(a@, b@),
{
    let mut i: usize = 0;
    while i < a.len()
        invariant
            i <= a.len(),
            lex_le(a@, b@) == lex_le_from(a@, b@, i as int),
        decreases a.len() - i,
    {
        if i >= b.len() {
            return false;
        }
        let x = a[i] as u32;
        let y = b[i] as u32;
        if x < y {
            return true;
        }
        if x > y {
            return false;
        }
        i += 1;
    }
    true
}

impl Ordered for String {
    open spec fn le(a: Self, b: Self) -> bool {
        lex_le(a@, b@)
    }

    proof fn le_total(a: Self, b: Self) {
        lemma_lex_total(a@, b@, 0);
    }

    proof fn le_trans(a: Self, b: Self, c: Self) {
        lemma_lex_trans(a@, b@, c@, 0);
    }

    fn le_exec(&self, other: &Self) -> (r: bool) {
        let a = crate::text::to_chars(self.as_str());
        let b = crate::text::to_chars(other.as_str());
        lex_le_exec(&a, &b)
    }
}

// ---------------------------------------------------------------------------
// Lexicographic order on sequences of strings (the order of `Vec<String>`)
// ---------------------------------------------------------------------------

/// `a <= b` element by element from position `i`, a proper prefix first.
pub open spec fn lex_strs_le_from(a: Seq<Seq<char>>, b: Seq<Seq<char>>, i: int) -> bool
    decreases a.len() - i,
{
    if i < 0 || i >= a.len() {
        true
    } else if i >= b.len() {
        false
    } else if !lex_le(b[i], a[i]) {
        true
    } else if !lex_le(a[i], b[i]) {
        false
    } else {
        lex_strs_le_from(a, b, i + 1)
    }
}

pub open spec fn lex_strs_le(a: Seq<Seq<char>>, b: Seq<Seq<char>>) -> bool {
    lex_strs_le_from(a, b, 0)
}

pub proof fn lemma_lex_strs_total(a: Seq<Seq<char>>, b: Seq<Seq<char>>, i: int)
    requires
        0 <= i,
    ensures
        lex_strs_le_from(a, b, i) || lex_strs_le_from(b, a, i),
    decreases a.len() - i,
{
    if i < a.len() && i < b.len() {
        lemma_lex_total(a[i], b[i], 0);
        if lex_le(a[i], b[i]) && lex_le(b[i], a[i]) {
            lemma_lex_strs_total(a, b, i + 1);
        }
    }
}

pub proof fn lemma_lex_strs_trans(a: Seq<Seq<char>>, b: Seq<Seq<char>>, c: Seq<Seq<char>>, i: int)
    requires
        0 <= i,
        lex_strs_le_from(a, b, i),
        lex_strs_le_from(b, c, i),
    ensures
        lex_strs_le_from(a, c, i),
    decreases a.len() - i,
{
    if i < a.len() && i < b.len() && i < c.len() {
        let x = a[i];
        let y = b[i];
        let z = c[i];
        lemma_lex_total(x, y, 0);
        lemma_lex_total(y, z, 0);
        lemma_lex_total(x, z, 0);
        if lex_le(z, x) && lex_le(x, y) {
            lemma_lex_trans(z, x, y, 0);
        }
        if lex_le(y, z) && lex_le(z, x) {
            lemma_lex_trans(y, z, x, 0);
        }
        if lex_le(x, y) && lex_le(y, z) {
            lemma_lex_trans(x, y, z, 0);
        }
        if lex_le(z, y) && lex_le(y, x) {
            lemma_lex_trans(z, y, x, 0);
        }
        if lex_le(x, y) && lex_le(y, x) && lex_le(y, z) && lex_le(z, y) {
            lemma_lex_strs_trans(a, b, c, i + 1);
        }
    }
}

pub fn lex_strs_le_exec(a: &Vec<String>, b: &Vec<String>) -> (r: bool)
    ensures
        r == lex_strs_le(a@.map_values(|s: String| s@), b@.map_values(|s: String| s@)),
{
    let ghost av = a@.map_values(|s: String| s@);
    let ghost bv = b@.map_values(|s: String| s@);
    let mut i: usize = 0;
    while i < a.len()
        invariant
            i <= a@.len(),
            av == a@.map_values(|s: String| s@),
            bv == b@.map_values(|s: String| s@),
            lex_strs_le(av, bv) == lex_strs_le_from(av, bv, i as int),
        decreases a@.len() - i,
    {
        if i >= b.len() {
            return false;
        }
        let x = crate::text::to_chars(a[i].as_str());
        let y = crate::text::to_chars(b[i].as_str());
        if !lex_le_exec(&y, &x) {
            return true;
        }
        if !lex_le_exec(&x, &y) {
            return false;
        }
        i += 1;
    }
    true
}

impl Ordered for usize {
    open spec fn le(a: Self, b: Self) -> bool {
        a <= b
    }

    proof fn le_total(a: Self, b: Self) {
    }

    proof fn le_trans(a: Self, b: Self, c: Self) {
    }

    fn le_exec(&self, other: &Self) -> (r: bool) {
        *self <= *other
    }
}

} // verus!
