//! Character-sequence helpers: strings are modelled by their `Seq<char>` view,
//! and every operation here is stated over that view.
use vstd::prelude::*;

verus! {

/// Unicode `White_Space`, the property that `char::is_whitespace` tests.
pub open spec fn is_ws(c: char) -> bool {
    let u = c as u32;
    ||| 0x9 <= u <= 0xd
    ||| u == 0x20
    ||| u == 0x85
    ||| u == 0xa0
    ||| u == 0x1680
    ||| 0x2000 <= u <= 0x200a
    ||| u == 0x2028
    ||| u == 0x2029
    ||| u == 0x202f
    ||| u == 0x205f
    ||| u == 0x3000
}

pub fn is_whitespace(c: char) -> (r: bool)
    ensures
        r == is_ws(c),
{
    let u = c as u32;
    (0x9 <= u && u <= 0xd) || u == 0x20 || u == 0x85 || u == 0xa0 || u == 0x1680 || (0x2000
        <= u && u <= 0x200a) || u == 0x2028 || u == 0x2029 || u == 0x202f || u == 0x205f || u
        == 0x3000
}

/// Index of the first non-whitespace character at or after `i`.
pub open spec fn skip_ws_from(s: Seq<char>, i: int) -> int
    decreases s.len() - i,
{
    if 0 <= i < s.len() && is_ws(s[i]) {
        skip_ws_from(s, i + 1)
    } else {
        i
    }
}

/// End of `s[..j]` once trailing whitespace is dropped.
pub open spec fn back_ws_from(s: Seq<char>, j: int) -> int
    decreases j,
{
    if 0 < j <= s.len() && is_ws(s[j - 1]) {
        back_ws_from(s, j - 1)
    } else {
        j
    }
}

/// `str::trim`: leading and trailing whitespace removed.
pub open spec fn trim(s: Seq<char>) -> Seq<char> {
    let a = skip_ws_from(s, 0);
    let e = back_ws_from(s, s.len() as int);
    if a < e {
        s.subrange(a, e)
    } else {
        Seq::empty()
    }
}

proof fn lemma_skip_ws_bounds(s: Seq<char>, i: int)
    requires
        0 <= i <= s.len(),
    ensures
        i <= skip_ws_from(s, i) <= s.len(),
        forall|k: int| i <= k < skip_ws_from(s, i) ==> is_ws(#[trigger] s[k]),
        skip_ws_from(s, i) < s.len() ==> !is_ws(s[skip_ws_from(s, i)]),
    decreases s.len() - i,
{
    if i < s.len() && is_ws(s[i]) {
        lemma_skip_ws_bounds(s, i + 1);
    }
}

proof fn lemma_back_ws_bounds(s: Seq<char>, j: int)
    requires
        0 <= j <= s.len(),
    ensures
        0 <= back_ws_from(s, j) <= j,
        forall|k: int| back_ws_from(s, j) <= k < j ==> is_ws(#[trigger] s[k]),
        back_ws_from(s, j) > 0 ==> !is_ws(s[back_ws_from(s, j) - 1]),
    decreases j,
{
    if j > 0 && is_ws(s[j - 1]) {
        lemma_back_ws_bounds(s, j - 1);
    }
}

/// A string that neither starts nor ends with whitespace is its own trim.
pub proof fn lemma_trim_fixed(s: Seq<char>)
    requires
        s.len() == 0 || (!is_ws(s[0]) && !is_ws(s.last())),
    ensures
        trim(s) == s,
{
    if s.len() > 0 {
        assert(skip_ws_from(s, 0) == 0);
        assert(back_ws_from(s, s.len() as int) == s.len());
        assert(s.subrange(0, s.len() as int) =~= s);
    } else {
        assert(trim(s) =~= s);
    }
}

/// A trimmed string neither starts nor ends with whitespace.
pub proof fn lemma_trim_ends(s: Seq<char>)
    ensures
        trim(s).len() == 0 || (!is_ws(trim(s)[0]) && !is_ws(trim(s).last())),
{
    lemma_skip_ws_bounds(s, 0);
    lemma_back_ws_bounds(s, s.len() as int);
    let a = skip_ws_from(s, 0);
    let e = back_ws_from(s, s.len() as int);
    if a < e {
        assert(trim(s)[0] == s[a]);
        assert(trim(s).last() == s[e - 1]);
    }
}

/// A trimmed ASCII string is ASCII.
pub proof fn lemma_trim_ascii(s: Seq<char>)
    requires
        is_ascii_seq(s),
    ensures
        is_ascii_seq(trim(s)),
{
    lemma_skip_ws_bounds(s, 0);
    lemma_back_ws_bounds(s, s.len() as int);
    let a = skip_ws_from(s, 0);
    let e = back_ws_from(s, s.len() as int);
    if a < e {
        assert forall|i: int| 0 <= i < trim(s).len() implies (#[trigger] trim(s)[i] as u32) < 128 by {
            assert(trim(s)[i] == s[a + i]);
        }
    }
}

/// Trimming keeps a string free of `c`.
pub proof fn lemma_trim_free(s: Seq<char>, c: char)
    requires
        free_of(s, c),
    ensures
        free_of(trim(s), c),
{
    lemma_skip_ws_bounds(s, 0);
    lemma_back_ws_bounds(s, s.len() as int);
    let a = skip_ws_from(s, 0);
    let e = back_ws_from(s, s.len() as int);
    if a < e {
        assert forall|i: int| 0 <= i < trim(s).len() implies #[trigger] trim(s)[i] != c by {
            assert(trim(s)[i] == s[a + i]);
        }
    }
}

/// Copies `v[a..b]` into a new vector.
pub fn copy_range(v: &Vec<char>, a: usize, b: usize) -> (r: Vec<char>)
    requires
        a <= b <= v.len(),
    ensures
        r@ == v@.subrange(a as int, b as int),
{
    let mut out: Vec<char> = Vec::new();
    let mut i = a;
    while i < b
        invariant
            a <= i <= b <= v.len(),
            out@ == v@.subrange(a as int, i as int),
        decreases b - i,
    {
        out.push(v[i]);
        i += 1;
    }
    out
}

pub fn trim_chars(s: &Vec<char>) -> (r: Vec<char>)
    ensures
        r@ == trim(s@),
{
    let n = s.len();
    let mut a: usize = 0;
    while a < n && is_whitespace(s[a])
        invariant
            a <= n == s.len(),
            skip_ws_from(s@, 0) == skip_ws_from(s@, a as int),
        decreases n - a,
    {
        a += 1;
    }
    let mut e: usize = n;
    while e > 0 && is_whitespace(s[e - 1])
        invariant
            e <= n == s.len(),
            back_ws_from(s@, n as int) == back_ws_from(s@, e as int),
        decreases e,
    {
        e -= 1;
    }
    if a < e {
        copy_range(s, a, e)
    } else {
        Vec::new()
    }
}

/// `trim_start_matches(p)`: every leading copy of `p` removed.
pub open spec fn strip_prefix_all(s: Seq<char>, p: Seq<char>) -> Seq<char>
    decreases s.len(),
{
    if p.len() > 0 && p.len() <= s.len() && s.subrange(0, p.len() as int) == p {
        strip_prefix_all(s.subrange(p.len() as int, s.len() as int), p)
    } else {
        s
    }
}

/// `trim_end_matches(c)`: every trailing `c` removed.
pub open spec fn strip_suffix_char_all(s: Seq<char>, c: char) -> Seq<char>
    decreases s.len(),
{
    if s.len() > 0 && s.last() == c {
        strip_suffix_char_all(s.drop_last(), c)
    } else {
        s
    }
}

pub open spec fn has_prefix(s: Seq<char>, p: Seq<char>) -> bool {
    p.len() <= s.len() && s.subrange(0, p.len() as int) == p
}

pub open spec fn has_suffix(s: Seq<char>, p: Seq<char>) -> bool {
    p.len() <= s.len() && s.subrange(s.len() - p.len(), s.len() as int) == p
}

/// `s[from..]` starts with `p`.
pub fn starts_at(s: &Vec<char>, from: usize, p: &Vec<char>) -> (r: bool)
    requires
        from <= s.len(),
    ensures
        r == has_prefix(s@.subrange(from as int, s.len() as int), p@),
{
    if p.len() > s.len() - from {
        return false;
    }
    let mut i: usize = 0;
    while i < p.len()
        invariant
            from + p.len() <= s.len(),
            i <= p.len(),
            forall|k: int| 0 <= k < i ==> s@[from + k] == p@[k],
        decreases p.len() - i,
    {
        if s[from + i] != p[i] {
            assert(s@.subrange(from as int, s.len() as int).subrange(0, p.len() as int)[i as int]
                != p@[i as int]);
            return false;
        }
        i += 1;
    }
    assert(s@.subrange(from as int, s.len() as int).subrange(0, p.len() as int) =~= p@);
    true
}

pub fn ends_with_chars(s: &Vec<char>, p: &Vec<char>) -> (r: bool)
    ensures
        r == has_suffix(s@, p@),
{
    if p.len() > s.len() {
        return false;
    }
    let from = s.len() - p.len();
    let r = starts_at(s, from, p);
    assert(s@.subrange(from as int, s.len() as int).subrange(0, p.len() as int)
        =~= s@.subrange(from as int, s.len() as int));
    r
}

pub fn strip_prefix_all_chars(s: &Vec<char>, p: &Vec<char>) -> (r: Vec<char>)
    ensures
        r@ == strip_prefix_all(s@, p@),
{
    let n = s.len();
    let mut i: usize = 0;
    if p.len() == 0 {
        return copy_range(s, 0, n);
    }
    assert(s@.subrange(0, n as int) =~= s@);
    while starts_at(s, i, p)
        invariant
            i <= n == s.len(),
            p.len() > 0,
            strip_prefix_all(s@, p@) == strip_prefix_all(s@.subrange(i as int, n as int), p@),
        decreases n - i,
    {
        let ghost rest = s@.subrange(i as int, n as int);
        assert(rest.subrange(p.len() as int, rest.len() as int) =~= s@.subrange(
            i + p.len(),
            n as int,
        ));
        i = i + p.len();
    }
    copy_range(s, i, n)
}

pub fn strip_suffix_char_all_chars(s: &Vec<char>, c: char) -> (r: Vec<char>)
    ensures
        r@ == strip_suffix_char_all(s@, c),
{
    let mut e = s.len();
    assert(s@.subrange(0, e as int) =~= s@);
    while e > 0 && s[e - 1] == c
        invariant
            e <= s.len(),
            strip_suffix_char_all(s@, c) == strip_suffix_char_all(s@.subrange(0, e as int), c),
        decreases e,
    {
        assert(s@.subrange(0, e as int).drop_last() =~= s@.subrange(0, e - 1));
        e -= 1;
    }
    copy_range(s, 0, e)
}

/// Characters of a string slice.
pub fn to_chars(s: &str) -> (r: Vec<char>)
    ensures
        r@ == s@,
{
    let mut out: Vec<char> = Vec::new();
    for c in it: s.chars()
        invariant
            out@ == it.seq().take(it.index() as int),
            it.seq() == s@,
    {
        out.push(c);
    }
    out
}

/// Builds a `String` from characters (`Iterator::collect` into `String`).
#[verifier::external_body]
pub fn from_chars(v: &[char]) -> (r: String)
    ensures
        r@ == v@,
{
    v.iter().collect()
}

/// `<str as PartialEq>::eq`.
#[verifier::external_body]
pub fn str_eq(a: &str, b: &str) -> (r: bool)
    ensures
        r == (a@ == b@),
{
    a == b
}

/// Equality of two character sequences.
pub fn chars_eq(a: &Vec<char>, b: &Vec<char>) -> (r: bool)
    ensures
        r == (a@ == b@),
{
    if a.len() != b.len() {
        return false;
    }
    let mut i: usize = 0;
    while i < a.len()
        invariant
            a.len() == b.len(),
            i <= a.len(),
            forall|k: int| 0 <= k < i ==> a@[k] == b@[k],
        decreases a.len() - i,
    {
        if a[i] != b[i] {
            return false;
        }
        i += 1;
    }
    assert(a@ =~= b@);
    true
}

/// Does `s` contain the character `c`?
pub fn contains_char(s: &Vec<char>, c: char) -> (r: bool)
    ensures
        r == s@.contains(c),
{
    let mut i: usize = 0;
    while i < s.len()
        invariant
            i <= s.len(),
            forall|k: int| 0 <= k < i ==> s@[k] != c,
        decreases s.len() - i,
    {
        if s[i] == c {
            return true;
        }
        i += 1;
    }
    false
}

/// Does `s` contain `p` as a contiguous piece?
pub open spec fn contains_seq(s: Seq<char>, p: Seq<char>) -> bool {
    exists|i: int| 0 <= i <= s.len() - p.len() && #[trigger] s.subrange(i, i + p.len()) == p
}

pub fn contains_chars(s: &Vec<char>, p: &Vec<char>) -> (r: bool)
    ensures
        r == contains_seq(s@, p@),
{
    if p.len() > s.len() {
        return false;
    }
    let last = s.len() - p.len();
    let mut i: usize = 0;
    loop
        invariant
            p.len() <= s.len(),
            last == s.len() - p.len(),
            i <= last,
            forall|k: int| 0 <= k < i ==> #[trigger] s@.subrange(k, k + p.len()) != p@,
        decreases last - i,
    {
        assert(s@.subrange(i as int, s.len() as int).subrange(0, p.len() as int)
            =~= s@.subrange(i as int, i + p.len()));
        if starts_at(s, i, p) {
            return true;
        }
        if i == last {
            return false;
        }
        i += 1;
    }
}

/// Position of the first `c` in `s` at or after `from`, else `s.len()`.
pub open spec fn find_char_from(s: Seq<char>, c: char, from: int) -> int
    decreases s.len() - from,
{
    if from < 0 || from >= s.len() {
        s.len() as int
    } else if s[from] == c {
        from
    } else {
        find_char_from(s, c, from + 1)
    }
}

proof fn lemma_find_char_from(s: Seq<char>, c: char, from: int)
    requires
        0 <= from <= s.len(),
    ensures
        from <= find_char_from(s, c, from) <= s.len(),
        forall|k: int| from <= k < find_char_from(s, c, from) ==> s[k] != c,
        find_char_from(s, c, from) < s.len() ==> s[find_char_from(s, c, from)] == c,
    decreases s.len() - from,
{
    if from < s.len() && s[from] != c {
        lemma_find_char_from(s, c, from + 1);
    }
}

/// `str::split(c)` on the piece of `s` that starts at `from`.
pub open spec fn split_from(s: Seq<char>, c: char, from: int) -> Seq<Seq<char>>
    decreases s.len() - from,
{
    let e = find_char_from(s, c, from);
    if from < 0 || from > s.len() || e >= s.len() {
        seq![s.subrange(from, s.len() as int)]
    } else if e < from {
        seq![]
    } else {
        seq![s.subrange(from, e)] + split_from(s, c, e + 1)
    }
}

/// `str::split(c)` with a character pattern.
pub open spec fn split_char(s: Seq<char>, c: char) -> Seq<Seq<char>> {
    split_from(s, c, 0)
}

/// The pieces joined, with `c` between each two (`[&str]::join`).
pub open spec fn join_with(xs: Seq<Seq<char>>, c: char) -> Seq<char>
    decreases xs.len(),
{
    if xs.len() == 0 {
        Seq::empty()
    } else if xs.len() == 1 {
        xs[0]
    } else {
        xs[0] + seq![c] + join_with(xs.drop_first(), c)
    }
}

/// `s` has no `c`.
pub open spec fn free_of(s: Seq<char>, c: char) -> bool {
    forall|i: int| 0 <= i < s.len() ==> #[trigger] s[i] != c
}

/// The first `c` at or after `from`, where `x` (free of `c`) starts at `from`
/// and is followed by `c` or the end, is right after `x`.
proof fn lemma_find_after(s: Seq<char>, c: char, from: int, x: Seq<char>, k: int)
    requires
        0 <= from,
        from + x.len() <= s.len(),
        s.subrange(from, from + x.len()) == x,
        free_of(x, c),
        from + x.len() == s.len() || s[from + x.len()] == c,
        0 <= k <= x.len(),
    ensures
        find_char_from(s, c, from + k) == from + x.len(),
    decreases x.len() - k,
{
    if k < x.len() {
        assert(s[from + k] == x[k]);
        lemma_find_after(s, c, from, x, k + 1);
    }
}

/// Splitting what a join of pieces free of `c` wrote gives the pieces back.
proof fn lemma_split_join_from(s: Seq<char>, c: char, from: int, xs: Seq<Seq<char>>)
    requires
        xs.len() >= 1,
        forall|i: int| 0 <= i < xs.len() ==> free_of(#[trigger] xs[i], c),
        0 <= from <= s.len(),
        s.subrange(from, s.len() as int) == join_with(xs, c),
    ensures
        split_from(s, c, from) == xs,
    decreases xs.len(),
{
    let x = xs[0];
    assert(free_of(x, c));
    if xs.len() == 1 {
        lemma_find_after(s, c, from, x, 0);
        assert(split_from(s, c, from) =~= xs);
    } else {
        let rest = xs.drop_first();
        let j = join_with(xs, c);
        assert(j == x + seq![c] + join_with(rest, c));
        let e = from + x.len();
        assert(s.subrange(from, e) =~= x) by {
            assert forall|i: int| 0 <= i < x.len() implies s.subrange(from, e)[i] == x[i] by {
                assert(s.subrange(from, s.len() as int)[i] == j[i]);
            }
        }
        assert(s[e] == c) by {
            assert(s.subrange(from, s.len() as int)[x.len() as int] == j[x.len() as int]);
        }
        lemma_find_after(s, c, from, x, 0);
        assert(s.subrange(e + 1, s.len() as int) =~= join_with(rest, c)) by {
            assert forall|i: int| 0 <= i < s.len() - (e + 1) implies s.subrange(e + 1, s.len() as int)[i]
                == join_with(rest, c)[i] by {
                assert(s.subrange(from, s.len() as int)[x.len() + 1 + i] == j[x.len() + 1 + i]);
            }
        }
        assert forall|i: int| 0 <= i < rest.len() implies free_of(#[trigger] rest[i], c) by {
            assert(rest[i] == xs[i + 1]);
        }
        lemma_split_join_from(s, c, e + 1, rest);
        assert(split_from(s, c, from) =~= xs);
    }
}

/// Splitting a join of pieces free of `c` gives the pieces back.
pub proof fn lemma_split_join(xs: Seq<Seq<char>>, c: char)
    requires
        xs.len() >= 1,
        forall|i: int| 0 <= i < xs.len() ==> free_of(#[trigger] xs[i], c),
    ensures
        split_char(join_with(xs, c), c) == xs,
{
    let s = join_with(xs, c);
    assert(s.subrange(0, s.len() as int) =~= s);
    lemma_split_join_from(s, c, 0, xs);
}

/// The pieces of a split hold no separator.
pub proof fn lemma_split_free(s: Seq<char>, c: char, from: int)
    requires
        0 <= from <= s.len(),
    ensures
        forall|k: int| 0 <= k < split_from(s, c, from).len() ==> free_of(#[trigger] split_from(s, c, from)[k], c),
    decreases s.len() - from,
{
    lemma_find_char_from(s, c, from);
    let e = find_char_from(s, c, from);
    if e >= s.len() {
        let head = s.subrange(from, s.len() as int);
        assert forall|i: int| 0 <= i < head.len() implies #[trigger] head[i] != c by {
            assert(head[i] == s[from + i]);
        }
    } else if e >= from {
        lemma_split_free(s, c, e + 1);
        let head = s.subrange(from, e);
        assert forall|i: int| 0 <= i < head.len() implies #[trigger] head[i] != c by {
            assert(head[i] == s[from + i]);
        }
        let rest = split_from(s, c, e + 1);
        assert forall|k: int| 0 <= k < split_from(s, c, from).len() implies free_of(
            #[trigger] split_from(s, c, from)[k],
            c,
        ) by {
            if k == 0 {
                assert(split_from(s, c, from)[k] == head);
            } else {
                assert(split_from(s, c, from)[k] == rest[k - 1]);
            }
        }
    }
}

/// A join of ASCII pieces with an ASCII separator is ASCII.
pub proof fn lemma_join_ascii(xs: Seq<Seq<char>>, c: char)
    requires
        (c as u32) < 128,
        forall|i: int| 0 <= i < xs.len() ==> is_ascii_seq(#[trigger] xs[i]),
    ensures
        is_ascii_seq(join_with(xs, c)),
    decreases xs.len(),
{
    if xs.len() >= 2 {
        let rest = xs.drop_first();
        assert forall|i: int| 0 <= i < rest.len() implies is_ascii_seq(#[trigger] rest[i]) by {
            assert(rest[i] == xs[i + 1]);
        }
        lemma_join_ascii(rest, c);
        let j = join_with(xs, c);
        let x = xs[0];
        assert(is_ascii_seq(x));
        assert forall|i: int| 0 <= i < j.len() implies (#[trigger] j[i] as u32) < 128 by {
            if i < x.len() {
                assert(j[i] == x[i]);
            } else if i > x.len() {
                assert(j[i] == join_with(rest, c)[i - x.len() - 1]);
            }
        }
    } else if xs.len() == 1 {
        assert(is_ascii_seq(xs[0]));
    }
}

/// The pieces of an ASCII string are ASCII.
pub proof fn lemma_split_ascii(s: Seq<char>, c: char, from: int)
    requires
        is_ascii_seq(s),
        0 <= from <= s.len(),
    ensures
        forall|k: int|
            0 <= k < split_from(s, c, from).len() ==> is_ascii_seq(
                #[trigger] split_from(s, c, from)[k],
            ),
    decreases s.len() - from,
{
    let e = find_char_from(s, c, from);
    if e >= s.len() {
        assert forall|i: int| 0 <= i < s.subrange(from, s.len() as int).len() implies (
        #[trigger] s.subrange(from, s.len() as int)[i] as u32) < 128 by {
            assert(s.subrange(from, s.len() as int)[i] == s[from + i]);
        }
    } else if e >= from {
        lemma_split_ascii(s, c, e + 1);
        let head = s.subrange(from, e);
        assert forall|i: int| 0 <= i < head.len() implies (#[trigger] head[i] as u32) < 128 by {
            assert(head[i] == s[from + i]);
        }
        let rest = split_from(s, c, e + 1);
        assert forall|k: int| 0 <= k < split_from(s, c, from).len() implies is_ascii_seq(
            #[trigger] split_from(s, c, from)[k],
        ) by {
            if k == 0 {
                assert(split_from(s, c, from)[k] == head);
            } else {
                assert(split_from(s, c, from)[k] == rest[k - 1]);
            }
        }
    }
}

pub fn split_chars(s: &Vec<char>, c: char) -> (r: Vec<Vec<char>>)
    ensures
        r@.len() == split_char(s@, c).len(),
        forall|i: int| 0 <= i < r@.len() ==> (#[trigger] r@[i])@ == split_char(s@, c)[i],
{
    let mut out: Vec<Vec<char>> = Vec::new();
    let mut from: usize = 0;
    let n = s.len();
    loop
        invariant
            from <= n == s.len(),
            ({
                let whole = split_char(s@, c);
                let rest = split_from(s@, c, from as int);
                &&& whole.len() == out@.len() + rest.len()
                &&& forall|i: int| 0 <= i < out@.len() ==> (#[trigger] out@[i])@ == whole[i]
                &&& forall|i: int| 0 <= i < rest.len() ==> whole[out@.len() + i] == rest[i]
            }),
        decreases n - from,
    {
        let mut e = from;
        while e < n && s[e] != c
            invariant
                from <= e <= n == s.len(),
                find_char_from(s@, c, from as int) == find_char_from(s@, c, e as int),
            decreases n - e,
        {
            e += 1;
        }
        proof {
            lemma_find_char_from(s@, c, e as int);
        }
        let piece = copy_range(s, from, e);
        let ghost whole = split_char(s@, c);
        let ghost rest = split_from(s@, c, from as int);
        let ghost old_from = from as int;
        let ghost old_len = out@.len() as int;
        assert(whole[old_len + 0] == rest[0]);
        out.push(piece);
        assert(find_char_from(s@, c, e as int) == e as int);
        if e >= n {
            assert(rest == seq![s@.subrange(old_from, n as int)]);
            assert forall|i: int| 0 <= i < out@.len() implies (#[trigger] out@[i])@ == whole[i] by {
                if i < old_len {
                } else {
                }
            }
            return out;
        }
        from = e + 1;
        assert(rest == seq![s@.subrange(old_from, e as int)] + split_from(s@, c, from as int));
        let ghost rest2 = split_from(s@, c, from as int);
        assert forall|i: int| 0 <= i < rest2.len() implies whole[out@.len() + i] == rest2[i] by {
            assert(whole[old_len + (i + 1)] == rest[i + 1]);
        }
        assert forall|i: int| 0 <= i < out@.len() implies (#[trigger] out@[i])@ == whole[i] by {
            if i < old_len {
            } else {
            }
        }
    }
}

pub proof fn lemma_split_from_nonempty(s: Seq<char>, c: char, from: int)
    requires
        0 <= from <= s.len(),
    ensures
        split_from(s, c, from).len() >= 1,
    decreases s.len() - from,
{
    lemma_find_char_from(s, c, from);
    let e = find_char_from(s, c, from);
    if e < s.len() {
        lemma_split_from_nonempty(s, c, e + 1);
    }
}

/// A `\r` at the end dropped.
pub open spec fn strip_cr(x: Seq<char>) -> Seq<char> {
    if x.len() > 0 && x.last() == '\r' {
        x.drop_last()
    } else {
        x
    }
}

/// `str::lines`: the pieces between `\n`s, without a final empty piece,
/// each piece that a `\n` ends without the `\r` before it.
pub open spec fn lines_spec(s: Seq<char>) -> Seq<Seq<char>> {
    let parts = split_char(s, '\n');
    let n: int = if parts.len() > 0 && parts.last().len() == 0 {
        parts.len() - 1
    } else {
        parts.len() as int
    };
    Seq::new(
        n as nat,
        |i: int|
            if i < parts.len() - 1 {
                strip_cr(parts[i])
            } else {
                parts[i]
            },
    )
}

pub fn lines_of(s: &Vec<char>) -> (r: Vec<Vec<char>>)
    ensures
        r@.len() == lines_spec(s@).len(),
        forall|i: int| 0 <= i < r@.len() ==> (#[trigger] r@[i])@ == lines_spec(s@)[i],
{
    let parts = split_chars(s, '\n');
    let ghost sp = split_char(s@, '\n');
    proof {
        lemma_split_from_nonempty(s@, '\n', 0);
    }
    let total = parts.len();
    let n = if parts[total - 1].len() == 0 {
        total - 1
    } else {
        total
    };
    let mut out: Vec<Vec<char>> = Vec::new();
    let mut i: usize = 0;
    while i < n
        invariant
            sp == split_char(s@, '\n'),
            total == parts@.len() == sp.len(),
            total >= 1,
            forall|k: int| 0 <= k < parts@.len() ==> (#[trigger] parts@[k])@ == sp[k],
            n <= total,
            n == lines_spec(s@).len(),
            i <= n,
            out@.len() == i,
            forall|k: int| 0 <= k < i ==> (#[trigger] out@[k])@ == lines_spec(s@)[k],
        decreases n - i,
    {
        let piece = &parts[i];
        let m = piece.len();
        let line = if i < total - 1 && m > 0 && piece[m - 1] == '\r' {
            copy_range(piece, 0, m - 1)
        } else {
            copy_range(piece, 0, m)
        };
        proof {
            assert(piece@.subrange(0, m as int) =~= piece@);
            assert(piece@.subrange(0, m - 1) =~= piece@.drop_last());
        }
        out.push(line);
        i += 1;
    }
    out
}

/// `a` followed by `b`.
pub fn append_chars(a: &mut Vec<char>, b: &Vec<char>)
    ensures
        final(a)@ == old(a)@ + b@,
{
    let ghost start = a@;
    let mut i: usize = 0;
    while i < b.len()
        invariant
            i <= b@.len(),
            a@ == start + b@.subrange(0, i as int),
        decreases b@.len() - i,
    {
        a.push(b[i]);
        proof {
            assert(b@.subrange(0, i + 1) =~= b@.subrange(0, i as int).push(b@[i as int]));
        }
        i += 1;
    }
    proof {
        assert(b@.subrange(0, b@.len() as int) =~= b@);
    }
}

/// `format!("{a}{b}{c}")`.
pub fn concat3(a: &str, b: &str, c: &str) -> (r: String)
    ensures
        r@ == a@ + b@ + c@,
{
    let mut v = to_chars(a);
    append_chars(&mut v, &to_chars(b));
    append_chars(&mut v, &to_chars(c));
    from_chars(v.as_slice())
}

/// Position of the first whitespace character at or after `i`, else `s.len()`.
pub open spec fn find_ws_from(s: Seq<char>, i: int) -> int
    decreases s.len() - i,
{
    if 0 <= i < s.len() && !is_ws(s[i]) {
        find_ws_from(s, i + 1)
    } else {
        i
    }
}

/// `s.split_whitespace().next()`.
pub open spec fn first_token(s: Seq<char>) -> Option<Seq<char>> {
    let a = skip_ws_from(s, 0);
    if a >= s.len() {
        None
    } else {
        Some(s.subrange(a, find_ws_from(s, a)))
    }
}

proof fn lemma_skip_ws(s: Seq<char>, i: int)
    requires
        0 <= i <= s.len(),
    ensures
        i <= skip_ws_from(s, i) <= s.len(),
    decreases s.len() - i,
{
    if i < s.len() && is_ws(s[i]) {
        lemma_skip_ws(s, i + 1);
    }
}

proof fn lemma_find_ws(s: Seq<char>, i: int)
    requires
        0 <= i <= s.len(),
    ensures
        i <= find_ws_from(s, i) <= s.len(),
    decreases s.len() - i,
{
    if i < s.len() && !is_ws(s[i]) {
        lemma_find_ws(s, i + 1);
    }
}

pub fn first_token_chars(s: &Vec<char>) -> (r: Option<Vec<char>>)
    ensures
        r is Some <==> first_token(s@) is Some,
        r matches Some(t) ==> first_token(s@) == Some(t@),
{
    let n = s.len();
    let mut a: usize = 0;
    while a < n && is_whitespace(s[a])
        invariant
            a <= n == s.len(),
            skip_ws_from(s@, 0) == skip_ws_from(s@, a as int),
        decreases n - a,
    {
        a += 1;
    }
    if a >= n {
        return None;
    }
    let mut e: usize = a;
    while e < n && !is_whitespace(s[e])
        invariant
            a <= e <= n == s.len(),
            find_ws_from(s@, a as int) == find_ws_from(s@, e as int),
        decreases n - e,
    {
        e += 1;
    }
    Some(copy_range(s, a, e))
}

/// The value of a string of decimal digits.
pub open spec fn digits_value(s: Seq<char>) -> int
    decreases s.len(),
{
    if s.len() == 0 {
        0
    } else {
        digits_value(s.drop_last()) * 10 + (s.last() as int - '0' as int)
    }
}

pub open spec fn all_digits(s: Seq<char>) -> bool {
    forall|i: int| 0 <= i < s.len() ==> '0' <= #[trigger] s[i] <= '9'
}

/// `u32::from_str`: one or more decimal digits, after an optional `+`,
/// whose value fits.
pub open spec fn parse_u32_spec(s: Seq<char>) -> Option<u32> {
    let d = if s.len() > 0 && s[0] == '+' {
        s.subrange(1, s.len() as int)
    } else {
        s
    };
    if d.len() > 0 && all_digits(d) && digits_value(d) <= u32::MAX {
        Some(digits_value(d) as u32)
    } else {
        None
    }
}

proof fn lemma_digits_value_grows(s: Seq<char>, k: int)
    requires
        0 <= k <= s.len(),
        all_digits(s),
    ensures
        0 <= digits_value(s.subrange(0, k)) <= digits_value(s),
    decreases s.len() - k,
{
    if k < s.len() {
        lemma_digits_value_grows(s, k + 1);
        assert(s.subrange(0, k + 1).drop_last() =~= s.subrange(0, k));
        assert('0' <= s[k] <= '9');
    } else {
        assert(s.subrange(0, k) =~= s);
    }
    lemma_digits_nonneg(s.subrange(0, k));
}

proof fn lemma_digits_nonneg(s: Seq<char>)
    requires
        all_digits(s),
    ensures
        digits_value(s) >= 0,
    decreases s.len(),
{
    if s.len() > 0 {
        assert(all_digits(s.drop_last()));
        lemma_digits_nonneg(s.drop_last());
        assert('0' <= s[s.len() - 1] <= '9');
    }
}

pub fn parse_u32(s: &Vec<char>) -> (r: Option<u32>)
    ensures
        r == parse_u32_spec(s@),
{
    let start: usize = if s.len() > 0 && s[0] == '+' {
        1
    } else {
        0
    };
    let ghost d = s@.subrange(start as int, s@.len() as int);
    proof {
        assert(s@.subrange(0, s@.len() as int) =~= s@);
        assert(d == (if s@.len() > 0 && s@[0] == '+' {
            s@.subrange(1, s@.len() as int)
        } else {
            s@
        }));
    }
    if start >= s.len() {
        return None;
    }
    let mut i: usize = start;
    let mut value: u64 = 0;
    while i < s.len()
        invariant
            start <= i <= s@.len(),
            start < s@.len(),
            d == s@.subrange(start as int, s@.len() as int),
            parse_u32_spec(s@) == (if d.len() > 0 && all_digits(d) && digits_value(d) <= u32::MAX {
                Some(digits_value(d) as u32)
            } else {
                None
            }),
            forall|k: int| start <= k < i ==> '0' <= #[trigger] s@[k] <= '9',
            value == digits_value(s@.subrange(start as int, i as int)),
            value <= u32::MAX,
        decreases s@.len() - i,
    {
        let c = s[i];
        if c < '0' || c > '9' {
            proof {
                assert(d[i - start] == c);
                assert(!all_digits(d));
            }
            return None;
        }
        proof {
            assert(s@.subrange(start as int, i + 1).drop_last() =~= s@.subrange(start as int, i as int));
        }
        let digit = (c as u32 - '0' as u32) as u64;
        value = value * 10 + digit;
        i += 1;
        if value > u32::MAX as u64 {
            proof {
                if all_digits(d) {
                    assert(d.subrange(0, i - start) =~= s@.subrange(start as int, i as int));
                    lemma_digits_value_grows(d, i - start);
                }
            }
            return None;
        }
    }
    proof {
        assert(s@.subrange(start as int, i as int) =~= d);
        assert forall|k: int| 0 <= k < d.len() implies '0' <= #[trigger] d[k] <= '9' by {
            assert(d[k] == s@[start + k]);
        }
    }
    Some(value as u32)
}

/// What `str::to_lowercase` gives: each character mapped to its Unicode
/// lowercase form.
pub uninterp spec fn lowercase(s: Seq<char>) -> Seq<char>;

/// Every character of `s` is ASCII.
pub open spec fn is_ascii_seq(s: Seq<char>) -> bool {
    forall|i: int| 0 <= i < s.len() ==> (#[trigger] s[i] as u32) < 128
}

/// ASCII lowercase of one character: `A`-`Z` become `a`-`z`, all others
/// stay.
pub open spec fn ascii_lower_char(c: char) -> char {
    if 65 <= (c as u32) <= 90 {
        ((c as u32) + 32) as char
    } else {
        c
    }
}

/// ASCII lowercase of a string.
pub open spec fn ascii_lower(s: Seq<char>) -> Seq<char> {
    s.map_values(|c: char| ascii_lower_char(c))
}

/// `str::to_lowercase`. The result is named: the Unicode mapping takes
/// tables to write down. What std documents of ASCII input is stated: `A`-`Z`
/// become `a`-`z` and every other ASCII character stays as it is.
#[verifier::external_body]
pub fn to_lowercase(s: &str) -> (r: String)
    ensures
        r@ == lowercase(s@),
        is_ascii_seq(s@) ==> r@ == ascii_lower(s@),
{
    s.to_lowercase()
}

/// The decimal digits of `n`, most significant first (`0` is `"0"`).
pub open spec fn decimal(n: nat) -> Seq<char>
    decreases n,
{
    if n < 10 {
        seq![digit_char(n)]
    } else {
        decimal(n / 10).push(digit_char(n % 10))
    }
}

pub open spec fn digit_char(d: nat) -> char {
    if d == 0 { '0' } else if d == 1 { '1' } else if d == 2 { '2' } else if d == 3 { '3' } else if d == 4 { '4' }
    else if d == 5 { '5' } else if d == 6 { '6' } else if d == 7 { '7' } else if d == 8 { '8' } else { '9' }
}

fn digit_exec(d: u64) -> (c: char)
    requires
        d < 10,
    ensures
        c == digit_char(d as nat),
{
    if d == 0 { '0' } else if d == 1 { '1' } else if d == 2 { '2' } else if d == 3 { '3' } else if d == 4 { '4' }
    else if d == 5 { '5' } else if d == 6 { '6' } else if d == 7 { '7' } else if d == 8 { '8' } else { '9' }
}

pub fn decimal_chars(n: u64) -> (r: Vec<char>)
    ensures
        r@ == decimal(n as nat),
    decreases n,
{
    if n < 10 {
        let mut v: Vec<char> = Vec::new();
        v.push(digit_exec(n));
        v
    } else {
        let mut v = decimal_chars(n / 10);
        v.push(digit_exec(n % 10));
        v
    }
}

/// `u64::from_str`: one or more decimal digits, after an optional `+`,
/// whose value fits.
pub open spec fn parse_u64_spec(s: Seq<char>) -> Option<u64> {
    let d = if s.len() > 0 && s[0] == '+' {
        s.subrange(1, s.len() as int)
    } else {
        s
    };
    if d.len() > 0 && all_digits(d) && digits_value(d) <= u64::MAX {
        Some(digits_value(d) as u64)
    } else {
        None
    }
}

pub fn parse_u64(s: &Vec<char>) -> (r: Option<u64>)
    ensures
        r == parse_u64_spec(s@),
{
    let start: usize = if s.len() > 0 && s[0] == '+' {
        1
    } else {
        0
    };
    let ghost d = s@.subrange(start as int, s@.len() as int);
    proof {
        assert(s@.subrange(0, s@.len() as int) =~= s@);
        assert(d == (if s@.len() > 0 && s@[0] == '+' {
            s@.subrange(1, s@.len() as int)
        } else {
            s@
        }));
    }
    if start >= s.len() {
        return None;
    }
    let mut i: usize = start;
    let mut value: u128 = 0;
    while i < s.len()
        invariant
            start <= i <= s@.len(),
            start < s@.len(),
            d == s@.subrange(start as int, s@.len() as int),
            parse_u64_spec(s@) == (if d.len() > 0 && all_digits(d) && digits_value(d) <= u64::MAX {
                Some(digits_value(d) as u64)
            } else {
                None
            }),
            forall|k: int| start <= k < i ==> '0' <= #[trigger] s@[k] <= '9',
            value == digits_value(s@.subrange(start as int, i as int)),
            value <= u64::MAX,
        decreases s@.len() - i,
    {
        let c = s[i];
        if c < '0' || c > '9' {
            proof {
                assert(d[i - start] == c);
                assert(!all_digits(d));
            }
            return None;
        }
        proof {
            assert(s@.subrange(start as int, i + 1).drop_last() =~= s@.subrange(start as int, i as int));
        }
        let digit = (c as u32 - '0' as u32) as u128;
        value = value * 10 + digit;
        i += 1;
        if value > u64::MAX as u128 {
            proof {
                if all_digits(d) {
                    assert(d.subrange(0, i - start) =~= s@.subrange(start as int, i as int));
                    lemma_digits_value_grows(d, i - start);
                }
            }
            return None;
        }
    }
    proof {
        assert(s@.subrange(start as int, i as int) =~= d);
        assert forall|k: int| 0 <= k < d.len() implies '0' <= #[trigger] d[k] <= '9' by {
            assert(d[k] == s@[start + k]);
        }
    }
    Some(value as u64)
}

/// `i64::from_str`: an optional `+` or `-`, then one or more decimal
/// digits, whose signed value fits.
pub open spec fn parse_i64_spec(s: Seq<char>) -> Option<i64> {
    let signed = s.len() > 0 && (s[0] == '+' || s[0] == '-');
    let neg = s.len() > 0 && s[0] == '-';
    let d = if signed {
        s.subrange(1, s.len() as int)
    } else {
        s
    };
    if d.len() > 0 && all_digits(d) {
        if neg && digits_value(d) <= 0x8000_0000_0000_0000 {
            Some((-digits_value(d)) as i64)
        } else if !neg && digits_value(d) <= i64::MAX {
            Some(digits_value(d) as i64)
        } else {
            None
        }
    } else {
        None
    }
}

pub fn parse_i64(s: &Vec<char>) -> (r: Option<i64>)
    ensures
        r == parse_i64_spec(s@),
{
    let signed = s.len() > 0 && (s[0] == '+' || s[0] == '-');
    let neg = s.len() > 0 && s[0] == '-';
    let start: usize = if signed {
        1
    } else {
        0
    };
    let ghost d = s@.subrange(start as int, s@.len() as int);
    proof {
        assert(s@.subrange(0, s@.len() as int) =~= s@);
        assert(d == (if signed {
            s@.subrange(1, s@.len() as int)
        } else {
            s@
        }));
    }
    if start >= s.len() {
        return None;
    }
    let mut i: usize = start;
    let mut value: u128 = 0;
    while i < s.len()
        invariant
            start <= i <= s@.len(),
            start < s@.len(),
            d == s@.subrange(start as int, s@.len() as int),
            d == (if signed {
                s@.subrange(1, s@.len() as int)
            } else {
                s@
            }),
            signed == (s@.len() > 0 && (s@[0] == '+' || s@[0] == '-')),
            neg == (s@.len() > 0 && s@[0] == '-'),
            start == (if signed { 1int } else { 0int }),
            forall|k: int| start <= k < i ==> '0' <= #[trigger] s@[k] <= '9',
            value == digits_value(s@.subrange(start as int, i as int)),
            value <= 0x8000_0000_0000_0000,
        decreases s@.len() - i,
    {
        let c = s[i];
        if c < '0' || c > '9' {
            proof {
                assert(d[i - start] == c);
                assert(!all_digits(d));
            }
            return None;
        }
        proof {
            assert(s@.subrange(start as int, i + 1).drop_last() =~= s@.subrange(start as int, i as int));
        }
        let digit = (c as u32 - '0' as u32) as u128;
        value = value * 10 + digit;
        i += 1;
        if value > 0x8000_0000_0000_0000u128 {
            proof {
                if all_digits(d) {
                    assert(d.subrange(0, i - start) =~= s@.subrange(start as int, i as int));
                    lemma_digits_value_grows(d, i - start);
                }
            }
            return None;
        }
    }
    proof {
        assert(s@.subrange(start as int, i as int) =~= d);
        assert forall|k: int| 0 <= k < d.len() implies '0' <= #[trigger] d[k] <= '9' by {
            assert(d[k] == s@[start + k]);
        }
    }
    if neg {
        if value == 0x8000_0000_0000_0000u128 {
            Some(i64::MIN)
        } else {
            Some(-(value as i64))
        }
    } else if value <= i64::MAX as u128 {
        Some(value as i64)
    } else {
        None
    }
}

} // verus!
