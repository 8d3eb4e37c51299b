//! Defaults and the parsing of the `--fail-on` list.
use vstd::prelude::*;
use crate::text::{ascii_lower, find_char_from, free_of, from_chars, is_ascii_seq, is_ws, join_with, lemma_join_ascii, lemma_split_ascii, lemma_split_free, lemma_split_join, lemma_trim_free, lemma_trim_ascii, lemma_trim_ends, lemma_trim_fixed, lowercase, split_char, split_chars, to_chars, to_lowercase, trim, trim_chars};

verus! {

pub const DEFAULT_MAX_COMPLEXITY: u32 = 20;
pub const DEFAULT_MAX_COGNITIVE: u32 = 15;
pub const DEFAULT_TOP: usize = 20;
pub const DEFAULT_MIN_COMMITS: usize = 1;

/// The comma-separated targets, each trimmed and lowercased, empty ones
/// dropped, among the first `k` pieces.
pub open spec fn fail_on_upto(pieces: Seq<Seq<char>>, k: int) -> Seq<Seq<char>>
    decreases k,
{
    if k <= 0 {
        Seq::empty()
    } else if lowercase(trim(pieces[k - 1])).len() == 0 {
        fail_on_upto(pieces, k - 1)
    } else {
        fail_on_upto(pieces, k - 1).push(lowercase(trim(pieces[k - 1])))
    }
}

pub open spec fn fail_on_spec(raw: Seq<char>) -> Seq<Seq<char>> {
    fail_on_upto(split_char(raw, ','), split_char(raw, ',').len() as int)
}

/// [`fail_on_upto`] for ASCII pieces, with the lowercasing written out.
pub open spec fn fail_on_ascii_upto(pieces: Seq<Seq<char>>, k: int) -> Seq<Seq<char>>
    decreases k,
{
    if k <= 0 {
        Seq::empty()
    } else if ascii_lower(trim(pieces[k - 1])).len() == 0 {
        fail_on_ascii_upto(pieces, k - 1)
    } else {
        fail_on_ascii_upto(pieces, k - 1).push(ascii_lower(trim(pieces[k - 1])))
    }
}

pub open spec fn fail_on_ascii(raw: Seq<char>) -> Seq<Seq<char>> {
    fail_on_ascii_upto(split_char(raw, ','), split_char(raw, ',').len() as int)
}

/// The targets of `--fail-on a,b,...`.
pub fn parse_fail_on(raw: &str) -> (r: Vec<String>)
    ensures
        r@.map_values(|s: String| s@) == fail_on_spec(raw@),
        is_ascii_seq(raw@) ==> r@.map_values(|s: String| s@) == fail_on_ascii(raw@),
{
    let pieces = split_chars(&to_chars(raw), ',');
    let ghost ps = split_char(raw@, ',');
    proof {
        if is_ascii_seq(raw@) {
            lemma_split_ascii(raw@, ',', 0);
        }
    }
    let mut out: Vec<String> = Vec::new();
    let mut i: usize = 0;
    while i < pieces.len()
        invariant
            ps == split_char(raw@, ','),
            pieces@.len() == ps.len(),
            forall|k: int| 0 <= k < pieces@.len() ==> (#[trigger] pieces@[k])@ == ps[k],
            i <= pieces@.len(),
            out@.map_values(|s: String| s@) == fail_on_upto(ps, i as int),
            is_ascii_seq(raw@) ==> out@.map_values(|s: String| s@) == fail_on_ascii_upto(
                ps,
                i as int,
            ),
            is_ascii_seq(raw@) ==> forall|k: int| 0 <= k < ps.len() ==> is_ascii_seq(#[trigger] ps[k]),
        decreases pieces@.len() - i,
    {
        let t = from_chars(trim_chars(&pieces[i]).as_slice());
        proof {
            if is_ascii_seq(raw@) {
                lemma_trim_ascii(ps[i as int]);
            }
        }
        let low = to_lowercase(t.as_str());
        let n = to_chars(low.as_str()).len();
        if n > 0 {
            let ghost before = out@;
            out.push(low);
            proof {
                assert(out@.map_values(|s: String| s@) =~= before.map_values(|s: String| s@).push(low@));
            }
        }
        i += 1;
    }
    out
}

/// `--fail-on` never yields an empty target.
pub proof fn lemma_fail_on_targets_nonempty(pieces: Seq<Seq<char>>, k: int, j: int)
    requires
        0 <= j < fail_on_upto(pieces, k).len(),
    ensures
        fail_on_upto(pieces, k)[j].len() > 0,
    decreases k,
{
    if k > 0 {
        let prev = fail_on_upto(pieces, k - 1);
        if j < prev.len() {
            lemma_fail_on_targets_nonempty(pieces, k - 1, j);
            if lowercase(trim(pieces[k - 1])).len() != 0 {
                assert(fail_on_upto(pieces, k)[j] == prev[j]);
            }
        }
    }
}

/// The targets an ASCII `--fail-on` list yields are settled: none is empty,
/// each is its own trim and its own lowercase.
pub proof fn lemma_fail_on_settled(pieces: Seq<Seq<char>>, k: int, j: int)
    requires
        forall|m: int| 0 <= m < pieces.len() ==> is_ascii_seq(#[trigger] pieces[m]),
        k <= pieces.len(),
        0 <= j < fail_on_ascii_upto(pieces, k).len(),
    ensures
        ({
            let s = fail_on_ascii_upto(pieces, k)[j];
            &&& s.len() > 0
            &&& trim(s) == s
            &&& ascii_lower(s) == s
        }),
    decreases k,
{
    let prev = fail_on_ascii_upto(pieces, k - 1);
    if j < prev.len() {
        lemma_fail_on_settled(pieces, k - 1, j);
        if ascii_lower(trim(pieces[k - 1])).len() != 0 {
            assert(fail_on_ascii_upto(pieces, k)[j] == prev[j]);
        }
    } else {
        let p = pieces[k - 1];
        let t = trim(p);
        lemma_trim_ascii(p);
        lemma_trim_ends(p);
        let s = ascii_lower(t);
        assert(fail_on_ascii_upto(pieces, k)[j] == s);
        assert forall|i: int| 0 <= i < s.len() implies (is_ws(#[trigger] s[i]) ==> is_ws(t[i]))
            && ascii_lower(s)[i] == s[i] by {
            assert((t[i] as u32) < 128);
        }
        assert(!is_ws(s[0]));
        assert(!is_ws(s.last())) by {
            assert(s.last() == s[s.len() - 1]);
            assert(t.last() == t[t.len() - 1]);
        }
        lemma_trim_fixed(s);
        assert(ascii_lower(s) =~= s);
    }
}

proof fn lemma_fail_on_elems(pieces: Seq<Seq<char>>, k: int)
    requires
        forall|m: int| 0 <= m < pieces.len() ==> is_ascii_seq(#[trigger] pieces[m]) && free_of(pieces[m], ','),
        k <= pieces.len(),
    ensures
        forall|j: int|
            0 <= j < fail_on_ascii_upto(pieces, k).len() ==> is_ascii_seq(
                #[trigger] fail_on_ascii_upto(pieces, k)[j],
            ) && free_of(fail_on_ascii_upto(pieces, k)[j], ','),
    decreases k,
{
    if k > 0 {
        lemma_fail_on_elems(pieces, k - 1);
        let prev = fail_on_ascii_upto(pieces, k - 1);
        let p = pieces[k - 1];
        let t = trim(p);
        lemma_trim_ascii(p);
        lemma_trim_free(p, ',');
        let s = ascii_lower(t);
        assert forall|i: int| 0 <= i < s.len() implies (#[trigger] s[i] as u32) < 128 && s[i] != ',' by {
            assert((t[i] as u32) < 128);
            assert(t[i] != ',');
        }
        let cur = fail_on_ascii_upto(pieces, k);
        assert forall|j: int| 0 <= j < cur.len() implies is_ascii_seq(#[trigger] cur[j]) && free_of(
            cur[j],
            ',',
        ) by {
            if j < prev.len() {
                assert(cur[j] == prev[j]);
            } else {
                assert(cur[j] == s);
            }
        }
    }
}

proof fn lemma_fail_on_of_settled(xs: Seq<Seq<char>>, k: int)
    requires
        0 <= k <= xs.len(),
        forall|j: int|
            0 <= j < xs.len() ==> (#[trigger] xs[j]).len() > 0 && trim(xs[j]) == xs[j] && ascii_lower(
                xs[j],
            ) == xs[j],
    ensures
        fail_on_ascii_upto(xs, k) == xs.take(k),
    decreases k,
{
    if k > 0 {
        lemma_fail_on_of_settled(xs, k - 1);
        let x = xs[k - 1];
        assert(ascii_lower(trim(x)) == x);
        assert(xs.take(k - 1).push(x) =~= xs.take(k));
    } else {
        assert(xs.take(0) =~= Seq::<Seq<char>>::empty());
    }
}

/// Joining the targets of an ASCII `--fail-on` list with commas and parsing
/// the result again gives the same targets; the join is ASCII again.
pub proof fn lemma_fail_on_round_trip(raw: Seq<char>)
    requires
        is_ascii_seq(raw),
    ensures
        is_ascii_seq(join_with(fail_on_ascii(raw), ',')),
        fail_on_ascii(join_with(fail_on_ascii(raw), ',')) == fail_on_ascii(raw),
{
    let ps = split_char(raw, ',');
    lemma_split_ascii(raw, ',', 0);
    lemma_split_free(raw, ',', 0);
    let ret = fail_on_ascii(raw);
    lemma_fail_on_elems(ps, ps.len() as int);
    lemma_join_ascii(ret, ',');
    assert forall|j: int| 0 <= j < ret.len() implies (#[trigger] ret[j]).len() > 0 && trim(ret[j])
        == ret[j] && ascii_lower(ret[j]) == ret[j] by {
        lemma_fail_on_settled(ps, ps.len() as int, j);
    }
    if ret.len() == 0 {
        let e = Seq::<char>::empty();
        assert(join_with(ret, ',') == e);
        assert(find_char_from(e, ',', 0) == 0);
        assert(e.subrange(0, 0) =~= e);
        assert(split_char(e, ',') =~= seq![e]);
        lemma_trim_fixed(e);
        assert(ascii_lower(trim(e)).len() == 0);
        assert(fail_on_ascii_upto(seq![e], 0) =~= Seq::<Seq<char>>::empty());
        assert(fail_on_ascii(e) =~= Seq::<Seq<char>>::empty());
    } else {
        lemma_split_join(ret, ',');
        lemma_fail_on_of_settled(ret, ret.len() as int);
        assert(ret.take(ret.len() as int) =~= ret);
    }
}

} // verus!
