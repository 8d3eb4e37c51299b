//! The integer side of git churn: reading `git log --numstat` lines and the
//! commit-rate trend of a file.
use vstd::prelude::*;
use crate::text::{
    contains_char, copy_range, ends_with_chars, from_chars, has_prefix, has_suffix, parse_i64, parse_i64_spec,
    parse_u64, parse_u64_spec, split_char, split_chars, starts_at, to_chars, lines_of, lines_spec, str_eq,
};
use crate::types::Trend;

verus! {

/// A `added<TAB>deleted<TAB>path` line of a Java file, with numeric counts
/// (binary files show `-`).
pub open spec fn numstat_spec(line: Seq<char>) -> Option<(Seq<char>, u64, u64)> {
    let parts = split_char(line, '\t');
    if !line.contains('\t') || parts.len() != 3 || parts[0] == "-"@ || parts[0].len() == 0 {
        None
    } else if !has_suffix(parts[2], ".java"@) {
        None
    } else {
        match (parse_u64_spec(parts[0]), parse_u64_spec(parts[1])) {
            (Some(a), Some(d)) => Some((parts[2], a, d)),
            _ => None,
        }
    }
}

pub fn parse_numstat_line(line: &str) -> (r: Option<(String, u64, u64)>)
    ensures
        match numstat_spec(line@) {
            Some((p, a, d)) => r matches Some(x) && x.0@ == p && x.1 == a && x.2 == d,
            None => r is None,
        },
{
    let chars = to_chars(line);
    if !contains_char(&chars, '\t') {
        return None;
    }
    let parts = split_chars(&chars, '\t');
    if parts.len() != 3 || crate::text::chars_eq(&parts[0], &to_chars("-")) || parts[0].len() == 0 {
        return None;
    }
    if !ends_with_chars(&parts[2], &to_chars(".java")) {
        return None;
    }
    let added = match parse_u64(&parts[0]) {
        Some(a) => a,
        None => {
            return None;
        },
    };
    let deleted = match parse_u64(&parts[1]) {
        Some(d) => d,
        None => {
            return None;
        },
    };
    Some((from_chars(parts[2].as_slice()), added, deleted))
}

pub open spec fn seq_min(s: Seq<i64>) -> int
    decreases s.len(),
{
    if s.len() <= 1 {
        if s.len() == 1 { s[0] as int } else { 0 }
    } else {
        let m = seq_min(s.drop_last());
        if (s.last() as int) < m { s.last() as int } else { m }
    }
}

pub open spec fn seq_max(s: Seq<i64>) -> int
    decreases s.len(),
{
    if s.len() <= 1 {
        if s.len() == 1 { s[0] as int } else { 0 }
    } else {
        let m = seq_max(s.drop_last());
        if (s.last() as int) > m { s.last() as int } else { m }
    }
}

/// How many of `s` are above `mid` (`above`) or not.
pub open spec fn count_side(s: Seq<i64>, mid: int, above: bool) -> nat
    decreases s.len(),
{
    if s.len() == 0 {
        0
    } else {
        count_side(s.drop_last(), mid, above) + if ((s.last() as int) > mid) == above {
            1nat
        } else {
            0nat
        }
    }
}

/// The trend of a file's commits: split the span of its commit times in
/// half; more than 1.5 recent commits per older one is accelerating, fewer
/// than 0.67 is cooling. (The rates are compared as integers:
/// `recent / older > 1.5` as `2 * recent > 3 * older`, `< 0.67` as
/// `100 * recent < 67 * older`, which agrees with the floating-point
/// quotient for any count below 2^40.)
pub open spec fn trend_spec(ts: Seq<i64>) -> Trend {
    if ts.len() < 2 || seq_min(ts) == seq_max(ts) {
        Trend::Stable
    } else {
        let mid = seq_min(ts) + (seq_max(ts) - seq_min(ts)) / 2;
        let recent = count_side(ts, mid, true);
        let older = count_side(ts, mid, false);
        if older < 1 {
            Trend::Stable
        } else if 2 * recent > 3 * older {
            Trend::Accelerating
        } else if 100 * recent < 67 * older {
            Trend::Cooling
        } else {
            Trend::Stable
        }
    }
}

proof fn lemma_count_side_bound(s: Seq<i64>, mid: int, above: bool)
    ensures
        count_side(s, mid, above) <= s.len(),
    decreases s.len(),
{
    if s.len() > 0 {
        lemma_count_side_bound(s.drop_last(), mid, above);
    }
}

pub fn compute_trend(timestamps: &[i64]) -> (r: Trend)
    ensures
        r == trend_spec(timestamps@),
{
    let n = timestamps.len();
    if n < 2 {
        return Trend::Stable;
    }
    let mut mn: i64 = timestamps[0];
    let mut mx: i64 = timestamps[0];
    let mut i: usize = 1;
    proof {
        assert(timestamps@.subrange(0, 1).drop_last() =~= Seq::<i64>::empty());
    }
    while i < n
        invariant
            1 <= i <= n == timestamps@.len(),
            mn == seq_min(timestamps@.subrange(0, i as int)),
            mx == seq_max(timestamps@.subrange(0, i as int)),
        decreases n - i,
    {
        proof {
            assert(timestamps@.subrange(0, i + 1).drop_last() =~= timestamps@.subrange(0, i as int));
        }
        if timestamps[i] < mn {
            mn = timestamps[i];
        }
        if timestamps[i] > mx {
            mx = timestamps[i];
        }
        i += 1;
    }
    proof {
        assert(timestamps@.subrange(0, n as int) =~= timestamps@);
    }
    if mn == mx {
        return Trend::Stable;
    }
    let mid: i128 = mn as i128 + (mx as i128 - mn as i128) / 2;
    let mut recent: u64 = 0;
    let mut older: u64 = 0;
    let mut k: usize = 0;
    while k < n
        invariant
            k <= n == timestamps@.len(),
            recent == count_side(timestamps@.subrange(0, k as int), mid as int, true),
            older == count_side(timestamps@.subrange(0, k as int), mid as int, false),
        decreases n - k,
    {
        proof {
            assert(timestamps@.subrange(0, k + 1).drop_last() =~= timestamps@.subrange(0, k as int));
            lemma_count_side_bound(timestamps@.subrange(0, k as int), mid as int, true);
            lemma_count_side_bound(timestamps@.subrange(0, k as int), mid as int, false);
        }
        if (timestamps[k] as i128) > mid {
            recent += 1;
        } else {
            older += 1;
        }
        k += 1;
    }
    proof {
        assert(timestamps@.subrange(0, n as int) =~= timestamps@);
        lemma_count_side_bound(timestamps@, mid as int, true);
        lemma_count_side_bound(timestamps@, mid as int, false);
    }
    if older < 1 {
        Trend::Stable
    } else if 2 * (recent as u128) > 3 * (older as u128) {
        Trend::Accelerating
    } else if 100 * (recent as u128) < 67 * (older as u128) {
        Trend::Cooling
    } else {
        Trend::Stable
    }
}

/// The time of a `COMMIT <hash> <time>` header line of the log (`0` when
/// it does not read as a number), or `None` for any other line.
pub open spec fn commit_time_spec(line: Seq<char>) -> Option<i64> {
    if has_prefix(line, "COMMIT "@) {
        let parts = split_char(line.subrange(7, line.len() as int), ' ');
        Some(
            if parts.len() >= 2 {
                match parse_i64_spec(parts[1]) {
                    Some(t) => t,
                    None => 0,
                }
            } else {
                0
            },
        )
    } else {
        None
    }
}

pub fn commit_timestamp(line: &str) -> (r: Option<i64>)
    ensures
        r == commit_time_spec(line@),
{
    let chars = to_chars(line);
    let tag = to_chars("COMMIT ");
    proof {
        reveal_strlit("COMMIT ");
        assert(chars@.subrange(0, chars@.len() as int) =~= chars@);
    }
    if !starts_at(&chars, 0, &tag) {
        return None;
    }
    let rest = copy_range(&chars, 7, chars.len());
    let parts = split_chars(&rest, ' ');
    if parts.len() >= 2 {
        match parse_i64(&parts[1]) {
            Some(t) => Some(t),
            None => Some(0),
        }
    } else {
        Some(0)
    }
}

// ---------------------------------------------------------------------------
// The order of the commits does not matter
// ---------------------------------------------------------------------------

proof fn lemma_remove_last_parts(t: Seq<i64>, j: int)
    requires
        0 <= j < t.len() - 1,
    ensures
        t.remove(j).drop_last() == t.drop_last().remove(j),
        t.remove(j).last() == t.last(),
{
    assert(t.remove(j).drop_last() =~= t.drop_last().remove(j));
}

proof fn lemma_count_side_remove(t: Seq<i64>, j: int, mid: int, above: bool)
    requires
        0 <= j < t.len(),
    ensures
        count_side(t, mid, above) == count_side(t.remove(j), mid, above) + if ((t[j] as int) > mid) == above {
            1nat
        } else {
            0nat
        },
    decreases t.len(),
{
    if j == t.len() - 1 {
        assert(t.remove(j) =~= t.drop_last());
    } else {
        lemma_remove_last_parts(t, j);
        lemma_count_side_remove(t.drop_last(), j, mid, above);
    }
}

proof fn lemma_min_max_remove(t: Seq<i64>, j: int)
    requires
        0 <= j < t.len(),
        t.len() >= 2,
    ensures
        seq_min(t) == (if (t[j] as int) < seq_min(t.remove(j)) { t[j] as int } else { seq_min(t.remove(j)) }),
        seq_max(t) == (if (t[j] as int) > seq_max(t.remove(j)) { t[j] as int } else { seq_max(t.remove(j)) }),
    decreases t.len(),
{
    if j == t.len() - 1 {
        assert(t.remove(j) =~= t.drop_last());
    } else if t.len() == 2 {
        assert(t.remove(0) =~= seq![t[1]]);
        assert(t.drop_last() =~= seq![t[0]]);
        assert(seq_min(t.remove(0)) == t[1] as int);
        assert(seq_max(t.remove(0)) == t[1] as int);
        assert(seq_min(t.drop_last()) == t[0] as int);
        assert(seq_max(t.drop_last()) == t[0] as int);
    } else {
        let r = t.remove(j);
        lemma_remove_last_parts(t, j);
        lemma_min_max_remove(t.drop_last(), j);
        assert(t.drop_last()[j] == t[j]);
        assert(r.len() >= 2);
        assert(seq_min(r) == (if (r.last() as int) < seq_min(r.drop_last()) { r.last() as int } else { seq_min(r.drop_last()) }));
        assert(seq_max(r) == (if (r.last() as int) > seq_max(r.drop_last()) { r.last() as int } else { seq_max(r.drop_last()) }));
    }
}

/// The span, midpoint and counts a trend is read from do not depend on the
/// order of the commit times.
proof fn lemma_trend_parts_order_free(s: Seq<i64>, t: Seq<i64>, mid: int)
    requires
        s.to_multiset() == t.to_multiset(),
    ensures
        s.len() == t.len(),
        seq_min(s) == seq_min(t),
        seq_max(s) == seq_max(t),
        count_side(s, mid, true) == count_side(t, mid, true),
        count_side(s, mid, false) == count_side(t, mid, false),
    decreases s.len(),
{
    s.to_multiset_ensures();
    t.to_multiset_ensures();
    if s.len() == 0 {
        if t.len() > 0 {
            assert(t.to_multiset().count(t[0]) > 0);
        }
    } else {
        let x = s.last();
        assert(s.to_multiset().count(x) > 0);
        assert(t.contains(x));
        let j = choose|j: int| 0 <= j < t.len() && t[j] == x;
        let s2 = s.drop_last();
        let t2 = t.remove(j);
        assert(s =~= s2.push(x));
        s2.to_multiset_ensures();
        t2.to_multiset_ensures();
        assert(s2.to_multiset() =~= s.to_multiset().remove(x));
        assert(t2.to_multiset() =~= t.to_multiset().remove(x));
        lemma_trend_parts_order_free(s2, t2, mid);
        lemma_count_side_remove(t, j, mid, true);
        lemma_count_side_remove(t, j, mid, false);
        if s.len() >= 2 {
            lemma_min_max_remove(t, j);
        } else {
            assert(t2.len() == 0);
            assert(t =~= seq![x]);
        }
    }
}

/// A file's trend does not depend on the order in which its commits were
/// read: any reordering of the commit times gives the same trend.
pub proof fn lemma_trend_order_free(s: Seq<i64>, t: Seq<i64>)
    requires
        s.to_multiset() == t.to_multiset(),
    ensures
        trend_spec(s) == trend_spec(t),
{
    lemma_trend_parts_order_free(s, t, 0);
    let mid = seq_min(s) + (seq_max(s) - seq_min(s)) / 2;
    lemma_trend_parts_order_free(s, t, mid);
}

// ---------------------------------------------------------------------------
// Per-file counts of a whole log
// ---------------------------------------------------------------------------

/// What the log says of one Java file: lines added and deleted over all
/// its commits (summed as `u64`, wrapping), and the time of each commit
/// that touched it, in log order.
pub struct FileChurnCounts {
    pub path: String,
    pub added: u64,
    pub deleted: u64,
    pub timestamps: Vec<i64>,
}

pub type ChurnView = (Seq<char>, u64, u64, Seq<i64>);

pub open spec fn churn_views(v: Seq<FileChurnCounts>) -> Seq<ChurnView> {
    v.map_values(|c: FileChurnCounts| (c.path@, c.added, c.deleted, c.timestamps@))
}

pub open spec fn wrap_add(a: u64, b: u64) -> u64 {
    if a + b > u64::MAX {
        (a + b - u64::MAX - 1) as u64
    } else {
        (a + b) as u64
    }
}

/// Position of `path` among the entries, or -1.
pub open spec fn entry_of(es: Seq<ChurnView>, path: Seq<char>) -> int
    decreases es.len(),
{
    if es.len() == 0 {
        -1
    } else if entry_of(es.drop_last(), path) >= 0 {
        entry_of(es.drop_last(), path)
    } else if es.last().0 == path {
        es.len() - 1
    } else {
        -1
    }
}

/// One numstat line of a commit at time `ts` added to the entries: the
/// file's counts grow and its commit time is appended, or the file gets an
/// entry of its own at the end.
pub open spec fn add_numstat(es: Seq<ChurnView>, path: Seq<char>, added: u64, deleted: u64, ts: i64) -> Seq<ChurnView> {
    let j = entry_of(es, path);
    if j >= 0 {
        es.update(j, (path, wrap_add(es[j].1, added), wrap_add(es[j].2, deleted), es[j].3.push(ts)))
    } else {
        es.push((path, added, deleted, seq![ts]))
    }
}

/// The commit time in force and the entries after the first `k` lines: a
/// commit header sets the time; numstat lines count once a nonzero time is
/// set; other lines are passed over.
pub open spec fn churn_upto(lines: Seq<Seq<char>>, k: int) -> (i64, Seq<ChurnView>)
    decreases k,
{
    if k <= 0 {
        (0, Seq::empty())
    } else {
        let st = churn_upto(lines, k - 1);
        match commit_time_spec(lines[k - 1]) {
            Some(t) => (t, st.1),
            None => if st.0 == 0 {
                st
            } else {
                match numstat_spec(lines[k - 1]) {
                    Some((p, a, d)) => (st.0, add_numstat(st.1, p, a, d, st.0)),
                    None => st,
                }
            },
        }
    }
}

pub open spec fn churn_spec(log: Seq<char>) -> Seq<ChurnView> {
    churn_upto(lines_spec(log), lines_spec(log).len() as int).1
}

proof fn lemma_entry_of(es: Seq<ChurnView>, path: Seq<char>)
    ensures
        -1 <= entry_of(es, path) < es.len(),
        entry_of(es, path) >= 0 ==> es[entry_of(es, path)].0 == path,
        entry_of(es, path) >= 0 ==> forall|i: int| 0 <= i < entry_of(es, path) ==> es[i].0 != path,
        entry_of(es, path) < 0 ==> forall|i: int| 0 <= i < es.len() ==> es[i].0 != path,
    decreases es.len(),
{
    if es.len() > 0 {
        let d = es.drop_last();
        lemma_entry_of(d, path);
        let e = entry_of(es, path);
        if e >= 0 {
            assert forall|i: int| 0 <= i < e implies es[i].0 != path by {
                assert(es[i] == d[i]);
            }
        } else {
            assert forall|i: int| 0 <= i < es.len() implies es[i].0 != path by {
                if i < d.len() {
                    assert(es[i] == d[i]);
                }
            }
        }
    }
}

fn find_entry(es: &Vec<FileChurnCounts>, path: &str) -> (r: Option<usize>)
    ensures
        match r {
            Some(j) => j as int == entry_of(churn_views(es@), path@) && j < es@.len() && es@[j as int].path@ == path@,
            None => entry_of(churn_views(es@), path@) < 0,
        },
{
    let ghost v = churn_views(es@);
    proof {
        lemma_entry_of(v, path@);
    }
    let mut i: usize = 0;
    while i < es.len()
        invariant
            v == churn_views(es@),
            i <= es@.len(),
            forall|k: int| 0 <= k < i ==> v[k].0 != path@,
            -1 <= entry_of(v, path@) < v.len(),
            entry_of(v, path@) >= 0 ==> v[entry_of(v, path@)].0 == path@,
            entry_of(v, path@) >= 0 ==> forall|k: int| 0 <= k < entry_of(v, path@) ==> v[k].0 != path@,
            entry_of(v, path@) < 0 ==> forall|k: int| 0 <= k < v.len() ==> v[k].0 != path@,
        decreases es@.len() - i,
    {
        proof {
            assert(v[i as int].0 == es@[i as int].path@);
        }
        if str_eq(es[i].path.as_str(), path) {
            proof {
                if entry_of(v, path@) < 0 {
                    assert(v[i as int].0 != path@);
                } else if entry_of(v, path@) > i {
                    assert(v[i as int].0 != path@);
                }
            }
            return Some(i);
        }
        i += 1;
    }
    None
}

/// Reads `git log --numstat --pretty=format:'COMMIT %H %at'`: for each Java
/// file, its added and deleted line counts and its commit times, files in
/// order of first appearance.
pub fn churn_counts(log: &str) -> (r: Vec<FileChurnCounts>)
    ensures
        churn_views(r@) == churn_spec(log@),
{
    let chars = to_chars(log);
    let lines = lines_of(&chars);
    let ghost ls = lines_spec(log@);
    let mut ts: i64 = 0;
    let mut out: Vec<FileChurnCounts> = Vec::new();
    let mut i: usize = 0;
    proof {
        assert(churn_views(out@) =~= Seq::<ChurnView>::empty());
    }
    while i < lines.len()
        invariant
            ls == lines_spec(log@),
            lines@.len() == ls.len(),
            forall|k: int| 0 <= k < lines@.len() ==> (#[trigger] lines@[k])@ == ls[k],
            i <= lines@.len(),
            (ts, churn_views(out@)) == churn_upto(ls, i as int),
        decreases lines@.len() - i,
    {
        let line = from_chars(lines[i].as_slice());
        proof {
            assert(line@ == ls[i as int]);
        }
        match commit_timestamp(line.as_str()) {
            Some(t) => {
                ts = t;
            },
            None => {
                if ts != 0 {
                    match parse_numstat_line(line.as_str()) {
                        Some((path, a, d)) => {
                            let ghost before = churn_views(out@);
                            match find_entry(&out, path.as_str()) {
                                Some(j) => {
                                    let mut e = FileChurnCounts {
                                        path: String::new(),
                                        added: 0,
                                        deleted: 0,
                                        timestamps: Vec::new(),
                                    };
                                    out.set_and_swap(j, &mut e);
                                    proof {
                                        assert(e.path@ == before[j as int].0);
                                        assert(e.timestamps@ == before[j as int].3);
                                    }
                                    e.added = e.added.wrapping_add(a);
                                    e.deleted = e.deleted.wrapping_add(d);
                                    e.timestamps.push(ts);
                                    let ghost ev = (e.path@, e.added, e.deleted, e.timestamps@);
                                    let ghost mid = out@;
                                    out.set_and_swap(j, &mut e);
                                    proof {
                                        assert(churn_views(out@) =~= before.update(j as int, ev));
                                        assert(ev == (path@, wrap_add(before[j as int].1, a), wrap_add(before[j as int].2, d), before[j as int].3.push(ts)));
                                    }
                                },
                                None => {
                                    let mut stamps: Vec<i64> = Vec::new();
                                    stamps.push(ts);
                                    out.push(FileChurnCounts { path, added: a, deleted: d, timestamps: stamps });
                                    proof {
                                        assert(stamps@ =~= seq![ts]);
                                        assert(churn_views(out@) =~= before.push((path@, a, d, seq![ts])));
                                    }
                                },
                            }
                        },
                        None => {},
                    }
                }
            },
        }
        i += 1;
    }
    out
}

/// Entries name distinct files, each with at least one commit, at a
/// nonzero time.
pub open spec fn churn_wf(es: Seq<ChurnView>) -> bool {
    &&& forall|a: int, b: int| 0 <= a < b < es.len() ==> (#[trigger] es[a]).0 != (#[trigger] es[b]).0
    &&& forall|a: int| 0 <= a < es.len() ==> (#[trigger] es[a]).3.len() >= 1
    &&& forall|a: int, k: int| 0 <= a < es.len() && 0 <= k < es[a].3.len() ==> #[trigger] es[a].3[k] != 0
}

proof fn lemma_add_numstat_wf(es: Seq<ChurnView>, path: Seq<char>, added: u64, deleted: u64, ts: i64)
    requires
        churn_wf(es),
        ts != 0,
    ensures
        churn_wf(add_numstat(es, path, added, deleted, ts)),
{
    lemma_entry_of(es, path);
    let j = entry_of(es, path);
    let r = add_numstat(es, path, added, deleted, ts);
    if j >= 0 {
        assert forall|a: int, b: int| 0 <= a < b < r.len() implies (#[trigger] r[a]).0 != (#[trigger] r[b]).0 by {
            assert(r[a].0 == es[a].0 && r[b].0 == es[b].0);
        }
        assert forall|a: int, k: int| 0 <= a < r.len() && 0 <= k < r[a].3.len() implies #[trigger] r[a].3[k] != 0 by {
            if a == j {
                if k < es[j].3.len() {
                    assert(r[a].3[k] == es[j].3[k]);
                }
            }
        }
    } else {
        assert forall|a: int, b: int| 0 <= a < b < r.len() implies (#[trigger] r[a]).0 != (#[trigger] r[b]).0 by {
            if b == es.len() {
                assert(r[a] == es[a]);
            } else {
                assert(r[a] == es[a] && r[b] == es[b]);
            }
        }
        assert forall|a: int| 0 <= a < r.len() implies (#[trigger] r[a]).3.len() >= 1 by {
            if a < es.len() {
                assert(r[a] == es[a]);
            }
        }
        assert forall|a: int, k: int| 0 <= a < r.len() && 0 <= k < r[a].3.len() implies #[trigger] r[a].3[k] != 0 by {
            if a < es.len() {
                assert(r[a] == es[a]);
            }
        }
    }
}

proof fn lemma_churn_upto_wf(lines: Seq<Seq<char>>, k: int)
    ensures
        churn_wf(churn_upto(lines, k).1),
    decreases k,
{
    if k > 0 {
        lemma_churn_upto_wf(lines, k - 1);
        let st = churn_upto(lines, k - 1);
        if commit_time_spec(lines[k - 1]) is None && st.0 != 0 {
            if let Some((p, a, d)) = numstat_spec(lines[k - 1]) {
                lemma_add_numstat_wf(st.1, p, a, d, st.0);
            }
        }
    }
}

/// Each file appears once in the counts of a log, with one or more
/// commits, none at time zero.
pub proof fn lemma_churn_files_once(log: Seq<char>)
    ensures
        churn_wf(churn_spec(log)),
{
    lemma_churn_upto_wf(lines_spec(log), lines_spec(log).len() as int);
}

/// The files of `cs` (from its first `k`) with at least `min_commits`
/// commits, in order: each as (its position in `cs`, its commit count, its
/// lines added plus deleted, wrapping).
pub open spec fn churn_rows_upto(cs: Seq<ChurnView>, min_commits: usize, k: int) -> Seq<
    (usize, usize, u64),
>
    decreases k,
{
    if k <= 0 {
        Seq::empty()
    } else {
        let rest = churn_rows_upto(cs, min_commits, k - 1);
        let c = cs[k - 1];
        if c.3.len() >= min_commits {
            rest.push(((k - 1) as usize, c.3.len() as usize, wrap_add(c.1, c.2)))
        } else {
            rest
        }
    }
}

/// The files whose commit count reaches `min_commits`, in order, with their
/// commit count and churned lines (added plus deleted).
pub fn churn_rows(counts: &Vec<FileChurnCounts>, min_commits: usize) -> (r: Vec<
    (usize, usize, u64),
>)
    ensures
        r@ == churn_rows_upto(churn_views(counts@), min_commits, counts@.len() as int),
{
    let ghost cs = churn_views(counts@);
    let mut out: Vec<(usize, usize, u64)> = Vec::new();
    let mut i: usize = 0;
    while i < counts.len()
        invariant
            i <= counts@.len(),
            cs == churn_views(counts@),
            out@ == churn_rows_upto(cs, min_commits, i as int),
        decreases counts.len() - i,
    {
        let c = &counts[i];
        let n = c.timestamps.len();
        proof {
            assert(cs[i as int] == (c.path@, c.added, c.deleted, c.timestamps@));
        }
        if n >= min_commits {
            out.push((i, n, c.added.wrapping_add(c.deleted)));
        }
        i += 1;
    }
    out
}

} // verus!
