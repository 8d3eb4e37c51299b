//! Which findings a report shows: paths skipped by glob, and, when comparing
//! against a git ref, only what the change touched.
use vstd::prelude::*;
use globset::{GlobSet, GlobSetBuilder};
use crate::text::{
    append_chars, from_chars, strip_prefix_all, strip_prefix_all_chars, strip_suffix_char_all,
    strip_suffix_char_all_chars,
};
use crate::text::{
    concat3, copy_range, ends_with_chars, first_token, first_token_chars, has_prefix, has_suffix, lines_of,
    lemma_split_from_nonempty, lines_spec, parse_u32, parse_u32_spec, split_char, split_chars, starts_at, str_eq,
    to_chars, trim, trim_chars,
};

verus! {

// ---------------------------------------------------------------------------
// Refs
// ---------------------------------------------------------------------------

/// The characters a git ref may hold here: ASCII letters and digits and
/// `._/@{}~^- ` (space included).
pub open spec fn ref_char_ok(c: char) -> bool {
    ||| ('0' <= c <= '9')
    ||| ('a' <= c <= 'z')
    ||| ('A' <= c <= 'Z')
    ||| c == '.' || c == '_' || c == '/' || c == '@' || c == '{' || c == '}' || c == '~' || c == '^' || c == '-'
        || c == ' '
}

/// A ref is accepted when it is not empty, does not start with `-` (it
/// would read as an option), and holds only accepted characters.
pub open spec fn ref_error(r: Seq<char>) -> Option<Seq<char>> {
    if r.len() == 0 {
        Some("empty ref"@)
    } else if r[0] == '-' {
        Some("invalid ref '"@ + r + "' (leading dash)"@)
    } else if exists|i: int| 0 <= i < r.len() && !ref_char_ok(#[trigger] r[i]) {
        Some("invalid ref '"@ + r + "' (disallowed characters)"@)
    } else {
        None
    }
}

pub fn validate_ref(reference: &str) -> (r: Result<(), String>)
    ensures
        r is Ok <==> ref_error(reference@) is None,
        r matches Err(m) ==> ref_error(reference@) == Some(m@),
{
    let chars = to_chars(reference);
    if chars.len() == 0 {
        return Err("empty ref".to_string());
    }
    if chars[0] == '-' {
        return Err(concat3("invalid ref '", reference, "' (leading dash)"));
    }
    let mut i: usize = 0;
    while i < chars.len()
        invariant
            chars@ == reference@,
            chars@.len() > 0,
            chars@[0] != '-',
            i <= chars@.len(),
            forall|k: int| 0 <= k < i ==> ref_char_ok(#[trigger] chars@[k]),
        decreases chars@.len() - i,
    {
        let c = chars[i];
        let ok = ('0' <= c && c <= '9') || ('a' <= c && c <= 'z') || ('A' <= c && c <= 'Z') || c == '.' || c == '_'
            || c == '/' || c == '@' || c == '{' || c == '}' || c == '~' || c == '^' || c == '-' || c == ' ';
        if !ok {
            return Err(concat3("invalid ref '", reference, "' (disallowed characters)"));
        }
        i += 1;
    }
    Ok(())
}

// ---------------------------------------------------------------------------
// Changed line ranges
// ---------------------------------------------------------------------------

/// Line ranges per file path: a map kept as a list with each path once.
pub struct FileRanges {
    entries: Vec<(String, Vec<(u32, u32)>)>,
}

/// A set of paths, each once.
pub struct FileSet {
    items: Vec<String>,
}

impl FileRanges {
    pub closed spec fn wf(&self) -> bool {
        forall|i: int, j: int|
            0 <= i < j < self.entries@.len() ==> (#[trigger] self.entries@[i]).0@ != (#[trigger] self.entries@[j]).0@
    }

    pub closed spec fn has(&self, key: Seq<char>) -> bool {
        exists|i: int| 0 <= i < self.entries@.len() && (#[trigger] self.entries@[i]).0@ == key
    }

    /// The ranges of `key` (empty when absent).
    pub closed spec fn at(&self, key: Seq<char>) -> Seq<(u32, u32)> {
        if self.has(key) {
            self.entries@[choose|i: int| 0 <= i < self.entries@.len() && (#[trigger] self.entries@[i]).0@ == key].1@
        } else {
            Seq::empty()
        }
    }

    pub open spec fn view(&self) -> Map<Seq<char>, Seq<(u32, u32)>> {
        Map::new(|k: Seq<char>| self.has(k), |k: Seq<char>| self.at(k))
    }

    pub fn new() -> (r: FileRanges)
        ensures
            r.wf(),
            r.view() == Map::<Seq<char>, Seq<(u32, u32)>>::empty(),
    {
        let r = FileRanges { entries: Vec::new() };
        proof {
            assert(r.view() =~= Map::<Seq<char>, Seq<(u32, u32)>>::empty());
        }
        r
    }

    fn find(&self, key: &str) -> (r: Option<usize>)
        requires
            self.wf(),
        ensures
            r is Some <==> self.has(key@),
            r matches Some(i) ==> i < self.entries@.len() && self.entries@[i as int].0@ == key@
                && self.at(key@) == self.entries@[i as int].1@,
    {
        let mut i: usize = 0;
        while i < self.entries.len()
            invariant
                self.wf(),
                i <= self.entries@.len(),
                forall|k: int| 0 <= k < i ==> (#[trigger] self.entries@[k]).0@ != key@,
            decreases self.entries@.len() - i,
        {
            if str_eq(self.entries[i].0.as_str(), key) {
                proof {
                    let c = choose|c: int| 0 <= c < self.entries@.len() && (#[trigger] self.entries@[c]).0@ == key@;
                    if c != i {
                        if c < i {
                            assert(self.entries@[c].0@ != key@);
                        } else {
                            assert(self.entries@[i as int].0@ != self.entries@[c].0@);
                        }
                    }
                }
                return Some(i);
            }
            i += 1;
        }
        None
    }

    /// The ranges of `path`, if it has any entry.
    pub fn get(&self, path: &str) -> (r: Option<&Vec<(u32, u32)>>)
        requires
            self.wf(),
        ensures
            r is Some <==> self.view().dom().contains(path@),
            r matches Some(v) ==> v@ == self.view()[path@],
    {
        match self.find(path) {
            Some(i) => Some(&self.entries[i].1),
            None => None,
        }
    }

    pub fn contains_key(&self, path: &str) -> (r: bool)
        requires
            self.wf(),
        ensures
            r == self.view().dom().contains(path@),
    {
        self.find(path).is_some()
    }

    /// Appends `range` to the ranges of `path`.
    pub fn push_range(&mut self, path: &str, range: (u32, u32))
        requires
            old(self).wf(),
        ensures
            final(self).wf(),
            final(self).view() == old(self).view().insert(
                path@,
                (if old(self).view().dom().contains(path@) {
                    old(self).view()[path@]
                } else {
                    Seq::empty()
                }).push(range),
            ),
    {
        let ghost old_self = *self;
        match self.find(path) {
            Some(i) => {
                let mut entry: (String, Vec<(u32, u32)>) = (String::new(), Vec::new());
                self.entries.set_and_swap(i, &mut entry);
                entry.1.push(range);
                self.entries.set_and_swap(i, &mut entry);
                proof {
                    assert forall|a: int, b: int|
                        0 <= a < b < self.entries@.len() implies (#[trigger] self.entries@[a]).0@ != (
                        #[trigger] self.entries@[b]).0@ by {
                        assert(old_self.entries@[a].0@ != old_self.entries@[b].0@);
                    }
                    assert forall|k: Seq<char>| self.has(k) == old_self.has(k) by {
                        if old_self.has(k) {
                            let c = choose|c: int| 0 <= c < old_self.entries@.len() && (#[trigger] old_self.entries@[c]).0@ == k;
                            assert(self.entries@[c].0@ == k);
                        }
                        if self.has(k) {
                            let c = choose|c: int| 0 <= c < self.entries@.len() && (#[trigger] self.entries@[c]).0@ == k;
                            assert(old_self.entries@[c].0@ == k);
                        }
                    }
                    assert forall|k: Seq<char>| #[trigger] self.has(k) implies self.at(k) == (if k == path@ {
                        old_self.at(k).push(range)
                    } else {
                        old_self.at(k)
                    }) by {
                        let c = choose|c: int| 0 <= c < self.entries@.len() && (#[trigger] self.entries@[c]).0@ == k;
                        let c0 = choose|c: int| 0 <= c < old_self.entries@.len() && (#[trigger] old_self.entries@[c]).0@ == k;
                        assert(self.entries@[c0].0@ == k);
                        if c != c0 {
                            if c < c0 {
                                assert(self.entries@[c].0@ != self.entries@[c0].0@);
                            } else {
                                assert(self.entries@[c0].0@ != self.entries@[c].0@);
                            }
                        }
                        if k == path@ {
                            if c0 != i {
                                if c0 < i {
                                    assert(old_self.entries@[c0].0@ != old_self.entries@[i as int].0@);
                                } else {
                                    assert(old_self.entries@[i as int].0@ != old_self.entries@[c0].0@);
                                }
                            }
                        }
                    }
                    assert(self.view() =~= old_self.view().insert(path@, old_self.view()[path@].push(range)));
                }
            },
            None => {
                let mut v: Vec<(u32, u32)> = Vec::new();
                v.push(range);
                self.entries.push((path.to_string(), v));
                proof {
                    let n = old_self.entries@.len();
                    assert forall|a: int, b: int|
                        0 <= a < b < self.entries@.len() implies (#[trigger] self.entries@[a]).0@ != (
                        #[trigger] self.entries@[b]).0@ by {
                        if b == n {
                            assert(self.entries@[a] == old_self.entries@[a]);
                        } else {
                            assert(old_self.entries@[a].0@ != old_self.entries@[b].0@);
                        }
                    }
                    assert forall|k: Seq<char>| self.has(k) == (old_self.has(k) || k == path@) by {
                        if old_self.has(k) {
                            let c = choose|c: int| 0 <= c < old_self.entries@.len() && (#[trigger] old_self.entries@[c]).0@ == k;
                            assert(self.entries@[c].0@ == k);
                        }
                        if k == path@ {
                            assert(self.entries@[n as int].0@ == k);
                        }
                        if self.has(k) && k != path@ {
                            let c = choose|c: int| 0 <= c < self.entries@.len() && (#[trigger] self.entries@[c]).0@ == k;
                            assert(old_self.entries@[c].0@ == k);
                        }
                    }
                    assert forall|k: Seq<char>| #[trigger] self.has(k) implies self.at(k) == (if k == path@ {
                        seq![range]
                    } else {
                        old_self.at(k)
                    }) by {
                        let c = choose|c: int| 0 <= c < self.entries@.len() && (#[trigger] self.entries@[c]).0@ == k;
                        if k == path@ {
                            if c != n {
                                assert(old_self.entries@[c].0@ == k);
                                assert(old_self.has(k));
                            }
                            assert(self.entries@[n as int].1@ =~= seq![range]);
                        } else {
                            let c0 = choose|c: int| 0 <= c < old_self.entries@.len() && (#[trigger] old_self.entries@[c]).0@ == k;
                            assert(self.entries@[c0].0@ == k);
                            if c != c0 {
                                if c < c0 {
                                    assert(self.entries@[c].0@ != self.entries@[c0].0@);
                                } else {
                                    assert(self.entries@[c0].0@ != self.entries@[c].0@);
                                }
                            }
                        }
                    }
                    assert(self.view() =~= old_self.view().insert(path@, Seq::<(u32, u32)>::empty().push(range)));
                }
            },
        }
    }
}

impl FileSet {
    pub closed spec fn wf(&self) -> bool {
        forall|i: int, j: int| 0 <= i < j < self.items@.len() ==> (#[trigger] self.items@[i])@ != (#[trigger] self.items@[j])@
    }

    pub closed spec fn view(&self) -> Set<Seq<char>> {
        Set::new(|k: Seq<char>| exists|i: int| 0 <= i < self.items@.len() && (#[trigger] self.items@[i])@ == k)
    }

    pub fn new() -> (r: FileSet)
        ensures
            r.wf(),
            r.view() == Set::<Seq<char>>::empty(),
    {
        let r = FileSet { items: Vec::new() };
        proof {
            assert(r.view() =~= Set::<Seq<char>>::empty());
        }
        r
    }

    pub fn contains(&self, path: &str) -> (r: bool)
        ensures
            r == self.view().contains(path@),
    {
        let mut i: usize = 0;
        while i < self.items.len()
            invariant
                i <= self.items@.len(),
                forall|k: int| 0 <= k < i ==> (#[trigger] self.items@[k])@ != path@,
            decreases self.items@.len() - i,
        {
            if str_eq(self.items[i].as_str(), path) {
                return true;
            }
            i += 1;
        }
        false
    }

    pub fn insert(&mut self, path: &str)
        requires
            old(self).wf(),
        ensures
            final(self).wf(),
            final(self).view() == old(self).view().insert(path@),
    {
        let present = self.contains(path);
        if !present {
            let ghost old_items = self.items@;
            self.items.push(path.to_string());
            proof {
                assert forall|i: int, j: int| 0 <= i < j < self.items@.len() implies (#[trigger] self.items@[i])@ != (
                #[trigger] self.items@[j])@ by {
                    if j < old_items.len() {
                        assert(old_items[i]@ != old_items[j]@);
                    } else {
                        assert(self.items@[i] == old_items[i]);
                    }
                }
                assert forall|k: Seq<char>| self.view().contains(k) == ((exists|i: int| 0 <= i < old_items.len() && (#[trigger] old_items[i])@ == k) || k == path@) by {
                    if exists|i: int| 0 <= i < old_items.len() && (#[trigger] old_items[i])@ == k {
                        let i = choose|i: int| 0 <= i < old_items.len() && (#[trigger] old_items[i])@ == k;
                        assert(self.items@[i] == old_items[i]);
                    }
                    if k == path@ {
                        assert(self.items@[old_items.len() as int]@ == k);
                    }
                    if self.view().contains(k) && k != path@ {
                        let i = choose|i: int| 0 <= i < self.items@.len() && (#[trigger] self.items@[i])@ == k;
                        assert(old_items[i] == self.items@[i]);
                    }
                }
                assert(self.view() =~= old(self).view().insert(path@));
            }
        } else {
            proof {
                assert(self.view() =~= old(self).view().insert(path@));
            }
        }
    }
}

/// `(start, count)` of the new side of a hunk header `@@ -a,b +start,count @@`
/// (`count` is 1 when left out): the text after the first `+` up to
/// whitespace, split at `,`.
pub open spec fn parse_hunk_spec(line: Seq<char>) -> Option<(u32, u32)> {
    let pieces = split_char(line, '+');
    if pieces.len() < 2 {
        None
    } else {
        match first_token(pieces[1]) {
            None => None,
            Some(tok) => {
                let parts = split_char(tok, ',');
                match parse_u32_spec(parts[0]) {
                    None => None,
                    Some(start) => if parts.len() >= 2 {
                        match parse_u32_spec(parts[1]) {
                            None => None,
                            Some(count) => Some((start, count)),
                        }
                    } else {
                        Some((start, 1u32))
                    },
                }
            },
        }
    }
}

pub fn parse_hunk(line: &Vec<char>) -> (r: Option<(u32, u32)>)
    ensures
        r == parse_hunk_spec(line@),
{
    let pieces = split_chars(line, '+');
    if pieces.len() < 2 {
        return None;
    }
    let tok = match first_token_chars(&pieces[1]) {
        Some(t) => t,
        None => {
            return None;
        },
    };
    let parts = split_chars(&tok, ',');
    proof {
        lemma_split_from_nonempty(tok@, ',', 0);
    }
    let start = match parse_u32(&parts[0]) {
        Some(v) => v,
        None => {
            return None;
        },
    };
    if parts.len() >= 2 {
        match parse_u32(&parts[1]) {
            Some(count) => Some((start, count)),
            None => None,
        }
    } else {
        Some((start, 1))
    }
}

/// The last line of a hunk of `count` lines from `start` (at most `u32::MAX`).
pub open spec fn hunk_end(start: u32, count: u32) -> u32 {
    if start + count - 1 > u32::MAX {
        u32::MAX
    } else {
        (start + count - 1) as u32
    }
}

/// The ranges of `path` in `m`, or none.
pub open spec fn ranges_or_empty(m: Map<Seq<char>, Seq<(u32, u32)>>, path: Seq<char>) -> Seq<(u32, u32)> {
    if m.dom().contains(path) {
        m[path]
    } else {
        Seq::empty()
    }
}

/// The state of reading a diff: the file whose hunks follow, whether it is
/// a new file, the ranges so far and the added files so far.
pub type DiffState = (Option<Seq<char>>, bool, Map<Seq<char>, Seq<(u32, u32)>>, Set<Seq<char>>);

/// One line of `git diff --unified=0`: a file header starts a file, `new
/// file mode` marks it added, `+++ ` names it (`/dev/null` names none), and
/// each `@@` hunk with lines adds its range of new lines to the file.
pub open spec fn diff_step(st: DiffState, line: Seq<char>) -> DiffState {
    if has_prefix(line, "diff --git"@) {
        (None, false, st.2, st.3)
    } else if has_prefix(line, "new file mode"@) {
        (st.0, true, st.2, st.3)
    } else if has_prefix(line, "+++ "@) {
        let p = line.subrange(4, line.len() as int);
        if p == "/dev/null"@ {
            (None, st.1, st.2, st.3)
        } else {
            let path = if has_prefix(p, "b/"@) {
                p.subrange(2, p.len() as int)
            } else {
                p
            };
            (Some(path), st.1, st.2, if st.1 {
                st.3.insert(path)
            } else {
                st.3
            })
        }
    } else if has_prefix(line, "@@"@) {
        match st.0 {
            Some(path) => match parse_hunk_spec(line) {
                Some(h) => if h.1 > 0 {
                    (st.0, st.1, st.2.insert(path, ranges_or_empty(st.2, path).push((h.0, hunk_end(h.0, h.1)))), st.3)
                } else {
                    st
                },
                None => st,
            },
            None => st,
        }
    } else {
        st
    }
}

pub open spec fn diff_upto(lines: Seq<Seq<char>>, k: int, st: DiffState) -> DiffState
    decreases k,
{
    if k <= 0 {
        st
    } else {
        diff_step(diff_upto(lines, k - 1, st), lines[k - 1])
    }
}

/// Adds the changed line ranges and the added files of a diff.
pub fn parse_diff(out: &str, ranges: &mut FileRanges, added: &mut FileSet)
    requires
        old(ranges).wf(),
        old(added).wf(),
    ensures
        final(ranges).wf(),
        final(added).wf(),
        ({
            let ls = lines_spec(out@);
            let st = diff_upto(ls, ls.len() as int, (None, false, old(ranges).view(), old(added).view()));
            &&& final(ranges).view() == st.2
            &&& final(added).view() == st.3
        }),
{
    let chars = to_chars(out);
    let lines = lines_of(&chars);
    let ghost ls = lines_spec(out@);
    let ghost st0: DiffState = (None, false, ranges.view(), added.view());
    let diff_git = to_chars("diff --git");
    let new_file = to_chars("new file mode");
    let plus3 = to_chars("+++ ");
    let dev_null = to_chars("/dev/null");
    let b_slash = to_chars("b/");
    let at_at = to_chars("@@");
    let mut current: Option<Vec<char>> = None;
    let mut is_new = false;
    let mut i: usize = 0;
    while i < lines.len()
        invariant
            ls == lines_spec(out@),
            lines@.len() == ls.len(),
            forall|k: int| 0 <= k < lines@.len() ==> (#[trigger] lines@[k])@ == ls[k],
            diff_git@ == "diff --git"@,
            new_file@ == "new file mode"@,
            plus3@ == "+++ "@,
            dev_null@ == "/dev/null"@,
            b_slash@ == "b/"@,
            at_at@ == "@@"@,
            ranges.wf(),
            added.wf(),
            i <= lines@.len(),
            ({
                let st = diff_upto(ls, i as int, st0);
                &&& (match current {
                    Some(c) => st.0 == Some(c@),
                    None => st.0 is None,
                })
                &&& st.1 == is_new
                &&& st.2 == ranges.view()
                &&& st.3 == added.view()
            }),
        decreases lines@.len() - i,
    {
        let line = &lines[i];
        proof {
            assert(line@.subrange(0, line@.len() as int) =~= line@);
            reveal_strlit("+++ ");
            reveal_strlit("b/");
        }
        if starts_at(line, 0, &diff_git) {
            current = None;
            is_new = false;
        } else if starts_at(line, 0, &new_file) {
            is_new = true;
        } else if starts_at(line, 0, &plus3) {
            let p = copy_range(line, 4, line.len());
            proof {
                assert(p@.subrange(0, p@.len() as int) =~= p@);
            }
            if crate::text::chars_eq(&p, &dev_null) {
                current = None;
            } else {
                let path = if starts_at(&p, 0, &b_slash) {
                    copy_range(&p, 2, p.len())
                } else {
                    copy_range(&p, 0, p.len())
                };
                proof {
                    assert(p@.subrange(0, p@.len() as int) =~= p@);
                }
                if is_new {
                    let s = crate::text::from_chars(path.as_slice());
                    added.insert(s.as_str());
                }
                current = Some(path);
            }
        } else if starts_at(line, 0, &at_at) {
            match &current {
                Some(path) => match parse_hunk(line) {
                    Some((start, count)) => {
                        if count > 0 {
                            let sum: u64 = start as u64 + count as u64 - 1;
                            let end: u32 = if sum > u32::MAX as u64 {
                                u32::MAX
                            } else {
                                sum as u32
                            };
                            let s = crate::text::from_chars(path.as_slice());
                            ranges.push_range(s.as_str(), (start, end));
                        }
                    },
                    None => {},
                },
                None => {},
            }
        }
        proof {
            assert(line@.subrange(0, line@.len() as int) =~= line@);
        }
        i += 1;
    }
}

// ---------------------------------------------------------------------------
// What a change touched
// ---------------------------------------------------------------------------

/// The files and lines a change touched: the changed line ranges per path,
/// the files it added, and whether it edited a `pom.xml`.
pub struct ChangedSet {
    ranges: FileRanges,
    added_files: FileSet,
    pom_changed: bool,
}

pub enum ChangedError {
    NotARepo,
    BadRef(String),
}

impl ChangedSet {
    pub closed spec fn wf(&self) -> bool {
        self.ranges.wf() && self.added_files.wf()
    }

    pub closed spec fn ranges_view(&self) -> Map<Seq<char>, Seq<(u32, u32)>> {
        self.ranges.view()
    }

    pub closed spec fn added_view(&self) -> Set<Seq<char>> {
        self.added_files.view()
    }

    pub closed spec fn pom_view(&self) -> bool {
        self.pom_changed
    }
}

/// Untracked files count as added, every line of them changed.
pub open spec fn untracked_step(st: (Map<Seq<char>, Seq<(u32, u32)>>, Set<Seq<char>>), line: Seq<char>) -> (
    Map<Seq<char>, Seq<(u32, u32)>>,
    Set<Seq<char>>,
) {
    let path = trim(line);
    if path.len() == 0 {
        st
    } else {
        (st.0.insert(path, ranges_or_empty(st.0, path).push((1u32, u32::MAX))), st.1.insert(path))
    }
}

pub open spec fn untracked_upto(
    lines: Seq<Seq<char>>,
    k: int,
    st: (Map<Seq<char>, Seq<(u32, u32)>>, Set<Seq<char>>),
) -> (Map<Seq<char>, Seq<(u32, u32)>>, Set<Seq<char>>)
    decreases k,
{
    if k <= 0 {
        st
    } else {
        untracked_step(untracked_upto(lines, k - 1, st), lines[k - 1])
    }
}

/// The ranges and added files after reading the diff against the ref, the
/// diff of the working tree, and the list of untracked files.
pub open spec fn changed_spec(diff_ref: Seq<char>, diff_head: Option<Seq<char>>, untracked: Option<Seq<char>>) -> (
    Map<Seq<char>, Seq<(u32, u32)>>,
    Set<Seq<char>>,
) {
    let l1 = lines_spec(diff_ref);
    let s1 = diff_upto(l1, l1.len() as int, (None, false, Map::empty(), Set::empty()));
    let s2 = match diff_head {
        Some(d) => {
            let l2 = lines_spec(d);
            diff_upto(l2, l2.len() as int, (None, false, s1.2, s1.3))
        },
        None => s1,
    };
    match untracked {
        Some(u) => {
            let l3 = lines_spec(u);
            untracked_upto(l3, l3.len() as int, (s2.2, s2.3))
        },
        None => (s2.2, s2.3),
    }
}

/// Some changed or added path ends in `pom.xml`.
pub open spec fn pom_spec(ranges: Map<Seq<char>, Seq<(u32, u32)>>, added: Set<Seq<char>>) -> bool {
    exists|k: Seq<char>| (ranges.dom().contains(k) || added.contains(k)) && #[trigger] has_suffix(k, "pom.xml"@)
}

impl FileRanges {
    fn any_pom(&self, pom: &Vec<char>) -> (r: bool)
        requires
            pom@ == "pom.xml"@,
        ensures
            r == exists|k: Seq<char>| self.view().dom().contains(k) && #[trigger] has_suffix(k, "pom.xml"@),
    {
        let mut i: usize = 0;
        while i < self.entries.len()
            invariant
                pom@ == "pom.xml"@,
                i <= self.entries@.len(),
                forall|k: int| 0 <= k < i ==> !has_suffix(#[trigger] self.entries@[k].0@, "pom.xml"@),
            decreases self.entries@.len() - i,
        {
            if ends_with_chars(&to_chars(self.entries[i].0.as_str()), pom) {
                proof {
                    assert(self.has(self.entries@[i as int].0@));
                }
                return true;
            }
            i += 1;
        }
        proof {
            assert forall|k: Seq<char>| self.view().dom().contains(k) implies !#[trigger] has_suffix(k, "pom.xml"@) by {
                let c = choose|c: int| 0 <= c < self.entries@.len() && (#[trigger] self.entries@[c]).0@ == k;
            }
        }
        false
    }
}

impl FileSet {
    fn any_pom(&self, pom: &Vec<char>) -> (r: bool)
        requires
            pom@ == "pom.xml"@,
        ensures
            r == exists|k: Seq<char>| self.view().contains(k) && #[trigger] has_suffix(k, "pom.xml"@),
    {
        let mut i: usize = 0;
        while i < self.items.len()
            invariant
                pom@ == "pom.xml"@,
                i <= self.items@.len(),
                forall|k: int| 0 <= k < i ==> !has_suffix(#[trigger] self.items@[k]@, "pom.xml"@),
            decreases self.items@.len() - i,
        {
            if ends_with_chars(&to_chars(self.items[i].as_str()), pom) {
                proof {
                    assert(self.view().contains(self.items@[i as int]@));
                }
                return true;
            }
            i += 1;
        }
        proof {
            assert forall|k: Seq<char>| self.view().contains(k) implies !#[trigger] has_suffix(k, "pom.xml"@) by {
                let c = choose|c: int| 0 <= c < self.items@.len() && (#[trigger] self.items@[c])@ == k;
            }
        }
        false
    }
}

fn add_untracked(out: &str, ranges: &mut FileRanges, added: &mut FileSet)
    requires
        old(ranges).wf(),
        old(added).wf(),
    ensures
        final(ranges).wf(),
        final(added).wf(),
        ({
            let ls = lines_spec(out@);
            let st = untracked_upto(ls, ls.len() as int, (old(ranges).view(), old(added).view()));
            &&& final(ranges).view() == st.0
            &&& final(added).view() == st.1
        }),
{
    let chars = to_chars(out);
    let lines = lines_of(&chars);
    let ghost ls = lines_spec(out@);
    let ghost st0 = (ranges.view(), added.view());
    let mut i: usize = 0;
    while i < lines.len()
        invariant
            ls == lines_spec(out@),
            lines@.len() == ls.len(),
            forall|k: int| 0 <= k < lines@.len() ==> (#[trigger] lines@[k])@ == ls[k],
            ranges.wf(),
            added.wf(),
            i <= lines@.len(),
            untracked_upto(ls, i as int, st0) == (ranges.view(), added.view()),
        decreases lines@.len() - i,
    {
        let path = trim_chars(&lines[i]);
        if path.len() > 0 {
            let s = from_chars(path.as_slice());
            added.insert(s.as_str());
            ranges.push_range(s.as_str(), (1, u32::MAX));
        }
        i += 1;
    }
}

/// What `git` said, turned into the changed set: the ref must be valid,
/// the directory a work tree, the ref a commit, and the diff against it
/// readable; then the diff against the ref, the working tree's diff and
/// the untracked files are read.
pub fn build_changed(
    reference: &str,
    in_work_tree: bool,
    ref_is_commit: bool,
    diff_ref: Option<String>,
    diff_head: Option<String>,
    untracked: Option<String>,
) -> (r: Result<ChangedSet, ChangedError>)
    ensures
        ref_error(reference@) matches Some(m) ==> (r matches Err(ChangedError::BadRef(e)) && e@ == m),
        ref_error(reference@) is None && !in_work_tree ==> r matches Err(ChangedError::NotARepo),
        ref_error(reference@) is None && in_work_tree && !ref_is_commit ==> (r matches Err(ChangedError::BadRef(e))
            && e@ == "ref '"@ + reference@ + "' not found"@),
        ref_error(reference@) is None && in_work_tree && ref_is_commit && diff_ref is None ==> (r matches Err(
            ChangedError::BadRef(e),
        ) && e@ == "cannot diff against '"@ + reference@ + "' (no merge-base?)"@),
        ref_error(reference@) is None && in_work_tree && ref_is_commit && diff_ref is Some ==> r is Ok,
        r matches Ok(c) ==> {
            let st = changed_spec(
                diff_ref.unwrap()@,
                match diff_head {
                    Some(d) => Some(d@),
                    None => None,
                },
                match untracked {
                    Some(u) => Some(u@),
                    None => None,
                },
            );
            &&& c.wf()
            &&& c.ranges_view() == st.0
            &&& c.added_view() == st.1
            &&& c.pom_view() == pom_spec(st.0, st.1)
        },
{
    match validate_ref(reference) {
        Err(m) => {
            return Err(ChangedError::BadRef(m));
        },
        Ok(()) => {},
    }
    if !in_work_tree {
        return Err(ChangedError::NotARepo);
    }
    if !ref_is_commit {
        return Err(ChangedError::BadRef(concat3("ref '", reference, "' not found")));
    }
    let first = match diff_ref {
        Some(d) => d,
        None => {
            return Err(ChangedError::BadRef(concat3("cannot diff against '", reference, "' (no merge-base?)")));
        },
    };
    let mut ranges = FileRanges::new();
    let mut added = FileSet::new();
    parse_diff(first.as_str(), &mut ranges, &mut added);
    match &diff_head {
        Some(d) => parse_diff(d.as_str(), &mut ranges, &mut added),
        None => {},
    }
    match &untracked {
        Some(u) => add_untracked(u.as_str(), &mut ranges, &mut added),
        None => {},
    }
    let pom = to_chars("pom.xml");
    let pom_changed = ranges.any_pom(&pom) || added.any_pom(&pom);
    Ok(ChangedSet { ranges, added_files: added, pom_changed })
}

// ---------------------------------------------------------------------------
// Skip patterns
// ---------------------------------------------------------------------------

#[verifier::external_type_specification]
#[verifier::external_body]
pub struct ExGlobSetBuilder(globset::GlobSetBuilder);

#[verifier::external_type_specification]
#[verifier::external_body]
pub struct ExGlobSet(globset::GlobSet);

/// The patterns added to a `GlobSetBuilder`, in order.
pub uninterp spec fn builder_patterns(b: GlobSetBuilder) -> Seq<Seq<char>>;

/// The patterns a `GlobSet` was built from, in order.
pub uninterp spec fn set_patterns(s: GlobSet) -> Seq<Seq<char>>;

/// `GlobBuilder::new(p).literal_separator(true).build()` succeeds.
pub uninterp spec fn glob_parses(pattern: Seq<char>) -> bool;

/// `GlobSetBuilder::build` succeeds on these patterns.
pub uninterp spec fn glob_set_builds(patterns: Seq<Seq<char>>) -> bool;

/// `GlobSet::is_match` on a set of these patterns (each built with
/// `literal_separator(true)`, so `*` and `?` do not match `/`).
pub uninterp spec fn glob_set_matches(patterns: Seq<Seq<char>>, path: Seq<char>) -> bool;

/// `GlobSetBuilder::new`: a builder with no patterns.
#[verifier::external_body]
fn new_builder() -> (r: GlobSetBuilder)
    ensures
        builder_patterns(r) == Seq::<Seq<char>>::empty(),
{
    GlobSetBuilder::new()
}

/// Compiles `pattern` with `GlobBuilder` (`literal_separator(true)`) and,
/// when it compiles, adds it with `GlobSetBuilder::add`. Whether it
/// compiles is named, not stated.
#[verifier::external_body]
fn add_glob(b: &mut GlobSetBuilder, pattern: &str) -> (r: bool)
    ensures
        r == glob_parses(pattern@),
        builder_patterns(*final(b)) == if r {
            builder_patterns(*old(b)).push(pattern@)
        } else {
            builder_patterns(*old(b))
        },
{
    match globset::GlobBuilder::new(pattern).literal_separator(true).build() {
        Ok(glob) => {
            b.add(glob);
            true
        },
        Err(_) => false,
    }
}

/// `GlobSetBuilder::build`, its error dropped. Whether it builds is named,
/// not stated; the set holds the builder's patterns.
#[verifier::external_body]
fn build_set(b: &GlobSetBuilder) -> (r: Option<GlobSet>)
    ensures
        r is Some <==> glob_set_builds(builder_patterns(*b)),
        r matches Some(s) ==> set_patterns(s) == builder_patterns(*b),
{
    b.build().ok()
}

/// `GlobSet::is_match`. The result is named, not stated.
#[verifier::external_body]
fn set_is_match(s: &GlobSet, path: &str) -> (r: bool)
    ensures
        r == glob_set_matches(set_patterns(*s), path@),
{
    s.is_match(path)
}

/// A pattern is taken as a glob when it has `*`, `?`, `[` or `{`, or starts
/// with `/`.
pub open spec fn has_meta(p: Seq<char>) -> bool {
    ||| exists|i: int| 0 <= i < p.len() && (#[trigger] p[i] == '*' || p[i] == '?' || p[i] == '[' || p[i] == '{')
    ||| p.len() > 0 && p[0] == '/'
}

/// The globs a skip pattern stands for: a glob as written (leading `/`s
/// dropped); a bare name, its `/`s trimmed, as itself, everything under it,
/// itself anywhere with everything under it, and itself anywhere.
pub open spec fn expand_spec(p: Seq<char>) -> Seq<Seq<char>> {
    if has_meta(p) {
        seq![strip_prefix_all(p, "/"@)]
    } else {
        let q = strip_suffix_char_all(strip_prefix_all(p, "/"@), '/');
        seq![q, q + "/**"@, "**/"@ + q + "/**"@, "**/"@ + q]
    }
}

pub fn expand_pattern(p: &str) -> (r: Vec<String>)
    ensures
        r@.map_values(|s: String| s@) == expand_spec(p@),
{
    let pc = to_chars(p);
    let mut meta = false;
    let mut i: usize = 0;
    while i < pc.len()
        invariant
            pc@ == p@,
            i <= pc@.len(),
            meta == exists|k: int| 0 <= k < i && (#[trigger] pc@[k] == '*' || pc@[k] == '?' || pc@[k] == '[' || pc@[k] == '{'),
        decreases pc@.len() - i,
    {
        let c = pc[i];
        if c == '*' || c == '?' || c == '[' || c == '{' {
            meta = true;
        }
        i += 1;
    }
    let slash = to_chars("/");
    let mut r: Vec<String> = Vec::new();
    if meta || (pc.len() > 0 && pc[0] == '/') {
        let s = strip_prefix_all_chars(&pc, &slash);
        r.push(from_chars(s.as_slice()));
        proof {
            assert(r@.map_values(|s: String| s@) =~= expand_spec(p@));
        }
    } else {
        let a = strip_prefix_all_chars(&pc, &slash);
        let q = strip_suffix_char_all_chars(&a, '/');
        let mut q1 = q.clone();
        proof {
            assert(q1@ == q@);
        }
        append_chars(&mut q1, &to_chars("/**"));
        let mut q2 = to_chars("**/");
        append_chars(&mut q2, &q);
        append_chars(&mut q2, &to_chars("/**"));
        let mut q3 = to_chars("**/");
        append_chars(&mut q3, &q);
        r.push(from_chars(q.as_slice()));
        r.push(from_chars(q1.as_slice()));
        r.push(from_chars(q2.as_slice()));
        r.push(from_chars(q3.as_slice()));
        proof {
            assert(r@.map_values(|s: String| s@) =~= expand_spec(p@));
        }
    }
    r
}

/// The trimmed patterns, empty ones dropped.
pub open spec fn skip_entries(ps: Seq<Seq<char>>) -> Seq<Seq<char>>
    decreases ps.len(),
{
    if ps.len() == 0 {
        Seq::empty()
    } else if trim(ps.last()).len() == 0 {
        skip_entries(ps.drop_last())
    } else {
        skip_entries(ps.drop_last()).push(trim(ps.last()))
    }
}

/// The globs of the entries, in order.
pub open spec fn expand_all(es: Seq<Seq<char>>) -> Seq<Seq<char>>
    decreases es.len(),
{
    if es.len() == 0 {
        Seq::empty()
    } else {
        expand_all(es.drop_last()) + expand_spec(es.last())
    }
}

/// Those of `gs` that compile.
pub open spec fn compiling(gs: Seq<Seq<char>>) -> Seq<Seq<char>>
    decreases gs.len(),
{
    if gs.len() == 0 {
        Seq::empty()
    } else if glob_parses(gs.last()) {
        compiling(gs.drop_last()).push(gs.last())
    } else {
        compiling(gs.drop_last())
    }
}

proof fn lemma_compiling_append(a: Seq<Seq<char>>, b: Seq<Seq<char>>)
    ensures
        compiling(a + b) == compiling(a) + compiling(b),
    decreases b.len(),
{
    if b.len() == 0 {
        assert(a + b =~= a);
        assert(compiling(a) + compiling(b) =~= compiling(a));
    } else {
        lemma_compiling_append(a, b.drop_last());
        assert((a + b).drop_last() =~= a + b.drop_last());
        assert((a + b).last() == b.last());
        if glob_parses(b.last()) {
            assert(compiling(a) + compiling(b) =~= (compiling(a) + compiling(b.drop_last())).push(b.last()));
        } else {
            assert(compiling(a) + compiling(b) =~= compiling(a) + compiling(b.drop_last()));
        }
    }
}

/// The glob set of the skip patterns: `None` when no pattern is left after
/// trimming, or when the set does not build; patterns that do not compile
/// are left out.
pub fn build_skip(patterns: &[String]) -> (r: Option<GlobSet>)
    ensures
        ({
            let gs = compiling(expand_all(skip_entries(patterns@.map_values(|s: String| s@))));
            &&& skip_entries(patterns@.map_values(|s: String| s@)).len() == 0 ==> r is None
            &&& skip_entries(patterns@.map_values(|s: String| s@)).len() > 0 ==> (r is Some <==> glob_set_builds(gs))
            &&& r matches Some(s) ==> set_patterns(s) == gs
        }),
{
    let ghost pv = patterns@.map_values(|s: String| s@);
    let mut builder = new_builder();
    let mut count: usize = 0;
    let mut i: usize = 0;
    while i < patterns.len()
        invariant
            pv == patterns@.map_values(|s: String| s@),
            i <= patterns@.len(),
            count == skip_entries(pv.subrange(0, i as int)).len(),
            count <= i,
            builder_patterns(builder) == compiling(expand_all(skip_entries(pv.subrange(0, i as int)))),
        decreases patterns@.len() - i,
    {
        let entry = trim_chars(&to_chars(patterns[i].as_str()));
        proof {
            assert(pv.subrange(0, i + 1).drop_last() =~= pv.subrange(0, i as int));
            assert(pv.subrange(0, i + 1).last() == patterns@[i as int]@);
        }
        if entry.len() > 0 {
            let es = from_chars(entry.as_slice());
            let globs = expand_pattern(es.as_str());
            let ghost before = builder_patterns(builder);
            let mut k: usize = 0;
            while k < globs.len()
                invariant
                    k <= globs@.len(),
                    builder_patterns(builder) == before + compiling(
                        globs@.map_values(|s: String| s@).subrange(0, k as int),
                    ),
                decreases globs@.len() - k,
            {
                let ghost gv = globs@.map_values(|s: String| s@);
                proof {
                    assert(gv.subrange(0, k + 1).drop_last() =~= gv.subrange(0, k as int));
                    assert(gv.subrange(0, k + 1).last() == globs@[k as int]@);
                }
                add_glob(&mut builder, globs[k].as_str());
                k += 1;
            }
            proof {
                let gv = globs@.map_values(|s: String| s@);
                let prev = skip_entries(pv.subrange(0, i as int));
                assert(gv.subrange(0, gv.len() as int) =~= gv);
                lemma_compiling_append(expand_all(prev), gv);
                assert(skip_entries(pv.subrange(0, i + 1)) == prev.push(entry@));
                assert(prev.push(entry@).drop_last() =~= prev);
                assert(expand_all(prev.push(entry@)) == expand_all(prev) + expand_spec(entry@));
            }
            count += 1;
        }
        i += 1;
    }
    proof {
        assert(pv.subrange(0, pv.len() as int) =~= pv);
    }
    if count == 0 {
        return None;
    }
    build_set(&builder)
}

// ---------------------------------------------------------------------------
// The filter
// ---------------------------------------------------------------------------

/// Decides, section by section, which findings a report shows.
pub struct ReportFilter {
    skip: Option<GlobSet>,
    changed: Option<ChangedSet>,
}

impl ReportFilter {
    pub closed spec fn wf(&self) -> bool {
        self.changed matches Some(c) ==> c.wf()
    }

    /// The skip patterns in force, if any.
    pub closed spec fn skip_view(&self) -> Option<Seq<Seq<char>>> {
        match self.skip {
            Some(s) => Some(set_patterns(s)),
            None => None,
        }
    }

    /// The change compared against, if any.
    pub closed spec fn changed_view(&self) -> Option<(Map<Seq<char>, Seq<(u32, u32)>>, Set<Seq<char>>, bool)> {
        match self.changed {
            Some(c) => Some((c.ranges_view(), c.added_view(), c.pom_view())),
            None => None,
        }
    }

    pub open spec fn skipped_spec(&self, path: Seq<char>) -> bool {
        match self.skip_view() {
            Some(ps) => glob_set_matches(ps, path),
            None => false,
        }
    }

    /// Under compare mode, some changed range of `path` meets `start..=end`.
    pub open spec fn overlaps_spec(&self, path: Seq<char>, start: u32, end: u32) -> bool {
        match self.changed_view() {
            None => true,
            Some(c) => c.0.dom().contains(path) && exists|k: int|
                0 <= k < c.0[path].len() && (#[trigger] c.0[path][k]).0 <= end && start <= c.0[path][k].1,
        }
    }

    pub fn new(skip_patterns: &[String], changed: Option<ChangedSet>) -> (r: ReportFilter)
        requires
            changed matches Some(c) ==> c.wf(),
        ensures
            r.wf(),
            ({
                let gs = compiling(expand_all(skip_entries(skip_patterns@.map_values(|s: String| s@))));
                &&& skip_entries(skip_patterns@.map_values(|s: String| s@)).len() == 0 ==> r.skip_view() is None
                &&& skip_entries(skip_patterns@.map_values(|s: String| s@)).len() > 0 ==> (r.skip_view() is Some
                    <==> glob_set_builds(gs))
                &&& r.skip_view() matches Some(ps) ==> ps == gs
            }),
            r.changed_view() == (match changed {
                Some(c) => Some((c.ranges_view(), c.added_view(), c.pom_view())),
                None => None,
            }),
    {
        ReportFilter { skip: build_skip(skip_patterns), changed }
    }

    pub fn compare_mode(&self) -> (r: bool)
        ensures
            r == self.changed_view() is Some,
    {
        self.changed.is_some()
    }

    pub fn skipped(&self, path: &str) -> (r: bool)
        ensures
            r == self.skipped_spec(path@),
    {
        match &self.skip {
            Some(s) => set_is_match(s, path),
            None => false,
        }
    }

    fn overlaps(&self, path: &str, start: u32, end: u32) -> (r: bool)
        requires
            self.wf(),
        ensures
            r == self.overlaps_spec(path@, start, end),
    {
        match &self.changed {
            None => true,
            Some(c) => match c.ranges.get(path) {
                None => false,
                Some(rs) => {
                    let mut k: usize = 0;
                    while k < rs.len()
                        invariant
                            self.changed_view() is Some,
                            self.changed_view().unwrap().0.dom().contains(path@),
                            rs@ == self.changed_view().unwrap().0[path@],
                            k <= rs@.len(),
                            forall|m: int| 0 <= m < k ==> !((#[trigger] rs@[m]).0 <= end && start <= rs@[m].1),
                        decreases rs@.len() - k,
                    {
                        if rs[k].0 <= end && start <= rs[k].1 {
                            proof {
                                assert(self.changed_view().unwrap().0[path@][k as int] == rs@[k as int]);
                            }
                            return true;
                        }
                        k += 1;
                    }
                    false
                },
            },
        }
    }

    /// Findings with a line span (complexity, large functions, unused
    /// exports): not skipped, and under compare mode touched by the change.
    pub fn span_shown(&self, path: &str, start: u32, end: u32) -> (r: bool)
        requires
            self.wf(),
        ensures
            r == (!self.skipped_spec(path@) && self.overlaps_spec(path@, start, end)),
    {
        !self.skipped(path) && self.overlaps(path, start, end)
    }

    /// Whole-file findings: not skipped, and under compare mode the file
    /// has a changed range.
    pub fn file_shown(&self, path: &str) -> (r: bool)
        requires
            self.wf(),
        ensures
            r == (!self.skipped_spec(path@) && match self.changed_view() {
                None => true,
                Some(c) => c.0.dom().contains(path@),
            }),
    {
        !self.skipped(path) && match &self.changed {
            None => true,
            Some(c) => c.ranges.contains_key(path),
        }
    }

    /// Unused files: not skipped, and under compare mode added by the change.
    pub fn added_shown(&self, path: &str) -> (r: bool)
        requires
            self.wf(),
        ensures
            r == (!self.skipped_spec(path@) && match self.changed_view() {
                None => true,
                Some(c) => c.1.contains(path@),
            }),
    {
        !self.skipped(path) && match &self.changed {
            None => true,
            Some(c) => c.added_files.contains(path),
        }
    }

    /// Findings over several files without line spans (cycles, clone
    /// families): some member is not skipped, and under compare mode some
    /// member has a changed range.
    pub fn multi_shown(&self, paths: &[String]) -> (r: bool)
        requires
            self.wf(),
        ensures
            r == ((exists|i: int| 0 <= i < paths@.len() && !self.skipped_spec(#[trigger] paths@[i]@)) && match self.changed_view() {
                None => true,
                Some(c) => exists|i: int| 0 <= i < paths@.len() && c.0.dom().contains(#[trigger] paths@[i]@),
            }),
    {
        let mut any_unskipped = false;
        let mut any_changed = false;
        let mut i: usize = 0;
        while i < paths.len()
            invariant
                self.wf(),
                i <= paths@.len(),
                any_unskipped == exists|k: int| 0 <= k < i && !self.skipped_spec(#[trigger] paths@[k]@),
                any_changed == match self.changed_view() {
                    None => false,
                    Some(c) => exists|k: int| 0 <= k < i && c.0.dom().contains(#[trigger] paths@[k]@),
                },
            decreases paths@.len() - i,
        {
            if !self.skipped(paths[i].as_str()) {
                any_unskipped = true;
            }
            match &self.changed {
                Some(c) => {
                    if c.ranges.contains_key(paths[i].as_str()) {
                        any_changed = true;
                    }
                },
                None => {},
            }
            i += 1;
        }
        any_unskipped && (self.changed.is_none() || any_changed)
    }

    /// Clone groups: some member is not skipped, and under compare mode the
    /// change touches some member's span.
    pub fn group_shown(&self, members: &[(String, u32, u32)]) -> (r: bool)
        requires
            self.wf(),
        ensures
            r == ((exists|i: int| 0 <= i < members@.len() && !self.skipped_spec((#[trigger] members@[i]).0@)) && match self.changed_view() {
                None => true,
                Some(c) => exists|i: int|
                    0 <= i < members@.len() && self.overlaps_spec((#[trigger] members@[i]).0@, members@[i].1, members@[i].2),
            }),
    {
        let mut any_unskipped = false;
        let mut any_changed = false;
        let mut i: usize = 0;
        while i < members.len()
            invariant
                self.wf(),
                i <= members@.len(),
                any_unskipped == exists|k: int| 0 <= k < i && !self.skipped_spec((#[trigger] members@[k]).0@),
                self.changed_view() is Some ==> any_changed == exists|k: int|
                    0 <= k < i && self.overlaps_spec((#[trigger] members@[k]).0@, members@[k].1, members@[k].2),
            decreases members@.len() - i,
        {
            let m = &members[i];
            if !self.skipped(m.0.as_str()) {
                any_unskipped = true;
            }
            if self.changed.is_some() && self.overlaps(m.0.as_str(), m.1, m.2) {
                any_changed = true;
            }
            i += 1;
        }
        any_unskipped && (self.changed.is_none() || any_changed)
    }

    /// Under compare mode hotspots are left out: churn ranks a history, not
    /// one change.
    pub fn hotspots_omitted(&self) -> (r: bool)
        ensures
            r == self.changed_view() is Some,
    {
        self.changed.is_some()
    }

    /// Under compare mode dependency findings show only when the change
    /// edited a `pom.xml`.
    pub fn deps_shown(&self) -> (r: bool)
        ensures
            r == match self.changed_view() {
                None => true,
                Some(c) => c.2,
            },
    {
        match &self.changed {
            None => true,
            Some(c) => c.pom_changed,
        }
    }
}

// ---------------------------------------------------------------------------
// What a filter shows
// ---------------------------------------------------------------------------

/// A filter with no skip pattern and no comparison shows every finding in
/// full and leaves hotspots and dependencies in.
pub proof fn lemma_plain_filter_shows_all(f: ReportFilter, path: Seq<char>, start: u32, end: u32)
    requires
        f.skip_view() is None,
        f.changed_view() is None,
    ensures
        !f.skipped_spec(path),
        f.overlaps_spec(path, start, end),
{
}

/// A path that a skip pattern matches is left out of every section that
/// names one file, whatever the comparison.
pub proof fn lemma_skipped_path_hidden(f: ReportFilter, path: Seq<char>, start: u32, end: u32)
    requires
        f.skipped_spec(path),
    ensures
        !(!f.skipped_spec(path) && f.overlaps_spec(path, start, end)),
        !(!f.skipped_spec(path) && match f.changed_view() {
            None => true,
            Some(c) => c.0.dom().contains(path),
        }),
        !(!f.skipped_spec(path) && match f.changed_view() {
            None => true,
            Some(c) => c.1.contains(path),
        }),
{
}

/// Under comparison, a span that no changed range of its file meets is
/// not shown.
pub proof fn lemma_untouched_span_hidden(f: ReportFilter, path: Seq<char>, start: u32, end: u32)
    requires
        f.changed_view() matches Some(c) && (!c.0.dom().contains(path) || forall|k: int|
            0 <= k < c.0[path].len() ==> !((#[trigger] c.0[path][k]).0 <= end && start <= c.0[path][k].1)),
    ensures
        !f.overlaps_spec(path, start, end),
{
}

/// After a range is recorded for a path, the path's ranges end with it and
/// every other path keeps its ranges.
pub proof fn lemma_push_range_then_get(before: FileRanges, after: FileRanges, path: Seq<char>, range: (u32, u32), other: Seq<char>)
    requires
        after.view() == before.view().insert(
            path,
            (if before.view().dom().contains(path) {
                before.view()[path]
            } else {
                Seq::empty()
            }).push(range),
        ),
        other != path,
    ensures
        after.view().dom().contains(path),
        after.view()[path].last() == range,
        after.view().dom().contains(other) == before.view().dom().contains(other),
        before.view().dom().contains(other) ==> after.view()[other] == before.view()[other],
{
}

} // verus!
