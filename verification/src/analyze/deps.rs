//! Reading the dependency findings out of `mvn dependency:analyze`.
use vstd::prelude::*;
use crate::text::{
    chars_eq, copy_range, ends_with_chars, from_chars, has_suffix, is_whitespace, is_ws, lines_of, lines_spec,
    split_char, split_chars, strip_prefix_all, strip_prefix_all_chars, to_chars, trim, trim_chars,
};

verus! {

/// Dependencies that Maven reports as declared but unused, and as used but
/// undeclared, as `group:artifact`.
pub struct DependencyReport {
    pub unused: Vec<String>,
    pub undeclared: Vec<String>,
}

/// Which list the lines under the current heading go to.
#[derive(Clone, Copy, PartialEq, Eq, Structural)]
pub enum Mode {
    Idle,
    Unused,
    Undeclared,
}

/// A line with surrounding whitespace and any leading `[WARNING]` and
/// `[INFO]` tags removed.
pub open spec fn strip_log_prefix_spec(line: Seq<char>) -> Seq<char> {
    trim(strip_prefix_all(strip_prefix_all(trim(line), "[WARNING]"@), "[INFO]"@))
}

pub fn strip_log_prefix(line: &Vec<char>) -> (r: Vec<char>)
    ensures
        r@ == strip_log_prefix_spec(line@),
{
    let a = trim_chars(line);
    let b = strip_prefix_all_chars(&a, &to_chars("[WARNING]"));
    let c = strip_prefix_all_chars(&b, &to_chars("[INFO]"));
    trim_chars(&c)
}

/// `group:artifact` of a `group:artifact:type:version...` line that has no
/// whitespace in it.
pub open spec fn gav_spec(line: Seq<char>) -> Option<Seq<char>> {
    if line.len() == 0 || exists|i: int| 0 <= i < line.len() && is_ws(#[trigger] line[i]) {
        None
    } else {
        let parts = split_char(line, ':');
        if parts.len() >= 4 {
            Some(parts[0] + seq![':'] + parts[1])
        } else {
            None
        }
    }
}

pub fn gav_coords(line: &Vec<char>) -> (r: Option<Vec<char>>)
    ensures
        r is Some <==> gav_spec(line@) is Some,
        r matches Some(c) ==> gav_spec(line@) == Some(c@),
{
    if line.len() == 0 {
        return None;
    }
    let mut i: usize = 0;
    while i < line.len()
        invariant
            i <= line@.len(),
            forall|k: int| 0 <= k < i ==> !is_ws(#[trigger] line@[k]),
        decreases line@.len() - i,
    {
        if is_whitespace(line[i]) {
            return None;
        }
        i += 1;
    }
    let parts = split_chars(line, ':');
    if parts.len() >= 4 {
        let mut out = copy_range(&parts[0], 0, parts[0].len());
        out.push(':');
        let second = &parts[1];
        let mut k: usize = 0;
        while k < second.len()
            invariant
                parts@.len() >= 4,
                second == parts@[1],
                k <= second@.len(),
                out@ == parts@[0]@ + seq![':'] + second@.subrange(0, k as int),
            decreases second@.len() - k,
        {
            out.push(second[k]);
            proof {
                assert(second@.subrange(0, k + 1) =~= second@.subrange(0, k as int).push(second@[k as int]));
            }
            k += 1;
        }
        proof {
            assert(parts@[0]@.subrange(0, parts@[0]@.len() as int) =~= parts@[0]@);
            assert(second@.subrange(0, second@.len() as int) =~= second@);
        }
        Some(out)
    } else {
        None
    }
}

/// `v` with `x` appended unless it is already there.
pub open spec fn push_unique_spec(v: Seq<Seq<char>>, x: Seq<char>) -> Seq<Seq<char>> {
    if v.contains(x) {
        v
    } else {
        v.push(x)
    }
}

/// The lists and the heading in force after each line: a heading switches
/// the list, a coordinates line goes to the current list once, and any
/// other line ends the list.
pub open spec fn step(st: (Mode, Seq<Seq<char>>, Seq<Seq<char>>), line: Seq<char>) -> (Mode, Seq<Seq<char>>, Seq<Seq<char>>) {
    let l = strip_log_prefix_spec(line);
    if has_suffix(l, "Used undeclared dependencies found:"@) {
        (Mode::Undeclared, st.1, st.2)
    } else if has_suffix(l, "Unused declared dependencies found:"@) {
        (Mode::Unused, st.1, st.2)
    } else {
        match gav_spec(l) {
            Some(c) => match st.0 {
                Mode::Unused => (st.0, push_unique_spec(st.1, c), st.2),
                Mode::Undeclared => (st.0, st.1, push_unique_spec(st.2, c)),
                Mode::Idle => st,
            },
            None => (Mode::Idle, st.1, st.2),
        }
    }
}

/// The state after the first `k` lines.
pub open spec fn parse_upto(lines: Seq<Seq<char>>, k: int) -> (Mode, Seq<Seq<char>>, Seq<Seq<char>>)
    decreases k,
{
    if k <= 0 {
        (Mode::Idle, Seq::empty(), Seq::empty())
    } else {
        step(parse_upto(lines, k - 1), lines[k - 1])
    }
}

/// The report read from the whole output.
pub open spec fn parse_spec(text: Seq<char>) -> (Seq<Seq<char>>, Seq<Seq<char>>) {
    let st = parse_upto(lines_spec(text), lines_spec(text).len() as int);
    (st.1, st.2)
}

pub open spec fn texts(v: Seq<Vec<char>>) -> Seq<Seq<char>> {
    v.map_values(|x: Vec<char>| x@)
}

fn push_unique(v: &mut Vec<Vec<char>>, item: Vec<char>)
    ensures
        texts(final(v)@) == push_unique_spec(texts(old(v)@), item@),
{
    let mut k: usize = 0;
    while k < v.len()
        invariant
            k <= v@.len(),
            forall|m: int| 0 <= m < k ==> (#[trigger] v@[m])@ != item@,
        decreases v@.len() - k,
    {
        if chars_eq(&v[k], &item) {
            proof {
                assert(texts(v@)[k as int] == item@);
            }
            return;
        }
        k += 1;
    }
    proof {
        if texts(v@).contains(item@) {
            let m = choose|m: int| 0 <= m < texts(v@).len() && texts(v@)[m] == item@;
            assert(v@[m]@ == item@);
        }
    }
    let ghost before = v@;
    v.push(item);
    proof {
        assert(texts(v@) =~= texts(before).push(item@));
    }
}

fn strings_of(v: &Vec<Vec<char>>) -> (r: Vec<String>)
    ensures
        r@.map_values(|s: String| s@) == texts(v@),
{
    let mut r: Vec<String> = Vec::new();
    let mut i: usize = 0;
    while i < v.len()
        invariant
            i <= v@.len(),
            r@.len() == i,
            forall|k: int| 0 <= k < i ==> (#[trigger] r@[k])@ == v@[k]@,
        decreases v@.len() - i,
    {
        r.push(from_chars(v[i].as_slice()));
        i += 1;
    }
    proof {
        assert(r@.map_values(|s: String| s@) =~= texts(v@));
    }
    r
}

/// Reads the unused and the undeclared dependencies out of the output of
/// `mvn dependency:analyze`, each once, in the order they appear.
pub fn parse(text: &str) -> (r: DependencyReport)
    ensures
        r.unused@.map_values(|s: String| s@) == parse_spec(text@).0,
        r.undeclared@.map_values(|s: String| s@) == parse_spec(text@).1,
{
    let chars = to_chars(text);
    let lines = lines_of(&chars);
    let ghost ls = lines_spec(text@);
    let undeclared_tag = to_chars("Used undeclared dependencies found:");
    let unused_tag = to_chars("Unused declared dependencies found:");
    let mut mode = Mode::Idle;
    let mut unused: Vec<Vec<char>> = Vec::new();
    let mut undeclared: Vec<Vec<char>> = Vec::new();
    let mut i: usize = 0;
    proof {
        assert(texts(unused@) =~= Seq::<Seq<char>>::empty());
        assert(texts(undeclared@) =~= Seq::<Seq<char>>::empty());
    }
    while i < lines.len()
        invariant
            ls == lines_spec(text@),
            lines@.len() == ls.len(),
            forall|k: int| 0 <= k < lines@.len() ==> (#[trigger] lines@[k])@ == ls[k],
            undeclared_tag@ == "Used undeclared dependencies found:"@,
            unused_tag@ == "Unused declared dependencies found:"@,
            i <= lines@.len(),
            (mode, texts(unused@), texts(undeclared@)) == parse_upto(ls, i as int),
        decreases lines@.len() - i,
    {
        let l = strip_log_prefix(&lines[i]);
        if ends_with_chars(&l, &undeclared_tag) {
            mode = Mode::Undeclared;
        } else if ends_with_chars(&l, &unused_tag) {
            mode = Mode::Unused;
        } else {
            match gav_coords(&l) {
                Some(c) => match mode {
                    Mode::Unused => push_unique(&mut unused, c),
                    Mode::Undeclared => push_unique(&mut undeclared, c),
                    Mode::Idle => {},
                },
                None => {
                    mode = Mode::Idle;
                },
            }
        }
        i += 1;
    }
    DependencyReport { unused: strings_of(&unused), undeclared: strings_of(&undeclared) }
}

proof fn lemma_push_unique_keeps_unique(v: Seq<Seq<char>>, x: Seq<char>)
    requires
        v.no_duplicates(),
    ensures
        push_unique_spec(v, x).no_duplicates(),
{
    if !v.contains(x) {
        let w = v.push(x);
        assert forall|i: int, j: int| 0 <= i < w.len() && 0 <= j < w.len() && i != j implies w[i] != w[j] by {
            if i < v.len() && j < v.len() {
                assert(w[i] == v[i] && w[j] == v[j]);
            } else if i < v.len() {
                assert(w[i] == v[i]);
                assert(v.contains(v[i]));
            } else {
                assert(w[j] == v[j]);
                assert(v.contains(v[j]));
            }
        }
    }
}

proof fn lemma_parse_upto_unique(lines: Seq<Seq<char>>, k: int)
    ensures
        parse_upto(lines, k).1.no_duplicates(),
        parse_upto(lines, k).2.no_duplicates(),
    decreases k,
{
    if k > 0 {
        lemma_parse_upto_unique(lines, k - 1);
        let st = parse_upto(lines, k - 1);
        lemma_push_unique_keeps_unique(st.1, gav_spec(strip_log_prefix_spec(lines[k - 1])).unwrap_or(Seq::empty()));
        lemma_push_unique_keeps_unique(st.2, gav_spec(strip_log_prefix_spec(lines[k - 1])).unwrap_or(Seq::empty()));
    }
}

/// Each dependency is listed once in each list, however often the output
/// repeats it.
pub proof fn lemma_dependencies_listed_once(text: Seq<char>)
    ensures
        parse_spec(text).0.no_duplicates(),
        parse_spec(text).1.no_duplicates(),
{
    lemma_parse_upto_unique(lines_spec(text), lines_spec(text).len() as int);
}

} // verus!
