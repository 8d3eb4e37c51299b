//! Public and protected methods whose name no other file uses.
//!
//! The analysis goes by name alone (no overloads, no qualification), so it errs
//! on the side of reporting nothing.
use vstd::prelude::*;
use crate::java::model::{strings_view, FileInfo};
use crate::paths::{path_relative_to, rel_path};
use crate::sort::{lemma_lex_total, lemma_lex_trans, lex_le, lex_le_exec, sort_stable, stable_sort_of, Ordered};
use crate::text::{contains_chars, contains_seq, str_eq, to_chars};
use crate::types::UnusedExport;

verus! {

/// Test sources are never reported.
pub open spec fn is_test_path_spec(path: Seq<char>) -> bool {
    contains_seq(path, "/src/test/"@) || contains_seq(path, "/test/"@)
}

pub fn is_test_path(path: &str) -> (r: bool)
    ensures
        r == is_test_path_spec(path@),
{
    let p = to_chars(path);
    contains_chars(&p, &to_chars("/src/test/")) || contains_chars(&p, &to_chars("/test/"))
}

/// Some file other than `id` uses `name`.
pub open spec fn used_elsewhere(files: Seq<FileInfo>, id: int, name: Seq<char>) -> bool {
    exists|f: int| 0 <= f < files.len() && f != id && #[trigger] strings_view(files[f].used_names@).contains(name)
}

fn uses(names: &Vec<String>, name: &str) -> (r: bool)
    ensures
        r == strings_view(names@).contains(name@),
{
    let mut k: usize = 0;
    while k < names.len()
        invariant
            k <= names@.len(),
            forall|m: int| 0 <= m < k ==> #[trigger] names@[m]@ != name@,
        decreases names@.len() - k,
    {
        if str_eq(names[k].as_str(), name) {
            proof {
                assert(strings_view(names@)[k as int] == name@);
            }
            return true;
        }
        k += 1;
    }
    proof {
        if strings_view(names@).contains(name@) {
            let m = choose|m: int| 0 <= m < names@.len() && strings_view(names@)[m] == name@;
            assert(names@[m]@ == name@);
        }
    }
    false
}

fn used_elsewhere_exec(files: &Vec<FileInfo>, id: usize, name: &str) -> (r: bool)
    ensures
        r == used_elsewhere(files@, id as int, name@),
{
    let mut f: usize = 0;
    while f < files.len()
        invariant
            f <= files@.len(),
            forall|g: int| 0 <= g < f && g != id ==> !#[trigger] strings_view(files@[g].used_names@).contains(name@),
        decreases files@.len() - f,
    {
        if f != id && uses(&files[f].used_names, name) {
            return true;
        }
        f += 1;
    }
    false
}

/// Export `j` of file `i` is reported.
pub open spec fn is_unused_export(files: Seq<FileInfo>, i: int, j: int) -> bool {
    !is_test_path_spec(files[i].path@) && !used_elsewhere(files, i, files[i].exports@[j].name@)
}

/// The reported exports among the first `j` of file `i`, in order.
pub open spec fn unused_in_file(files: Seq<FileInfo>, i: int, j: int) -> Seq<(int, int)>
    decreases j,
{
    if j <= 0 {
        Seq::empty()
    } else if is_unused_export(files, i, j - 1) {
        unused_in_file(files, i, j - 1).push((i, j - 1))
    } else {
        unused_in_file(files, i, j - 1)
    }
}

/// The reported exports of the first `i` files, in file order.
pub open spec fn unused_upto(files: Seq<FileInfo>, i: int) -> Seq<(int, int)>
    decreases i,
{
    if i <= 0 {
        Seq::empty()
    } else {
        unused_upto(files, i - 1) + unused_in_file(files, i - 1, files[i - 1].exports@.len() as int)
    }
}

/// `e` reports export `j` of file `i`.
pub open spec fn reports(e: UnusedExport, files: Seq<FileInfo>, cwd: Seq<char>, i: int, j: int) -> bool {
    &&& e.path@ == path_relative_to(files[i].path@, cwd)
    &&& e.name@ == files[i].exports@[j].name@
    &&& e.line == files[i].exports@[j].line
}

/// By path, then by line.
impl Ordered for UnusedExport {
    open spec fn le(a: Self, b: Self) -> bool {
        ||| !lex_le(b.path@, a.path@)
        ||| lex_le(b.path@, a.path@) && lex_le(a.path@, b.path@) && a.line <= b.line
    }

    proof fn le_total(a: Self, b: Self) {
        lemma_lex_total(a.path@, b.path@, 0);
    }

    proof fn le_trans(a: Self, b: Self, c: Self) {
        lemma_lex_total(a.path@, b.path@, 0);
        lemma_lex_total(b.path@, c.path@, 0);
        lemma_lex_total(a.path@, c.path@, 0);
        if lex_le(c.path@, a.path@) && lex_le(a.path@, b.path@) {
            lemma_lex_trans(c.path@, a.path@, b.path@, 0);
        }
        if lex_le(b.path@, c.path@) && lex_le(c.path@, a.path@) {
            lemma_lex_trans(b.path@, c.path@, a.path@, 0);
        }
        if lex_le(a.path@, b.path@) && lex_le(b.path@, c.path@) {
            lemma_lex_trans(a.path@, b.path@, c.path@, 0);
        }
        if lex_le(c.path@, b.path@) && lex_le(b.path@, a.path@) {
            lemma_lex_trans(c.path@, b.path@, a.path@, 0);
        }
    }

    fn le_exec(&self, other: &Self) -> (r: bool) {
        let a = to_chars(self.path.as_str());
        let b = to_chars(other.path.as_str());
        let ba = lex_le_exec(&b, &a);
        if !ba {
            true
        } else if !lex_le_exec(&a, &b) {
            false
        } else {
            self.line <= other.line
        }
    }
}

/// The public and protected methods, outside test sources, whose name no
/// other file uses, with the path of their file relative to `cwd`, sorted
/// by path and line.
pub fn collect(files: &Vec<FileInfo>, cwd: &str) -> (r: Vec<UnusedExport>)
    ensures
        exists|pre: Seq<UnusedExport>|
            {
                let ps = unused_upto(files@, files@.len() as int);
                &&& pre.len() == ps.len()
                &&& forall|k: int| 0 <= k < pre.len() ==> reports(#[trigger] pre[k], files@, cwd@, ps[k].0, ps[k].1)
                &&& #[trigger] stable_sort_of(pre, r@)
            },
{
    let mut pre: Vec<UnusedExport> = Vec::new();
    let mut i: usize = 0;
    while i < files.len()
        invariant
            i <= files@.len(),
            pre@.len() == unused_upto(files@, i as int).len(),
            forall|k: int|
                0 <= k < pre@.len() ==> reports(
                    #[trigger] pre@[k],
                    files@,
                    cwd@,
                    unused_upto(files@, i as int)[k].0,
                    unused_upto(files@, i as int)[k].1,
                ),
        decreases files@.len() - i,
    {
        let f = &files[i];
        let ghost base = unused_upto(files@, i as int);
        let test = is_test_path(f.path.as_str());
        let rel = rel_path(f.path.as_str(), cwd);
        let mut j: usize = 0;
        while j < f.exports.len()
            invariant
                i < files@.len(),
                f == files@[i as int],
                test == is_test_path_spec(f.path@),
                rel@ == path_relative_to(f.path@, cwd@),
                base == unused_upto(files@, i as int),
                j <= f.exports@.len(),
                pre@.len() == base.len() + unused_in_file(files@, i as int, j as int).len(),
                forall|k: int|
                    0 <= k < pre@.len() ==> reports(
                        #[trigger] pre@[k],
                        files@,
                        cwd@,
                        (base + unused_in_file(files@, i as int, j as int))[k].0,
                        (base + unused_in_file(files@, i as int, j as int))[k].1,
                    ),
            decreases f.exports@.len() - j,
        {
            let ghost before = base + unused_in_file(files@, i as int, j as int);
            let ghost after = base + unused_in_file(files@, i as int, j + 1);
            let member = &f.exports[j];
            if !test && !used_elsewhere_exec(files, i, member.name.as_str()) {
                proof {
                    assert(after =~= before.push((i as int, j as int)));
                }
                pre.push(UnusedExport { path: rel.clone(), name: member.name.clone(), line: member.line });
                proof {
                    assert forall|k: int| 0 <= k < pre@.len() implies reports(
                        #[trigger] pre@[k],
                        files@,
                        cwd@,
                        after[k].0,
                        after[k].1,
                    ) by {
                        if k < before.len() {
                            assert(after[k] == before[k]);
                        }
                    }
                }
            } else {
                proof {
                    assert(after =~= before);
                }
            }
            j += 1;
        }
        proof {
            assert(unused_upto(files@, i + 1) =~= base + unused_in_file(files@, i as int, f.exports@.len() as int));
        }
        i += 1;
    }
    let r = sort_stable(pre);
    r
}

proof fn lemma_unused_in_file_members(files: Seq<FileInfo>, i: int, j: int, x: int)
    requires
        0 <= x < j,
    ensures
        unused_in_file(files, i, j).contains((i, x)) <==> is_unused_export(files, i, x),
        forall|k: int| 0 <= k < unused_in_file(files, i, j).len() ==> (#[trigger] unused_in_file(files, i, j)[k]).0 == i,
    decreases j,
{
    let prev = unused_in_file(files, i, j - 1);
    if x < j - 1 {
        lemma_unused_in_file_members(files, i, j - 1, x);
        if is_unused_export(files, i, j - 1) {
            assert(unused_in_file(files, i, j) == prev.push((i, j - 1)));
            let nx = prev.push((i, j - 1));
            if nx.contains((i, x)) {
                let k = choose|k: int| 0 <= k < nx.len() && #[trigger] nx[k] == (i, x);
                if k < prev.len() {
                    assert(prev[k] == (i, x));
                }
            }
            if prev.contains((i, x)) {
                let k = choose|k: int| 0 <= k < prev.len() && #[trigger] prev[k] == (i, x);
                assert(nx[k] == (i, x));
            }
        }
    } else {
        lemma_unused_in_file_fst(files, i, j - 1);
        if is_unused_export(files, i, j - 1) {
            assert(unused_in_file(files, i, j)[prev.len() as int] == (i, j - 1));
        } else {
            if prev.contains((i, x)) {
                let k = choose|k: int| 0 <= k < prev.len() && #[trigger] prev[k] == (i, x);
                lemma_unused_in_file_below(files, i, j - 1, k);
            }
        }
    }
    lemma_unused_in_file_fst(files, i, j);
}

proof fn lemma_unused_in_file_fst(files: Seq<FileInfo>, i: int, j: int)
    ensures
        forall|k: int| 0 <= k < unused_in_file(files, i, j).len() ==> (#[trigger] unused_in_file(files, i, j)[k]).0 == i,
    decreases j,
{
    if j > 0 {
        lemma_unused_in_file_fst(files, i, j - 1);
        let prev = unused_in_file(files, i, j - 1);
        if is_unused_export(files, i, j - 1) {
            assert forall|k: int| 0 <= k < unused_in_file(files, i, j).len() implies (#[trigger] unused_in_file(files, i, j)[k]).0 == i by {
                if k < prev.len() {
                    assert(unused_in_file(files, i, j)[k] == prev[k]);
                }
            }
        }
    }
}

proof fn lemma_unused_in_file_below(files: Seq<FileInfo>, i: int, j: int, k: int)
    requires
        0 <= k < unused_in_file(files, i, j).len(),
    ensures
        0 <= unused_in_file(files, i, j)[k].1 < j,
    decreases j,
{
    if j > 0 {
        let prev = unused_in_file(files, i, j - 1);
        if k < prev.len() {
            lemma_unused_in_file_below(files, i, j - 1, k);
            if is_unused_export(files, i, j - 1) {
                assert(unused_in_file(files, i, j)[k] == prev[k]);
            }
        }
    }
}

proof fn lemma_unused_upto_members(files: Seq<FileInfo>, n: int, i: int, x: int)
    requires
        0 <= i < n <= files.len(),
        0 <= x < files[i].exports@.len(),
    ensures
        unused_upto(files, n).contains((i, x)) <==> is_unused_export(files, i, x),
    decreases n,
{
    let prev = unused_upto(files, n - 1);
    let last = unused_in_file(files, n - 1, files[n - 1].exports@.len() as int);
    assert(unused_upto(files, n) == prev + last);
    lemma_unused_in_file_fst(files, n - 1, files[n - 1].exports@.len() as int);
    if i < n - 1 {
        lemma_unused_upto_members(files, n - 1, i, x);
        if (prev + last).contains((i, x)) {
            let k = choose|k: int| 0 <= k < (prev + last).len() && #[trigger] (prev + last)[k] == (i, x);
            if k < prev.len() {
                assert(prev[k] == (i, x));
            } else {
                assert(last[k - prev.len()] == (i, x));
            }
        }
        if prev.contains((i, x)) {
            let k = choose|k: int| 0 <= k < prev.len() && #[trigger] prev[k] == (i, x);
            assert((prev + last)[k] == (i, x));
        }
    } else {
        lemma_unused_upto_fst(files, n - 1);
        lemma_unused_in_file_members(files, i, files[i].exports@.len() as int, x);
        if (prev + last).contains((i, x)) {
            let k = choose|k: int| 0 <= k < (prev + last).len() && #[trigger] (prev + last)[k] == (i, x);
            if k < prev.len() {
                assert(prev[k] == (i, x));
            } else {
                assert(last[k - prev.len()] == (i, x));
            }
        }
        if last.contains((i, x)) {
            let k = choose|k: int| 0 <= k < last.len() && #[trigger] last[k] == (i, x);
            assert((prev + last)[prev.len() + k] == (i, x));
        }
    }
}

proof fn lemma_unused_upto_fst(files: Seq<FileInfo>, n: int)
    ensures
        forall|k: int| 0 <= k < unused_upto(files, n).len() ==> (#[trigger] unused_upto(files, n)[k]).0 < n,
    decreases n,
{
    if n > 0 {
        lemma_unused_upto_fst(files, n - 1);
        let prev = unused_upto(files, n - 1);
        let last = unused_in_file(files, n - 1, files[n - 1].exports@.len() as int);
        lemma_unused_in_file_fst(files, n - 1, files[n - 1].exports@.len() as int);
        assert forall|k: int| 0 <= k < unused_upto(files, n).len() implies (#[trigger] unused_upto(files, n)[k]).0 < n by {
            if k < prev.len() {
                assert(unused_upto(files, n)[k] == prev[k]);
            } else {
                assert(unused_upto(files, n)[k] == last[k - prev.len()]);
            }
        }
    }
}

/// Export `x` of file `i` is reported exactly when its file is not a test
/// source and no *other* file uses its name: the names file `i` itself uses
/// never count.
pub proof fn lemma_export_reported_iff_unused_elsewhere(files: Seq<FileInfo>, i: int, x: int)
    requires
        0 <= i < files.len(),
        0 <= x < files[i].exports@.len(),
    ensures
        unused_upto(files, files.len() as int).contains((i, x)) <==> (!is_test_path_spec(files[i].path@)
            && forall|f: int|
            0 <= f < files.len() && f != i ==> !#[trigger] strings_view(files[f].used_names@).contains(
                files[i].exports@[x].name@,
            )),
{
    lemma_unused_upto_members(files, files.len() as int, i, x);
}

/// Which exports of file `i` are reported does not depend on the names file
/// `i` itself uses.
pub proof fn lemma_own_uses_do_not_count(files: Seq<FileInfo>, i: int, x: int, other: FileInfo)
    requires
        0 <= i < files.len(),
        0 <= x < files[i].exports@.len(),
        other.path@ == files[i].path@,
        other.exports@ == files[i].exports@,
    ensures
        unused_upto(files, files.len() as int).contains((i, x)) == unused_upto(
            files.update(i, other),
            files.len() as int,
        ).contains((i, x)),
{
    let g = files.update(i, other);
    lemma_export_reported_iff_unused_elsewhere(files, i, x);
    lemma_export_reported_iff_unused_elsewhere(g, i, x);
    assert(g[i].exports@[x].name@ == files[i].exports@[x].name@);
    let name = files[i].exports@[x].name@;
    assert forall|f: int| 0 <= f < files.len() && f != i implies #[trigger] strings_view(g[f].used_names@).contains(name)
        == strings_view(files[f].used_names@).contains(name) by {
        assert(g[f] == files[f]);
    }
    if unused_upto(g, files.len() as int).contains((i, x)) {
        assert forall|f: int| 0 <= f < files.len() && f != i implies !#[trigger] strings_view(files[f].used_names@).contains(name) by {
            assert(!strings_view(g[f].used_names@).contains(name));
        }
    }
    if unused_upto(files, files.len() as int).contains((i, x)) {
        assert forall|f: int| 0 <= f < files.len() && f != i implies !#[trigger] strings_view(g[f].used_names@).contains(name) by {
            assert(!strings_view(files[f].used_names@).contains(name));
        }
    }
}

} // verus!
