//! Functions longer than the size limit.
use vstd::prelude::*;
use crate::analyze::select::{lemma_picked_kept, picked, picked_in_file};
use crate::java::extract::FunctionMetrics;
use crate::java::model::FileInfo;
use crate::paths::{path_relative_to, rel_path};
use crate::sort::{lemma_stable_sort_same_elements, sort_stable, stable_sort_of, Ordered};
use crate::types::LargeFunction;

verus! {

/// Functions with more lines than this are large.
pub const LARGE_THRESHOLD: u32 = 60;

pub open spec fn is_large(f: FunctionMetrics) -> bool {
    f.line_count > LARGE_THRESHOLD
}

pub open spec fn large() -> spec_fn(FunctionMetrics) -> bool {
    |f: FunctionMetrics| is_large(f)
}

/// `e` reports function `f` of the file at relative path `rel`.
pub open spec fn reports(e: LargeFunction, f: FunctionMetrics, rel: Seq<char>) -> bool {
    &&& e.path@ == rel
    &&& e.name@ == f.name@
    &&& e.line == f.line
    &&& e.line_count == f.line_count
}

/// Longest first.
impl Ordered for LargeFunction {
    open spec fn le(a: Self, b: Self) -> bool {
        b.line_count <= a.line_count
    }

    proof fn le_total(a: Self, b: Self) {
    }

    proof fn le_trans(a: Self, b: Self, c: Self) {
    }

    fn le_exec(&self, other: &Self) -> (r: bool) {
        other.line_count <= self.line_count
    }
}

/// `r` reports, sorted stably, each large function of `files`, in file
/// order.
pub open spec fn large_reported(files: Seq<FileInfo>, cwd: Seq<char>, r: Seq<LargeFunction>) -> bool {
    exists|pre: Seq<LargeFunction>|
        {
            let ps = picked(files, large(), files.len() as int);
            &&& pre.len() == ps.len()
            &&& forall|k: int|
                0 <= k < pre.len() ==> reports(
                    #[trigger] pre[k],
                    files[ps[k].0].functions@[ps[k].1],
                    path_relative_to(files[ps[k].0].path@, cwd),
                )
            &&& #[trigger] stable_sort_of(pre, r)
        }
}

/// The functions over [`LARGE_THRESHOLD`] lines, with the path of their file
/// relative to `cwd`, longest first; equally long ones keep file order.
pub fn collect(files: &Vec<FileInfo>, cwd: &str) -> (r: Vec<LargeFunction>)
    ensures
        large_reported(files@, cwd@, r@),
{
    let ghost keep = large();
    let mut pre: Vec<LargeFunction> = Vec::new();
    let mut i: usize = 0;
    while i < files.len()
        invariant
            keep == large(),
            i <= files@.len(),
            pre@.len() == picked(files@, keep, i as int).len(),
            forall|k: int|
                0 <= k < pre@.len() ==> reports(
                    #[trigger] pre@[k],
                    files@[picked(files@, keep, i as int)[k].0].functions@[picked(files@, keep, i as int)[k].1],
                    path_relative_to(files@[picked(files@, keep, i as int)[k].0].path@, cwd@),
                ),
        decreases files@.len() - i,
    {
        let f = &files[i];
        let rel = rel_path(f.path.as_str(), cwd);
        let ghost base = picked(files@, keep, i as int);
        let mut j: usize = 0;
        while j < f.functions.len()
            invariant
                keep == large(),
                i < files@.len(),
                f == files@[i as int],
                rel@ == path_relative_to(f.path@, cwd@),
                base == picked(files@, keep, i as int),
                j <= f.functions@.len(),
                pre@.len() == base.len() + picked_in_file(files@, keep, i as int, j as int).len(),
                forall|k: int|
                    0 <= k < pre@.len() ==> reports(
                        #[trigger] pre@[k],
                        files@[(base + picked_in_file(files@, keep, i as int, j as int))[k].0].functions@[(base
                            + picked_in_file(files@, keep, i as int, j as int))[k].1],
                        path_relative_to(files@[(base + picked_in_file(files@, keep, i as int, j as int))[k].0].path@, cwd@),
                    ),
            decreases f.functions@.len() - j,
        {
            let ghost before = base + picked_in_file(files@, keep, i as int, j as int);
            let ghost after = base + picked_in_file(files@, keep, i as int, j + 1);
            let fun = &f.functions[j];
            if fun.line_count > LARGE_THRESHOLD {
                proof {
                    assert(keep(f.functions@[j as int]));
                    assert(after =~= before.push((i as int, j as int)));
                }
                pre.push(LargeFunction { path: rel.clone(), name: fun.name.clone(), line: fun.line, line_count: fun.line_count });
                proof {
                    assert forall|k: int| 0 <= k < pre@.len() implies reports(
                        #[trigger] pre@[k],
                        files@[after[k].0].functions@[after[k].1],
                        path_relative_to(files@[after[k].0].path@, cwd@),
                    ) by {
                        if k < before.len() {
                            assert(after[k] == before[k]);
                        }
                    }
                }
            } else {
                proof {
                    assert(!keep(f.functions@[j as int]));
                    assert(after =~= before);
                }
            }
            j += 1;
        }
        proof {
            assert(picked(files@, keep, i + 1) =~= base + picked_in_file(files@, keep, i as int, f.functions@.len() as int));
        }
        i += 1;
    }
    let r = sort_stable(pre);
    r
}

/// Every reported function is longer than [`LARGE_THRESHOLD`] lines, and
/// the list runs from the longest down.
pub proof fn lemma_large_over_threshold(files: Seq<FileInfo>, cwd: Seq<char>, r: Seq<LargeFunction>, i: int)
    requires
        large_reported(files, cwd, r),
        0 <= i < r.len(),
    ensures
        r[i].line_count > LARGE_THRESHOLD,
        forall|j: int| i < j < r.len() ==> r[j].line_count <= r[i].line_count,
{
    let ps = picked(files, large(), files.len() as int);
    let pre = choose|pre: Seq<LargeFunction>|
        {
            &&& pre.len() == ps.len()
            &&& forall|k: int|
                0 <= k < pre.len() ==> reports(
                    #[trigger] pre[k],
                    files[ps[k].0].functions@[ps[k].1],
                    path_relative_to(files[ps[k].0].path@, cwd),
                )
            &&& #[trigger] stable_sort_of(pre, r)
        };
    lemma_stable_sort_same_elements(pre, r);
    let j = choose|j: int| 0 <= j < pre.len() && pre[j] == r[i];
    assert(reports(pre[j], files[ps[j].0].functions@[ps[j].1], path_relative_to(files[ps[j].0].path@, cwd)));
    lemma_picked_kept(files, large(), files.len() as int, j);
    assert forall|j2: int| i < j2 < r.len() implies r[j2].line_count <= r[i].line_count by {
        assert(LargeFunction::le(r[i], r[j2]));
    }
}

} // verus!
