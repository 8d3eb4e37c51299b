//! Picking out functions across a list of files, in file order.
use vstd::prelude::*;
use crate::java::extract::FunctionMetrics;
use crate::java::model::FileInfo;

verus! {

/// The positions `(file, function)` of the functions among the first `j`
/// of file `i` that `keep` accepts, in order.
pub open spec fn picked_in_file(
    files: Seq<FileInfo>,
    keep: spec_fn(FunctionMetrics) -> bool,
    i: int,
    j: int,
) -> Seq<(int, int)>
    decreases j,
{
    if j <= 0 {
        Seq::empty()
    } else if keep(files[i].functions@[j - 1]) {
        picked_in_file(files, keep, i, j - 1).push((i, j - 1))
    } else {
        picked_in_file(files, keep, i, j - 1)
    }
}

/// The positions of the functions of the first `i` files that `keep`
/// accepts, file by file, each file's in order.
pub open spec fn picked(files: Seq<FileInfo>, keep: spec_fn(FunctionMetrics) -> bool, i: int) -> Seq<(int, int)>
    decreases i,
{
    if i <= 0 {
        Seq::empty()
    } else {
        picked(files, keep, i - 1) + picked_in_file(files, keep, i - 1, files[i - 1].functions@.len() as int)
    }
}

proof fn lemma_picked_in_file_kept(files: Seq<FileInfo>, keep: spec_fn(FunctionMetrics) -> bool, i: int, j: int, k: int)
    requires
        0 <= i < files.len(),
        0 <= j <= files[i].functions@.len(),
        0 <= k < picked_in_file(files, keep, i, j).len(),
    ensures
        picked_in_file(files, keep, i, j)[k].0 == i,
        0 <= picked_in_file(files, keep, i, j)[k].1 < j,
        keep(files[i].functions@[picked_in_file(files, keep, i, j)[k].1]),
    decreases j,
{
    if j > 0 {
        let prev = picked_in_file(files, keep, i, j - 1);
        if k < prev.len() {
            lemma_picked_in_file_kept(files, keep, i, j - 1, k);
            if keep(files[i].functions@[j - 1]) {
                assert(picked_in_file(files, keep, i, j)[k] == prev[k]);
            }
        }
    }
}

/// Every picked position names a function of the files that `keep`
/// accepts.
pub proof fn lemma_picked_kept(files: Seq<FileInfo>, keep: spec_fn(FunctionMetrics) -> bool, i: int, k: int)
    requires
        0 <= i <= files.len(),
        0 <= k < picked(files, keep, i).len(),
    ensures
        0 <= picked(files, keep, i)[k].0 < i,
        0 <= picked(files, keep, i)[k].1 < files[picked(files, keep, i)[k].0].functions@.len(),
        keep(files[picked(files, keep, i)[k].0].functions@[picked(files, keep, i)[k].1]),
    decreases i,
{
    if i > 0 {
        let prev = picked(files, keep, i - 1);
        let here = picked_in_file(files, keep, i - 1, files[i - 1].functions@.len() as int);
        assert(picked(files, keep, i) == prev + here);
        if k < prev.len() {
            lemma_picked_kept(files, keep, i - 1, k);
            assert(picked(files, keep, i)[k] == prev[k]);
        } else {
            lemma_picked_in_file_kept(files, keep, i - 1, files[i - 1].functions@.len() as int, k - prev.len());
            assert(picked(files, keep, i)[k] == here[k - prev.len()]);
        }
    }
}

} // verus!
