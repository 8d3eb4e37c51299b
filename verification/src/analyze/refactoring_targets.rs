//! The integer facts that the refactoring rules read of each file: its
//! coupling, size, complexity, unused API and whether it lies on a cycle.
//! (The rules weigh them with floating-point scores outside the library.)
use vstd::prelude::*;
use crate::java::extract::FunctionMetrics;
use crate::java::graph::ModuleGraph;
use crate::paths::{path_relative_to, rel_path};
use crate::text::str_eq;
use crate::types::{CircularDependency, UnusedExport};

verus! {

/// The word for an effort level: 1 is low, 3 is high, anything else medium.
pub fn effort_label(n: u8) -> (r: &'static str)
    ensures
        r@ == (if n == 1 {
            "low"@
        } else if n == 3 {
            "high"@
        } else {
            "medium"@
        }),
{
    match n {
        1 => "low",
        3 => "high",
        _ => "medium",
    }
}

/// What the refactoring rules read of one file.
pub struct TargetInputs {
    /// The file's path relative to the scan's directory.
    pub rel: String,
    pub fan_in: usize,
    pub fan_out: usize,
    /// The sum of its functions' cyclomatic complexity.
    pub total_cyclomatic: u128,
    pub function_count: usize,
    pub lines: u32,
    /// Its exported members, and how many of them are unused.
    pub value_exports: usize,
    pub unused_exports: usize,
    /// The highest cognitive complexity of its functions (0 without any).
    pub max_cognitive: u16,
    /// The file is a member of a reported cycle.
    pub is_circular: bool,
    pub is_root: bool,
}

pub open spec fn cyclomatic_sum(fs: Seq<FunctionMetrics>) -> int
    decreases fs.len(),
{
    if fs.len() == 0 {
        0
    } else {
        cyclomatic_sum(fs.drop_last()) + fs.last().cyclomatic
    }
}

pub open spec fn cognitive_max(fs: Seq<FunctionMetrics>) -> int
    decreases fs.len(),
{
    if fs.len() == 0 {
        0
    } else {
        let m = cognitive_max(fs.drop_last());
        if fs.last().cognitive > m {
            fs.last().cognitive as int
        } else {
            m
        }
    }
}

/// How many unused exports are reported for `path`.
pub open spec fn unused_count(us: Seq<UnusedExport>, path: Seq<char>) -> int
    decreases us.len(),
{
    if us.len() == 0 {
        0
    } else {
        unused_count(us.drop_last(), path) + if us.last().path@ == path {
            1int
        } else {
            0int
        }
    }
}

/// Some reported cycle lists `path`.
pub open spec fn on_cycle(cycles: Seq<CircularDependency>, path: Seq<char>) -> bool {
    exists|c: int, k: int| 0 <= c < cycles.len() && 0 <= k < cycles[c].files@.len() && #[trigger] cycles[c].files@[k]@ == path
}

/// `t` holds the facts of file `id` of `g`.
pub open spec fn inputs_of(
    t: TargetInputs,
    g: &ModuleGraph,
    cycles: Seq<CircularDependency>,
    unused: Seq<UnusedExport>,
    cwd: Seq<char>,
    id: int,
) -> bool {
    let f = g.files@[id];
    let rel = path_relative_to(f.path@, cwd);
    &&& t.rel@ == rel
    &&& t.fan_in == g.reverse@[id]@.len()
    &&& t.fan_out == g.edges@[id]@.len()
    &&& t.total_cyclomatic == cyclomatic_sum(f.functions@)
    &&& t.function_count == f.functions@.len()
    &&& t.lines == f.line_count
    &&& t.value_exports == f.exports@.len()
    &&& t.unused_exports == unused_count(unused, rel)
    &&& t.max_cognitive == cognitive_max(f.functions@)
    &&& t.is_circular == on_cycle(cycles, rel)
    &&& t.is_root == g.is_root@[id]
}

proof fn lemma_cyclomatic_sum_bound(fs: Seq<FunctionMetrics>)
    ensures
        0 <= cyclomatic_sum(fs) <= fs.len() * 0xffff,
    decreases fs.len(),
{
    if fs.len() > 0 {
        lemma_cyclomatic_sum_bound(fs.drop_last());
    }
}

proof fn lemma_cognitive_max_bound(fs: Seq<FunctionMetrics>)
    ensures
        0 <= cognitive_max(fs) <= 0xffff,
    decreases fs.len(),
{
    if fs.len() > 0 {
        lemma_cognitive_max_bound(fs.drop_last());
    }
}

fn sum_and_max(fs: &Vec<FunctionMetrics>) -> (r: (u128, u16))
    ensures
        r.0 == cyclomatic_sum(fs@),
        r.1 == cognitive_max(fs@),
{
    let mut sum: u128 = 0;
    let mut max: u16 = 0;
    let mut i: usize = 0;
    while i < fs.len()
        invariant
            i <= fs@.len(),
            sum == cyclomatic_sum(fs@.subrange(0, i as int)),
            max == cognitive_max(fs@.subrange(0, i as int)),
        decreases fs@.len() - i,
    {
        proof {
            assert(fs@.subrange(0, i + 1).drop_last() =~= fs@.subrange(0, i as int));
            lemma_cyclomatic_sum_bound(fs@.subrange(0, i as int));
            assert(i * 0xffff <= 0xffff_ffff_ffff_ffff * 0xffff) by (nonlinear_arith)
                requires
                    i <= 0xffff_ffff_ffff_ffff,
            ;
        }
        sum = sum + fs[i].cyclomatic as u128;
        if fs[i].cognitive > max {
            max = fs[i].cognitive;
        }
        i += 1;
    }
    proof {
        assert(fs@.subrange(0, fs@.len() as int) =~= fs@);
    }
    (sum, max)
}

fn count_unused(unused: &Vec<UnusedExport>, path: &str) -> (r: usize)
    ensures
        r == unused_count(unused@, path@),
{
    let mut n: usize = 0;
    let mut i: usize = 0;
    while i < unused.len()
        invariant
            i <= unused@.len(),
            n == unused_count(unused@.subrange(0, i as int), path@),
            n <= i,
        decreases unused@.len() - i,
    {
        proof {
            assert(unused@.subrange(0, i + 1).drop_last() =~= unused@.subrange(0, i as int));
        }
        if str_eq(unused[i].path.as_str(), path) {
            n += 1;
        }
        i += 1;
    }
    proof {
        assert(unused@.subrange(0, unused@.len() as int) =~= unused@);
    }
    n
}

fn in_cycles(cycles: &Vec<CircularDependency>, path: &str) -> (r: bool)
    ensures
        r == on_cycle(cycles@, path@),
{
    let mut c: usize = 0;
    while c < cycles.len()
        invariant
            c <= cycles@.len(),
            forall|x: int, k: int| 0 <= x < c && 0 <= k < cycles@[x].files@.len() ==> #[trigger] cycles@[x].files@[k]@ != path@,
        decreases cycles@.len() - c,
    {
        let files = &cycles[c].files;
        let mut k: usize = 0;
        while k < files.len()
            invariant
                c < cycles@.len(),
                files == cycles@[c as int].files,
                k <= files@.len(),
                forall|x: int, j: int| 0 <= x < c && 0 <= j < cycles@[x].files@.len() ==> #[trigger] cycles@[x].files@[j]@ != path@,
                forall|j: int| 0 <= j < k ==> files@[j]@ != path@,
            decreases files@.len() - k,
        {
            if str_eq(files[k].as_str(), path) {
                proof {
                    assert(cycles@[c as int].files@[k as int]@ == path@);
                }
                return true;
            }
            k += 1;
        }
        proof {
            assert forall|x: int, j: int| 0 <= x < c + 1 && 0 <= j < cycles@[x].files@.len() implies #[trigger] cycles@[x].files@[j]@ != path@ by {
                if x == c {
                    assert(cycles@[x].files@[j] == files@[j]);
                }
            }
        }
        c += 1;
    }
    false
}

/// The facts of every file of `graph`, in file order.
pub fn target_inputs(
    graph: &ModuleGraph,
    cycles: &Vec<CircularDependency>,
    unused: &Vec<UnusedExport>,
    cwd: &str,
) -> (r: Vec<TargetInputs>)
    requires
        graph.wf(),
    ensures
        r@.len() == graph.files@.len(),
        forall|i: int| 0 <= i < r@.len() ==> inputs_of(#[trigger] r@[i], graph, cycles@, unused@, cwd@, i),
{
    let mut out: Vec<TargetInputs> = Vec::new();
    let mut id: usize = 0;
    while id < graph.files.len()
        invariant
            graph.wf(),
            id <= graph.files@.len(),
            out@.len() == id,
            forall|i: int| 0 <= i < id ==> inputs_of(#[trigger] out@[i], graph, cycles@, unused@, cwd@, i),
        decreases graph.files@.len() - id,
    {
        let f = &graph.files[id];
        let rel = rel_path(f.path.as_str(), cwd);
        let (total, max_cog) = sum_and_max(&f.functions);
        let t = TargetInputs {
            fan_in: graph.fan_in(id),
            fan_out: graph.fan_out(id),
            total_cyclomatic: total,
            function_count: f.functions.len(),
            lines: f.line_count,
            value_exports: f.exports.len(),
            unused_exports: count_unused(unused, rel.as_str()),
            max_cognitive: max_cog,
            is_circular: in_cycles(cycles, rel.as_str()),
            is_root: graph.is_root[id],
            rel,
        };
        out.push(t);
        proof {
            assert(out@[id as int] == t);
        }
        id += 1;
    }
    out
}

} // verus!
