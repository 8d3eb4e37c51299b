//! Functions over the cyclomatic or cognitive complexity limits.
use vstd::prelude::*;
use crate::analyze::select::{lemma_picked_kept, picked, picked_in_file};
use crate::java::extract::FunctionMetrics;
use crate::java::model::FileInfo;
use crate::paths::{path_relative_to, rel_path};
use crate::sort::{lemma_stable_sort_same_elements, sort_stable, stable_sort_of, Ordered};
use crate::types::{ComplexityViolation, Exceeded, Severity};

verus! {

pub const COGNITIVE_HIGH: u16 = 25;
pub const COGNITIVE_CRITICAL: u16 = 40;
pub const CYCLOMATIC_HIGH: u16 = 30;
pub const CYCLOMATIC_CRITICAL: u16 = 50;

/// 2 at or over the critical level, 1 at or over the high level, else 0.
pub open spec fn level(value: u16, high: u16, critical: u16) -> int {
    if value >= critical {
        2
    } else if value >= high {
        1
    } else {
        0
    }
}

/// The worse of the two levels: critical, high, or medium.
pub open spec fn severity_spec(cyclomatic: u16, cognitive: u16) -> Severity {
    let cyc = level(cyclomatic, CYCLOMATIC_HIGH, CYCLOMATIC_CRITICAL);
    let cog = level(cognitive, COGNITIVE_HIGH, COGNITIVE_CRITICAL);
    let worst = if cyc >= cog {
        cyc
    } else {
        cog
    };
    if worst == 2 {
        Severity::Critical
    } else if worst == 1 {
        Severity::High
    } else {
        Severity::Medium
    }
}

pub fn severity_of(cyclomatic: u16, cognitive: u16) -> (r: Severity)
    ensures
        r == severity_spec(cyclomatic, cognitive),
{
    let cyc: u8 = if cyclomatic >= CYCLOMATIC_CRITICAL {
        2
    } else if cyclomatic >= CYCLOMATIC_HIGH {
        1
    } else {
        0
    };
    let cog: u8 = if cognitive >= COGNITIVE_CRITICAL {
        2
    } else if cognitive >= COGNITIVE_HIGH {
        1
    } else {
        0
    };
    let worst = if cyc >= cog {
        cyc
    } else {
        cog
    };
    if worst == 2 {
        Severity::Critical
    } else if worst == 1 {
        Severity::High
    } else {
        Severity::Medium
    }
}

/// The function is over at least one limit.
pub open spec fn over_limits(f: FunctionMetrics, max_cyclomatic: u16, max_cognitive: u16) -> bool {
    f.cyclomatic > max_cyclomatic || f.cognitive > max_cognitive
}

/// `v` reports function `f` of the file at relative path `rel`.
pub open spec fn reports(v: ComplexityViolation, f: FunctionMetrics, rel: Seq<char>, max_cyclomatic: u16, max_cognitive: u16) -> bool {
    &&& v.path@ == rel
    &&& v.name@ == f.name@
    &&& v.line == f.line
    &&& v.cyclomatic == f.cyclomatic
    &&& v.cognitive == f.cognitive
    &&& v.line_count == f.line_count
    &&& v.exceeded == (if f.cyclomatic > max_cyclomatic && f.cognitive > max_cognitive {
        Exceeded::Both
    } else if f.cyclomatic > max_cyclomatic {
        Exceeded::Cyclomatic
    } else {
        Exceeded::Cognitive
    })
    &&& v.severity == severity_spec(f.cyclomatic, f.cognitive)
}

/// A violation for `f`, when it is over a limit.
pub fn violation_for(f: &FunctionMetrics, rel: &str, max_cyclomatic: u16, max_cognitive: u16) -> (r: Option<ComplexityViolation>)
    ensures
        r is Some <==> over_limits(*f, max_cyclomatic, max_cognitive),
        r matches Some(v) ==> reports(v, *f, rel@, max_cyclomatic, max_cognitive),
{
    let over_cyc = f.cyclomatic > max_cyclomatic;
    let over_cog = f.cognitive > max_cognitive;
    if !over_cyc && !over_cog {
        return None;
    }
    let exceeded = if over_cyc && over_cog {
        Exceeded::Both
    } else if over_cyc {
        Exceeded::Cyclomatic
    } else {
        Exceeded::Cognitive
    };
    Some(
        ComplexityViolation {
            path: rel.to_string(),
            name: f.name.clone(),
            line: f.line,
            cyclomatic: f.cyclomatic,
            cognitive: f.cognitive,
            line_count: f.line_count,
            exceeded,
            severity: severity_of(f.cyclomatic, f.cognitive),
        },
    )
}

/// The sort key, compared as a tuple: both limits exceeded first, then by
/// severity, cyclomatic, cognitive and length.
pub open spec fn key(v: ComplexityViolation) -> Seq<int> {
    seq![
        if v.exceeded == Exceeded::Both { 2int } else { 1int },
        if v.severity == Severity::Critical { 3int } else if v.severity == Severity::High { 2int } else { 1int },
        v.cyclomatic as int,
        v.cognitive as int,
        v.line_count as int,
    ]
}

/// Lexicographic `<=` on equally long integer tuples, from position `i`.
pub open spec fn tuple_le(a: Seq<int>, b: Seq<int>, i: int) -> bool
    decreases a.len() - i,
{
    if i < 0 || i >= a.len() || i >= b.len() {
        true
    } else if a[i] < b[i] {
        true
    } else if a[i] > b[i] {
        false
    } else {
        tuple_le(a, b, i + 1)
    }
}

proof fn lemma_tuple_total(a: Seq<int>, b: Seq<int>, i: int)
    requires
        0 <= i,
    ensures
        tuple_le(a, b, i) || tuple_le(b, a, i),
    decreases a.len() - i,
{
    if i < a.len() && i < b.len() && a[i] == b[i] {
        lemma_tuple_total(a, b, i + 1);
    }
}

proof fn lemma_tuple_trans(a: Seq<int>, b: Seq<int>, c: Seq<int>, i: int)
    requires
        0 <= i,
        a.len() == b.len() == c.len(),
        tuple_le(a, b, i),
        tuple_le(b, c, i),
    ensures
        tuple_le(a, c, i),
    decreases a.len() - i,
{
    if i < a.len() && a[i] == b[i] && b[i] == c[i] {
        lemma_tuple_trans(a, b, c, i + 1);
    }
}

fn key_exec(v: &ComplexityViolation) -> (r: (u8, u8, u16, u16, u32))
    ensures
        key(*v) == seq![r.0 as int, r.1 as int, r.2 as int, r.3 as int, r.4 as int],
{
    let exceeded: u8 = match v.exceeded {
        Exceeded::Both => 2,
        _ => 1,
    };
    let severity: u8 = match v.severity {
        Severity::Critical => 3,
        Severity::High => 2,
        _ => 1,
    };
    (exceeded, severity, v.cyclomatic, v.cognitive, v.line_count)
}

/// Violations are listed from the largest key down.
impl Ordered for ComplexityViolation {
    open spec fn le(a: Self, b: Self) -> bool {
        tuple_le(key(b), key(a), 0)
    }

    proof fn le_total(a: Self, b: Self) {
        lemma_tuple_total(key(a), key(b), 0);
    }

    proof fn le_trans(a: Self, b: Self, c: Self) {
        lemma_tuple_trans(key(c), key(b), key(a), 0);
    }

    fn le_exec(&self, other: &Self) -> (r: bool) {
        let a = key_exec(self);
        let b = key_exec(other);
        let ghost ka = key(*self);
        let ghost kb = key(*other);
        proof {
            reveal_with_fuel(tuple_le, 6);
        }
        if b.0 != a.0 {
            b.0 < a.0
        } else if b.1 != a.1 {
            b.1 < a.1
        } else if b.2 != a.2 {
            b.2 < a.2
        } else if b.3 != a.3 {
            b.3 < a.3
        } else {
            b.4 <= a.4
        }
    }
}

pub open spec fn over(max_cyclomatic: u16, max_cognitive: u16) -> spec_fn(FunctionMetrics) -> bool {
    |f: FunctionMetrics| over_limits(f, max_cyclomatic, max_cognitive)
}

/// `r` reports, sorted stably, each function of `files` over a limit, in
/// file order.
pub open spec fn violations_reported(
    files: Seq<FileInfo>,
    cwd: Seq<char>,
    max_cyclomatic: u16,
    max_cognitive: u16,
    r: Seq<ComplexityViolation>,
) -> bool {
    exists|pre: Seq<ComplexityViolation>|
        {
            let ps = picked(files, over(max_cyclomatic, max_cognitive), files.len() as int);
            &&& pre.len() == ps.len()
            &&& forall|k: int|
                0 <= k < pre.len() ==> reports(
                    #[trigger] pre[k],
                    files[ps[k].0].functions@[ps[k].1],
                    path_relative_to(files[ps[k].0].path@, cwd),
                    max_cyclomatic,
                    max_cognitive,
                )
            &&& #[trigger] stable_sort_of(pre, r)
        }
}

/// The functions over either limit, reported with the path of their file
/// relative to `cwd`, the worst first: both limits before one, then by
/// severity, cyclomatic, cognitive and length; ties keep file order.
pub fn collect(files: &Vec<FileInfo>, cwd: &str, max_cyclomatic: u16, max_cognitive: u16) -> (r: Vec<ComplexityViolation>)
    ensures
        violations_reported(files@, cwd@, max_cyclomatic, max_cognitive, r@),
{
    let ghost keep = over(max_cyclomatic, max_cognitive);
    let mut pre: Vec<ComplexityViolation> = Vec::new();
    let mut i: usize = 0;
    while i < files.len()
        invariant
            keep == over(max_cyclomatic, max_cognitive),
            i <= files@.len(),
            pre@.len() == picked(files@, keep, i as int).len(),
            forall|k: int|
                0 <= k < pre@.len() ==> reports(
                    #[trigger] pre@[k],
                    files@[picked(files@, keep, i as int)[k].0].functions@[picked(files@, keep, i as int)[k].1],
                    path_relative_to(files@[picked(files@, keep, i as int)[k].0].path@, cwd@),
                    max_cyclomatic,
                    max_cognitive,
                ),
        decreases files@.len() - i,
    {
        let f = &files[i];
        let rel = rel_path(f.path.as_str(), cwd);
        let ghost base = picked(files@, keep, i as int);
        let mut j: usize = 0;
        while j < f.functions.len()
            invariant
                keep == over(max_cyclomatic, max_cognitive),
                i < files@.len(),
                f == files@[i as int],
                rel@ == path_relative_to(f.path@, cwd@),
                base == picked(files@, keep, i as int),
                j <= f.functions@.len(),
                pre@.len() == base.len() + picked_in_file(files@, keep, i as int, j as int).len(),
                forall|k: int|
                    0 <= k < pre@.len() ==> reports(
                        #[trigger] pre@[k],
                        files@[(base + picked_in_file(files@, keep, i as int, j as int))[k].0].functions@[(base
                            + picked_in_file(files@, keep, i as int, j as int))[k].1],
                        path_relative_to(files@[(base + picked_in_file(files@, keep, i as int, j as int))[k].0].path@, cwd@),
                        max_cyclomatic,
                        max_cognitive,
                    ),
            decreases f.functions@.len() - j,
        {
            let ghost before = base + picked_in_file(files@, keep, i as int, j as int);
            let ghost after = base + picked_in_file(files@, keep, i as int, j + 1);
            match violation_for(&f.functions[j], rel.as_str(), max_cyclomatic, max_cognitive) {
                Some(v) => {
                    proof {
                        assert(keep(f.functions@[j as int]));
                        assert(after =~= before.push((i as int, j as int)));
                    }
                    pre.push(v);
                    proof {
                        assert forall|k: int| 0 <= k < pre@.len() implies reports(
                            #[trigger] pre@[k],
                            files@[after[k].0].functions@[after[k].1],
                            path_relative_to(files@[after[k].0].path@, cwd@),
                            max_cyclomatic,
                            max_cognitive,
                        ) by {
                            if k < before.len() {
                                assert(after[k] == before[k]);
                            }
                        }
                    }
                }
                None => {
                    proof {
                        assert(!keep(f.functions@[j as int]));
                        assert(after =~= before);
                    }
                }
            }
            j += 1;
        }
        proof {
            assert(picked(files@, keep, i + 1) =~= base + picked_in_file(files@, keep, i as int, f.functions@.len() as int));
        }
        i += 1;
    }
    let ghost pv = pre@;
    let r = sort_stable(pre);
    r
}

/// Every reported function is over the cyclomatic or the cognitive limit,
/// and says which.
pub proof fn lemma_violations_over_limit(
    files: Seq<FileInfo>,
    cwd: Seq<char>,
    max_cyclomatic: u16,
    max_cognitive: u16,
    r: Seq<ComplexityViolation>,
    i: int,
)
    requires
        violations_reported(files, cwd, max_cyclomatic, max_cognitive, r),
        0 <= i < r.len(),
    ensures
        r[i].cyclomatic > max_cyclomatic || r[i].cognitive > max_cognitive,
        r[i].exceeded == (if r[i].cyclomatic > max_cyclomatic && r[i].cognitive > max_cognitive {
            Exceeded::Both
        } else if r[i].cyclomatic > max_cyclomatic {
            Exceeded::Cyclomatic
        } else {
            Exceeded::Cognitive
        }),
        r[i].severity == severity_spec(r[i].cyclomatic, r[i].cognitive),
{
    let keep = over(max_cyclomatic, max_cognitive);
    let ps = picked(files, keep, files.len() as int);
    let pre = choose|pre: Seq<ComplexityViolation>|
        {
            &&& pre.len() == ps.len()
            &&& forall|k: int|
                0 <= k < pre.len() ==> reports(
                    #[trigger] pre[k],
                    files[ps[k].0].functions@[ps[k].1],
                    path_relative_to(files[ps[k].0].path@, cwd),
                    max_cyclomatic,
                    max_cognitive,
                )
            &&& #[trigger] stable_sort_of(pre, r)
        };
    lemma_stable_sort_same_elements(pre, r);
    let j = choose|j: int| 0 <= j < pre.len() && pre[j] == r[i];
    assert(reports(pre[j], files[ps[j].0].functions@[ps[j].1], path_relative_to(files[ps[j].0].path@, cwd), max_cyclomatic, max_cognitive));
    lemma_picked_kept(files, keep, files.len() as int, j);
}

} // verus!
