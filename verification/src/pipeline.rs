//! What a scan runs for a subcommand, and which of its findings the report
//! filter lets through.
use vstd::prelude::*;
use crate::report_filter::ReportFilter;
use crate::types::{
    CircularDependency, CloneFamily, CloneGroup, ComplexityViolation, LargeFunction, Subcommand, UnusedExport,
    UnusedFile,
};

verus! {

/// The subcommands that read the module graph.
pub open spec fn needs_graph_spec(sub: Subcommand) -> bool {
    sub == Subcommand::All || sub == Subcommand::Hotspots || sub == Subcommand::Complexity || sub
        == Subcommand::Circular || sub == Subcommand::UnusedFiles || sub == Subcommand::UnusedExports || sub
        == Subcommand::Targets
}

pub fn needs_graph(sub: Subcommand) -> (r: bool)
    ensures
        r == needs_graph_spec(sub),
{
    match sub {
        Subcommand::All | Subcommand::Hotspots | Subcommand::Complexity | Subcommand::Circular
        | Subcommand::UnusedFiles | Subcommand::UnusedExports | Subcommand::Targets => true,
        _ => false,
    }
}

/// The lines `line ..= line + line_count - 1` of a function (one line when
/// the count is 0).
pub fn fn_span(line: u32, line_count: u32) -> (r: (u32, u32))
    requires
        line + (if line_count > 0 { line_count - 1 } else { 0 }) <= u32::MAX,
    ensures
        r.0 == line,
        r.1 == line + (if line_count > 0 { line_count - 1 } else { 0 }),
{
    (line, line + line_count.saturating_sub(1))
}

/// The sections a subcommand computes.
pub struct Wanted {
    pub complexity: bool,
    pub circular: bool,
    pub unused_files: bool,
    pub unused_exports: bool,
    pub targets: bool,
    pub hotspots: bool,
    pub duplicates: bool,
    pub deps: bool,
}

/// A full scan computes everything but the dependency check; a subcommand
/// computes its own section (refactoring targets also need hotspots).
pub fn wanted(sub: Subcommand) -> (r: Wanted)
    ensures
        r.complexity == (sub == Subcommand::All || sub == Subcommand::Complexity),
        r.circular == (sub == Subcommand::All || sub == Subcommand::Circular),
        r.unused_files == (sub == Subcommand::All || sub == Subcommand::UnusedFiles),
        r.unused_exports == (sub == Subcommand::All || sub == Subcommand::UnusedExports),
        r.targets == (sub == Subcommand::All || sub == Subcommand::Targets),
        r.hotspots == (sub == Subcommand::All || sub == Subcommand::Hotspots || sub == Subcommand::Targets),
        r.duplicates == (sub == Subcommand::All || sub == Subcommand::Duplicates),
        r.deps == (sub == Subcommand::Deps),
{
    let all = sub == Subcommand::All;
    Wanted {
        complexity: all || sub == Subcommand::Complexity,
        circular: all || sub == Subcommand::Circular,
        unused_files: all || sub == Subcommand::UnusedFiles,
        unused_exports: all || sub == Subcommand::UnusedExports,
        targets: all || sub == Subcommand::Targets,
        hotspots: all || sub == Subcommand::Hotspots || sub == Subcommand::Targets,
        duplicates: all || sub == Subcommand::Duplicates,
        deps: sub == Subcommand::Deps,
    }
}

/// The elements of `s` that `p` accepts, in order.
pub open spec fn kept<T>(s: Seq<T>, p: spec_fn(T) -> bool) -> Seq<T>
    decreases s.len(),
{
    if s.len() == 0 {
        Seq::empty()
    } else if p(s.last()) {
        kept(s.drop_last(), p).push(s.last())
    } else {
        kept(s.drop_last(), p)
    }
}

/// The last line of a finding that starts at `line` and spans `count` lines.
pub open spec fn span_end(line: u32, count: u32) -> int {
    line + (if count > 0 { count - 1 } else { 0 })
}

pub open spec fn complexity_shown(f: ReportFilter) -> spec_fn(ComplexityViolation) -> bool {
    |v: ComplexityViolation|
        !f.skipped_spec(v.path@) && f.overlaps_spec(v.path@, v.line, span_end(v.line, v.line_count) as u32)
}

/// The violations whose function span the filter shows.
pub fn keep_complexity(filter: &ReportFilter, v: Vec<ComplexityViolation>) -> (r: Vec<ComplexityViolation>)
    requires
        filter.wf(),
        forall|k: int| 0 <= k < v@.len() ==> span_end((#[trigger] v@[k]).line, v@[k].line_count) <= u32::MAX,
    ensures
        r@ == kept(v@, complexity_shown(*filter)),
{
    let ghost all = v@;
    let mut out: Vec<ComplexityViolation> = Vec::new();
    let mut rest = v;
    let n = rest.len();
    let mut i: usize = 0;
    while i < n
        invariant
            filter.wf(),
            n == all.len(),
            forall|k: int| 0 <= k < all.len() ==> span_end((#[trigger] all[k]).line, all[k].line_count) <= u32::MAX,
            i <= n,
            rest@ == all.subrange(i as int, n as int),
            out@ == kept(all.subrange(0, i as int), complexity_shown(*filter)),
        decreases n - i,
    {
        let x = rest.remove(0);
        proof {
            assert(x == all[i as int]);
            assert(rest@ =~= all.subrange(i + 1, n as int));
            assert(all.subrange(0, i + 1).drop_last() =~= all.subrange(0, i as int));
            assert(all.subrange(0, i + 1).last() == x);
        }
        let (s, e) = fn_span(x.line, x.line_count);
        if filter.span_shown(x.path.as_str(), s, e) {
            out.push(x);
        }
        i += 1;
    }
    proof {
        assert(all.subrange(0, n as int) =~= all);
    }
    out
}

pub open spec fn large_shown(f: ReportFilter) -> spec_fn(LargeFunction) -> bool {
    |v: LargeFunction| !f.skipped_spec(v.path@) && f.overlaps_spec(v.path@, v.line, span_end(v.line, v.line_count) as u32)
}

/// The large functions whose span the filter shows.
pub fn keep_large(filter: &ReportFilter, v: Vec<LargeFunction>) -> (r: Vec<LargeFunction>)
    requires
        filter.wf(),
        forall|k: int| 0 <= k < v@.len() ==> span_end((#[trigger] v@[k]).line, v@[k].line_count) <= u32::MAX,
    ensures
        r@ == kept(v@, large_shown(*filter)),
{
    let ghost all = v@;
    let mut out: Vec<LargeFunction> = Vec::new();
    let mut rest = v;
    let n = rest.len();
    let mut i: usize = 0;
    while i < n
        invariant
            filter.wf(),
            n == all.len(),
            forall|k: int| 0 <= k < all.len() ==> span_end((#[trigger] all[k]).line, all[k].line_count) <= u32::MAX,
            i <= n,
            rest@ == all.subrange(i as int, n as int),
            out@ == kept(all.subrange(0, i as int), large_shown(*filter)),
        decreases n - i,
    {
        let x = rest.remove(0);
        proof {
            assert(x == all[i as int]);
            assert(rest@ =~= all.subrange(i + 1, n as int));
            assert(all.subrange(0, i + 1).drop_last() =~= all.subrange(0, i as int));
            assert(all.subrange(0, i + 1).last() == x);
        }
        let (s, e) = fn_span(x.line, x.line_count);
        if filter.span_shown(x.path.as_str(), s, e) {
            out.push(x);
        }
        i += 1;
    }
    proof {
        assert(all.subrange(0, n as int) =~= all);
    }
    out
}

pub open spec fn export_shown(f: ReportFilter) -> spec_fn(UnusedExport) -> bool {
    |v: UnusedExport| !f.skipped_spec(v.path@) && f.overlaps_spec(v.path@, v.line, v.line)
}

/// The unused exports whose line the filter shows.
pub fn keep_exports(filter: &ReportFilter, v: Vec<UnusedExport>) -> (r: Vec<UnusedExport>)
    requires
        filter.wf(),
    ensures
        r@ == kept(v@, export_shown(*filter)),
{
    let ghost all = v@;
    let mut out: Vec<UnusedExport> = Vec::new();
    let mut rest = v;
    let n = rest.len();
    let mut i: usize = 0;
    while i < n
        invariant
            filter.wf(),
            n == all.len(),
            i <= n,
            rest@ == all.subrange(i as int, n as int),
            out@ == kept(all.subrange(0, i as int), export_shown(*filter)),
        decreases n - i,
    {
        let x = rest.remove(0);
        proof {
            assert(x == all[i as int]);
            assert(rest@ =~= all.subrange(i + 1, n as int));
            assert(all.subrange(0, i + 1).drop_last() =~= all.subrange(0, i as int));
            assert(all.subrange(0, i + 1).last() == x);
        }
        if filter.span_shown(x.path.as_str(), x.line, x.line) {
            out.push(x);
        }
        i += 1;
    }
    proof {
        assert(all.subrange(0, n as int) =~= all);
    }
    out
}

pub open spec fn file_kept(f: ReportFilter) -> spec_fn(UnusedFile) -> bool {
    |v: UnusedFile| !f.skipped_spec(v.path@) && match f.changed_view() {
        None => true,
        Some(c) => c.1.contains(v.path@),
    }
}

/// The unused files the filter shows (under comparison, only added ones).
pub fn keep_unused_files(filter: &ReportFilter, v: Vec<UnusedFile>) -> (r: Vec<UnusedFile>)
    requires
        filter.wf(),
    ensures
        r@ == kept(v@, file_kept(*filter)),
{
    let ghost all = v@;
    let mut out: Vec<UnusedFile> = Vec::new();
    let mut rest = v;
    let n = rest.len();
    let mut i: usize = 0;
    while i < n
        invariant
            filter.wf(),
            n == all.len(),
            i <= n,
            rest@ == all.subrange(i as int, n as int),
            out@ == kept(all.subrange(0, i as int), file_kept(*filter)),
        decreases n - i,
    {
        let x = rest.remove(0);
        proof {
            assert(x == all[i as int]);
            assert(rest@ =~= all.subrange(i + 1, n as int));
            assert(all.subrange(0, i + 1).drop_last() =~= all.subrange(0, i as int));
            assert(all.subrange(0, i + 1).last() == x);
        }
        if filter.added_shown(x.path.as_str()) {
            out.push(x);
        }
        i += 1;
    }
    proof {
        assert(all.subrange(0, n as int) =~= all);
    }
    out
}

pub open spec fn multi_ok(f: ReportFilter, paths: Seq<String>) -> bool {
    (exists|i: int| 0 <= i < paths.len() && !f.skipped_spec(#[trigger] paths[i]@)) && match f.changed_view() {
        None => true,
        Some(c) => exists|i: int| 0 <= i < paths.len() && c.0.dom().contains(#[trigger] paths[i]@),
    }
}

pub open spec fn cycle_shown(f: ReportFilter) -> spec_fn(CircularDependency) -> bool {
    |c: CircularDependency| multi_ok(f, c.files@)
}

/// The cycles the filter shows.
pub fn keep_cycles(filter: &ReportFilter, v: Vec<CircularDependency>) -> (r: Vec<CircularDependency>)
    requires
        filter.wf(),
    ensures
        r@ == kept(v@, cycle_shown(*filter)),
{
    let ghost all = v@;
    let mut out: Vec<CircularDependency> = Vec::new();
    let mut rest = v;
    let n = rest.len();
    let mut i: usize = 0;
    while i < n
        invariant
            filter.wf(),
            n == all.len(),
            i <= n,
            rest@ == all.subrange(i as int, n as int),
            out@ == kept(all.subrange(0, i as int), cycle_shown(*filter)),
        decreases n - i,
    {
        let x = rest.remove(0);
        proof {
            assert(x == all[i as int]);
            assert(rest@ =~= all.subrange(i + 1, n as int));
            assert(all.subrange(0, i + 1).drop_last() =~= all.subrange(0, i as int));
            assert(all.subrange(0, i + 1).last() == x);
        }
        if filter.multi_shown(x.files.as_slice()) {
            out.push(x);
        }
        i += 1;
    }
    proof {
        assert(all.subrange(0, n as int) =~= all);
    }
    out
}

pub open spec fn family_shown(f: ReportFilter) -> spec_fn(CloneFamily) -> bool {
    |c: CloneFamily| multi_ok(f, c.files@)
}

/// The clone families the filter shows.
pub fn keep_families(filter: &ReportFilter, v: Vec<CloneFamily>) -> (r: Vec<CloneFamily>)
    requires
        filter.wf(),
    ensures
        r@ == kept(v@, family_shown(*filter)),
{
    let ghost all = v@;
    let mut out: Vec<CloneFamily> = Vec::new();
    let mut rest = v;
    let n = rest.len();
    let mut i: usize = 0;
    while i < n
        invariant
            filter.wf(),
            n == all.len(),
            i <= n,
            rest@ == all.subrange(i as int, n as int),
            out@ == kept(all.subrange(0, i as int), family_shown(*filter)),
        decreases n - i,
    {
        let x = rest.remove(0);
        proof {
            assert(x == all[i as int]);
            assert(rest@ =~= all.subrange(i + 1, n as int));
            assert(all.subrange(0, i + 1).drop_last() =~= all.subrange(0, i as int));
            assert(all.subrange(0, i + 1).last() == x);
        }
        if filter.multi_shown(x.files.as_slice()) {
            out.push(x);
        }
        i += 1;
    }
    proof {
        assert(all.subrange(0, n as int) =~= all);
    }
    out
}

pub open spec fn group_shown_spec(f: ReportFilter) -> spec_fn(CloneGroup) -> bool {
    |g: CloneGroup|
        (exists|i: int| 0 <= i < g.instances@.len() && !f.skipped_spec((#[trigger] g.instances@[i]).file@)) && match f.changed_view() {
            None => true,
            Some(c) => exists|i: int|
                0 <= i < g.instances@.len() && f.overlaps_spec(
                    (#[trigger] g.instances@[i]).file@,
                    g.instances@[i].start_line,
                    g.instances@[i].end_line,
                ),
        }
}

fn members_of(g: &CloneGroup) -> (r: Vec<(String, u32, u32)>)
    ensures
        r@.len() == g.instances@.len(),
        forall|i: int| 0 <= i < r@.len() ==> (#[trigger] r@[i]).0@ == g.instances@[i].file@ && r@[i].1
            == g.instances@[i].start_line && r@[i].2 == g.instances@[i].end_line,
{
    let mut r: Vec<(String, u32, u32)> = Vec::new();
    let mut i: usize = 0;
    while i < g.instances.len()
        invariant
            i <= g.instances@.len(),
            r@.len() == i,
            forall|k: int| 0 <= k < i ==> (#[trigger] r@[k]).0@ == g.instances@[k].file@ && r@[k].1
                == g.instances@[k].start_line && r@[k].2 == g.instances@[k].end_line,
        decreases g.instances@.len() - i,
    {
        let inst = &g.instances[i];
        r.push((inst.file.clone(), inst.start_line, inst.end_line));
        i += 1;
    }
    r
}

/// The clone groups the filter shows.
pub fn keep_groups(filter: &ReportFilter, v: Vec<CloneGroup>) -> (r: Vec<CloneGroup>)
    requires
        filter.wf(),
    ensures
        r@ == kept(v@, group_shown_spec(*filter)),
{
    let ghost all = v@;
    let mut out: Vec<CloneGroup> = Vec::new();
    let mut rest = v;
    let n = rest.len();
    let mut i: usize = 0;
    while i < n
        invariant
            filter.wf(),
            n == all.len(),
            i <= n,
            rest@ == all.subrange(i as int, n as int),
            out@ == kept(all.subrange(0, i as int), group_shown_spec(*filter)),
        decreases n - i,
    {
        let x = rest.remove(0);
        proof {
            assert(x == all[i as int]);
            assert(rest@ =~= all.subrange(i + 1, n as int));
            assert(all.subrange(0, i + 1).drop_last() =~= all.subrange(0, i as int));
            assert(all.subrange(0, i + 1).last() == x);
        }
        let members = members_of(&x);
        let shown = filter.group_shown(members.as_slice());
        proof {
            let p = group_shown_spec(*filter);
            let ms = members@;
            assert((exists|k: int| 0 <= k < ms.len() && !filter.skipped_spec((#[trigger] ms[k]).0@)) == (exists|k: int|
                0 <= k < x.instances@.len() && !filter.skipped_spec((#[trigger] x.instances@[k]).file@))) by {
                if exists|k: int| 0 <= k < ms.len() && !filter.skipped_spec((#[trigger] ms[k]).0@) {
                    let k = choose|k: int| 0 <= k < ms.len() && !filter.skipped_spec((#[trigger] ms[k]).0@);
                    assert(!filter.skipped_spec(x.instances@[k].file@));
                }
                if exists|k: int| 0 <= k < x.instances@.len() && !filter.skipped_spec((#[trigger] x.instances@[k]).file@) {
                    let k = choose|k: int| 0 <= k < x.instances@.len() && !filter.skipped_spec((#[trigger] x.instances@[k]).file@);
                    assert(!filter.skipped_spec(ms[k].0@));
                }
            }
            assert((exists|k: int| 0 <= k < ms.len() && filter.overlaps_spec((#[trigger] ms[k]).0@, ms[k].1, ms[k].2)) == (exists|k: int|
                0 <= k < x.instances@.len() && filter.overlaps_spec((#[trigger] x.instances@[k]).file@, x.instances@[k].start_line, x.instances@[k].end_line))) by {
                if exists|k: int| 0 <= k < ms.len() && filter.overlaps_spec((#[trigger] ms[k]).0@, ms[k].1, ms[k].2) {
                    let k = choose|k: int| 0 <= k < ms.len() && filter.overlaps_spec((#[trigger] ms[k]).0@, ms[k].1, ms[k].2);
                    assert(filter.overlaps_spec(x.instances@[k].file@, x.instances@[k].start_line, x.instances@[k].end_line));
                }
                if exists|k: int| 0 <= k < x.instances@.len() && filter.overlaps_spec((#[trigger] x.instances@[k]).file@, x.instances@[k].start_line, x.instances@[k].end_line) {
                    let k = choose|k: int| 0 <= k < x.instances@.len() && filter.overlaps_spec((#[trigger] x.instances@[k]).file@, x.instances@[k].start_line, x.instances@[k].end_line);
                    assert(filter.overlaps_spec(ms[k].0@, ms[k].1, ms[k].2));
                }
            }
            assert(shown == p(x));
        }
        if shown {
            out.push(x);
        }
        i += 1;
    }
    proof {
        assert(all.subrange(0, n as int) =~= all);
    }
    out
}

/// The sections a report prints for a subcommand (duplicates and
/// dependencies print when they were computed).
pub struct Shown {
    pub hotspots: bool,
    pub complexity: bool,
    pub circular: bool,
    pub unused_files: bool,
    pub unused_exports: bool,
    pub targets: bool,
    pub not_analyzed_note: bool,
}

/// A full scan prints every section, a subcommand its own; hotspots are
/// not printed while comparing against a ref, and refactoring targets do
/// not print the hotspots they use. Bugs and dead code print a note that
/// they are not analyzed.
pub fn shown(sub: Subcommand, hotspots_omitted: bool) -> (r: Shown)
    ensures
        r.hotspots == ((sub == Subcommand::All || sub == Subcommand::Hotspots) && !hotspots_omitted),
        r.complexity == (sub == Subcommand::All || sub == Subcommand::Complexity),
        r.circular == (sub == Subcommand::All || sub == Subcommand::Circular),
        r.unused_files == (sub == Subcommand::All || sub == Subcommand::UnusedFiles),
        r.unused_exports == (sub == Subcommand::All || sub == Subcommand::UnusedExports),
        r.targets == (sub == Subcommand::All || sub == Subcommand::Targets),
        r.not_analyzed_note == (sub == Subcommand::Bugs || sub == Subcommand::DeadCode),
{
    let all = sub == Subcommand::All;
    Shown {
        hotspots: (all || sub == Subcommand::Hotspots) && !hotspots_omitted,
        complexity: all || sub == Subcommand::Complexity,
        circular: all || sub == Subcommand::Circular,
        unused_files: all || sub == Subcommand::UnusedFiles,
        unused_exports: all || sub == Subcommand::UnusedExports,
        targets: all || sub == Subcommand::Targets,
        not_analyzed_note: sub == Subcommand::Bugs || sub == Subcommand::DeadCode,
    }
}

} // verus!
