//! The `--fail-on` check: which requested targets the results of a scan trip.
use vstd::prelude::*;
use crate::text::{append_chars, decimal, decimal_chars, from_chars, has_prefix, starts_at, str_eq, to_chars};
use crate::types::{ComplexityViolation, Finding, Severity, Source};

verus! {

/// What `--fail-on` looks at in a scan: its findings, how many hotspots exceed
/// the score limit (none when there is no limit) and the limit as printed,
/// and the size of each other section.
pub struct ResultSummary {
    pub findings: Vec<Finding>,
    pub hotspots_over: Option<usize>,
    pub hotspot_limit: String,
    /// Functions over the cyclomatic threshold (`--max-complexity`).
    pub complexity: usize,
    pub large: usize,
    pub cycles: usize,
    pub unused_files: usize,
    pub unused_exports: usize,
    pub clone_groups: usize,
}

/// `"{n} {noun}"`, with an `s` when `n > 1`.
pub open spec fn plural_spec(n: nat, noun: Seq<char>) -> Seq<char> {
    decimal(n) + seq![' '] + noun + if n > 1 {
        seq!['s']
    } else {
        Seq::<char>::empty()
    }
}

pub fn plural(n: usize, noun: &str) -> (r: String)
    ensures
        r@ == plural_spec(n as nat, noun@),
{
    let mut v = decimal_chars(n as u64);
    v.push(' ');
    append_chars(&mut v, &to_chars(noun));
    if n > 1 {
        v.push('s');
    }
    proof {
        if n <= 1 {
            assert(v@ =~= plural_spec(n as nat, noun@));
        } else {
            assert(v@ =~= plural_spec(n as nat, noun@));
        }
    }
    from_chars(v.as_slice())
}

pub open spec fn is_null_pointer(f: Finding) -> bool {
    f.source == Source::Spotbugs && has_prefix(f.rule@, "NP_"@)
}

/// A SpotBugs finding of high severity or above.
pub open spec fn is_bug(f: Finding) -> bool {
    f.source == Source::Spotbugs && (f.severity == Severity::Critical || f.severity == Severity::High)
}

/// The PMD rules that report an unused variable, import or private method.
pub open spec fn dead_code_rules() -> Seq<Seq<char>> {
    seq![
        "UnusedLocalVariable"@,
        "UnusedPrivateField"@,
        "UnusedFormalParameter"@,
        "UnusedPrivateMethod"@,
        "UnusedImports"@,
        "UnnecessaryImport"@,
    ]
}

/// A PMD finding of an unused variable, import or private method.
pub open spec fn is_dead_code(f: Finding) -> bool {
    f.source == Source::Pmd && dead_code_rules().contains(f.rule@)
}

fn dead_code_rule(rule: &str) -> (r: bool)
    ensures
        r == dead_code_rules().contains(rule@),
{
    let r = str_eq(rule, "UnusedLocalVariable") || str_eq(rule, "UnusedPrivateField") || str_eq(
        rule,
        "UnusedFormalParameter",
    ) || str_eq(rule, "UnusedPrivateMethod") || str_eq(rule, "UnusedImports") || str_eq(
        rule,
        "UnnecessaryImport",
    );
    proof {
        let names = dead_code_rules();
        if r {
            if rule@ == "UnusedLocalVariable"@ {
                assert(names[0] == rule@);
            } else if rule@ == "UnusedPrivateField"@ {
                assert(names[1] == rule@);
            } else if rule@ == "UnusedFormalParameter"@ {
                assert(names[2] == rule@);
            } else if rule@ == "UnusedPrivateMethod"@ {
                assert(names[3] == rule@);
            } else if rule@ == "UnusedImports"@ {
                assert(names[4] == rule@);
            } else {
                assert(names[5] == rule@);
            }
        }
    }
    r
}

pub open spec fn is_severe(f: Finding) -> bool {
    f.severity == Severity::Critical || f.severity == Severity::High
}

/// How many of the first `k` findings `p` accepts.
pub open spec fn count_upto(fs: Seq<Finding>, p: spec_fn(Finding) -> bool, k: int) -> nat
    decreases k,
{
    if k <= 0 {
        0
    } else {
        count_upto(fs, p, k - 1) + if p(fs[k - 1]) {
            1nat
        } else {
            0nat
        }
    }
}

pub open spec fn count_of(fs: Seq<Finding>, p: spec_fn(Finding) -> bool) -> nat {
    count_upto(fs, p, fs.len() as int)
}

/// Which kind of finding a count is of.
#[derive(Clone, Copy, PartialEq, Eq, Structural)]
pub enum FindingKind {
    NullPointer,
    Bug,
    Severe,
    DeadCode,
}

pub open spec fn kind_pred(k: FindingKind) -> spec_fn(Finding) -> bool {
    match k {
        FindingKind::NullPointer => |f: Finding| is_null_pointer(f),
        FindingKind::Bug => |f: Finding| is_bug(f),
        FindingKind::Severe => |f: Finding| is_severe(f),
        FindingKind::DeadCode => |f: Finding| is_dead_code(f),
    }
}

proof fn lemma_count_bound(fs: Seq<Finding>, p: spec_fn(Finding) -> bool, k: int)
    requires
        0 <= k <= fs.len(),
    ensures
        count_upto(fs, p, k) <= k,
    decreases k,
{
    if k > 0 {
        lemma_count_bound(fs, p, k - 1);
    }
}

/// The findings of one kind.
pub fn count_findings(findings: &Vec<Finding>, kind: FindingKind) -> (r: usize)
    ensures
        r == count_of(findings@, kind_pred(kind)),
{
    let np = to_chars("NP_");
    let mut n: usize = 0;
    let mut i: usize = 0;
    while i < findings.len()
        invariant
            np@ == "NP_"@,
            i <= findings@.len(),
            n == count_upto(findings@, kind_pred(kind), i as int),
        decreases findings@.len() - i,
    {
        let f = &findings[i];
        let hit = match kind {
            FindingKind::NullPointer => {
                let rule = to_chars(f.rule.as_str());
                proof {
                    assert(rule@.subrange(0, rule@.len() as int) =~= rule@);
                }
                f.source == Source::Spotbugs && starts_at(&rule, 0, &np)
            },
            FindingKind::Bug => f.source == Source::Spotbugs && (f.severity == Severity::Critical || f.severity
                == Severity::High),
            FindingKind::Severe => f.severity == Severity::Critical || f.severity == Severity::High,
            FindingKind::DeadCode => f.source == Source::Pmd && dead_code_rule(f.rule.as_str()),
        };
        proof {
            lemma_count_bound(findings@, kind_pred(kind), i as int);
        }
        if hit {
            n += 1;
        }
        i += 1;
    }
    n
}

/// How many of the first `k` violations are over the cyclomatic threshold.
pub open spec fn cyclomatic_over_upto(v: Seq<ComplexityViolation>, max: u32, k: int) -> nat
    decreases k,
{
    if k <= 0 {
        0
    } else {
        cyclomatic_over_upto(v, max, k - 1) + if v[k - 1].cyclomatic > max {
            1nat
        } else {
            0nat
        }
    }
}

/// The violations whose cyclomatic complexity exceeds `max`: what the
/// `complexity` target counts.
pub fn cyclomatic_over(v: &Vec<ComplexityViolation>, max: u32) -> (r: usize)
    ensures
        r == cyclomatic_over_upto(v@, max, v@.len() as int),
{
    let mut n: usize = 0;
    let mut i: usize = 0;
    while i < v.len()
        invariant
            i <= v@.len(),
            n == cyclomatic_over_upto(v@, max, i as int),
            n <= i,
        decreases v@.len() - i,
    {
        if v[i].cyclomatic as u32 > max {
            n += 1;
        }
        i += 1;
    }
    n
}

/// The reason target `target` fails the scan, if it does.
pub open spec fn check_spec(target: Seq<char>, s: ResultSummary) -> Option<Seq<char>> {
    let fs = s.findings@;
    if target == "nullpointers"@ {
        let n = count_of(fs, kind_pred(FindingKind::NullPointer));
        if n > 0 { Some(plural_spec(n, "null pointer path"@) + " found"@) } else { None }
    } else if target == "bugs"@ {
        let n = count_of(fs, kind_pred(FindingKind::Bug));
        if n > 0 { Some(plural_spec(n, "SpotBugs finding"@)) } else { None }
    } else if target == "dead-code"@ {
        let n = count_of(fs, kind_pred(FindingKind::DeadCode));
        if n > 0 { Some(plural_spec(n, "dead code finding"@)) } else { None }
    } else if target == "hotspots"@ {
        match s.hotspots_over {
            None => None,
            Some(n) => if n > 0 {
                Some(plural_spec(n as nat, "file"@) + " exceed hotspot score "@ + s.hotspot_limit@)
            } else {
                None
            },
        }
    } else if target == "complexity"@ {
        if s.complexity > 0 { Some(plural_spec(s.complexity as nat, "complex function"@) + " over threshold"@) } else { None }
    } else if target == "large-functions"@ {
        if s.large > 0 { Some(plural_spec(s.large as nat, "large function"@)) } else { None }
    } else if target == "circular"@ {
        if s.cycles > 0 { Some(plural_spec(s.cycles as nat, "circular dependency"@)) } else { None }
    } else if target == "unused-files"@ {
        if s.unused_files > 0 { Some(plural_spec(s.unused_files as nat, "unused file"@)) } else { None }
    } else if target == "unused-exports"@ {
        if s.unused_exports > 0 { Some(plural_spec(s.unused_exports as nat, "unused export"@)) } else { None }
    } else if target == "duplicates"@ {
        if s.clone_groups > 0 { Some(plural_spec(s.clone_groups as nat, "duplicate block"@)) } else { None }
    } else if target == "all"@ {
        let n = count_of(fs, kind_pred(FindingKind::Severe));
        if n > 0 { Some(plural_spec(n, "critical/high finding"@)) } else { None }
    } else {
        None
    }
}

fn cat(a: String, b: &str) -> (r: String)
    ensures
        r@ == a@ + b@,
{
    let mut v = to_chars(a.as_str());
    append_chars(&mut v, &to_chars(b));
    from_chars(v.as_slice())
}

/// Checks one target; unknown targets never fail.
pub fn check_one(target: &str, s: &ResultSummary) -> (r: Option<String>)
    ensures
        match check_spec(target@, *s) {
            Some(m) => r matches Some(x) && x@ == m,
            None => r is None,
        },
{
    if str_eq(target, "nullpointers") {
        let n = count_findings(&s.findings, FindingKind::NullPointer);
        if n > 0 { Some(cat(plural(n, "null pointer path"), " found")) } else { None }
    } else if str_eq(target, "bugs") {
        let n = count_findings(&s.findings, FindingKind::Bug);
        if n > 0 { Some(plural(n, "SpotBugs finding")) } else { None }
    } else if str_eq(target, "dead-code") {
        let n = count_findings(&s.findings, FindingKind::DeadCode);
        if n > 0 { Some(plural(n, "dead code finding")) } else { None }
    } else if str_eq(target, "hotspots") {
        match s.hotspots_over {
            None => None,
            Some(n) => if n > 0 {
                Some(cat(cat(plural(n, "file"), " exceed hotspot score "), s.hotspot_limit.as_str()))
            } else {
                None
            },
        }
    } else if str_eq(target, "complexity") {
        if s.complexity > 0 { Some(cat(plural(s.complexity, "complex function"), " over threshold")) } else { None }
    } else if str_eq(target, "large-functions") {
        if s.large > 0 { Some(plural(s.large, "large function")) } else { None }
    } else if str_eq(target, "circular") {
        if s.cycles > 0 { Some(plural(s.cycles, "circular dependency")) } else { None }
    } else if str_eq(target, "unused-files") {
        if s.unused_files > 0 { Some(plural(s.unused_files, "unused file")) } else { None }
    } else if str_eq(target, "unused-exports") {
        if s.unused_exports > 0 { Some(plural(s.unused_exports, "unused export")) } else { None }
    } else if str_eq(target, "duplicates") {
        if s.clone_groups > 0 { Some(plural(s.clone_groups, "duplicate block")) } else { None }
    } else if str_eq(target, "all") {
        let n = count_findings(&s.findings, FindingKind::Severe);
        if n > 0 { Some(plural(n, "critical/high finding")) } else { None }
    } else {
        None
    }
}

/// The reasons of the targets among the first `k` that fail, in order.
pub open spec fn reasons_upto(targets: Seq<Seq<char>>, s: ResultSummary, k: int) -> Seq<Seq<char>>
    decreases k,
{
    if k <= 0 {
        Seq::empty()
    } else {
        match check_spec(targets[k - 1], s) {
            Some(m) => reasons_upto(targets, s, k - 1).push(m),
            None => reasons_upto(targets, s, k - 1),
        }
    }
}

/// Whether the scan passes (no requested target fails), and why not.
pub fn check_thresholds(fail_on: &Vec<String>, s: &ResultSummary) -> (r: (bool, Vec<String>))
    ensures
        r.1@.map_values(|x: String| x@) == reasons_upto(fail_on@.map_values(|x: String| x@), *s, fail_on@.len() as int),
        r.0 == (r.1@.len() == 0),
{
    let ghost tv = fail_on@.map_values(|x: String| x@);
    let mut reasons: Vec<String> = Vec::new();
    let mut i: usize = 0;
    while i < fail_on.len()
        invariant
            tv == fail_on@.map_values(|x: String| x@),
            i <= fail_on@.len(),
            reasons@.map_values(|x: String| x@) == reasons_upto(tv, *s, i as int),
        decreases fail_on@.len() - i,
    {
        let ghost before = reasons@;
        match check_one(fail_on[i].as_str(), s) {
            Some(m) => {
                reasons.push(m);
                proof {
                    assert(reasons@.map_values(|x: String| x@) =~= before.map_values(|x: String| x@).push(
                        reasons@[before.len() as int]@,
                    ));
                }
            },
            None => {},
        }
        i += 1;
    }
    let passed = reasons.len() == 0;
    (passed, reasons)
}

/// A scan passes `--fail-on` exactly when none of the requested targets
/// trips; each tripped target gives one reason.
pub proof fn lemma_passes_iff_no_target_trips(targets: Seq<Seq<char>>, s: ResultSummary, k: int)
    requires
        0 <= k <= targets.len(),
    ensures
        reasons_upto(targets, s, k).len() == 0 <==> forall|j: int| 0 <= j < k ==> #[trigger] check_spec(targets[j], s) is None,
        reasons_upto(targets, s, k).len() <= k,
    decreases k,
{
    if k > 0 {
        lemma_passes_iff_no_target_trips(targets, s, k - 1);
        if reasons_upto(targets, s, k).len() == 0 {
            assert forall|j: int| 0 <= j < k implies #[trigger] check_spec(targets[j], s) is None by {
                if j == k - 1 {
                } else {
                    assert(reasons_upto(targets, s, k - 1).len() == 0);
                }
            }
        }
    }
}

/// The `unused-files` target trips exactly when the scan found unused
/// files, with the reason "N unused file(s)"; no other section's size
/// matters.
pub proof fn lemma_unused_files_target(s: ResultSummary)
    ensures
        s.unused_files > 0 ==> check_spec("unused-files"@, s) == Some(plural_spec(s.unused_files as nat, "unused file"@)),
        s.unused_files == 0 ==> check_spec("unused-files"@, s) is None,
        reasons_upto(seq!["unused-files"@], s, 1) == if s.unused_files > 0 {
            seq![plural_spec(s.unused_files as nat, "unused file"@)]
        } else {
            Seq::<Seq<char>>::empty()
        },
{
    reveal_strlit("unused-files");
    reveal_strlit("nullpointers");
    reveal_strlit("bugs");
    reveal_strlit("dead-code");
    reveal_strlit("hotspots");
    reveal_strlit("complexity");
    reveal_strlit("large-functions");
    reveal_strlit("circular");
    assert("unused-files"@[0] != "nullpointers"@[0]);
    assert("unused-files"@[0] != "bugs"@[0]);
    assert("unused-files"@[0] != "dead-code"@[0]);
    assert("unused-files"@[0] != "hotspots"@[0]);
    assert("unused-files"@[0] != "complexity"@[0]);
    assert("unused-files"@[0] != "large-functions"@[0]);
    assert("unused-files"@[0] != "circular"@[0]);
    let ts = seq!["unused-files"@];
    assert(ts[0] == "unused-files"@);
    assert(reasons_upto(ts, s, 0) == Seq::<Seq<char>>::empty());
    if s.unused_files > 0 {
        assert(reasons_upto(ts, s, 1) =~= seq![plural_spec(s.unused_files as nat, "unused file"@)]);
    } else {
        assert(reasons_upto(ts, s, 1) =~= Seq::<Seq<char>>::empty());
    }
}

/// Two summaries with the same number of unused files trip the
/// `unused-files` target alike, whatever else they hold.
pub proof fn lemma_unused_files_target_ignores_rest(a: ResultSummary, b: ResultSummary)
    requires
        a.unused_files == b.unused_files,
    ensures
        check_spec("unused-files"@, a) == check_spec("unused-files"@, b),
{
    lemma_unused_files_target(a);
    lemma_unused_files_target(b);
}

/// The targets that count one section of the report trip exactly when that
/// section is not empty, each with its own count in its reason.
pub proof fn lemma_count_targets(s: ResultSummary)
    ensures
        check_spec("complexity"@, s) == if s.complexity > 0 {
            Some(plural_spec(s.complexity as nat, "complex function"@) + " over threshold"@)
        } else {
            None
        },
        check_spec("large-functions"@, s) == if s.large > 0 {
            Some(plural_spec(s.large as nat, "large function"@))
        } else {
            None
        },
        check_spec("circular"@, s) == if s.cycles > 0 {
            Some(plural_spec(s.cycles as nat, "circular dependency"@))
        } else {
            None
        },
        check_spec("unused-files"@, s) == if s.unused_files > 0 {
            Some(plural_spec(s.unused_files as nat, "unused file"@))
        } else {
            None
        },
        check_spec("unused-exports"@, s) == if s.unused_exports > 0 {
            Some(plural_spec(s.unused_exports as nat, "unused export"@))
        } else {
            None
        },
        check_spec("duplicates"@, s) == if s.clone_groups > 0 {
            Some(plural_spec(s.clone_groups as nat, "duplicate block"@))
        } else {
            None
        },
{
    reveal_strlit("nullpointers");
    reveal_strlit("bugs");
    reveal_strlit("dead-code");
    reveal_strlit("hotspots");
    reveal_strlit("complexity");
    reveal_strlit("large-functions");
    reveal_strlit("circular");
    reveal_strlit("unused-files");
    reveal_strlit("unused-exports");
    reveal_strlit("duplicates");
    assert("complexity"@[0] != "nullpointers"@[0] && "complexity"@[0] != "bugs"@[0] && "complexity"@[0]
        != "dead-code"@[0] && "complexity"@[0] != "hotspots"@[0]);
    assert("large-functions"@[0] != "nullpointers"@[0] && "large-functions"@[0] != "bugs"@[0]
        && "large-functions"@[0] != "dead-code"@[0] && "large-functions"@[0] != "hotspots"@[0]
        && "large-functions"@[0] != "complexity"@[0]);
    assert("circular"@[0] != "nullpointers"@[0] && "circular"@[0] != "bugs"@[0] && "circular"@[0]
        != "dead-code"@[0] && "circular"@[0] != "hotspots"@[0] && "circular"@[1] != "complexity"@[1]
        && "circular"@[0] != "large-functions"@[0]);
    assert("unused-files"@[0] != "nullpointers"@[0] && "unused-files"@[0] != "bugs"@[0]
        && "unused-files"@[0] != "dead-code"@[0] && "unused-files"@[0] != "hotspots"@[0]
        && "unused-files"@[0] != "complexity"@[0] && "unused-files"@[0] != "large-functions"@[0]
        && "unused-files"@[0] != "circular"@[0]);
    assert("unused-exports"@[0] != "nullpointers"@[0] && "unused-exports"@[0] != "bugs"@[0]
        && "unused-exports"@[0] != "dead-code"@[0] && "unused-exports"@[0] != "hotspots"@[0]
        && "unused-exports"@[0] != "complexity"@[0] && "unused-exports"@[0] != "large-functions"@[0]
        && "unused-exports"@[0] != "circular"@[0] && "unused-exports"@[7] != "unused-files"@[7]);
    assert("duplicates"@[0] != "nullpointers"@[0] && "duplicates"@[0] != "bugs"@[0]
        && "duplicates"@[1] != "dead-code"@[1] && "duplicates"@[0] != "hotspots"@[0]
        && "duplicates"@[0] != "complexity"@[0] && "duplicates"@[0] != "large-functions"@[0]
        && "duplicates"@[0] != "circular"@[0] && "duplicates"@[0] != "unused-files"@[0]
        && "duplicates"@[0] != "unused-exports"@[0]);
}

} // verus!
