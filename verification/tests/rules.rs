use reap::analyze::refactoring_targets::effort_label;
use reap::churn::{commit_timestamp, compute_trend};
use reap::command::Command;
use reap::config::parse_fail_on;
use reap::explain::{find_topic, legend_for, topics};
use reap::java::discover::{is_java_file, skipped_dir};
use reap::text::parse_i64;
use reap::threshold::{check_thresholds, cyclomatic_over, ResultSummary};
use reap::types::{ComplexityViolation, Exceeded, Finding, Severity, Source};
use reap::pipeline::{fn_span, needs_graph, shown, wanted};
use reap::types::{Subcommand, Trend};

fn chars(s: &str) -> Vec<char> {
    s.chars().collect()
}

#[test]
fn commit_headers_give_their_time() {
    assert_eq!(commit_timestamp("COMMIT 3f2a 1700000000"), Some(1700000000));
    assert_eq!(commit_timestamp("COMMIT 3f2a"), Some(0));
    assert_eq!(commit_timestamp("COMMIT 3f2a soon"), Some(0));
    assert_eq!(commit_timestamp("COMMIT 3f2a -5"), Some(-5));
    assert_eq!(commit_timestamp("12\t3\tsrc/A.java"), None);
    assert_eq!(commit_timestamp("COMMIT"), None);
}

#[test]
fn signed_numbers_parse_like_std() {
    assert_eq!(parse_i64(&chars("-9223372036854775808")), Some(i64::MIN));
    assert_eq!(parse_i64(&chars("9223372036854775807")), Some(i64::MAX));
    assert_eq!(parse_i64(&chars("9223372036854775808")), None);
    assert_eq!(parse_i64(&chars("+12")), Some(12));
    assert_eq!(parse_i64(&chars("")), None);
    assert_eq!(parse_i64(&chars("-")), None);
    assert_eq!(parse_i64(&chars("1 2")), None);
}

#[test]
fn build_and_generated_directories_are_skipped() {
    for name in ["target", "build", "out", ".git", "node_modules", "generated"] {
        assert!(skipped_dir(name), "{name}");
    }
    assert!(!skipped_dir("src"));
    assert!(!skipped_dir("Target"));
}

#[test]
fn only_java_extensions_are_sources() {
    assert!(is_java_file("src/main/java/A.java"));
    assert!(is_java_file("a..java"));
    assert!(!is_java_file("src/.java"));
    assert!(!is_java_file("src/A.javax"));
    assert!(!is_java_file("src/A.JAVA"));
    assert!(!is_java_file("src/java"));
}

#[test]
fn fail_on_targets_are_trimmed_lowercased_and_never_empty() {
    assert_eq!(parse_fail_on(" Complexity, ,ALL "), vec!["complexity".to_string(), "all".to_string()]);
    assert!(parse_fail_on(",,").is_empty());
}

fn summary(complexity: usize, cycles: usize) -> ResultSummary {
    ResultSummary {
        findings: Vec::new(),
        hotspots_over: None,
        hotspot_limit: "inf".to_string(),
        complexity,
        large: 0,
        cycles,
        unused_files: 0,
        unused_exports: 0,
        clone_groups: 0,
    }
}

#[test]
fn a_scan_fails_exactly_on_tripped_targets() {
    let targets = vec!["complexity".to_string(), "bogus".to_string(), "circular".to_string()];
    let (passed, reasons) = check_thresholds(&targets, &summary(2, 1));
    assert!(!passed);
    assert_eq!(
        reasons,
        vec!["2 complex functions over threshold".to_string(), "1 circular dependency".to_string()]
    );
    let (passed, reasons) = check_thresholds(&targets, &summary(0, 0));
    assert!(passed);
    assert!(reasons.is_empty());
}

#[test]
fn hotspot_target_needs_a_limit() {
    let mut s = summary(0, 0);
    let targets = vec!["hotspots".to_string()];
    assert!(check_thresholds(&targets, &s).0);
    s.hotspots_over = Some(3);
    s.hotspot_limit = "42.5".to_string();
    assert_eq!(check_thresholds(&targets, &s).1, vec!["3 files exceed hotspot score 42.5".to_string()]);
}

#[test]
fn every_section_id_finds_its_legend() {
    for t in topics() {
        assert_eq!(legend_for(t.id), Some(t.legend));
    }
    assert_eq!(legend_for("nope"), None);
}

#[test]
fn topics_are_found_by_id_alias_and_spelling() {
    assert_eq!(find_topic("cyclomatic").map(|t| t.id), Some("complexity"));
    assert_eq!(find_topic("  Unused Exports ").map(|t| t.id), Some("unused-exports"));
    assert_eq!(find_topic("unused_files").map(|t| t.id), Some("unused-files"));
    assert!(find_topic("nothing-like-it").is_none());
}

#[test]
fn trend_compares_recent_and_older_commits() {
    assert_eq!(compute_trend(&[5]), Trend::Stable);
    assert_eq!(compute_trend(&[7, 7, 7]), Trend::Stable);
    assert_eq!(compute_trend(&[0, 100, 90, 95]), Trend::Accelerating);
    assert_eq!(compute_trend(&[0, 1, 2, 100]), Trend::Cooling);
    assert_eq!(compute_trend(&[0, 10, 60, 100]), Trend::Stable);
}

#[test]
fn trend_ignores_commit_order() {
    assert_eq!(compute_trend(&[95, 0, 100, 90]), compute_trend(&[0, 90, 95, 100]));
    assert_eq!(compute_trend(&[100, 2, 1, 0]), Trend::Cooling);
}

#[test]
fn log_counts_add_up_per_java_file() {
    let log = "1\t1\tsrc/Early.java\n\
               COMMIT abc 1700000000\n\
               3\t1\tsrc/A.java\n\
               1\t0\tREADME.md\n\
               \n\
               COMMIT def 1700000100\n\
               2\t2\tsrc/A.java\n\
               -\t-\tsrc/B.java\n\
               5\t0\tsrc/B.java\n\
               COMMIT xyz soon\n\
               9\t9\tsrc/C.java\n";
    let counts = reap::churn::churn_counts(log);
    assert_eq!(counts.len(), 2);
    assert_eq!(counts[0].path, "src/A.java");
    assert_eq!((counts[0].added, counts[0].deleted), (5, 3));
    assert_eq!(counts[0].timestamps, vec![1700000000, 1700000100]);
    assert_eq!(counts[1].path, "src/B.java");
    assert_eq!((counts[1].added, counts[1].deleted), (5, 0));
    assert_eq!(counts[1].timestamps, vec![1700000100]);
}

#[test]
fn subcommands_pick_their_sections() {
    let all = shown(Subcommand::All, false);
    assert!(all.hotspots && all.complexity && all.circular && all.unused_files && all.unused_exports && all.targets);
    assert!(!all.not_analyzed_note);
    assert!(!shown(Subcommand::All, true).hotspots);
    let t = shown(Subcommand::Targets, false);
    assert!(t.targets && !t.hotspots && !t.circular);
    assert!(shown(Subcommand::Bugs, false).not_analyzed_note);
    let w = wanted(Subcommand::Targets);
    assert!(w.hotspots && w.targets && !w.circular && !w.deps);
    let d = wanted(Subcommand::Deps);
    assert!(d.deps && !d.duplicates && !d.hotspots);
    assert!(wanted(Subcommand::Duplicates).duplicates);
    assert!(!needs_graph(Subcommand::Deps));
    assert!(!needs_graph(Subcommand::Duplicates));
    assert!(needs_graph(Subcommand::Hotspots));
    assert_eq!(fn_span(10, 0), (10, 10));
    assert_eq!(fn_span(10, 5), (10, 14));
}

#[test]
fn suffix_and_lcp_arrays() {
    let t: Vec<i64> = vec![2, 1, 2, 1, -1];
    let sa = reap::analyze::suffix::suffix_array(&t);
    assert_eq!(sa, vec![4, 3, 1, 2, 0]);
    assert_eq!(reap::analyze::suffix::lcp_array(&t, &sa), vec![0, 0, 1, 0, 2]);
    let empty: Vec<i64> = Vec::new();
    assert!(reap::analyze::suffix::suffix_array(&empty).is_empty());
}

#[test]
fn commands_map_to_scans() {
    assert!(Command::to_sub(&None) == Subcommand::All);
    assert!(Command::to_sub(&Some(Command::Dupes)) == Subcommand::Duplicates);
    assert!(Command::to_sub(&Some(Command::UnusedExports)) == Subcommand::UnusedExports);
    assert!(Command::to_sub(&Some(Command::Explain(vec!["cyclomatic".to_string()]))) == Subcommand::All);
}

#[test]
fn effort_levels_have_words() {
    assert_eq!(effort_label(1), "low");
    assert_eq!(effort_label(2), "medium");
    assert_eq!(effort_label(3), "high");
    assert_eq!(effort_label(0), "medium");
}

fn finding(source: Source, rule: &str, severity: Severity) -> Finding {
    Finding {
        file: "A.java".to_string(),
        line: "3".to_string(),
        rule: rule.to_string(),
        ruleset: "r".to_string(),
        severity,
        message: "m".to_string(),
        source,
    }
}

#[test]
fn bugs_target_counts_high_and_critical_spotbugs_findings() {
    let mut s = summary(0, 0);
    s.findings = vec![finding(Source::Spotbugs, "DLS_DEAD", Severity::Medium)];
    let targets = vec!["bugs".to_string()];
    assert!(check_thresholds(&targets, &s).0);
    s.findings.push(finding(Source::Spotbugs, "DLS_DEAD", Severity::High));
    s.findings.push(finding(Source::Pmd, "X", Severity::Critical));
    assert_eq!(check_thresholds(&targets, &s).1, vec!["1 SpotBugs finding".to_string()]);
}

#[test]
fn dead_code_target_counts_unused_code_findings() {
    let mut s = summary(0, 0);
    let targets = vec!["dead-code".to_string()];
    s.findings = vec![finding(Source::Pmd, "GodClass", Severity::High)];
    assert!(check_thresholds(&targets, &s).0);
    s.findings.push(finding(Source::Pmd, "UnusedLocalVariable", Severity::Medium));
    s.findings.push(finding(Source::Pmd, "UnusedPrivateMethod", Severity::Low));
    s.findings.push(finding(Source::Spotbugs, "UnusedImports", Severity::Low));
    assert_eq!(check_thresholds(&targets, &s).1, vec!["2 dead code findings".to_string()]);
}

#[test]
fn complexity_target_counts_cyclomatic_only() {
    let v = |cyc: u16, cog: u16| ComplexityViolation {
        path: "A.java".to_string(),
        name: "f".to_string(),
        line: 1,
        cyclomatic: cyc,
        cognitive: cog,
        line_count: 3,
        exceeded: Exceeded::Both,
        severity: Severity::Medium,
    };
    assert_eq!(cyclomatic_over(&vec![v(25, 2), v(3, 40), v(21, 30)], 20), 2);
    assert_eq!(cyclomatic_over(&vec![v(3, 40)], 20), 0);
}

#[test]
fn churn_rows_keep_files_with_enough_commits() {
    let log = "COMMIT abc 1700000000\n\
               3\t1\tsrc/A.java\n\
               2\t0\tsrc/B.java\n\
               COMMIT def 1700000100\n\
               2\t2\tsrc/A.java\n";
    let counts = reap::churn::churn_counts(log);
    assert_eq!(reap::churn::churn_rows(&counts, 1), vec![(0, 2, 8), (1, 1, 2)]);
    assert_eq!(reap::churn::churn_rows(&counts, 2), vec![(0, 2, 8)]);
    assert!(reap::churn::churn_rows(&counts, 3).is_empty());
}

#[test]
fn normalizing_settles_after_one_pass() {
    let once = reap::explain::normalize("  Unused_Exports ");
    assert_eq!(once, "unused-exports");
    assert_eq!(reap::explain::normalize(&once), once);
    assert_eq!(
        find_topic("  Unused_Exports ").map(|t| t.id),
        find_topic(&once).map(|t| t.id)
    );
}

#[test]
fn fail_on_targets_parse_back_to_themselves() {
    let first = parse_fail_on(" Complexity, ,ALL ,Cycles");
    assert_eq!(first, vec!["complexity".to_string(), "all".to_string(), "cycles".to_string()]);
    for t in &first {
        assert!(!t.is_empty());
        assert_eq!(t.trim(), t);
        assert_eq!(&t.to_lowercase(), t);
    }
    assert_eq!(parse_fail_on(&first.join(",")), first);
}
