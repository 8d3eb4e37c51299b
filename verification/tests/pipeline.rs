use reap::pipeline::{keep_complexity, keep_cycles, keep_exports, keep_groups, keep_large, keep_unused_files};
use reap::report_filter::{build_changed, ReportFilter};
use reap::types::{
    CircularDependency, CloneGroup, CloneInstance, ComplexityViolation, Exceeded, LargeFunction, Severity,
    UnusedExport, UnusedFile,
};

fn compare_filter() -> ReportFilter {
    let diff = "diff --git a/src/A.java b/src/A.java\n+++ b/src/A.java\n@@ -5,0 +5,2 @@\n\
                diff --git a/src/N.java b/src/N.java\nnew file mode 100644\n+++ b/src/N.java\n@@ -0,0 +1,3 @@\n";
    let changed = build_changed("main", true, true, Some(diff.to_string()), None, None).ok().unwrap();
    ReportFilter::new(&["gen".to_string()], Some(changed))
}

fn violation(path: &str, line: u32, line_count: u32) -> ComplexityViolation {
    ComplexityViolation {
        path: path.to_string(),
        name: "f".to_string(),
        line,
        cyclomatic: 30,
        cognitive: 1,
        line_count,
        exceeded: Exceeded::Cyclomatic,
        severity: Severity::High,
    }
}

#[test]
fn spans_must_meet_a_changed_range() {
    let f = compare_filter();
    let kept = keep_complexity(
        &f,
        vec![violation("src/A.java", 1, 5), violation("src/A.java", 7, 3), violation("src/B.java", 1, 50)],
    );
    assert_eq!(kept.len(), 1);
    assert_eq!(kept[0].line, 1);

    let large = keep_large(
        &f,
        vec![
            LargeFunction { path: "src/A.java".to_string(), name: "g".to_string(), line: 6, line_count: 0 },
            LargeFunction { path: "gen/A.java".to_string(), name: "g".to_string(), line: 6, line_count: 9 },
        ],
    );
    assert_eq!(large.len(), 1);
    assert_eq!(large[0].path, "src/A.java");

    let exports = keep_exports(
        &f,
        vec![
            UnusedExport { path: "src/N.java".to_string(), name: "h".to_string(), line: 3 },
            UnusedExport { path: "src/N.java".to_string(), name: "k".to_string(), line: 4 },
        ],
    );
    assert_eq!(exports.len(), 1);
    assert_eq!(exports[0].name, "h");
}

#[test]
fn only_added_files_count_as_unused() {
    let f = compare_filter();
    let kept = keep_unused_files(
        &f,
        vec![UnusedFile { path: "src/A.java".to_string() }, UnusedFile { path: "src/N.java".to_string() }],
    );
    assert_eq!(kept.len(), 1);
    assert_eq!(kept[0].path, "src/N.java");
}

#[test]
fn cycles_and_groups_need_one_changed_member() {
    let f = compare_filter();
    let cycles = keep_cycles(
        &f,
        vec![
            CircularDependency {
                files: vec!["src/A.java".to_string(), "src/Z.java".to_string()],
                cross_package: false,
            },
            CircularDependency {
                files: vec!["src/Y.java".to_string(), "src/Z.java".to_string()],
                cross_package: false,
            },
        ],
    );
    assert_eq!(cycles.len(), 1);
    assert_eq!(cycles[0].files[0], "src/A.java");

    let inst = |file: &str, s: u32, e: u32| CloneInstance { file: file.to_string(), start_line: s, end_line: e };
    let groups = keep_groups(
        &f,
        vec![
            CloneGroup { instances: vec![inst("src/Z.java", 1, 9), inst("src/A.java", 6, 8)], token_count: 60, line_count: 9 },
            CloneGroup { instances: vec![inst("src/Z.java", 1, 9), inst("src/A.java", 7, 8)], token_count: 60, line_count: 9 },
        ],
    );
    assert_eq!(groups.len(), 1);
    assert_eq!(groups[0].instances[1].start_line, 6);
}
