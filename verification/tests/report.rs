use reap::detect::{candidate_dirs, detect_project, Lang};
use reap::report::{
    basename, bold, colorize_severity, cyan, dimmed, green, group_by_path, metric, pad3_exec, red, severity_label,
    severity_tag, shorten, trend_label, trend_symbol, white, yellow,
};
use reap::types::{Severity, Trend};

#[test]
fn colours_wrap_text_in_ansi_codes() {
    assert_eq!(red("x"), "\x1b[31mx\x1b[39m");
    assert_eq!(green("x"), "\x1b[32mx\x1b[39m");
    assert_eq!(yellow("x"), "\x1b[33mx\x1b[39m");
    assert_eq!(cyan("x"), "\x1b[36mx\x1b[39m");
    assert_eq!(white("x"), "\x1b[37mx\x1b[39m");
    assert_eq!(bold("x"), "\x1b[1mx\x1b[0m");
    assert_eq!(dimmed("x"), "\x1b[2mx\x1b[0m");
    assert_eq!(bold(&red("x")), "\x1b[1m\x1b[31mx\x1b[39m\x1b[0m");
}

#[test]
fn severity_and_trend_marks() {
    assert_eq!(severity_label(Severity::Medium), "medium");
    assert_eq!(severity_tag(Severity::Critical), "\x1b[1m\x1b[31m CRITICAL\x1b[39m\x1b[0m");
    assert_eq!(severity_tag(Severity::Low), "");
    assert_eq!(colorize_severity(Severity::Low, "l"), "\x1b[34ml\x1b[39m");
    assert_eq!(trend_symbol(Trend::Stable), "\x1b[2m─\x1b[0m");
    assert_eq!(trend_label(Trend::Cooling), "\x1b[32m▼\x1b[39m cooling");
}

#[test]
fn metric_columns_pad_to_three() {
    assert_eq!(pad3_exec(7), "  7");
    assert_eq!(pad3_exec(1234), "1234");
    assert_eq!(metric(42, false), "\x1b[2m 42\x1b[0m");
    assert_eq!(metric(42, true), "\x1b[1m\x1b[31m 42\x1b[39m\x1b[0m");
}

#[test]
fn paths_shorten_and_group() {
    assert_eq!(basename("src/a/B.java"), "B.java");
    assert_eq!(basename("B.java"), "B.java");
    assert_eq!(basename("dir/"), "");
    assert_eq!(shorten("/w/src/A.java", "/w"), "src/A.java");
    assert_eq!(shorten("/other/A.java", "/w"), "/other/A.java");
    let paths: Vec<String> = ["a", "b", "a", "c", "b"].iter().map(|s| s.to_string()).collect();
    let groups = group_by_path(&paths);
    assert_eq!(
        groups,
        vec![("a".to_string(), vec![0, 2]), ("b".to_string(), vec![1, 4]), ("c".to_string(), vec![3])]
    );
}

#[test]
fn projects_are_found_upwards() {
    assert_eq!(candidate_dirs("/a/b"), vec!["/a/b".to_string(), "/a".to_string(), "/".to_string()]);
    assert_eq!(candidate_dirs("/1/2/3/4/5/6/7").len(), 6);
    let p = detect_project("/a/b", &vec![false, true, true]);
    assert!(p.lang == Lang::Java);
    assert_eq!(p.root, "/a");
    assert_eq!(p.name, "a");
    let q = detect_project("/a/b", &vec![false, false, false]);
    assert!(q.lang == Lang::Unknown);
    assert_eq!(q.root, "/a/b");
    assert_eq!(q.name, "");
}
