use reap::report_filter::{
    build_skip, build_changed, expand_pattern, parse_diff, parse_hunk, validate_ref, ChangedError,
    FileRanges, FileSet, ReportFilter,
};

#[test]
fn expands_bare_name_to_match_anywhere() {
    let set = build_skip(&["generated".to_string()]).unwrap();
    assert!(set.is_match("generated/Foo.java"));
    assert!(set.is_match("a/b/generated/Foo.java"));
    assert!(set.is_match("a/b/generated"));
    assert!(!set.is_match("src/main/Foo.java"));
}

#[test]
fn respects_explicit_glob() {
    let set = build_skip(&["**/*.generated.java".to_string()]).unwrap();
    assert!(set.is_match("a/b/Foo.generated.java"));
    assert!(!set.is_match("a/b/Foo.java"));
}

#[test]
fn star_does_not_cross_slash() {
    let set = build_skip(&["src/*".to_string()]).unwrap();
    assert!(set.is_match("src/Foo.java"));
    assert!(!set.is_match("src/sub/Foo.java"));
}

#[test]
fn validates_refs() {
    assert!(validate_ref("master").is_ok());
    assert!(validate_ref("HEAD~2").is_ok());
    assert!(validate_ref("a1b2c3d").is_ok());
    assert!(validate_ref("HEAD@{1 week ago}").is_ok());
    assert!(validate_ref("").is_err());
    assert!(validate_ref("-x").is_err());
    assert!(validate_ref("a;rm -rf").is_err());
}

#[test]
fn parses_diff_hunks() {
    let diff = "\
diff --git a/src/Foo.java b/src/Foo.java
--- a/src/Foo.java
+++ b/src/Foo.java
@@ -10,0 +11,3 @@
@@ -20,2 +24 @@
diff --git a/src/New.java b/src/New.java
new file mode 100644
--- /dev/null
+++ b/src/New.java
@@ -0,0 +1,5 @@
";
    let mut ranges = FileRanges::new();
    let mut added = FileSet::new();
    parse_diff(diff, &mut ranges, &mut added);
    assert_eq!(ranges.get("src/Foo.java"), Some(&vec![(11, 13), (24, 24)]));
    assert_eq!(ranges.get("src/New.java"), Some(&vec![(1, 5)]));
    assert!(added.contains("src/New.java"));
}

#[test]
fn ref_errors_carry_their_message() {
    assert_eq!(validate_ref(""), Err("empty ref".to_string()));
    assert_eq!(validate_ref("-x"), Err("invalid ref '-x' (leading dash)".to_string()));
    assert_eq!(
        validate_ref("a;b"),
        Err("invalid ref 'a;b' (disallowed characters)".to_string())
    );
}

#[test]
fn hunk_headers() {
    let h = |s: &str| parse_hunk(&s.chars().collect::<Vec<char>>());
    assert_eq!(h("@@ -10,0 +11,3 @@"), Some((11, 3)));
    assert_eq!(h("@@ -20,2 +24 @@"), Some((24, 1)));
    assert_eq!(h("@@ -1 +x @@"), None);
    assert_eq!(h("@@ -1 @@"), None);
    assert_eq!(h("@@ -1 +99999999999 @@"), None);
}

#[test]
fn bare_names_expand_to_four_globs() {
    assert_eq!(
        expand_pattern("gen//"),
        vec!["gen".to_string(), "gen/**".to_string(), "**/gen/**".to_string(), "**/gen".to_string()]
    );
    assert_eq!(expand_pattern("/gen/"), vec!["gen/".to_string()]);
    assert_eq!(expand_pattern("/src/*.java"), vec!["src/*.java".to_string()]);
    assert_eq!(expand_pattern("a?b"), vec!["a?b".to_string()]);
}

#[test]
fn blank_skip_patterns_build_nothing() {
    assert!(build_skip(&["  ".to_string(), "".to_string()]).is_none());
}

#[test]
fn changed_set_from_git_outputs() {
    let diff = "diff --git a/pom.xml b/pom.xml\n+++ b/pom.xml\n@@ -3 +3,2 @@\n";
    let r = build_changed("main", true, true, Some(diff.to_string()), None, Some("New.java\n".to_string()));
    let filter = ReportFilter::new(&[], Some(r.ok().unwrap()));
    assert!(filter.compare_mode());
    assert!(filter.deps_shown());
    assert!(filter.hotspots_omitted());
    assert!(filter.span_shown("pom.xml", 4, 10));
    assert!(!filter.span_shown("pom.xml", 5, 10));
    assert!(filter.file_shown("New.java"));
    assert!(filter.added_shown("New.java"));
    assert!(!filter.added_shown("pom.xml"));
    assert!(filter.multi_shown(&["x".to_string(), "New.java".to_string()]));
    assert!(!filter.multi_shown(&["x".to_string()]));
    assert!(filter.group_shown(&[("pom.xml".to_string(), 1, 3)]));
    assert!(!filter.group_shown(&[("pom.xml".to_string(), 1, 2)]));
}

#[test]
fn changed_set_errors() {
    assert!(matches!(build_changed("-x", true, true, None, None, None), Err(ChangedError::BadRef(_))));
    assert!(matches!(build_changed("main", false, true, None, None, None), Err(ChangedError::NotARepo)));
    match build_changed("main", true, false, None, None, None) {
        Err(ChangedError::BadRef(m)) => assert_eq!(m, "ref 'main' not found"),
        _ => panic!("expected a bad ref"),
    }
    match build_changed("main", true, true, None, None, None) {
        Err(ChangedError::BadRef(m)) => assert_eq!(m, "cannot diff against 'main' (no merge-base?)"),
        _ => panic!("expected a bad ref"),
    }
}

#[test]
fn skip_patterns_hide_paths() {
    let filter = ReportFilter::new(&["generated".to_string()], None);
    assert!(filter.skipped("a/generated/X.java"));
    assert!(!filter.span_shown("a/generated/X.java", 1, 2));
    assert!(filter.span_shown("a/src/X.java", 1, 2));
    assert!(!filter.compare_mode());
    assert!(filter.deps_shown());
    assert!(filter.multi_shown(&["a/generated/X.java".to_string(), "b.java".to_string()]));
    assert!(!filter.multi_shown(&["a/generated/X.java".to_string()]));
}

#[test]
fn plain_filter_shows_everything() {
    let filter = ReportFilter::new(&[" ".to_string()], None);
    assert!(!filter.compare_mode());
    assert!(!filter.hotspots_omitted());
    assert!(filter.deps_shown());
    assert!(!filter.skipped("any/Path.java"));
    assert!(filter.span_shown("any/Path.java", 1, 400));
    assert!(filter.file_shown("any/Path.java"));
    assert!(filter.added_shown("any/Path.java"));
    assert!(filter.multi_shown(&["a.java".to_string()]));
    assert!(!filter.multi_shown(&[]));
    assert!(filter.group_shown(&[("a.java".to_string(), 3, 9)]));
}
