use reap::analyze::duplicates::{detect, file_tokens, group_families, remove_line_subsets, FileTokens};
use reap::types::{CloneGroup, CloneInstance};

fn toks(source: &str) -> FileTokens {
    file_tokens("X.java".to_string(), source).unwrap()
}

#[test]
fn detects_identical_block_across_files() {
    let block = r#"
class %NAME% {
  int run(int a, int b) {
    int total = 0;
    for (int i = 0; i < a; i++) {
      if (i % 2 == 0) { total += i * b; } else { total -= i; }
    }
    while (total > 100) { total = total - b; }
    return total;
  }
}
"#;
    let a = toks(&block.replace("%NAME%", "A"));
    let b = toks(&block.replace("%NAME%", "B"));
    // ~50+ tokens of shared body; use a modest threshold
    let files = vec![
        FileTokens { path: "A.java".into(), keys: a.keys, lines: a.lines },
        FileTokens { path: "B.java".into(), keys: b.keys, lines: b.lines },
    ];
    let groups = detect(&files, 20, 3);
    assert!(!groups.is_empty(), "expected a clone group");
    let g = &groups[0];
    assert!(g.instances.len() >= 2, "expected >=2 instances");
}

#[test]
fn tokens_skip_comments_and_tag_identifiers() {
    let t = toks("class A { // note\n int x = 42; }\n");
    assert!(t.keys.iter().any(|k| k == "id:A"));
    assert!(t.keys.iter().any(|k| k == "decimal_integer_literal:42"));
    assert!(!t.keys.iter().any(|k| k.contains("note")));
    assert_eq!(t.keys.len(), t.lines.len());
    assert_eq!(t.lines[0], 1);
    assert_eq!(*t.lines.last().unwrap(), 2);
}

#[test]
fn no_files_no_groups() {
    assert!(detect(&Vec::new(), 20, 3).is_empty());
}

#[test]
fn copies_within_one_file_count() {
    let body = "  void f() { int s = 0; for (int i = 0; i < 10; i++) { s += i * 2; } System.out.println(s); }\n";
    let src = format!("class A {{\n{}\n{}\n}}\n", body, body.replace("f()", "g()"));
    let t = toks(&src);
    let files = vec![FileTokens { path: "A.java".into(), keys: t.keys, lines: t.lines }];
    let groups = detect(&files, 10, 1);
    assert!(!groups.is_empty());
    assert!(groups[0].instances.iter().all(|i| i.file == "A.java"));
    assert!(groups[0].instances.len() >= 2);
}

fn inst(file: &str, s: u32, e: u32) -> CloneInstance {
    CloneInstance { file: file.to_string(), start_line: s, end_line: e }
}

#[test]
fn groups_inside_larger_ones_are_dropped() {
    let mut groups = vec![
        CloneGroup { instances: vec![inst("A.java", 3, 4), inst("B.java", 3, 4)], token_count: 10, line_count: 2 },
        CloneGroup { instances: vec![inst("A.java", 1, 10), inst("B.java", 1, 10)], token_count: 40, line_count: 10 },
    ];
    remove_line_subsets(&mut groups);
    assert_eq!(groups.len(), 1);
    assert_eq!(groups[0].line_count, 10);
}

#[test]
fn families_bucket_groups_by_file_set() {
    let groups = vec![
        CloneGroup { instances: vec![inst("B.java", 1, 30), inst("A.java", 1, 30)], token_count: 90, line_count: 30 },
        CloneGroup { instances: vec![inst("A.java", 40, 65), inst("B.java", 40, 65)], token_count: 80, line_count: 26 },
        CloneGroup { instances: vec![inst("A.java", 70, 75), inst("C.java", 1, 6)], token_count: 20, line_count: 6 },
    ];
    let fams = group_families(&groups);
    assert_eq!(fams.len(), 1);
    assert_eq!(fams[0].files, vec!["A.java".to_string(), "B.java".to_string()]);
    assert_eq!(fams[0].group_count, 2);
    assert_eq!(fams[0].total_lines, 56);
    assert_eq!(fams[0].suggestion, "Extract a shared module");
}

#[test]
fn reported_groups_are_ordered_sound_and_not_nested() {
    let block = r#"
class %NAME% {
  int run(int a, int b) {
    int total = 0;
    for (int i = 0; i < a; i++) {
      if (i % 2 == 0) { total += i * b; } else { total -= i; }
    }
    while (total > 100) { total = total - b; }
    return total;
  }
  int other(int c) { int s = 0; for (int j = 0; j < c; j++) { s += j; } return s; }
}
"#;
    let a = toks(&block.replace("%NAME%", "A"));
    let b = toks(&block.replace("%NAME%", "B"));
    let files = vec![
        FileTokens { path: "A.java".into(), keys: a.keys, lines: a.lines },
        FileTokens { path: "B.java".into(), keys: b.keys, lines: b.lines },
    ];
    let groups = detect(&files, 10, 1);
    assert!(!groups.is_empty());
    for g in &groups {
        assert!(g.instances.len() >= 2);
        assert!(g.token_count >= 10);
        assert!(g.line_count >= 1);
    }
    for w in groups.windows(2) {
        assert!(
            w[0].line_count > w[1].line_count
                || (w[0].line_count == w[1].line_count && w[0].token_count >= w[1].token_count)
        );
    }
    for (i, g) in groups.iter().enumerate() {
        let inside = g.instances.iter().all(|c| {
            groups[..i].iter().any(|h| {
                h.instances
                    .iter()
                    .any(|d| d.file == c.file && d.start_line <= c.start_line && c.end_line <= d.end_line)
            })
        });
        assert!(!inside);
    }
}

#[test]
fn empty_java_source_still_parses() {
    assert!(file_tokens("E.java".to_string(), "").is_some());
}
