use reap::java::extract::{extract_functions, FunctionMetrics};
use reap::java::parse::parse;

fn by_name<'a>(fns: &'a [FunctionMetrics], name: &str) -> &'a FunctionMetrics {
    fns.iter().find(|f| f.name == name).expect("function not found")
}

#[test]
fn cyclomatic_counts_decision_points() {
    // if + (&& , ||) + for + while + 2 case labels + catch = 1 base + 8 = 9
    let src = r#"
class A {
  void complex(int x, int y) {
    if (x > 0 && y > 0 || x == y) {
      for (int i = 0; i < x; i++) {
        while (y > 0) { y--; }
      }
    }
    switch (x) { case 1: break; case 2: break; default: break; }
    try { } catch (Exception e) { }
  }
}
"#;
    let fns = extract_functions(src);
    let f = by_name(&fns, "complex");
    assert_eq!(f.cyclomatic, 9, "cyclomatic");
    assert_eq!(f.param_count, 2);
}

#[test]
fn cognitive_applies_nesting_penalty() {
    // if (1) -> if (2) -> if (3) = 1+2+3 = 6
    let src = r#"
class A {
  void nested(int x) {
    if (x > 0) {
      if (x > 1) {
        if (x > 2) { }
      }
    }
  }
}
"#;
    let fns = extract_functions(src);
    let f = by_name(&fns, "nested");
    assert_eq!(f.cognitive, 6, "cognitive nesting");
}

#[test]
fn line_count_and_lambda() {
    let src = "class A {\n  Runnable r = () -> {\n    System.out.println(1);\n  };\n}\n";
    let fns = extract_functions(src);
    let lambda = by_name(&fns, "<lambda>");
    assert_eq!(lambda.line_count, 3);
}

#[test]
fn dump_sexp() {
    let src = r#"
class A {
    void f(int x, String... rest) {
        if (x > 0 && x < 10) {
            for (int i = 0; i < x; i++) {
                System.out.println(i);
            }
        } else if (x < 0) {
            while (x < 0) { x++; }
        } else {
            switch (x) {
                case 1: break;
                case 2: return;
                default: break;
            }
        }
    }
    Runnable g = () -> { if (true) {} };
}
"#;
    assert!(parse(src).is_some());
}

#[test]
fn else_if_chain_and_logical_runs() {
    // if(+1) else-if(+1) else(+1), && run (+1), || after && (+1), for in else (+2 nesting)
    let src = r#"
class A {
  void g(int x, boolean a, boolean b, boolean c) {
    if (a && b || c) {
    } else if (x > 0) {
    } else {
      for (;;) { break; }
    }
  }
}
"#;
    let fns = extract_functions(src);
    let f = by_name(&fns, "g");
    assert_eq!(f.cognitive, 1 + 1 + 1 + 1 + 1 + 2);
    assert_eq!(f.param_count, 4);
    assert_eq!(f.line, 3);
    assert_eq!(f.col, 2);
    assert_eq!(f.line_count, 7);
}

#[test]
fn nested_lambda_is_its_own_function() {
    let src = "class A {\n  void outer() {\n    Runnable r = () -> { if (true) {} };\n  }\n}\n";
    let fns = extract_functions(src);
    assert_eq!(fns.len(), 2);
    let outer = by_name(&fns, "outer");
    assert_eq!(outer.cyclomatic, 1);
    assert_eq!(outer.cognitive, 0);
    let lambda = by_name(&fns, "<lambda>");
    assert_eq!(lambda.cyclomatic, 2);
    assert_eq!(lambda.param_count, 0);
}

#[test]
fn unparsable_or_empty_source_has_no_functions() {
    assert!(extract_functions("").is_empty());
}

#[test]
fn file_parser_and_extractor_agree_on_functions() {
    let src = "class A {\n  A() {}\n  public int f(int x) { return x > 0 ? 1 : 2; }\n  void g() { Runnable r = () -> {}; }\n}\n";
    let info = reap::java::model::parse_file("A.java".to_string(), src).unwrap();
    let fns = extract_functions(src);
    assert_eq!(info.functions.len(), fns.len());
    for (a, b) in info.functions.iter().zip(fns.iter()) {
        assert_eq!((&a.name, a.line, a.cyclomatic, a.cognitive), (&b.name, b.line, b.cyclomatic, b.cognitive));
    }
    let names: Vec<&str> = fns.iter().map(|f| f.name.as_str()).collect();
    assert_eq!(names, vec!["A", "f", "g", "<lambda>"]);
}
