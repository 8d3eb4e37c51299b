use reap::analyze::circular;
use reap::analyze::refactoring_targets::target_inputs;
use reap::analyze::unused_files;
use reap::types::{CircularDependency, UnusedExport};
use reap::java::graph::ModuleGraph;
use reap::java::model::{parse_file, FileInfo};

fn file(path: &str, source: &str) -> FileInfo {
    parse_file(path.to_string(), source).expect("parses")
}

fn project() -> ModuleGraph {
    ModuleGraph::build(
        vec![
        file(
            "/proj/src/p/Main.java",
            "package p;\npublic class Main {\n  public static void main(String[] a) { new Helper(); }\n}\n",
        ),
        file("/proj/src/p/Helper.java", "package p;\nclass Helper {\n  Util u;\n}\n"),
        file("/proj/src/p/Util.java", "package p;\nclass Util {}\n"),
        file("/proj/src/q/Orphan.java", "package q;\nclass Orphan {}\n"),
        file("/proj/src/q/package-info.java", "package q;\n"),
    ], Vec::new())
}

#[test]
fn entry_points_reach_their_dependencies() {
    let g = project();
    assert!(g.is_root[0]);
    assert!(!g.is_root[1]);
    assert_eq!(g.reachable, vec![true, true, true, false, false]);
}

#[test]
fn fan_in_and_fan_out_count_dependencies() {
    let g = project();
    assert_eq!(g.fan_out(0), 1);
    assert_eq!(g.fan_in(1), 1);
    assert_eq!(g.fan_in(2), 1);
    assert_eq!(g.fan_in(0), 0);
    assert_eq!(g.fan_in(3), 0);
}

#[test]
fn unreached_files_are_unused_but_descriptors_are_not() {
    let g = project();
    let unused = unused_files::collect(&g, "/proj");
    let paths: Vec<&str> = unused.iter().map(|u| u.path.as_str()).collect();
    assert_eq!(paths, vec!["src/q/Orphan.java"]);
}

#[test]
fn mutual_imports_form_one_cycle() {
    let g = ModuleGraph::build(
        vec![
        file("/proj/src/p/B.java", "package p;\npublic class B {\n  A a;\n}\n"),
        file("/proj/src/q/A.java", "package q;\nimport p.B;\npublic class A {\n  B b;\n}\n"),
        file("/proj/src/p/C.java", "package p;\npublic class C {}\n"),
    ], Vec::new());
    let cycles = circular::collect(&g, "/proj");
    assert_eq!(cycles.len(), 0, "B cannot see q.A without an import");

    let g = ModuleGraph::build(
        vec![
        file("/proj/src/p/B.java", "package p;\nimport q.A;\npublic class B {\n  A a;\n}\n"),
        file("/proj/src/q/A.java", "package q;\nimport p.B;\npublic class A {\n  B b;\n}\n"),
        file("/proj/src/p/C.java", "package p;\npublic class C {}\n"),
    ], Vec::new());
    let cycles = circular::collect(&g, "/proj");
    assert_eq!(cycles.len(), 1);
    assert_eq!(cycles[0].files, vec!["src/p/B.java".to_string(), "src/q/A.java".to_string()]);
    assert!(cycles[0].cross_package);
}

#[test]
fn target_inputs_gather_each_files_facts() {
    let g = project();
    let cycles = vec![CircularDependency {
        files: vec!["src/p/Helper.java".to_string(), "src/p/Util.java".to_string()],
        cross_package: false,
    }];
    let unused = vec![
        UnusedExport { path: "src/p/Main.java".to_string(), name: "a".to_string(), line: 1 },
        UnusedExport { path: "src/p/Main.java".to_string(), name: "b".to_string(), line: 2 },
        UnusedExport { path: "src/p/Util.java".to_string(), name: "c".to_string(), line: 1 },
    ];
    let t = target_inputs(&g, &cycles, &unused, "/proj");
    assert_eq!(t.len(), 5);
    assert_eq!(t[0].rel, "src/p/Main.java");
    assert_eq!((t[0].fan_in, t[0].fan_out), (0, 1));
    assert_eq!(t[0].function_count, 1);
    assert_eq!(t[0].total_cyclomatic, 1);
    assert_eq!(t[0].unused_exports, 2);
    assert!(t[0].is_root && !t[0].is_circular);
    assert_eq!(t[0].lines, 5);
    assert!(t[1].is_circular && t[2].is_circular && !t[3].is_circular);
    assert_eq!(t[2].unused_exports, 1);
    assert_eq!(t[2].max_cognitive, 0);
    assert_eq!(t[3].function_count, 0);
}

#[test]
fn registered_service_providers_are_entry_points() {
    let g = ModuleGraph::build(
        vec![
            file("/proj/src/p/Main.java", "package p;\npublic class Main {\n  public static void main(String[] a) {}\n}\n"),
            file("/proj/src/p/Plugin.java", "package p;\npublic class Plugin {\n  Util u;\n}\n"),
            file("/proj/src/p/Util.java", "package p;\nclass Util {}\n"),
        ],
        reap::java::discover::service_providers("# providers\np.Plugin  # the plugin\n\n"),
    );
    assert_eq!(g.is_root, vec![true, true, false]);
    assert_eq!(g.reachable, vec![true, true, true]);
    assert!(unused_files::collect(&g, "/proj").is_empty());
}

#[test]
fn service_files_list_providers() {
    assert!(reap::java::discover::is_service_file("/p/src/main/resources/META-INF/services/a.B"));
    assert!(!reap::java::discover::is_service_file("/p/src/main/java/a/B.java"));
    assert_eq!(
        reap::java::discover::service_providers("a.Impl\r\n  b.Other # note\n#only a comment\n   \n"),
        vec!["a.Impl".to_string(), "b.Other".to_string()]
    );
}

#[test]
fn fan_in_and_fan_out_sums_agree() {
    let g = project();
    let n = g.files.len();
    let outs: usize = (0..n).map(|i| g.fan_out(i)).sum();
    let ins: usize = (0..n).map(|i| g.fan_in(i)).sum();
    assert_eq!(outs, ins);
    assert_eq!(outs, 2);
    assert!((0..n).all(|i| g.fan_out(i) <= n - 1));
}
