use reap::analyze::deps::parse;

#[test]
fn parses_maven_output() {
    let sample = "\
[INFO] --- maven-dependency-plugin:3.6.0:analyze ---
[WARNING] Used undeclared dependencies found:
[WARNING]    com.google.guava:guava:jar:31.1-jre:compile
[WARNING] Unused declared dependencies found:
[WARNING]    org.apache.commons:commons-lang3:jar:3.12.0:compile
[WARNING]    org.projectlombok:lombok:jar:1.18.30:provided
[INFO] BUILD SUCCESS
";
    let r = parse(sample);
    assert_eq!(r.undeclared, vec!["com.google.guava:guava"]);
    assert_eq!(
        r.unused,
        vec!["org.apache.commons:commons-lang3", "org.projectlombok:lombok"]
    );
}

#[test]
fn repeated_coordinates_are_listed_once() {
    let sample = "\
[WARNING] Unused declared dependencies found:
[WARNING]    a.b:c:jar:1:compile
[WARNING]    a.b:c:jar:2:test
";
    let r = parse(sample);
    assert_eq!(r.unused, vec!["a.b:c"]);
    assert!(r.undeclared.is_empty());
}

#[test]
fn other_line_ends_the_list() {
    let sample = "\
[WARNING] Unused declared dependencies found:
[WARNING]    a.b:c:jar:1:compile
[INFO] something else
[WARNING]    d.e:f:jar:1:compile
";
    let r = parse(sample);
    assert_eq!(r.unused, vec!["a.b:c"]);
}

#[test]
fn short_coordinates_are_not_dependencies() {
    let sample = "[WARNING] Used undeclared dependencies found:\r\n[WARNING]    a:b:c\r\n";
    let r = parse(sample);
    assert!(r.undeclared.is_empty());
    assert!(r.unused.is_empty());
}
