# reap

A code-health scanner for Maven/Java projects: complexity and large
functions, import cycles, unreachable files, unused public methods,
duplicate code and clone families, unused and undeclared Maven
dependencies, git-churn hotspots and refactoring targets, with a
`--fail-on` gate for CI.

The analyses are a library verified with Verus; the command around them
reads the disk, git and Maven and prints the report.

## Layout

- `src/` — the verified library.
  - `java/` — tree-sitter parsing into a plain syntax tree (`parse`), the
    per-file model (`model`), function metrics (`extract`), the import
    graph with its entry points and reachability (`graph`), and which files
    a scan reads (`discover`).
  - `analyze/` — complexity, large functions, cycles, unused files, unused
    exports, Maven dependency output, the per-file facts the refactoring
    targets weigh, and duplicate detection over a suffix array (`suffix`,
    `duplicates`).
  - `report_filter` — `--skip-pattern` globs (globset) and
    `--compare-against` change sets read from git's output.
  - `threshold`, `config`, `command`, `churn`, `detect`, `explain`,
    `pipeline`, `report` — the `--fail-on` gate, option parsing,
    subcommands, the integer side of churn, project detection, topic help,
    section selection and filtering, and the report's text and colours
    (owo-colors).
  - `text`, `sort`, `paths`, `types` — shared string, ordering, path and
    data definitions.
- `app/` — the `reap` command: clap options, directory walking, git and
  Maven processes, floating-point hotspot and target scores, printing.
- `tests/` — tests of the library.

## Exit codes

`0` when every `--fail-on` target passes, `1` when one trips, `2` when no
`pom.xml` is found.
