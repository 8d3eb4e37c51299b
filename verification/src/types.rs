//! The findings that the analyses report.
use vstd::prelude::*;

verus! {

#[derive(Debug, Clone, Copy, PartialEq, Eq, Structural)]
pub enum Severity {
    Critical,
    High,
    Medium,
    Low,
}

#[derive(Debug, Clone, Copy, PartialEq, Eq, Structural)]
pub enum Source {
    Pmd,
    Spotbugs,
}

#[derive(Debug)]
pub struct Finding {
    pub file: String,
    pub line: String,
    pub rule: String,
    pub ruleset: String,
    pub severity: Severity,
    pub message: String,
    pub source: Source,
}

#[derive(Debug, Clone, Copy, PartialEq, Eq, Structural)]
pub enum Trend {
    Stable,
    Accelerating,
    Cooling,
}

#[derive(Debug)]
pub struct CircularDependency {
    pub files: Vec<String>,
    pub cross_package: bool,
}

#[derive(Debug)]
pub struct UnusedFile {
    pub path: String,
}

#[derive(Debug)]
pub struct UnusedExport {
    pub path: String,
    pub name: String,
    pub line: u32,
}

#[derive(Debug)]
pub struct CloneInstance {
    pub file: String,
    pub start_line: u32,
    pub end_line: u32,
}

#[derive(Debug)]
pub struct CloneGroup {
    pub instances: Vec<CloneInstance>,
    pub token_count: usize,
    pub line_count: u32,
}

#[derive(Debug)]
pub struct CloneFamily {
    pub files: Vec<String>,
    pub group_count: usize,
    pub total_lines: u32,
    pub suggestion: String,
}

#[derive(Debug, Clone, Copy, PartialEq, Eq, Structural)]
pub enum Exceeded {
    Cyclomatic,
    Cognitive,
    Both,
}

#[derive(Debug)]
pub struct ComplexityViolation {
    pub path: String,
    pub name: String,
    pub line: u32,
    pub cyclomatic: u16,
    pub cognitive: u16,
    pub line_count: u32,
    pub exceeded: Exceeded,
    pub severity: Severity,
}

#[derive(Debug)]
pub struct LargeFunction {
    pub path: String,
    pub name: String,
    pub line: u32,
    pub line_count: u32,
}

#[derive(Debug, Clone, Copy, PartialEq, Eq, Structural)]
pub enum Subcommand {
    All,
    Hotspots,
    DeadCode,
    Complexity,
    Bugs,
    Circular,
    UnusedFiles,
    Deps,
    Duplicates,
    UnusedExports,
    Targets,
}

/// A clone instance with its file as characters.
pub struct CloneInstanceView {
    pub file: Seq<char>,
    pub start_line: u32,
    pub end_line: u32,
}

impl View for CloneInstance {
    type V = CloneInstanceView;

    open spec fn view(&self) -> CloneInstanceView {
        CloneInstanceView { file: self.file@, start_line: self.start_line, end_line: self.end_line }
    }
}

/// A clone group with its instances viewed.
pub struct CloneGroupView {
    pub instances: Seq<CloneInstanceView>,
    pub token_count: usize,
    pub line_count: u32,
}

impl View for CloneGroup {
    type V = CloneGroupView;

    open spec fn view(&self) -> CloneGroupView {
        CloneGroupView {
            instances: self.instances@.map_values(|i: CloneInstance| i@),
            token_count: self.token_count,
            line_count: self.line_count,
        }
    }
}

} // verus!
