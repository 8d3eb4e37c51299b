//! Code-health analyses of Maven/Java projects: complexity, large
//! functions, import cycles, unreachable files, unused exports, duplicate
//! code, Maven dependency findings, git churn, and the report filter and
//! `--fail-on` gate around them.
pub mod text;
pub mod sort;
pub mod types;
pub mod command;
pub mod paths;
pub mod config;
pub mod detect;
pub mod explain;
pub mod threshold;
pub mod churn;
pub mod java;
pub mod analyze;
pub mod report_filter;
pub mod pipeline;
pub mod report;
