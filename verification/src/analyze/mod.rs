pub mod select;
pub mod suffix;
pub mod circular;
pub mod complexity;
pub mod deps;
pub mod duplicates;
pub mod large_functions;
pub mod unused_exports;
pub mod unused_files;
pub mod refactoring_targets;
