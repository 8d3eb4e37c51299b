pub mod parse;
pub mod tree_query;
pub mod extract;
pub mod model;
pub mod graph;
pub mod discover;
