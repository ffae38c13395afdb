//! Structural refactoring analysis: clustering of similar functions,
//! classification and presentation of the findings.
pub mod graph;
pub mod clustering;
pub mod text;
pub mod types;
pub mod classification;
pub mod render;
pub mod ranking;
pub mod report;
