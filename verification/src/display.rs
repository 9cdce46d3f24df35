//! What is shown to the user: labels, tallies and search results.
pub mod highlight;
pub mod labels;
pub mod report;
