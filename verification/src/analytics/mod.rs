//! Analytics over the work logged in a date range: category and project
//! summaries, shares of the root categories, daily series, commented tasks
//! and comparison with earlier periods.
pub mod types;
pub mod labels;
pub mod rows;
pub mod tree;
pub mod roots;
pub mod projects;
pub mod daily;
pub mod labels_period;
pub mod periods;
pub mod trends;
pub mod dashboard;
