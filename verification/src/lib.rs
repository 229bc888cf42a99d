//! Verified core of a personal time tracker: validation of user input,
//! normalisation of the category codificator, analytics over logged work,
//! runtime-bundle status and backup encoding, and the decisions of the
//! database schema upgrade.
pub mod text;
pub mod categories;
pub mod validation;
pub mod ordered_ids;
pub mod change_log;
pub mod sorting;
pub mod project_categories;
pub mod analytics;
pub mod runtime;
pub mod tasks;
pub mod projects;
pub mod category_store;
pub mod storage;
pub mod schema;
