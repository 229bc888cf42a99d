//! The runtime bundle: the folder that holds the database, the category
//! codificator, its change log and the project categories; its status, its
//! creation and its zip backup.
pub mod zip;
pub mod status;
pub mod service;
pub mod backup;
