//! Verified core of the knowledge-point recognition spike.
pub mod text;
pub mod knowledge;
pub mod escapes;
pub mod recognition;
pub mod config;
pub mod images;
pub mod report;
pub mod command;
