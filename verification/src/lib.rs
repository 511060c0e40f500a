//! Edit scheduling for the files of a Git repository.

pub mod anchor;
pub mod day;
pub mod entry;
pub mod fixture;
pub mod git;
pub mod params;
pub mod report;
pub mod pathmap;
pub mod schedule;
pub mod span;
pub mod text;
