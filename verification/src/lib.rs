//! Verified core of a shell-command logger: append-only, size-bounded log
//! files named by year and sequence number, and an aggregation engine that
//! turns raw log lines into ranked frequency tables.
//!
//! All filesystem access lives outside this crate; the functions here decide
//! file names, encode and decode record lines, and tally and rank records,
//! all on plain values.

pub mod args;
pub mod file;
pub mod formatter;
pub mod handler;
pub mod record;
pub mod strutil;

pub use args::Cli;
pub use file::{get_log_file_path, LOG_FILE_EXTENSION, LOG_FILE_PREFIX};
pub use record::CommandEntry;
