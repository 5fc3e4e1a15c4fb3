//! Process-monitor logic for Linux: parsing of the `/proc` and `/sys` text
//! files, the process table's filtering and ordering, CPU accounting between
//! two samples, and the formatting of sizes and states for display.

pub mod text;
pub mod number;
pub mod procinfo;
pub mod procfs;
pub mod format;
pub mod monitor;
