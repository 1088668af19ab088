//! Disk usage of a directory subtree: a tree of its objects whose directory
//! totals stay exact through deletions, and a navigator that walks it.

pub mod fstree;
pub mod os;
pub mod ui;
