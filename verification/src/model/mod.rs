//! What the window shows, worked out from what the engine reports.

pub mod action;
pub mod detail;
pub mod dockerfile;
pub mod format;
pub mod fs_tree;
pub mod layout;
pub mod logs;
pub mod metrics;
pub mod relations;
pub mod table;
pub mod tabs;
pub mod tree;
