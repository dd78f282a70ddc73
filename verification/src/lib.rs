//! Process-tree browsing and filtering logic for an interactive process killer.

pub mod text;
pub mod procs;
pub mod tree;
pub mod filter;
pub mod app;
pub mod ps;
pub mod ui;
pub mod cpu;
pub mod subtree;
pub mod laws;
