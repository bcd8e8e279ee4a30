//! A hierarchical task tracker. Tasks live at `/`-separated paths; the store keeps
//! parents' completion consistent with their children, resolves partial names, and
//! moves or removes whole subtrees. The sync planner decides how the task snapshot
//! reference is reconciled with its remote copy.

pub mod app;
pub mod error;
pub mod git;
pub mod laws;
pub mod path;
pub mod state;
pub mod store;
pub mod terminal;
pub mod yak;
