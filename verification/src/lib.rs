//! Core logic of a local development process launcher: application
//! configuration, the commands each kind of application runs, the lifecycle of
//! a supervised process, per-application log buffers with incremental delivery
//! to frontends, and the decisions the frontends take on what the engine reports.

pub mod app_config;
pub mod text;
pub mod process_manager;
pub mod log_stream;
pub mod engine;
pub mod process_tree;
pub mod health;
pub mod frontend;
pub mod laws;
