//! Translating table files: the sources found under a folder, their
//! previews, and whether a run can start.

pub mod asset_intake;
pub mod commands;
pub mod header_guess;
pub mod json_table;
pub mod preview;
pub mod runner;
pub mod state;
pub mod types;
