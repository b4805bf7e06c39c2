//! Verified text-processing core of a local-LLM game text translator:
//! prompt building, model output cleanup, number-marker transport,
//! structural tokenizing, line wrapping, dictionary slot naming and
//! configuration rules.

pub mod text;
pub mod translator;
pub mod analysis;
pub mod dictionary;
pub mod normalize;
pub mod slot;
pub mod config;
pub mod engine;
pub mod log_file;
pub mod manager;
pub mod file_translate;
pub mod server;
pub mod processor;
