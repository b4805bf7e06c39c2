//! Dictionary file formats: the binary exact-entry index and the text rule
//! files.

pub mod bin_format;
pub mod regex_rules;
pub mod rules;
pub mod split;
