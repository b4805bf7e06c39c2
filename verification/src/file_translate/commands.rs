//! What the file translation view asks for.

use vstd::prelude::*;

use crate::file_translate::types::{ColumnMode, HeaderMode};

verus! {

#[allow(inconsistent_fields)]
#[derive(Debug, Clone)]
pub enum FileTranslateUiCommand {
    StartFileTranslateScan(String),
    SelectFileTranslateSource(String),
    SetFileTranslateColumnMode { file: String, column: usize, mode: ColumnMode },
    SetFileTranslateHeaderMode { file: String, mode: HeaderMode },
    RunFileTranslate,
    StopFileTranslate,
}

} // verus!
