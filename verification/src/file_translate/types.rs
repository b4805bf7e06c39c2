//! Sources, previews and run settings of file translation.

use vstd::prelude::*;

use std::collections::BTreeMap;

use crate::translator::zm::{ascii_digit, decimal};

verus! {

/// What a column becomes in the output: translated, copied, or left out.
#[derive(Debug, Clone, Copy, PartialEq, Eq, Structural)]
pub enum ColumnMode {
    Translate,
    Original,
    Skip,
}

impl Default for ColumnMode {
    fn default() -> (r: Self)
        ensures
            r == ColumnMode::Skip,
    {
        ColumnMode::Skip
    }
}

impl ColumnMode {
    /// The next mode in the cycle Translate, Original, None.
    pub fn next(self) -> (r: Self)
        ensures
            r == (match self {
                ColumnMode::Translate => ColumnMode::Original,
                ColumnMode::Original => ColumnMode::Skip,
                ColumnMode::Skip => ColumnMode::Translate,
            }),
    {
        match self {
            ColumnMode::Translate => ColumnMode::Original,
            ColumnMode::Original => ColumnMode::Skip,
            ColumnMode::Skip => ColumnMode::Translate,
        }
    }

    /// One letter for the mode.
    pub fn short_label(self) -> (r: &'static str)
        ensures
            r@ == (match self {
                ColumnMode::Translate => "T"@,
                ColumnMode::Original => "O"@,
                ColumnMode::Skip => "-"@,
            }),
    {
        match self {
            ColumnMode::Translate => "T",
            ColumnMode::Original => "O",
            ColumnMode::Skip => "-",
        }
    }
}

/// Whether the first row of a table holds the column names.
#[derive(Debug, Clone, Copy, PartialEq, Eq, Structural)]
pub enum HeaderMode {
    Unknown,
    Present,
    Absent,
}

impl Default for HeaderMode {
    fn default() -> (r: Self)
        ensures
            r == HeaderMode::Unknown,
    {
        HeaderMode::Unknown
    }
}

/// What a source file looks like.
#[derive(Debug, Clone, Copy, PartialEq, Eq, Structural)]
pub enum SourceKind {
    DelimitedText,
    JsonText,
    PlainLines,
    MarkupText,
    UnsupportedBinary,
    UnknownText,
}

impl Default for SourceKind {
    fn default() -> (r: Self)
        ensures
            r == SourceKind::UnknownText,
    {
        SourceKind::UnknownText
    }
}

impl SourceKind {
    /// A short tag for the kind.
    pub fn badge(self) -> (r: &'static str)
        ensures
            r@ == (match self {
                SourceKind::DelimitedText => "DELIM"@,
                SourceKind::JsonText => "JSON"@,
                SourceKind::PlainLines => "LINES"@,
                SourceKind::MarkupText => "MARKUP"@,
                SourceKind::UnsupportedBinary => "BINARY"@,
                SourceKind::UnknownText => "UNKNOWN"@,
            }),
    {
        match self {
            SourceKind::DelimitedText => "DELIM",
            SourceKind::JsonText => "JSON",
            SourceKind::PlainLines => "LINES",
            SourceKind::MarkupText => "MARKUP",
            SourceKind::UnsupportedBinary => "BINARY",
            SourceKind::UnknownText => "UNKNOWN",
        }
    }
}

/// How a source file is encoded.
#[derive(Debug, Clone, Copy, PartialEq, Eq, Structural)]
pub enum SourceEncoding {
    Utf8,
    Utf8Bom,
    Binary,
    Unknown,
}

impl Default for SourceEncoding {
    fn default() -> (r: Self)
        ensures
            r == SourceEncoding::Unknown,
    {
        SourceEncoding::Unknown
    }
}

/// How a JSON table is laid out.
#[derive(Debug, Clone, Copy, PartialEq, Eq, Structural)]
pub enum JsonTableShape {
    ArrayOfObjects,
    ArrayOfArrays,
}

/// A file found under the chosen folder.
#[derive(Debug, Clone)]
pub struct AssetSourceCandidate {
    pub path: String,
    pub kind: SourceKind,
    pub encoding: SourceEncoding,
    pub file_size: u64,
    pub diagnostic: String,
}

/// A source read as a table.
#[derive(Debug, Clone)]
pub struct TableSourceData {
    pub file: String,
    pub file_size: u64,
    pub source_kind: SourceKind,
    pub encoding: SourceEncoding,
    pub header_mode: HeaderMode,
    pub suggested_header: bool,
    pub header_row: Option<Vec<String>>,
    pub column_labels: Vec<String>,
    pub rows: Vec<Vec<String>>,
    pub total_rows: usize,
    pub delimiter: Option<char>,
    pub json_shape: Option<JsonTableShape>,
    pub json_diagnostic: Option<String>,
}

impl TableSourceData {
    /// A delimited table whose header is still undecided.
    pub open spec fn needs_header_confirmation(&self) -> bool {
        self.source_kind == SourceKind::DelimitedText && self.header_mode == HeaderMode::Unknown
    }

    pub fn requires_header_confirmation(&self) -> (r: bool)
        ensures
            r == self.needs_header_confirmation(),
    {
        self.source_kind == SourceKind::DelimitedText && self.header_mode == HeaderMode::Unknown
    }

    /// Only delimited tables let the header be switched on and off.
    pub fn supports_header_toggle(&self) -> (r: bool)
        ensures
            r == (self.source_kind == SourceKind::DelimitedText),
    {
        self.source_kind == SourceKind::DelimitedText
    }
}

/// A source shown as lines of text.
#[derive(Debug, Clone)]
pub struct TextPreview {
    pub file: String,
    pub file_size: u64,
    pub source_kind: SourceKind,
    pub encoding: SourceEncoding,
    pub lines: Vec<String>,
    pub line_count: usize,
    pub diagnostic: String,
}

/// A source that cannot be shown.
#[derive(Debug, Clone)]
pub struct BinaryPreview {
    pub file: String,
    pub file_size: u64,
    pub diagnostic: String,
}

#[derive(Debug, Clone)]
pub enum SourcePreview {
    Table(TableSourceData),
    Text(TextPreview),
    Binary(BinaryPreview),
}

impl SourcePreview {
    pub fn path(&self) -> (r: &String)
        ensures
            r == (match self {
                SourcePreview::Table(p) => &p.file,
                SourcePreview::Text(p) => &p.file,
                SourcePreview::Binary(p) => &p.file,
            }),
    {
        match self {
            SourcePreview::Table(p) => &p.file,
            SourcePreview::Text(p) => &p.file,
            SourcePreview::Binary(p) => &p.file,
        }
    }

    pub fn kind(&self) -> (r: SourceKind)
        ensures
            r == (match self {
                SourcePreview::Table(p) => p.source_kind,
                SourcePreview::Text(p) => p.source_kind,
                SourcePreview::Binary(_) => SourceKind::UnsupportedBinary,
            }),
    {
        match self {
            SourcePreview::Table(p) => p.source_kind,
            SourcePreview::Text(p) => p.source_kind,
            SourcePreview::Binary(_) => SourceKind::UnsupportedBinary,
        }
    }

    pub fn encoding(&self) -> (r: SourceEncoding)
        ensures
            r == (match self {
                SourcePreview::Table(p) => p.encoding,
                SourcePreview::Text(p) => p.encoding,
                SourcePreview::Binary(_) => SourceEncoding::Binary,
            }),
    {
        match self {
            SourcePreview::Table(p) => p.encoding,
            SourcePreview::Text(p) => p.encoding,
            SourcePreview::Binary(_) => SourceEncoding::Binary,
        }
    }

    pub fn file_size(&self) -> (r: u64)
        ensures
            r == (match self {
                SourcePreview::Table(p) => p.file_size,
                SourcePreview::Text(p) => p.file_size,
                SourcePreview::Binary(p) => p.file_size,
            }),
    {
        match self {
            SourcePreview::Table(p) => p.file_size,
            SourcePreview::Text(p) => p.file_size,
            SourcePreview::Binary(p) => p.file_size,
        }
    }

    pub fn as_table(&self) -> (r: Option<&TableSourceData>)
        ensures
            r == (match self {
                SourcePreview::Table(p) => Some(p),
                _ => None::<&TableSourceData>,
            }),
    {
        match self {
            SourcePreview::Table(p) => Some(p),
            SourcePreview::Text(_) | SourcePreview::Binary(_) => None,
        }
    }
}

#[derive(Debug, Clone)]
pub enum PreviewState {
    Empty,
    Error(String),
    Ready(SourcePreview),
}

impl Default for PreviewState {
    fn default() -> (r: Self)
        ensures
            r is Empty,
    {
        PreviewState::Empty
    }
}

/// Why a source could not be read.
#[derive(Debug, Clone)]
pub enum IntakeError {
    TooLarge { bytes: u64, limit: u64 },
    Io(String),
    EncodingMismatch,
    EmptyFile,
    Delimited(String),
}

fn push_decimal_u64(s: &mut String, n: u64)
    ensures
        final(s)@ == old(s)@ + decimal(n as nat),
    decreases n,
{
    if n >= 10 {
        push_decimal_u64(s, n / 10);
    }
    crate::text::push_char(s, ascii_digit((n % 10) as u32));
    assert(final(s)@ =~= old(s)@ + decimal(n as nat));
}

pub open spec fn intake_message(e: IntakeError) -> Seq<char> {
    match e {
        IntakeError::TooLarge { bytes, limit } => "file too large: "@ + decimal(bytes as nat) + " bytes > "@
            + decimal(limit as nat) + " bytes"@,
        IntakeError::Io(err) => "file read failed: "@ + err@,
        IntakeError::EncodingMismatch => "encoding mismatch: only UTF-8 / UTF-8 BOM"@,
        IntakeError::EmptyFile => "source is empty"@,
        IntakeError::Delimited(reason) => "DelimitedText preview unavailable: "@ + reason@,
    }
}

impl IntakeError {
    /// The message shown for the error.
    pub fn message(&self) -> (r: String)
        ensures
            r@ == intake_message(*self),
    {
        match self {
            IntakeError::TooLarge { bytes, limit } => {
                let mut s = "file too large: ".to_string();
                push_decimal_u64(&mut s, *bytes);
                s.append(" bytes > ");
                push_decimal_u64(&mut s, *limit);
                s.append(" bytes");
                s
            },
            IntakeError::Io(err) => {
                let mut s = "file read failed: ".to_string();
                s.append(err.as_str());
                s
            },
            IntakeError::EncodingMismatch => "encoding mismatch: only UTF-8 / UTF-8 BOM".to_string(),
            IntakeError::EmptyFile => "source is empty".to_string(),
            IntakeError::Delimited(reason) => {
                let mut s = "DelimitedText preview unavailable: ".to_string();
                s.append(reason.as_str());
                s
            },
        }
    }
}

/// What a run needs besides its cancel flag and event channel: the table,
/// the output directory, the column modes and how to reach the server.
#[derive(Debug, Clone)]
pub struct FileTranslateRunConfig {
    pub source: TableSourceData,
    pub dict_slot: String,
    pub column_modes: BTreeMap<usize, ColumnMode>,
    pub ui_lang: String,
    pub server_host: String,
    pub server_port: u16,
    pub chunk_size: usize,
    pub request_timeout_secs: u64,
}


pub open spec fn strs_view(v: Seq<String>) -> Seq<Seq<char>> {
    v.map_values(|x: String| x@)
}

pub open spec fn rows_view(v: Seq<Vec<String>>) -> Seq<Seq<Seq<char>>> {
    v.map_values(|r: Vec<String>| strs_view(r@))
}

pub open spec fn opt_strs_view(v: Option<Vec<String>>) -> Option<Seq<Seq<char>>> {
    match v {
        Some(x) => Some(strs_view(x@)),
        None => None,
    }
}

pub open spec fn opt_str_view(v: Option<String>) -> Option<Seq<char>> {
    match v {
        Some(x) => Some(x@),
        None => None,
    }
}

/// The mathematical value of a table.
pub struct TableView {
    pub file: Seq<char>,
    pub file_size: u64,
    pub source_kind: SourceKind,
    pub encoding: SourceEncoding,
    pub header_mode: HeaderMode,
    pub suggested_header: bool,
    pub header_row: Option<Seq<Seq<char>>>,
    pub column_labels: Seq<Seq<char>>,
    pub rows: Seq<Seq<Seq<char>>>,
    pub total_rows: usize,
    pub delimiter: Option<char>,
    pub json_shape: Option<JsonTableShape>,
    pub json_diagnostic: Option<Seq<char>>,
}

impl View for TableSourceData {
    type V = TableView;

    open spec fn view(&self) -> TableView {
        TableView {
            file: self.file@,
            file_size: self.file_size,
            source_kind: self.source_kind,
            encoding: self.encoding,
            header_mode: self.header_mode,
            suggested_header: self.suggested_header,
            header_row: opt_strs_view(self.header_row),
            column_labels: strs_view(self.column_labels@),
            rows: rows_view(self.rows@),
            total_rows: self.total_rows,
            delimiter: self.delimiter,
            json_shape: self.json_shape,
            json_diagnostic: opt_str_view(self.json_diagnostic),
        }
    }
}

/// A copy of a list of strings.
pub fn clone_strings(v: &Vec<String>) -> (r: Vec<String>)
    ensures
        strs_view(r@) == strs_view(v@),
{
    let mut out: Vec<String> = Vec::new();
    let mut i: usize = 0;
    while i < v.len()
        invariant
            i <= v@.len(),
            strs_view(out@) == strs_view(v@).take(i as int),
        decreases v.len() - i,
    {
        let ghost before = out@;
        let c = v[i].clone();
        out.push(c);
        assert(out@ == before.push(c));
        assert(strs_view(out@) =~= strs_view(before).push(c@));
        assert(strs_view(v@).take(i as int + 1) =~= strs_view(v@).take(i as int).push(v@[i as int]@));
        i += 1;
    }
    assert(strs_view(v@).take(v@.len() as int) =~= strs_view(v@));
    out
}

/// A copy of a list of rows.
pub fn clone_rows(v: &Vec<Vec<String>>) -> (r: Vec<Vec<String>>)
    ensures
        rows_view(r@) == rows_view(v@),
{
    let mut out: Vec<Vec<String>> = Vec::new();
    let mut i: usize = 0;
    while i < v.len()
        invariant
            i <= v@.len(),
            rows_view(out@) == rows_view(v@).take(i as int),
        decreases v.len() - i,
    {
        let ghost before = out@;
        let c = clone_strings(&v[i]);
        out.push(c);
        assert(out@ == before.push(c));
        assert(rows_view(out@) =~= rows_view(before).push(strs_view(c@)));
        assert(rows_view(v@).take(i as int + 1) =~= rows_view(v@).take(i as int).push(strs_view(v@[i as int]@)));
        i += 1;
    }
    assert(rows_view(v@).take(v@.len() as int) =~= rows_view(v@));
    out
}

/// A copy of a table.
pub fn clone_table(t: &TableSourceData) -> (r: TableSourceData)
    ensures
        r@ == t@,
{
    let header_row = match &t.header_row {
        Some(h) => Some(clone_strings(h)),
        None => None,
    };
    let json_diagnostic = match &t.json_diagnostic {
        Some(d) => Some(d.clone()),
        None => None,
    };
    TableSourceData {
        file: t.file.clone(),
        file_size: t.file_size,
        source_kind: t.source_kind,
        encoding: t.encoding,
        header_mode: t.header_mode,
        suggested_header: t.suggested_header,
        header_row,
        column_labels: clone_strings(&t.column_labels),
        rows: clone_rows(&t.rows),
        total_rows: t.total_rows,
        delimiter: t.delimiter,
        json_shape: t.json_shape,
        json_diagnostic,
    }
}

} // verus!
