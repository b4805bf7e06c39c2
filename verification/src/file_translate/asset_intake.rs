//! Reading sources as tables: the size limit, column labels, and the
//! header decision for delimited tables.

use vstd::prelude::*;

use crate::file_translate::header_guess::{header_guess, infer_header_row};
use crate::file_translate::json_table::{
    json_parsed, json_table_spec, normalize_json_table, parse_json_value, parsed_view, JsonValue,
};
use crate::file_translate::types::{
    clone_strings, opt_str_view, rows_view, strs_view, AssetSourceCandidate, BinaryPreview,
    HeaderMode, IntakeError, SourceEncoding, SourceKind, SourcePreview, TableSourceData, TableView,
    TextPreview,
};
use crate::text::{chars_of, is_whitespace, lines_of, lstrip, push_char, string_of, text_lines, trim, trim_chars};
use crate::translator::zm::{decimal, decimal_string};

verus! {

/// The largest source read, in bytes (50 MiB).
pub const MAX_SOURCE_BYTES: u64 = 52428800;

pub fn max_source_bytes() -> (r: u64)
    ensures
        r == MAX_SOURCE_BYTES,
{
    MAX_SOURCE_BYTES
}

/// The label of column `i` when the table has no name for it.
pub open spec fn default_label(i: int) -> Seq<char> {
    "col "@ + decimal((i + 1) as nat)
}

/// The label of column `i`: its header cell, trimmed, where the header has
/// a non-blank cell there; else `col {i + 1}`.
pub open spec fn column_label(header: Option<Seq<Seq<char>>>, i: int) -> Seq<char> {
    match header {
        Some(h) => if i < h.len() && trim(h[i]).len() > 0 {
            trim(h[i])
        } else {
            default_label(i)
        },
        None => default_label(i),
    }
}

pub open spec fn column_labels_spec(header: Option<Seq<Seq<char>>>, max_columns: int) -> Seq<Seq<char>> {
    Seq::new(max_columns as nat, |i: int| column_label(header, i))
}

fn default_label_string(i: usize) -> (r: String)
    requires
        i < usize::MAX,
    ensures
        r@ == default_label(i as int),
{
    let mut s = "col ".to_string();
    let n = decimal_string(i + 1);
    s.append(n.as_str());
    s
}

/// The labels of `max_columns` columns.
pub fn build_column_labels(header_row: Option<&Vec<String>>, max_columns: usize) -> (r: Vec<String>)
    ensures
        strs_view(r@) == column_labels_spec(
            match header_row {
                Some(h) => Some(strs_view(h@)),
                None => None,
            },
            max_columns as int,
        ),
{
    let ghost hv: Option<Seq<Seq<char>>> = match header_row {
        Some(h) => Some(strs_view(h@)),
        None => None,
    };
    let mut out: Vec<String> = Vec::new();
    let mut i: usize = 0;
    while i < max_columns
        invariant
            i <= max_columns,
            hv == (match header_row {
                Some(h) => Some(strs_view(h@)),
                None => None::<Seq<Seq<char>>>,
            }),
            strs_view(out@) == column_labels_spec(hv, max_columns as int).take(i as int),
        decreases max_columns - i,
    {
        let label = match header_row {
            Some(h) => {
                if i < h.len() {
                    let t = trim_chars(&chars_of(h[i].as_str()));
                    if t.len() > 0 {
                        string_of(&t)
                    } else {
                        default_label_string(i)
                    }
                } else {
                    default_label_string(i)
                }
            },
            None => default_label_string(i),
        };
        assert(label@ == column_label(hv, i as int));
        let ghost before = strs_view(out@);
        out.push(label);
        assert(strs_view(out@) =~= before.push(label@));
        assert(strs_view(out@) =~= column_labels_spec(hv, max_columns as int).take(i as int + 1));
        i += 1;
    }
    assert(column_labels_spec(hv, max_columns as int).take(max_columns as int) =~= column_labels_spec(
        hv,
        max_columns as int,
    ));
    out
}

/// The most cells in a row, or `fallback` for a table without rows.
pub open spec fn max_row_len(rows: Seq<Seq<Seq<char>>>, fallback: int) -> int
    decreases rows.len(),
{
    if rows.len() == 0 {
        fallback
    } else if rows.len() == 1 {
        rows[0].len() as int
    } else {
        let m = max_row_len(rows.drop_last(), fallback);
        if rows.last().len() > m {
            rows.last().len() as int
        } else {
            m
        }
    }
}

/// A delimited table loaded with its header undecided, after the header
/// is decided: `Present` moves the first row into the header and names
/// the columns by it; `Absent` keeps every row as data under `col N`
/// labels. Other tables, tables whose header was decided, an undecided
/// mode, and `Present` on a table without rows leave it as it is.
pub open spec fn header_applied(t: TableView, mode: HeaderMode) -> TableView {
    let max_columns = max_row_len(t.rows, t.column_labels.len() as int);
    if t.source_kind != SourceKind::DelimitedText || t.header_mode != HeaderMode::Unknown
        || mode == HeaderMode::Unknown {
        t
    } else if mode == HeaderMode::Present {
        if t.rows.len() == 0 {
            t
        } else {
            TableView {
                header_row: Some(t.rows[0]),
                column_labels: column_labels_spec(Some(t.rows[0]), max_columns),
                rows: t.rows.skip(1),
                header_mode: HeaderMode::Present,
                total_rows: (t.rows.len() - 1) as usize,
                ..t
            }
        }
    } else {
        TableView {
            header_row: None,
            column_labels: column_labels_spec(None, max_columns),
            header_mode: HeaderMode::Absent,
            total_rows: t.rows.len() as usize,
            ..t
        }
    }
}

fn max_columns_of(t: &TableSourceData) -> (r: usize)
    ensures
        r == max_row_len(rows_view(t.rows@), t.column_labels@.len() as int),
{
    let ghost rv = rows_view(t.rows@);
    if t.rows.len() == 0 {
        return t.column_labels.len();
    }
    let mut m: usize = t.rows[0].len();
    let mut i: usize = 1;
    assert(rv.take(1).drop_last() =~= Seq::<Seq<Seq<char>>>::empty());
    assert(max_row_len(rv.take(1), t.column_labels@.len() as int) == rv[0].len());
    while i < t.rows.len()
        invariant
            1 <= i <= t.rows@.len(),
            rv == rows_view(t.rows@),
            m == max_row_len(rv.take(i as int), t.column_labels@.len() as int),
        decreases t.rows.len() - i,
    {
        assert(rv.take(i as int + 1).drop_last() =~= rv.take(i as int));
        assert(rv[i as int].len() == t.rows@[i as int]@.len());
        if t.rows[i].len() > m {
            m = t.rows[i].len();
        }
        i += 1;
    }
    assert(rv.take(t.rows.len() as int) =~= rv);
    m
}

/// Applies a header decision to a table loaded with its header undecided.
pub fn apply_delimited_header_mode_from_unknown(table: TableSourceData, mode: HeaderMode) -> (r: TableSourceData)
    ensures
        r@ == header_applied(table@, mode),
{
    let mut table = table;
    if table.source_kind != SourceKind::DelimitedText || table.header_mode != HeaderMode::Unknown {
        return table;
    }
    if mode == HeaderMode::Unknown {
        return table;
    }
    let max_columns = max_columns_of(&table);
    let ghost t0 = table@;
    match mode {
        HeaderMode::Present => {
            if table.rows.len() == 0 {
                return table;
            }
            let header_row = table.rows.remove(0);
            assert(rows_view(table.rows@) =~= t0.rows.skip(1));
            table.column_labels = build_column_labels(Some(&header_row), max_columns);
            table.header_row = Some(header_row);
            table.header_mode = HeaderMode::Present;
            table.total_rows = table.rows.len();
        },
        HeaderMode::Absent => {
            table.column_labels = build_column_labels(None, max_columns);
            table.header_row = None;
            table.header_mode = HeaderMode::Absent;
            table.total_rows = table.rows.len();
        },
        HeaderMode::Unknown => {},
    }
    table
}

/// The diagnostic shown for a source of the given kind.
pub open spec fn kind_diagnostic_spec(kind: SourceKind) -> Seq<char> {
    match kind {
        SourceKind::PlainLines => "plain text lines"@,
        SourceKind::MarkupText => "markup-like text"@,
        SourceKind::UnknownText => "text decoded but kind is unknown"@,
        SourceKind::DelimitedText => "delimiter-stable table text"@,
        SourceKind::JsonText => "JSON-like text"@,
        SourceKind::UnsupportedBinary => "binary-like source"@,
    }
}

/// The diagnostic shown for a source of the given kind.
pub fn kind_diagnostic(kind: SourceKind) -> (r: &'static str)
    ensures
        r@ == kind_diagnostic_spec(kind),
{
    match kind {
        SourceKind::PlainLines => "plain text lines",
        SourceKind::MarkupText => "markup-like text",
        SourceKind::UnknownText => "text decoded but kind is unknown",
        SourceKind::DelimitedText => "delimiter-stable table text",
        SourceKind::JsonText => "JSON-like text",
        SourceKind::UnsupportedBinary => "binary-like source",
    }
}


// ---------------------------------------------------------------------------
// Delimited text
// ---------------------------------------------------------------------------

/// The records that the csv crate reads from `text` with `delimiter`, no
/// header row and records of any length, up to the first error; and that
/// error's message, where reading stopped at one.
pub uninterp spec fn csv_read(text: Seq<char>, delimiter: u8) -> (Seq<Seq<Seq<char>>>, Option<Seq<char>>);

/// Reads `text` with a `csv::ReaderBuilder` set to the delimiter,
/// `has_headers(false)` and `flexible(true)`: the first `limit` records
/// (all of them without a limit), and the message of an error met among
/// those. The records and the error are named by `csv_read`.
#[verifier::external_body]
fn read_csv_records(text: &str, delimiter: u8, limit: Option<usize>) -> (r: (Vec<Vec<String>>, Option<String>))
    ensures
        rows_view(r.0@) == (if limit is None || csv_read(text@, delimiter).0.len() < limit->0 {
            csv_read(text@, delimiter).0
        } else {
            csv_read(text@, delimiter).0.take(limit->0 as int)
        }),
        opt_str_view(r.1) == (if limit is None || csv_read(text@, delimiter).0.len() < limit->0 {
            csv_read(text@, delimiter).1
        } else {
            None
        }),
{
    let mut reader = csv::ReaderBuilder::new().delimiter(delimiter).has_headers(false).flexible(
        true,
    ).from_reader(text.as_bytes());
    let mut rows = Vec::new();
    for record in reader.records().take(limit.unwrap_or(usize::MAX)) {
        match record {
            Ok(record) => rows.push(record.iter().map(|cell| cell.to_string()).collect()),
            Err(e) => return (rows, Some(e.to_string())),
        }
    }
    (rows, None)
}

/// Every cell of the record is blank.
pub open spec fn blank_record(r: Seq<Seq<char>>) -> bool {
    forall|i: int| 0 <= i < r.len() ==> trim(#[trigger] r[i]).len() == 0
}

/// The records that are not blank, in order.
pub open spec fn kept_records(recs: Seq<Seq<Seq<char>>>) -> Seq<Seq<Seq<char>>>
    decreases recs.len(),
{
    if recs.len() == 0 {
        recs
    } else if blank_record(recs.last()) {
        kept_records(recs.drop_last())
    } else {
        kept_records(recs.drop_last()).push(recs.last())
    }
}

pub proof fn lemma_kept_len(recs: Seq<Seq<Seq<char>>>)
    ensures
        kept_records(recs).len() <= recs.len(),
    decreases recs.len(),
{
    if recs.len() > 0 {
        lemma_kept_len(recs.drop_last());
    }
}

fn is_blank_record(r: &Vec<String>) -> (b: bool)
    ensures
        b == blank_record(strs_view(r@)),
{
    let mut i: usize = 0;
    while i < r.len()
        invariant
            i <= r@.len(),
            forall|j: int| 0 <= j < i ==> trim(#[trigger] strs_view(r@)[j]).len() == 0,
        decreases r.len() - i,
    {
        if trim_chars(&chars_of(r[i].as_str())).len() != 0 {
            assert(trim(strs_view(r@)[i as int]).len() != 0);
            return false;
        }
        i += 1;
    }
    true
}

/// The records without the blank ones.
fn keep_records(recs: Vec<Vec<String>>) -> (r: Vec<Vec<String>>)
    ensures
        rows_view(r@) == kept_records(rows_view(recs@)),
{
    let ghost rv = rows_view(recs@);
    let mut out: Vec<Vec<String>> = Vec::new();
    let mut recs = recs;
    let mut i: usize = 0;
    let n = recs.len();
    let mut rest: Vec<Vec<String>> = Vec::new();
    while i < n
        invariant
            i <= n == rv.len(),
            rows_view(recs@) == rv,
            rows_view(out@) == kept_records(rv.take(i as int)),
        decreases n - i,
    {
        assert(rv.take(i as int + 1).drop_last() =~= rv.take(i as int));
        assert(rv.take(i as int + 1).last() == rv[i as int]);
        if !is_blank_record(&recs[i]) {
            let ghost before = rows_view(out@);
            out.push(clone_strings(&recs[i]));
            assert(rows_view(out@) =~= before.push(rv[i as int]));
        }
        i += 1;
    }
    assert(rv.take(n as int) =~= rv);
    out
}

/// The shape found for one delimiter: the delimiter, the cell count of
/// every sampled record, and how many records were sampled.
#[derive(Debug, Clone, Copy, PartialEq, Eq)]
pub struct DelimitedSniff {
    pub delimiter: char,
    pub column_count: usize,
    pub row_count: usize,
}

/// The records looked at for one delimiter: the non-blank ones among the
/// first eight; none where an error comes among those eight.
pub open spec fn sampled_rows(text: Seq<char>, d: u8) -> Option<Seq<Seq<Seq<char>>>> {
    let (recs, err) = csv_read(text, d);
    if recs.len() < 8 && err is Some {
        None
    } else {
        Some(kept_records(if recs.len() < 8 { recs } else { recs.take(8) }))
    }
}

/// Two records or more, of one cell count of at least one.
pub open spec fn stable_shape(rows: Seq<Seq<Seq<char>>>) -> bool {
    &&& rows.len() >= 2
    &&& rows[0].len() >= 1
    &&& forall|i: int| 0 <= i < rows.len() ==> (#[trigger] rows[i]).len() == rows[0].len()
}

/// The best shape after trying delimiter `d`: its shape, where it is stable
/// and covers more cells than the best so far.
pub open spec fn sniff_step(best: Option<DelimitedSniff>, text: Seq<char>, d: u8) -> Option<DelimitedSniff> {
    match sampled_rows(text, d) {
        Some(rows) => if stable_shape(rows) {
            let cand = DelimitedSniff {
                delimiter: d as char,
                column_count: rows[0].len() as usize,
                row_count: rows.len() as usize,
            };
            match best {
                None => Some(cand),
                Some(b) => if cand.column_count * cand.row_count > b.column_count * b.row_count {
                    Some(cand)
                } else {
                    best
                },
            }
        } else {
            best
        },
        None => best,
    }
}

/// The delimiters tried, in order: comma, tab, semicolon, bar.
pub open spec fn delimiters() -> Seq<u8> {
    seq![44u8, 9u8, 59u8, 124u8]
}

pub open spec fn sniff_upto(text: Seq<char>, k: int) -> Option<DelimitedSniff>
    decreases k,
{
    if k <= 0 {
        None
    } else {
        sniff_step(sniff_upto(text, k - 1), text, delimiters()[k - 1])
    }
}

/// The delimiter under which the text reads as a table.
pub open spec fn sniff_spec(text: Seq<char>) -> Option<DelimitedSniff> {
    sniff_upto(text, 4)
}

fn sample_shape(text: &str, d: u8) -> (r: Option<(usize, usize)>)
    ensures
        match sampled_rows(text@, d) {
            Some(rows) => if stable_shape(rows) {
                r == Some((rows[0].len() as usize, rows.len() as usize)) && rows.len() <= 8
            } else {
                r is None
            },
            None => r is None,
        },
        r matches Some(p) ==> p.1 <= 8,
{
    let (recs, err) = read_csv_records(text, d, Some(8));
    if err.is_some() {
        return None;
    }
    let ghost all = csv_read(text@, d).0;
    proof {
        lemma_kept_len(if all.len() < 8 { all } else { all.take(8) });
    }
    let rows = keep_records(recs);
    if rows.len() < 2 || rows[0].len() < 1 {
        return None;
    }
    let ghost rv = rows_view(rows@);
    let column_count = rows[0].len();
    let mut i: usize = 0;
    while i < rows.len() && rows[i].len() == column_count
        invariant
            i <= rows@.len(),
            rv == rows_view(rows@),
            column_count == rv[0].len(),
            forall|j: int| 0 <= j < i ==> (#[trigger] rv[j]).len() == column_count,
        decreases rows.len() - i,
    {
        assert(rv[i as int].len() == rows@[i as int]@.len());
        i += 1;
    }
    if i < rows.len() {
        assert(rv[i as int].len() == rows@[i as int]@.len());
        return None;
    }
    Some((column_count, rows.len()))
}

/// The delimiter under which the text reads as a stable table, with the
/// shape found; of several, the one covering the most cells, the first
/// tried on a tie.
pub fn sniff_delimited_shape(text: &str) -> (r: Option<DelimitedSniff>)
    ensures
        r == sniff_spec(text@),
{
    let delims: [u8; 4] = [44u8, 9u8, 59u8, 124u8];
    assert(delims@ =~= delimiters());
    let mut best: Option<DelimitedSniff> = None;
    let mut k: usize = 0;
    while k < 4
        invariant
            k <= 4,
            delims@ == delimiters(),
            best == sniff_upto(text@, k as int),
            best matches Some(b) ==> b.row_count <= 8 && (b.column_count as u128) * (b.row_count as u128)
                <= 0xFFFF_FFFF_FFFF_FFFF * 8,
        decreases 4 - k,
    {
        let d = delims[k];
        match sample_shape(text, d) {
            Some((column_count, row_count)) => {
                assert((column_count as u128) * (row_count as u128) <= 0xFFFF_FFFF_FFFF_FFFF * 8)
                    by (nonlinear_arith)
                    requires
                        column_count <= usize::MAX,
                        usize::MAX <= 0xFFFF_FFFF_FFFF_FFFF,
                        row_count <= 8,
                ;
                let replace = match best {
                    None => true,
                    Some(b) => (column_count as u128) * (row_count as u128) > (b.column_count as u128)
                        * (b.row_count as u128),
                };
                if replace {
                    best = Some(DelimitedSniff { delimiter: d as char, column_count, row_count });
                }
            },
            None => {},
        }
        k += 1;
    }
    best
}

/// The records of `text` under `delimiter`, blank ones dropped; the csv
/// error where reading stops at one.
pub open spec fn delimited_records_spec(text: Seq<char>, delimiter: u8) -> Result<Seq<Seq<Seq<char>>>, Seq<char>> {
    match csv_read(text, delimiter).1 {
        Some(e) => Err(e),
        None => Ok(kept_records(csv_read(text, delimiter).0)),
    }
}

/// Reads all records of `text`, dropping blank ones.
pub fn parse_delimited_records(text: &str, delimiter: u8) -> (r: Result<Vec<Vec<String>>, IntakeError>)
    ensures
        match r {
            Ok(v) => delimited_records_spec(text@, delimiter) == Ok::<Seq<Seq<Seq<char>>>, Seq<char>>(rows_view(v@)),
            Err(IntakeError::Delimited(m)) => delimited_records_spec(text@, delimiter) == Err::<Seq<Seq<Seq<char>>>, Seq<char>>(m@),
            Err(_) => false,
        },
{
    let (recs, err) = read_csv_records(text, delimiter, None);
    match err {
        Some(m) => Err(IntakeError::Delimited(m)),
        None => Ok(keep_records(recs)),
    }
}

fn max_record_len(rows: &Vec<Vec<String>>) -> (r: usize)
    ensures
        r == max_row_len(rows_view(rows@), 0),
{
    let ghost rv = rows_view(rows@);
    if rows.len() == 0 {
        return 0;
    }
    let mut m: usize = rows[0].len();
    let mut i: usize = 1;
    assert(rv.take(1).drop_last() =~= Seq::<Seq<Seq<char>>>::empty());
    assert(max_row_len(rv.take(1), 0) == rv[0].len());
    while i < rows.len()
        invariant
            1 <= i <= rows@.len(),
            rv == rows_view(rows@),
            m == max_row_len(rv.take(i as int), 0),
        decreases rows.len() - i,
    {
        assert(rv.take(i as int + 1).drop_last() =~= rv.take(i as int));
        assert(rv[i as int].len() == rows@[i as int]@.len());
        if rows[i].len() > m {
            m = rows[i].len();
        }
        i += 1;
    }
    assert(rv.take(rows.len() as int) =~= rv);
    m
}

/// The table of a delimited text, or why it has none: `Err(None)` for a
/// text without records, `Err(Some(reason))` otherwise. The header mode
/// decides whether the first record is the header.
pub open spec fn delimited_table_spec(
    file: Seq<char>,
    file_size: u64,
    encoding: SourceEncoding,
    text: Seq<char>,
    header_mode: HeaderMode,
) -> Result<TableView, Option<Seq<char>>> {
    match sniff_spec(text) {
        None => Err(Some("delimiter stability not detected"@)),
        Some(sniff) => match delimited_records_spec(text, sniff.delimiter as u8) {
            Err(e) => Err(Some(e)),
            Ok(records) => if records.len() == 0 {
                Err(None)
            } else if max_row_len(records, 0) < 1 {
                Err(Some("expected at least 1 column"@))
            } else {
                let present = header_mode == HeaderMode::Present;
                let rows = if present {
                    records.skip(1)
                } else {
                    records
                };
                Ok(
                    TableView {
                        file,
                        file_size,
                        source_kind: SourceKind::DelimitedText,
                        encoding,
                        header_mode,
                        suggested_header: header_guess(records),
                        header_row: if present {
                            Some(records[0])
                        } else {
                            None
                        },
                        column_labels: column_labels_spec(
                            if present {
                                Some(records[0])
                            } else {
                                None
                            },
                            max_row_len(records, 0),
                        ),
                        rows,
                        total_rows: rows.len() as usize,
                        delimiter: Some(sniff.delimiter),
                        json_shape: None,
                        json_diagnostic: None,
                    },
                )
            },
        },
    }
}

/// Reads a delimited text as a table.
pub fn load_delimited_table_from_text(
    file: String,
    file_size: u64,
    encoding: SourceEncoding,
    text: &str,
    header_mode: HeaderMode,
) -> (r: Result<TableSourceData, IntakeError>)
    ensures
        match r {
            Ok(t) => delimited_table_spec(file@, file_size, encoding, text@, header_mode) == Ok::<TableView, Option<Seq<char>>>(t@),
            Err(IntakeError::EmptyFile) => delimited_table_spec(file@, file_size, encoding, text@, header_mode) == Err::<TableView, Option<Seq<char>>>(None),
            Err(IntakeError::Delimited(m)) => delimited_table_spec(file@, file_size, encoding, text@, header_mode) == Err::<TableView, Option<Seq<char>>>(Some(m@)),
            Err(_) => false,
        },
{
    let sniff = match sniff_delimited_shape(text) {
        Some(s) => s,
        None => {
            return Err(IntakeError::Delimited("delimiter stability not detected".to_string()));
        },
    };
    let mut records = match parse_delimited_records(text, sniff.delimiter as u8) {
        Ok(v) => v,
        Err(e) => {
            return Err(e);
        },
    };
    if records.len() == 0 {
        return Err(IntakeError::EmptyFile);
    }
    let ghost rv = rows_view(records@);
    let max_columns = max_record_len(&records);
    if max_columns < 1 {
        return Err(IntakeError::Delimited("expected at least 1 column".to_string()));
    }
    let suggested_header = infer_header_row(&records);
    let (header_row, column_labels) = match header_mode {
        HeaderMode::Present => {
            let h = records.remove(0);
            assert(rows_view(records@) =~= rv.skip(1));
            let labels = build_column_labels(Some(&h), max_columns);
            (Some(h), labels)
        },
        _ => (None, build_column_labels(None, max_columns)),
    };
    let total_rows = records.len();
    Ok(
        TableSourceData {
            file,
            file_size,
            source_kind: SourceKind::DelimitedText,
            encoding,
            header_mode,
            suggested_header,
            header_row,
            column_labels,
            rows: records,
            total_rows,
            delimiter: Some(sniff.delimiter),
            json_shape: None,
            json_diagnostic: None,
        },
    )
}


// ---------------------------------------------------------------------------
// Decoding and kinds
// ---------------------------------------------------------------------------

/// A source's bytes, decoded: its text and encoding, or why it is not
/// text.
#[derive(Debug)]
pub enum DecodedSource {
    Text { encoding: SourceEncoding, text: String },
    Binary(String),
}

/// The value of a decoded source.
pub enum DecodedView {
    Text(SourceEncoding, Seq<char>),
    Binary(Seq<char>),
}

pub open spec fn decoded_view(d: DecodedSource) -> DecodedView {
    match d {
        DecodedSource::Text { encoding, text } => DecodedView::Text(encoding, text@),
        DecodedSource::Binary(reason) => DecodedView::Binary(reason@),
    }
}

/// The UTF-8 byte order mark.
pub open spec fn utf8_bom() -> Seq<u8> {
    seq![0xEFu8, 0xBBu8, 0xBFu8]
}

/// Bytes with a NUL are binary; after an optional byte order mark, the
/// rest must be UTF-8.
pub open spec fn decode_spec(b: Seq<u8>) -> DecodedView {
    if exists|i: int| 0 <= i < b.len() && b[i] == 0 {
        DecodedView::Binary("contains NUL bytes"@)
    } else {
        let bom = b.len() >= 3 && b.take(3) == utf8_bom();
        let body = if bom {
            b.skip(3)
        } else {
            b
        };
        if vstd::utf8::valid_utf8(body) {
            DecodedView::Text(
                if bom {
                    SourceEncoding::Utf8Bom
                } else {
                    SourceEncoding::Utf8
                },
                vstd::utf8::decode_utf8(body),
            )
        } else {
            DecodedView::Binary("contains non UTF-8 bytes"@)
        }
    }
}

pub fn decode_utf8_text(bytes: &[u8]) -> (r: DecodedSource)
    ensures
        decoded_view(r) == decode_spec(bytes@),
{
    let mut i: usize = 0;
    while i < bytes.len()
        invariant
            i <= bytes@.len(),
            forall|j: int| 0 <= j < i ==> bytes@[j] != 0,
        decreases bytes.len() - i,
    {
        if bytes[i] == 0 {
            return DecodedSource::Binary("contains NUL bytes".to_string());
        }
        i += 1;
    }
    let bom = bytes.len() >= 3 && bytes[0] == 0xEF && bytes[1] == 0xBB && bytes[2] == 0xBF;
    assert(bom == (bytes@.len() >= 3 && bytes@.take(3) == utf8_bom())) by {
        if bytes@.len() >= 3 && bytes@.take(3) == utf8_bom() {
            assert(bytes@.take(3)[0] == bytes@[0]);
            assert(bytes@.take(3)[1] == bytes@[1]);
            assert(bytes@.take(3)[2] == bytes@[2]);
        }
        if bom {
            assert(bytes@.take(3) =~= utf8_bom());
        }
    }
    let body: &[u8] = if bom {
        bytes.split_at(3).1
    } else {
        bytes
    };
    match crate::text::utf8_text(body) {
        Some(text) => DecodedSource::Text {
            encoding: if bom {
                SourceEncoding::Utf8Bom
            } else {
                SourceEncoding::Utf8
            },
            text,
        },
        None => DecodedSource::Binary("contains non UTF-8 bytes".to_string()),
    }
}

/// `t` begins with `p`.
pub open spec fn begins_with(t: Seq<char>, p: Seq<char>) -> bool {
    p.len() <= t.len() && t.take(p.len() as int) == p
}

/// The kind of a text: by its first non-blank character JSON (`{`, `[`) or
/// markup (`<`, `---`, `%YAML`); else a stable delimited table; else plain
/// lines when it has two or more; else unknown.
pub open spec fn source_kind_spec(text: Seq<char>) -> SourceKind {
    let t = lstrip(text);
    if t.len() == 0 {
        SourceKind::UnknownText
    } else if t[0] == '{' || t[0] == '[' {
        SourceKind::JsonText
    } else if t[0] == '<' || begins_with(t, seq!['-', '-', '-']) || begins_with(
        t,
        seq!['%', 'Y', 'A', 'M', 'L'],
    ) {
        SourceKind::MarkupText
    } else if sniff_spec(text) is Some {
        SourceKind::DelimitedText
    } else if text_lines(text).len() >= 2 {
        SourceKind::PlainLines
    } else {
        SourceKind::UnknownText
    }
}

fn begins_with_at(cs: &[char], start: usize, p: &[char]) -> (r: bool)
    requires
        start <= cs@.len(),
    ensures
        r == begins_with(cs@.skip(start as int), p@),
{
    if cs.len() - start < p.len() {
        return false;
    }
    let mut k: usize = 0;
    while k < p.len()
        invariant
            k <= p@.len(),
            start <= cs@.len(),
            start + p@.len() <= cs@.len(),
            cs@.len() == cs.len(),
            p@.len() == p.len(),
            forall|j: int| 0 <= j < k ==> cs@[start + j] == p@[j],
        decreases p.len() - k,
    {
        if cs[start + k] != p[k] {
            assert(cs@.skip(start as int).take(p@.len() as int)[k as int] != p@[k as int]);
            return false;
        }
        k += 1;
    }
    assert(cs@.skip(start as int).take(p@.len() as int) =~= p@);
    true
}

pub fn sniff_source_kind(text: &str) -> (r: SourceKind)
    ensures
        r == source_kind_spec(text@),
{
    let cs = chars_of(text);
    let mut a: usize = 0;
    assert(cs@.skip(0) =~= cs@);
    while a < cs.len() && is_whitespace(cs[a])
        invariant
            a <= cs@.len(),
            cs@ == text@,
            lstrip(cs@) == lstrip(cs@.skip(a as int)),
        decreases cs.len() - a,
    {
        assert(cs@.skip(a as int).skip(1) =~= cs@.skip(a as int + 1));
        a += 1;
    }
    let ghost t = cs@.skip(a as int);
    assert(lstrip(t) == t);
    if a == cs.len() {
        return SourceKind::UnknownText;
    }
    let c = cs[a];
    if c == '{' || c == '[' {
        return SourceKind::JsonText;
    }
    let dashes: [char; 3] = ['-', '-', '-'];
    let yaml: [char; 5] = ['%', 'Y', 'A', 'M', 'L'];
    assert(dashes@ =~= seq!['-', '-', '-']);
    assert(yaml@ =~= seq!['%', 'Y', 'A', 'M', 'L']);
    if c == '<' || begins_with_at(&cs, a, &dashes) || begins_with_at(&cs, a, &yaml) {
        return SourceKind::MarkupText;
    }
    if sniff_delimited_shape(text).is_some() {
        return SourceKind::DelimitedText;
    }
    if lines_of(text).len() >= 2 {
        return SourceKind::PlainLines;
    }
    SourceKind::UnknownText
}

/// The number of lines shown for a text: its lines, and at least one when
/// it is not empty.
pub open spec fn line_count_spec(text: Seq<char>) -> int {
    let n = text_lines(text).len() as int;
    if n == 0 && text.len() > 0 {
        1
    } else {
        n
    }
}

/// A text source shown by its lines.
pub fn build_text_preview(
    file: String,
    file_size: u64,
    source_kind: SourceKind,
    encoding: SourceEncoding,
    text: &str,
    diagnostic: &str,
) -> (r: TextPreview)
    ensures
        r.file@ == file@,
        r.file_size == file_size,
        r.source_kind == source_kind,
        r.encoding == encoding,
        strs_view(r.lines@) == text_lines(text@),
        r.line_count == line_count_spec(text@),
        r.diagnostic@ == diagnostic@,
{
    let lines = lines_of(text);
    let n = lines.len();
    let line_count = if n == 0 && crate::text::char_count(text) > 0 {
        1
    } else {
        n
    };
    TextPreview {
        file,
        file_size,
        source_kind,
        encoding,
        lines,
        line_count,
        diagnostic: diagnostic.to_string(),
    }
}

/// The diagnostic of a source found by a scan.
pub open spec fn candidate_diagnostic(kind: SourceKind, text: Seq<char>) -> Seq<char> {
    match kind {
        SourceKind::DelimitedText => match sniff_spec(text) {
            Some(s) => "delimiter: '"@ + seq![s.delimiter] + "' / columns: "@ + decimal(
                s.column_count as nat,
            ),
            None => "delimiter-stable table text"@,
        },
        SourceKind::JsonText => "JSON-like text"@,
        SourceKind::PlainLines => decimal(
            if text_lines(text).len() > 1 {
                text_lines(text).len()
            } else {
                1
            },
        ) + " lines"@,
        SourceKind::MarkupText => "markup-like text"@,
        SourceKind::UnsupportedBinary => "binary-like source"@,
        SourceKind::UnknownText => "text decoded but kind is unknown"@,
    }
}

/// What a scan records of a file from its first bytes: binary sources as
/// such, text sources with their kind, encoding and a diagnostic.
pub fn candidate_from_bytes(path: String, file_size: u64, bytes: &[u8]) -> (r: AssetSourceCandidate)
    ensures
        r.path@ == path@,
        r.file_size == file_size,
        match decode_spec(bytes@) {
            DecodedView::Binary(reason) => r.kind == SourceKind::UnsupportedBinary && r.encoding
                == SourceEncoding::Binary && r.diagnostic@ == reason,
            DecodedView::Text(encoding, text) => r.kind == source_kind_spec(text) && r.encoding
                == encoding && r.diagnostic@ == candidate_diagnostic(r.kind, text),
        },
{
    match decode_utf8_text(bytes) {
        DecodedSource::Binary(reason) => AssetSourceCandidate {
            path,
            kind: SourceKind::UnsupportedBinary,
            encoding: SourceEncoding::Binary,
            file_size,
            diagnostic: reason,
        },
        DecodedSource::Text { encoding, text } => {
            let kind = sniff_source_kind(text.as_str());
            let diagnostic = match kind {
                SourceKind::DelimitedText => match sniff_delimited_shape(text.as_str()) {
                    Some(sniff) => {
                        let mut d = "delimiter: '".to_string();
                        push_char(&mut d, sniff.delimiter);
                        d.append("' / columns: ");
                        let n = decimal_string(sniff.column_count);
                        d.append(n.as_str());
                        d
                    },
                    None => "delimiter-stable table text".to_string(),
                },
                SourceKind::JsonText => "JSON-like text".to_string(),
                SourceKind::PlainLines => {
                    let count = lines_of(text.as_str()).len();
                    let mut d = decimal_string(
                        if count > 1 {
                            count
                        } else {
                            1
                        },
                    );
                    d.append(" lines");
                    d
                },
                SourceKind::MarkupText => "markup-like text".to_string(),
                SourceKind::UnsupportedBinary => "binary-like source".to_string(),
                SourceKind::UnknownText => "text decoded but kind is unknown".to_string(),
            };
            AssetSourceCandidate { path, kind, encoding, file_size, diagnostic }
        },
    }
}

/// Whether a file of this size may be read whole.
pub fn check_source_size(file_size: u64) -> (r: Result<(), IntakeError>)
    ensures
        r is Ok <==> file_size <= MAX_SOURCE_BYTES,
        r is Err ==> (r matches Err(IntakeError::TooLarge { bytes, limit }) && bytes == file_size
            && limit == MAX_SOURCE_BYTES),
{
    if file_size > MAX_SOURCE_BYTES {
        Err(IntakeError::TooLarge { bytes: file_size, limit: MAX_SOURCE_BYTES })
    } else {
        Ok(())
    }
}

/// `p` is the line preview of `text` with these details.
pub open spec fn text_preview_is(
    p: TextPreview,
    file: Seq<char>,
    file_size: u64,
    kind: SourceKind,
    encoding: SourceEncoding,
    text: Seq<char>,
    diagnostic: Seq<char>,
) -> bool {
    &&& p.file@ == file
    &&& p.file_size == file_size
    &&& p.source_kind == kind
    &&& p.encoding == encoding
    &&& strs_view(p.lines@) == text_lines(text)
    &&& p.line_count == line_count_spec(text)
    &&& p.diagnostic@ == diagnostic
}

pub open spec fn opt_parsed_view(j: Option<Result<JsonValue, String>>) -> Option<Result<JsonValue, Seq<char>>> {
    match j {
        Some(p) => Some(parsed_view(p)),
        None => None,
    }
}

/// The preview of a decoded source: binary sources as such; delimited
/// text as a table, or the error that stopped it; JSON as a table, or as
/// lines with the reason it is no table; other text as lines.
pub open spec fn preview_outcome(
    r: Result<SourcePreview, IntakeError>,
    file: Seq<char>,
    file_size: u64,
    decoded: DecodedView,
    header_mode: HeaderMode,
    json: Option<Result<JsonValue, Seq<char>>>,
) -> bool {
    match decoded {
        DecodedView::Binary(reason) => (r matches Ok(SourcePreview::Binary(b)) && b.file@ == file
            && b.file_size == file_size && b.diagnostic@ == reason),
        DecodedView::Text(encoding, text) => match source_kind_spec(text) {
            SourceKind::DelimitedText => match delimited_table_spec(
                file,
                file_size,
                encoding,
                text,
                header_mode,
            ) {
                Ok(tv) => (r matches Ok(SourcePreview::Table(t)) && t@ == tv),
                Err(None) => (r matches Err(IntakeError::EmptyFile)),
                Err(Some(m)) => (r matches Err(IntakeError::Delimited(x)) && x@ == m),
            },
            SourceKind::JsonText => match json_table_spec(file, file_size, encoding, json->0) {
                Ok(tv) => (r matches Ok(SourcePreview::Table(t)) && t@ == tv),
                Err(reason) => (r matches Ok(SourcePreview::Text(p)) && text_preview_is(
                    p,
                    file,
                    file_size,
                    SourceKind::JsonText,
                    encoding,
                    text,
                    "JSON preview-only: "@ + reason,
                )),
            },
            SourceKind::UnsupportedBinary => (r matches Ok(SourcePreview::Binary(b)) && b.file@
                == file && b.file_size == file_size && b.diagnostic@ == "binary-like source"@),
            kind => (r matches Ok(SourcePreview::Text(p)) && text_preview_is(
                p,
                file,
                file_size,
                kind,
                encoding,
                text,
                kind_diagnostic_spec(kind),
            )),
        },
    }
}

/// The preview of a decoded source. `json` is the parse of the text, which
/// a JSON-like text needs.
pub fn preview_from_decoded(
    file: String,
    file_size: u64,
    decoded: DecodedSource,
    header_mode: HeaderMode,
    json: Option<Result<JsonValue, String>>,
) -> (r: Result<SourcePreview, IntakeError>)
    requires
        decoded matches DecodedSource::Text { text, .. } && source_kind_spec(text@)
            == SourceKind::JsonText ==> json is Some,
    ensures
        preview_outcome(r, file@, file_size, decoded_view(decoded), header_mode, opt_parsed_view(json)),
{
    match decoded {
        DecodedSource::Binary(reason) => Ok(
            SourcePreview::Binary(BinaryPreview { file, file_size, diagnostic: reason }),
        ),
        DecodedSource::Text { encoding, text } => {
            let kind = sniff_source_kind(text.as_str());
            match kind {
                SourceKind::DelimitedText => {
                    match load_delimited_table_from_text(file, file_size, encoding, text.as_str(), header_mode) {
                        Ok(t) => Ok(SourcePreview::Table(t)),
                        Err(e) => Err(e),
                    }
                },
                SourceKind::JsonText => {
                    let parsed = json.unwrap();
                    let file_copy = file.clone();
                    match normalize_json_table(file, file_size, encoding, parsed) {
                        Ok(t) => Ok(SourcePreview::Table(t)),
                        Err(reason) => {
                            let mut d = "JSON preview-only: ".to_string();
                            d.append(reason.as_str());
                            Ok(
                                SourcePreview::Text(
                                    build_text_preview(
                                        file_copy,
                                        file_size,
                                        SourceKind::JsonText,
                                        encoding,
                                        text.as_str(),
                                        d.as_str(),
                                    ),
                                ),
                            )
                        },
                    }
                },
                SourceKind::UnsupportedBinary => Ok(
                    SourcePreview::Binary(
                        BinaryPreview {
                            file,
                            file_size,
                            diagnostic: "binary-like source".to_string(),
                        },
                    ),
                ),
                _ => Ok(
                    SourcePreview::Text(
                        build_text_preview(
                            file,
                            file_size,
                            kind,
                            encoding,
                            text.as_str(),
                            kind_diagnostic(kind),
                        ),
                    ),
                ),
            }
        },
    }
}

} // verus!

verus! {

/// What a decoded source's JSON parse is: serde_json's outcome for a text
/// that looks like JSON, nothing otherwise.
pub open spec fn decoded_json(d: DecodedView) -> Option<Result<JsonValue, Seq<char>>> {
    match d {
        DecodedView::Text(_, text) => if source_kind_spec(text) == SourceKind::JsonText {
            Some(json_parsed(text))
        } else {
            None
        },
        DecodedView::Binary(_) => None,
    }
}

/// The preview of a source read whole: its bytes decoded, a JSON-like
/// text parsed by serde_json, then previewed.
pub fn preview_from_bytes(
    file: String,
    file_size: u64,
    bytes: &[u8],
    header_mode: HeaderMode,
) -> (r: Result<SourcePreview, IntakeError>)
    ensures
        preview_outcome(r, file@, file_size, decode_spec(bytes@), header_mode, decoded_json(decode_spec(bytes@))),
{
    let decoded = decode_utf8_text(bytes);
    let json = match &decoded {
        DecodedSource::Text { text, .. } => match sniff_source_kind(text.as_str()) {
            SourceKind::JsonText => Some(parse_json_value(text.as_str())),
            _ => None,
        },
        DecodedSource::Binary(_) => None,
    };
    assert(opt_parsed_view(json) == decoded_json(decode_spec(bytes@)));
    preview_from_decoded(file, file_size, decoded, header_mode, json)
}

} // verus!
