//! A List run's own rules: which cells it writes, in what order, how its
//! output file is named, and what it reports.

use vstd::prelude::*;

use std::collections::BTreeMap;

use crate::file_translate::types::{rows_view, strs_view, ColumnMode, TableSourceData};
use crate::text::{chars_of, string_of, trim, trim_chars};
use crate::translator::zm::{decimal, decimal_string};

verus! {

/// What a cancelled run reports in place of an error.
pub const FILE_TRANSLATE_STOPPED: &'static str = "__TENUKI_FILE_TRANSLATE_STOPPED__";

/// What a column contributes to a run.
#[derive(Debug, Clone, Copy, PartialEq, Eq, Structural)]
pub enum SelectedMode {
    Translate,
    Original,
}

impl SelectedMode {
    pub fn label(self) -> (r: &'static str)
        ensures
            r@ == (match self {
                SelectedMode::Translate => "translate"@,
                SelectedMode::Original => "original"@,
            }),
    {
        match self {
            SelectedMode::Translate => "translate",
            SelectedMode::Original => "original",
        }
    }
}

/// A cell a run writes.
#[derive(Debug, Clone)]
pub struct SelectedEntry {
    pub column_index: usize,
    pub row_index: usize,
    pub source: String,
    pub mode: SelectedMode,
}

pub open spec fn selected_mode_of(m: ColumnMode) -> Option<SelectedMode> {
    match m {
        ColumnMode::Translate => Some(SelectedMode::Translate),
        ColumnMode::Original => Some(SelectedMode::Original),
        ColumnMode::Skip => None,
    }
}

/// The columns below `count` that are translated or copied, in column
/// order.
pub open spec fn selected_columns_spec(modes: Map<usize, ColumnMode>, count: int) -> Seq<(usize, SelectedMode)>
    decreases count,
{
    if count <= 0 {
        seq![]
    } else {
        let p = selected_columns_spec(modes, count - 1);
        let i = (count - 1) as usize;
        if modes.contains_key(i) && selected_mode_of(modes[i]) is Some {
            p.push((i, selected_mode_of(modes[i])->0))
        } else {
            p
        }
    }
}

/// The columns of the table that a run translates or copies.
pub fn selected_columns(column_count: usize, modes: &BTreeMap<usize, ColumnMode>) -> (r: Vec<(usize, SelectedMode)>)
    ensures
        r@ == selected_columns_spec(modes@, column_count as int),
{
    broadcast use vstd::std_specs::btree::group_btree_axioms;

    let mut out: Vec<(usize, SelectedMode)> = Vec::new();
    let mut i: usize = 0;
    while i < column_count
        invariant
            i <= column_count,
            out@ == selected_columns_spec(modes@, i as int),
        decreases column_count - i,
    {
        match modes.get(&i) {
            Some(m) => match *m {
                ColumnMode::Translate => out.push((i, SelectedMode::Translate)),
                ColumnMode::Original => out.push((i, SelectedMode::Original)),
                ColumnMode::Skip => {},
            },
            None => {},
        }
        i += 1;
    }
    out
}

/// A cell of a run: column, row, text and mode.
pub type EntryView = (usize, usize, Seq<char>, SelectedMode);

pub open spec fn entry_view(e: SelectedEntry) -> EntryView {
    (e.column_index, e.row_index, e.source@, e.mode)
}

pub open spec fn selected_entries_view(v: Seq<SelectedEntry>) -> Seq<EntryView> {
    v.map_values(|e: SelectedEntry| entry_view(e))
}

/// The non-blank cells of one column, in row order.
pub open spec fn column_cells(rows: Seq<Seq<Seq<char>>>, col: usize, mode: SelectedMode, n: int) -> Seq<EntryView>
    decreases n,
{
    if n <= 0 {
        seq![]
    } else {
        let p = column_cells(rows, col, mode, n - 1);
        let r = (n - 1) as usize;
        if (col as int) < rows[n - 1].len() && trim(rows[n - 1][col as int]).len() > 0 {
            p.push((col, r, rows[n - 1][col as int], mode))
        } else {
            p
        }
    }
}

/// The cells of a run: column by column, the non-blank cells of each.
pub open spec fn run_cells(rows: Seq<Seq<Seq<char>>>, cols: Seq<(usize, SelectedMode)>) -> Seq<EntryView>
    decreases cols.len(),
{
    if cols.len() == 0 {
        seq![]
    } else {
        run_cells(rows, cols.drop_last()) + column_cells(rows, cols.last().0, cols.last().1, rows.len() as int)
    }
}

pub open spec fn count_mode(cells: Seq<EntryView>, mode: SelectedMode) -> int
    decreases cells.len(),
{
    if cells.len() == 0 {
        0
    } else {
        count_mode(cells.drop_last(), mode) + if cells.last().3 == mode {
            1int
        } else {
            0int
        }
    }
}

proof fn lemma_count_mode_bound(cells: Seq<EntryView>, mode: SelectedMode)
    ensures
        0 <= count_mode(cells, mode) <= cells.len(),
    decreases cells.len(),
{
    if cells.len() > 0 {
        lemma_count_mode_bound(cells.drop_last(), mode);
    }
}

pub open spec fn no_columns_message() -> Seq<char> {
    "no Translate or Original columns selected within column range"@
}

pub open spec fn no_cells_message() -> Seq<char> {
    "selected columns contain no runnable cells"@
}

/// The cells a run writes, with how many are translated and how many
/// copied; an error where no column or no cell is selected.
pub fn select_run_entries(
    table: &TableSourceData,
    modes: &BTreeMap<usize, ColumnMode>,
) -> (r: Result<(Vec<SelectedEntry>, usize, usize), String>)
    ensures
        ({
            let cols = selected_columns_spec(modes@, table.column_labels@.len() as int);
            let cells = run_cells(rows_view(table.rows@), cols);
            match r {
                Ok((entries, t, o)) => cols.len() > 0 && cells.len() > 0 && selected_entries_view(entries@)
                    == cells && t == count_mode(cells, SelectedMode::Translate) && o == count_mode(
                    cells,
                    SelectedMode::Original,
                ),
                Err(e) => (cols.len() == 0 && e@ == no_columns_message()) || (cols.len() > 0
                    && cells.len() == 0 && e@ == no_cells_message()),
            }
        }),
{
    let cols = selected_columns(table.column_labels.len(), modes);
    if cols.len() == 0 {
        return Err("no Translate or Original columns selected within column range".to_string());
    }
    let ghost rv = rows_view(table.rows@);
    let ghost cv = cols@;
    let mut entries: Vec<SelectedEntry> = Vec::new();
    let mut ci: usize = 0;
    assert(cv.take(0) =~= Seq::<(usize, SelectedMode)>::empty());
    assert(selected_entries_view(entries@) =~= seq![]);
    while ci < cols.len()
        invariant
            ci <= cv.len(),
            cv == cols@,
            rv == rows_view(table.rows@),
            selected_entries_view(entries@) == run_cells(rv, cv.take(ci as int)),
        decreases cols.len() - ci,
    {
        assert(cv.take(ci as int + 1).drop_last() =~= cv.take(ci as int));
        let (col, mode) = cols[ci];
        let ghost before = selected_entries_view(entries@);
        let mut ri: usize = 0;
        while ri < table.rows.len()
            invariant
                ri <= rv.len(),
                rv == rows_view(table.rows@),
                selected_entries_view(entries@) == before + column_cells(rv, col, mode, ri as int),
            decreases table.rows.len() - ri,
        {
            let row = &table.rows[ri];
            assert(rv[ri as int] == strs_view(row@));
            let ghost cur = selected_entries_view(entries@);
            if col < row.len() {
                let cell = &row[col];
                if trim_chars(&chars_of(cell.as_str())).len() > 0 {
                    let e = SelectedEntry { column_index: col, row_index: ri, source: cell.clone(), mode };
                    entries.push(e);
                    assert(selected_entries_view(entries@) =~= cur.push(entry_view(e)));
                    assert(before + column_cells(rv, col, mode, ri as int + 1) =~= cur.push(entry_view(e)));
                } else {
                    assert(before + column_cells(rv, col, mode, ri as int + 1) =~= cur);
                }
            } else {
                assert(before + column_cells(rv, col, mode, ri as int + 1) =~= cur);
            }
            ri += 1;
        }
        assert(cv.take(ci as int + 1).last() == (col, mode));
        ci += 1;
    }
    assert(cv.take(cols.len() as int) =~= cv);
    if entries.len() == 0 {
        return Err("selected columns contain no runnable cells".to_string());
    }
    let ghost ev = selected_entries_view(entries@);
    let mut translated: usize = 0;
    let mut original: usize = 0;
    let mut j: usize = 0;
    assert(ev.take(0) =~= Seq::<EntryView>::empty());
    while j < entries.len()
        invariant
            j <= ev.len(),
            ev == selected_entries_view(entries@),
            translated == count_mode(ev.take(j as int), SelectedMode::Translate),
            original == count_mode(ev.take(j as int), SelectedMode::Original),
        decreases entries.len() - j,
    {
        assert(ev.take(j as int + 1).drop_last() =~= ev.take(j as int));
        proof {
            lemma_count_mode_bound(ev.take(j as int), SelectedMode::Translate);
            lemma_count_mode_bound(ev.take(j as int), SelectedMode::Original);
        }
        match entries[j].mode {
            SelectedMode::Translate => {
                translated = translated + 1;
            },
            SelectedMode::Original => {
                original = original + 1;
            },
        }
        j += 1;
    }
    assert(ev.take(entries.len() as int) =~= ev);
    Ok((entries, translated, original))
}

/// The line a run writes for a cell: `source=target` and a line break.
pub fn dict_txt_line(source: &str, target: &str) -> (r: String)
    ensures
        r@ == source@ + "="@ + target@ + "\n"@,
{
    let mut s = source.to_string();
    s.append("=");
    s.append(target);
    s.append("\n");
    s
}

/// The `n`-th candidate name of a run's output: `stem.txt`, then
/// `stem_001.txt` to `stem_999.txt`.
pub open spec fn output_name(stem: Seq<char>, n: int) -> Seq<char> {
    if n == 0 {
        stem + ".txt"@
    } else {
        stem + "_"@ + (if n < 10 {
            "00"@
        } else if n < 100 {
            "0"@
        } else {
            ""@
        }) + decimal(n as nat) + ".txt"@
    }
}

pub open spec fn name_taken(existing: Seq<String>, name: Seq<char>) -> bool {
    exists|i: int| 0 <= i < existing.len() && existing[i]@ == name
}

fn output_name_string(stem: &str, n: usize) -> (r: String)
    requires
        n < 1000,
    ensures
        r@ == output_name(stem@, n as int),
{
    let mut s = stem.to_string();
    if n == 0 {
        s.append(".txt");
        return s;
    }
    s.append("_");
    if n < 10 {
        s.append("00");
    } else if n < 100 {
        s.append("0");
    } else {
        s.append("");
    }
    let d = decimal_string(n);
    s.append(d.as_str());
    s.append(".txt");
    s
}

fn taken(existing: &[String], name: &str) -> (r: bool)
    ensures
        r == name_taken(existing@, name@),
{
    let mut i: usize = 0;
    while i < existing.len()
        invariant
            i <= existing@.len(),
            forall|j: int| 0 <= j < i ==> existing@[j]@ != name@,
        decreases existing.len() - i,
    {
        if crate::text::str_equal(existing[i].as_str(), name) {
            return true;
        }
        i += 1;
    }
    false
}

/// The first candidate name for a run's output that no existing file of
/// the directory has; an error when all thousand are taken.
pub fn output_txt_name(stem: &str, existing: &[String]) -> (r: Result<String, String>)
    ensures
        match r {
            Ok(name) => exists|n: int|
                0 <= n < 1000 && name@ == output_name(stem@, n) && !name_taken(existing@, name@)
                    && forall|m: int| 0 <= m < n ==> name_taken(existing@, #[trigger] output_name(stem@, m)),
            Err(e) => e@ == "too many existing files for stem '"@ + stem@ + "'"@ && forall|m: int|
                0 <= m < 1000 ==> name_taken(existing@, #[trigger] output_name(stem@, m)),
        },
{
    let mut n: usize = 0;
    while n < 1000
        invariant
            n <= 1000,
            forall|m: int| 0 <= m < n ==> name_taken(existing@, #[trigger] output_name(stem@, m)),
        decreases 1000 - n,
    {
        let name = output_name_string(stem, n);
        if !taken(existing, name.as_str()) {
            return Ok(name);
        }
        n += 1;
    }
    let mut e = "too many existing files for stem '".to_string();
    e.append(stem);
    e.append("'");
    Err(e)
}

/// What a run reports when it ends.
#[derive(Debug, Clone, PartialEq, Eq)]
pub struct FileTranslateRunOutcome {
    pub title: String,
    pub text: String,
    pub is_error: bool,
}

pub open spec fn stopped_text(output_dir: Seq<char>, source_file: Seq<char>) -> Seq<char> {
    "Stopped\npartial file may remain\noutput directory: "@ + output_dir + "\nsource file: "@ + source_file
}

/// A run's report: its report text when it finished; a note that it was
/// stopped, where the partial file may remain; or its error.
pub fn run_outcome(
    title: String,
    output_dir: &str,
    source_file: &str,
    result: Result<String, String>,
) -> (r: FileTranslateRunOutcome)
    ensures
        r.title == title,
        match result {
            Ok(text) => r.text == text && !r.is_error,
            Err(e) => if e@ == FILE_TRANSLATE_STOPPED@ {
                r.text@ == stopped_text(output_dir@, source_file@) && !r.is_error
            } else {
                r.text == e && r.is_error
            },
        },
{
    match result {
        Ok(text) => FileTranslateRunOutcome { title, text, is_error: false },
        Err(e) => {
            if crate::text::str_equal(e.as_str(), FILE_TRANSLATE_STOPPED) {
                let mut text = "Stopped\npartial file may remain\noutput directory: ".to_string();
                text.append(output_dir);
                text.append("\nsource file: ");
                text.append(source_file);
                FileTranslateRunOutcome { title, text, is_error: false }
            } else {
                FileTranslateRunOutcome { title, text: e, is_error: true }
            }
        },
    }
}

/// A `/list` answer must hold one text per text sent.
pub fn check_response_count(sent: usize, got: usize) -> (r: Result<(), String>)
    ensures
        r is Ok <==> sent == got,
        r matches Err(e) ==> e@ == "response count mismatch: sent "@ + decimal(sent as nat) + ", got "@
            + decimal(got as nat),
{
    if sent == got {
        return Ok(());
    }
    let mut e = "response count mismatch: sent ".to_string();
    e.append(decimal_string(sent).as_str());
    e.append(", got ");
    e.append(decimal_string(got).as_str());
    Err(e)
}


/// The label of a selected column: its number, its header (or `?`) and
/// its mode.
pub open spec fn column_label_line(headers: Seq<Seq<char>>, c: (usize, SelectedMode)) -> Seq<char> {
    decimal((c.0 + 1) as nat) + ": "@ + (if c.0 < headers.len() {
        headers[c.0 as int]
    } else {
        "?"@
    }) + " ["@ + (match c.1 {
        SelectedMode::Translate => "translate"@,
        SelectedMode::Original => "original"@,
    }) + "]"@
}

/// `parts` joined with `sep`.
pub open spec fn joined(parts: Seq<Seq<char>>, sep: Seq<char>) -> Seq<char>
    decreases parts.len(),
{
    if parts.len() == 0 {
        Seq::empty()
    } else if parts.len() == 1 {
        parts[0]
    } else {
        joined(parts.drop_last(), sep) + sep + parts.last()
    }
}

/// The selected columns as a report shows them: `-` for none, else their
/// labels joined with `, `.
pub open spec fn column_labels_line(headers: Seq<Seq<char>>, cols: Seq<(usize, SelectedMode)>) -> Seq<char> {
    if cols.len() == 0 {
        "-"@
    } else {
        joined(cols.map_values(|c: (usize, SelectedMode)| column_label_line(headers, c)), ", "@)
    }
}

fn push_joined(out: &mut String, first: bool, sep: &str, part: &str)
    ensures
        final(out)@ == (if first {
            old(out)@ + part@
        } else {
            old(out)@ + sep@ + part@
        }),
{
    if !first {
        out.append(sep);
    }
    out.append(part);
}

pub fn labels_from_selected_columns(headers: &Vec<String>, columns: &Vec<(usize, SelectedMode)>) -> (r: String)
    requires
        forall|i: int| 0 <= i < columns@.len() ==> (#[trigger] columns@[i]).0 < usize::MAX,
    ensures
        r@ == column_labels_line(strs_view(headers@), columns@),
{
    if columns.len() == 0 {
        return "-".to_string();
    }
    let ghost hv = strs_view(headers@);
    let ghost parts = columns@.map_values(|c: (usize, SelectedMode)| column_label_line(hv, c));
    let mut out = String::new();
    let mut i: usize = 0;
    while i < columns.len()
        invariant
            0 < columns@.len(),
            i <= columns@.len(),
            hv == strs_view(headers@),
            parts == columns@.map_values(|c: (usize, SelectedMode)| column_label_line(hv, c)),
            forall|k: int| 0 <= k < columns@.len() ==> (#[trigger] columns@[k]).0 < usize::MAX,
            i > 0 ==> out@ == joined(parts.take(i as int), ", "@),
            i == 0 ==> out@ == Seq::<char>::empty(),
        decreases columns.len() - i,
    {
        let (index, mode) = columns[i];
        let mut l = decimal_string(index + 1);
        l.append(": ");
        if index < headers.len() {
            l.append(headers[index].as_str());
        } else {
            l.append("?");
        }
        l.append(" [");
        l.append(mode.label());
        l.append("]");
        assert(l@ == parts[i as int]);
        push_joined(&mut out, i == 0, ", ", l.as_str());
        assert(parts.take(i as int + 1).drop_last() =~= parts.take(i as int));
        assert(parts.take(i as int + 1).last() == parts[i as int]);
        if i == 0 {
            assert(joined(parts.take(1), ", "@) == parts[0]);
        }
        i += 1;
    }
    assert(parts.take(columns@.len() as int) =~= parts);
    out
}

/// The positions of the entries with the given mode, in order.
pub open spec fn positions_of(entries: Seq<EntryView>, mode: SelectedMode, n: int) -> Seq<int>
    decreases n,
{
    if n <= 0 {
        Seq::empty()
    } else if entries[n - 1].3 == mode {
        positions_of(entries, mode, n - 1).push(n - 1)
    } else {
        positions_of(entries, mode, n - 1)
    }
}

/// The order in which a run writes its entries: every copied cell first,
/// then every translated one, each group in entry order.
pub open spec fn write_order_spec(entries: Seq<EntryView>) -> Seq<int> {
    positions_of(entries, SelectedMode::Original, entries.len() as int) + positions_of(
        entries,
        SelectedMode::Translate,
        entries.len() as int,
    )
}

fn positions_with(entries: &Vec<SelectedEntry>, mode: SelectedMode) -> (r: Vec<usize>)
    ensures
        r@.map_values(|x: usize| x as int) == positions_of(
            selected_entries_view(entries@),
            mode,
            entries@.len() as int,
        ),
{
    let ghost ev = selected_entries_view(entries@);
    let mut out: Vec<usize> = Vec::new();
    let mut i: usize = 0;
    while i < entries.len()
        invariant
            i <= entries@.len(),
            ev == selected_entries_view(entries@),
            out@.map_values(|x: usize| x as int) == positions_of(ev, mode, i as int),
        decreases entries.len() - i,
    {
        if entries[i].mode == mode {
            out.push(i);
        }
        assert(out@.map_values(|x: usize| x as int) =~= positions_of(ev, mode, i as int + 1));
        i += 1;
    }
    out
}

/// The copied entries' positions, then the translated ones'.
pub fn write_order(entries: &Vec<SelectedEntry>) -> (r: (Vec<usize>, Vec<usize>))
    ensures
        r.0@.map_values(|x: usize| x as int) + r.1@.map_values(|x: usize| x as int) == write_order_spec(
            selected_entries_view(entries@),
        ),
        r.1@.map_values(|x: usize| x as int) == positions_of(
            selected_entries_view(entries@),
            SelectedMode::Translate,
            entries@.len() as int,
        ),
{
    (positions_with(entries, SelectedMode::Original), positions_with(entries, SelectedMode::Translate))
}

/// Each entry is written exactly once: the write order holds every
/// position of the entries once.
pub proof fn lemma_write_order_covers(entries: Seq<EntryView>)
    ensures
        write_order_spec(entries).len() == entries.len(),
        forall|j: int| 0 <= j < entries.len() ==> write_order_spec(entries).contains(j),
        write_order_spec(entries).no_duplicates(),
{
    lemma_positions(entries, SelectedMode::Original, entries.len() as int);
    lemma_positions(entries, SelectedMode::Translate, entries.len() as int);
    let o = positions_of(entries, SelectedMode::Original, entries.len() as int);
    let t = positions_of(entries, SelectedMode::Translate, entries.len() as int);
    let w = o + t;
    assert forall|j: int| 0 <= j < entries.len() implies w.contains(j) by {
        if entries[j].3 == SelectedMode::Original {
            assert(o.contains(j));
            let a = choose|a: int| 0 <= a < o.len() && o[a] == j;
            assert(w[a] == j);
        } else {
            assert(entries[j].3 == SelectedMode::Translate);
            assert(t.contains(j));
            let a = choose|a: int| 0 <= a < t.len() && t[a] == j;
            assert(w[o.len() + a] == j);
        }
    }
    assert forall|x: int, y: int| 0 <= x < w.len() && 0 <= y < w.len() && x != y implies w[x] != w[y] by {
        if x < o.len() && y < o.len() {
        } else if x >= o.len() && y >= o.len() {
            assert(w[x] == t[x - o.len()] && w[y] == t[y - o.len()]);
        } else if x < o.len() {
            assert(entries[w[x]].3 == SelectedMode::Original);
            assert(w[y] == t[y - o.len()]);
            assert(entries[w[y]].3 == SelectedMode::Translate);
        } else {
            assert(w[x] == t[x - o.len()]);
            assert(entries[w[x]].3 == SelectedMode::Translate);
            assert(entries[w[y]].3 == SelectedMode::Original);
        }
    }
    lemma_modes_split(entries, entries.len() as int);
}

proof fn lemma_positions(entries: Seq<EntryView>, mode: SelectedMode, n: int)
    requires
        0 <= n <= entries.len(),
    ensures
        forall|a: int|
            0 <= a < positions_of(entries, mode, n).len() ==> 0 <= #[trigger] positions_of(entries, mode, n)[a] < n
                && entries[positions_of(entries, mode, n)[a]].3 == mode,
        forall|a: int, b: int|
            0 <= a < b < positions_of(entries, mode, n).len() ==> positions_of(entries, mode, n)[a]
                < positions_of(entries, mode, n)[b],
        forall|j: int| 0 <= j < n && entries[j].3 == mode ==> positions_of(entries, mode, n).contains(j),
    decreases n,
{
    if n > 0 {
        lemma_positions(entries, mode, n - 1);
        let p = positions_of(entries, mode, n - 1);
        if entries[n - 1].3 == mode {
            assert forall|j: int| 0 <= j < n && entries[j].3 == mode implies positions_of(
                entries,
                mode,
                n,
            ).contains(j) by {
                if j == n - 1 {
                    assert(p.push(n - 1)[p.len() as int] == j);
                } else {
                    assert(p.contains(j));
                    let a = choose|a: int| 0 <= a < p.len() && p[a] == j;
                    assert(p.push(n - 1)[a] == j);
                }
            }
        } else {
            assert forall|j: int| 0 <= j < n && entries[j].3 == mode implies positions_of(
                entries,
                mode,
                n,
            ).contains(j) by {
                assert(p.contains(j));
            }
        }
    }
}

proof fn lemma_modes_split(entries: Seq<EntryView>, n: int)
    requires
        0 <= n <= entries.len(),
    ensures
        positions_of(entries, SelectedMode::Original, n).len() + positions_of(
            entries,
            SelectedMode::Translate,
            n,
        ).len() == n,
    decreases n,
{
    if n > 0 {
        lemma_modes_split(entries, n - 1);
    }
}

/// The ranges of texts sent together, from `start` on: `size` at a time,
/// the last one holding what is left.
pub open spec fn chunk_ranges_from(start: int, n: int, size: int) -> Seq<(int, int)>
    decreases n - start,
{
    if start >= n || size <= 0 {
        Seq::empty()
    } else if start + size >= n {
        seq![(start, n)]
    } else {
        seq![(start, start + size)] + chunk_ranges_from(start + size, n, size)
    }
}

/// The ranges of `n` texts sent `chunk_size` at a time (at least one).
pub open spec fn chunk_ranges_spec(n: int, chunk_size: int) -> Seq<(int, int)> {
    chunk_ranges_from(0, n, if chunk_size > 1 { chunk_size } else { 1 })
}

/// The ranges in which `n` texts are sent, `chunk_size` at a time.
pub fn chunk_ranges(n: usize, chunk_size: usize) -> (r: Vec<(usize, usize)>)
    ensures
        r@.map_values(|c: (usize, usize)| (c.0 as int, c.1 as int)) == chunk_ranges_spec(
            n as int,
            chunk_size as int,
        ),
{
    let size: usize = if chunk_size > 1 {
        chunk_size
    } else {
        1
    };
    let ghost all = chunk_ranges_from(0, n as int, size as int);
    let mut out: Vec<(usize, usize)> = Vec::new();
    let mut start: usize = 0;
    while start < n
        invariant
            size >= 1,
            start <= n,
            all == chunk_ranges_spec(n as int, chunk_size as int),
            out@.map_values(|c: (usize, usize)| (c.0 as int, c.1 as int)) + chunk_ranges_from(
                start as int,
                n as int,
                size as int,
            ) == all,
        decreases n - start,
    {
        let end = if n - start > size {
            start + size
        } else {
            n
        };
        let ghost before = out@.map_values(|c: (usize, usize)| (c.0 as int, c.1 as int));
        out.push((start, end));
        assert(out@.map_values(|c: (usize, usize)| (c.0 as int, c.1 as int)) =~= before.push(
            (start as int, end as int),
        ));
        if end == n {
            assert(chunk_ranges_from(start as int, n as int, size as int) =~= seq![(start as int, end as int)]);
            assert(out@.map_values(|c: (usize, usize)| (c.0 as int, c.1 as int)) =~= all);
            return out;
        }
        assert(chunk_ranges_from(start as int, n as int, size as int) =~= seq![(start as int, end as int)]
            + chunk_ranges_from(start as int + size as int, n as int, size as int));
        assert(before + chunk_ranges_from(start as int, n as int, size as int) =~= before.push(
            (start as int, end as int),
        ) + chunk_ranges_from(start as int + size as int, n as int, size as int));
        start = end;
    }
    assert(chunk_ranges_from(start as int, n as int, size as int) =~= Seq::<(int, int)>::empty());
    assert(out@.map_values(|c: (usize, usize)| (c.0 as int, c.1 as int)) =~= all);
    out
}

/// The ranges cover the texts in order: each is non-empty and at most
/// `size` long, the first starts where sending starts, each starts where
/// the one before ended, and the last ends at `n`.
pub proof fn lemma_chunk_ranges_cover(start: int, n: int, size: int)
    requires
        0 <= start < n,
        size >= 1,
    ensures
        ({
            let r = chunk_ranges_from(start, n, size);
            &&& r.len() > 0
            &&& r[0].0 == start
            &&& r.last().1 == n
            &&& forall|k: int| 0 <= k < r.len() ==> (#[trigger] r[k]).0 < r[k].1 <= r[k].0 + size
            &&& forall|k: int| 0 < k < r.len() ==> (#[trigger] r[k]).0 == r[k - 1].1
        }),
    decreases n - start,
{
    let r = chunk_ranges_from(start, n, size);
    let head = (start, if start + size < n { start + size } else { n });
    if start + size < n {
        assert(head == (start, start + size));
        lemma_chunk_ranges_cover(start + size, n, size);
        let rest = chunk_ranges_from(start + size, n, size);
        assert(r == seq![head] + rest);
        assert forall|k: int| 0 < k < r.len() implies (#[trigger] r[k]).0 == r[k - 1].1 by {
            if k == 1 {
                assert(r[1] == rest[0]);
            } else {
                assert(r[k] == rest[k - 1] && r[k - 1] == rest[k - 2]);
            }
        }
        assert forall|k: int| 0 <= k < r.len() implies (#[trigger] r[k]).0 < r[k].1 <= r[k].0 + size by {
            if k > 0 {
                assert(r[k] == rest[k - 1]);
            }
        }
    } else {
        assert(r =~= seq![head]);
    }
}


/// The preview line of a written entry: where it stands, its mode, its
/// source and what it becomes (`…` for a translated cell, not known yet).
pub open spec fn preview_line(e: EntryView) -> Seq<char> {
    "col "@ + decimal((e.0 + 1) as nat) + " row "@ + decimal((e.1 + 1) as nat) + " ["@ + (match e.3 {
        SelectedMode::Translate => "translate"@,
        SelectedMode::Original => "original"@,
    }) + "] "@ + e.2 + " => "@ + (match e.3 {
        SelectedMode::Translate => "…"@,
        SelectedMode::Original => e.2,
    })
}

/// The report lines of a finished run.
pub open spec fn run_report_lines(
    file: Seq<char>,
    output_dir: Seq<char>,
    output: Seq<char>,
    labels: Seq<char>,
    entries: Seq<EntryView>,
    translated: usize,
    original: usize,
) -> Seq<Seq<char>> {
    seq![
        "file: "@ + file,
        "output directory: "@ + output_dir,
        "output: "@ + output,
        "selected columns: "@ + labels,
        "written entries: "@ + decimal(entries.len()),
        "duplicate sources: preserved"@,
        "translated count: "@ + decimal(translated as nat),
        "original count: "@ + decimal(original as nat),
        Seq::<char>::empty(),
        "result preview:"@,
    ] + (if entries.len() > 12 { entries.take(12) } else { entries }).map_values(
        |e: EntryView| preview_line(e),
    )
}

/// The report of a finished run: where it read and wrote, the columns,
/// the counts, and the first twelve entries.
pub fn run_report(
    file: &str,
    output_dir: &str,
    output: &str,
    headers: &Vec<String>,
    columns: &Vec<(usize, SelectedMode)>,
    entries: &Vec<SelectedEntry>,
    translated: usize,
    original: usize,
) -> (r: String)
    requires
        forall|i: int| 0 <= i < columns@.len() ==> (#[trigger] columns@[i]).0 < usize::MAX,
        forall|i: int|
            0 <= i < entries@.len() ==> (#[trigger] entries@[i]).column_index < usize::MAX
                && entries@[i].row_index < usize::MAX,
    ensures
        r@ == crate::server::join_lines(
            run_report_lines(
                file@,
                output_dir@,
                output@,
                column_labels_line(strs_view(headers@), columns@),
                selected_entries_view(entries@),
                translated,
                original,
            ),
        ),
{
    let ghost ev = selected_entries_view(entries@);
    let mut lines: Vec<String> = Vec::new();
    let mut l = "file: ".to_string();
    l.append(file);
    lines.push(l);
    let mut l = "output directory: ".to_string();
    l.append(output_dir);
    lines.push(l);
    let mut l = "output: ".to_string();
    l.append(output);
    lines.push(l);
    let mut l = "selected columns: ".to_string();
    l.append(labels_from_selected_columns(headers, columns).as_str());
    lines.push(l);
    let mut l = "written entries: ".to_string();
    l.append(decimal_string(entries.len()).as_str());
    lines.push(l);
    lines.push("duplicate sources: preserved".to_string());
    let mut l = "translated count: ".to_string();
    l.append(decimal_string(translated).as_str());
    lines.push(l);
    let mut l = "original count: ".to_string();
    l.append(decimal_string(original).as_str());
    lines.push(l);
    lines.push(String::new());
    lines.push("result preview:".to_string());
    let ghost head = lines@.map_values(|s: String| s@);
    let shown = if entries.len() > 12 {
        12
    } else {
        entries.len()
    };
    let ghost sv = (if ev.len() > 12 { ev.take(12) } else { ev }).map_values(|e: EntryView| preview_line(e));
    let mut k: usize = 0;
    while k < shown
        invariant
            k <= shown <= entries@.len(),
            shown == (if entries@.len() > 12 { 12 } else { entries@.len() }),
            ev == selected_entries_view(entries@),
            sv == (if ev.len() > 12 { ev.take(12) } else { ev }).map_values(|e: EntryView| preview_line(e)),
            forall|i: int|
                0 <= i < entries@.len() ==> (#[trigger] entries@[i]).column_index < usize::MAX
                    && entries@[i].row_index < usize::MAX,
            lines@.map_values(|s: String| s@) == head + sv.take(k as int),
        decreases shown - k,
    {
        let e = &entries[k];
        let mut l = "col ".to_string();
        l.append(decimal_string(e.column_index + 1).as_str());
        l.append(" row ");
        l.append(decimal_string(e.row_index + 1).as_str());
        l.append(" [");
        l.append(e.mode.label());
        l.append("] ");
        l.append(e.source.as_str());
        l.append(" => ");
        match e.mode {
            SelectedMode::Translate => l.append("…"),
            SelectedMode::Original => l.append(e.source.as_str()),
        }
        assert(l@ == sv[k as int]);
        let ghost before = lines@.map_values(|s: String| s@);
        lines.push(l);
        assert(lines@.map_values(|s: String| s@) =~= before.push(l@));
        assert(sv.take(k as int + 1) =~= sv.take(k as int).push(sv[k as int]));
        k += 1;
    }
    assert(sv.take(shown as int) =~= sv);
    let ghost want = run_report_lines(
        file@,
        output_dir@,
        output@,
        column_labels_line(strs_view(headers@), columns@),
        ev,
        translated,
        original,
    );
    assert(lines@.map_values(|s: String| s@) =~= want);
    assert(crate::server::strings_view(lines@) =~= want);
    crate::server::join_with_newlines(&lines)
}
} // verus!
