//! The lines a file-translation run starts its log with, from the preview
//! of the source and the run's readiness.

use vstd::prelude::*;

use std::collections::BTreeMap;

use crate::file_translate::state::{DictSlotAction, FileTranslateRunReadiness};
use crate::file_translate::types::{ColumnMode, HeaderMode, PreviewState, SourceKind, SourcePreview, TableSourceData};
use crate::text::to_owned_string;
use crate::translator::zm::{decimal, decimal_string};

verus! {

/// The interface texts the log lines are written with, in the language of
/// the interface: the names of the fields, and the labels of this
/// preview's values (its kind, header mode and header suggestion, the
/// column modes, the run's readiness and each thing keeping it from
/// starting).
pub struct RunLogTexts {
    pub select_source_to_preview: String,
    pub preview_unavailable: String,
    pub source: String,
    pub kind: String,
    pub rows: String,
    pub cols: String,
    pub header: String,
    pub selected_columns: String,
    pub output_directory: String,
    pub json_diagnostic: String,
    pub run: String,
    pub ready_to_run: String,
    pub need: String,
    pub preview: String,
    pub unsupported_binary: String,
    pub use_committed_output_directory: String,
    pub list_output_directory_will_be_used: String,
    pub root: String,
    pub kind_label: String,
    pub header_mode_label: String,
    pub header_suggestion_label: String,
    pub translate_label: String,
    pub original_label: String,
    pub skip_label: String,
    pub readiness_label: String,
    pub blocker_labels: Vec<String>,
}

/// `[label] value`.
pub open spec fn tagged(label: Seq<char>, value: Seq<char>) -> Seq<char> {
    "["@ + label + "] "@ + value
}

pub open spec fn mode_label(t: RunLogTexts, m: ColumnMode) -> Seq<char> {
    match m {
        ColumnMode::Translate => t.translate_label@,
        ColumnMode::Original => t.original_label@,
        ColumnMode::Skip => t.skip_label@,
    }
}

/// The header mode, with the header suggestion while a delimited table's
/// header is undecided.
pub open spec fn header_line(t: RunLogTexts, table: TableSourceData) -> Seq<char> {
    if table.source_kind == SourceKind::DelimitedText && table.header_mode == HeaderMode::Unknown {
        t.header_mode_label@ + " ("@ + t.header_suggestion_label@ + ")"@
    } else {
        t.header_mode_label@
    }
}

/// The selected columns among the first `k` labels: number from 1, label
/// and mode.
pub open spec fn column_items(
    t: RunLogTexts,
    labels: Seq<String>,
    modes: Map<usize, ColumnMode>,
    k: int,
) -> Seq<Seq<char>>
    decreases k,
{
    if k <= 0 {
        seq![]
    } else {
        let i = k - 1;
        let before = column_items(t, labels, modes, i);
        if modes.contains_key(i as usize) && modes[i as usize] != ColumnMode::Skip {
            before.push(
                decimal((i + 1) as nat) + ": "@ + labels[i]@ + " ["@ + mode_label(t, modes[i as usize]) + "]"@,
            )
        } else {
            before
        }
    }
}

/// The items joined with `, `.
pub open spec fn joined(items: Seq<Seq<char>>) -> Seq<char>
    decreases items.len(),
{
    if items.len() == 0 {
        seq![]
    } else if items.len() == 1 {
        items[0]
    } else {
        joined(items.drop_last()) + ", "@ + items.last()
    }
}

/// The selected columns, or `-` when none is.
pub open spec fn selected_line(t: RunLogTexts, table: TableSourceData, modes: Map<usize, ColumnMode>) -> Seq<char> {
    let items = column_items(t, table.column_labels@, modes, table.column_labels@.len() as int);
    if items.len() == 0 {
        "-"@
    } else {
        joined(items)
    }
}

/// Where the run writes: the committed slot, the List output directory
/// made for the run, or the readiness when there is none.
pub open spec fn slot_line(t: RunLogTexts, action: Option<DictSlotAction>) -> Seq<char> {
    match action {
        Some(DictSlotAction::UseCommitted(p)) => t.use_committed_output_directory@ + ": "@ + p@,
        Some(DictSlotAction::CreateForRun { parent, target_lang }) => t.list_output_directory_will_be_used@
            + ": "@ + target_lang@ + " "@ + t.root@ + " "@ + parent@,
        None => t.readiness_label@,
    }
}

pub open spec fn ready(r: FileTranslateRunReadiness) -> bool {
    r.blockers@.len() == 0 && r.table_source is Some && r.dict_slot_action is Some
}

/// The lines about a table: source, kind and size, header, selected
/// columns, output directory, JSON diagnostic, then that the run is ready
/// or what it needs.
pub open spec fn table_lines(
    t: RunLogTexts,
    table: TableSourceData,
    modes: Map<usize, ColumnMode>,
    r: FileTranslateRunReadiness,
) -> Seq<Seq<char>> {
    let base = seq![
        tagged(t.source@, table.file@),
        tagged(
            t.kind@,
            t.kind_label@ + " / "@ + decimal(table.total_rows as nat) + " "@ + t.rows@ + " / "@ + decimal(
                table.column_labels@.len(),
            ) + " "@ + t.cols@,
        ),
        tagged(t.header@, header_line(t, table)),
        tagged(t.selected_columns@, selected_line(t, table, modes)),
        tagged(t.output_directory@, slot_line(t, r.dict_slot_action)),
    ];
    let diag = match table.json_diagnostic {
        Some(d) => seq![tagged(t.json_diagnostic@, d@)],
        None => seq![],
    };
    let tail = if ready(r) {
        seq![tagged(t.run@, t.ready_to_run@)]
    } else {
        t.blocker_labels@.map_values(|b: String| tagged(t.need@, b@))
    };
    base + diag + tail
}

/// The first lines of a run's log.
pub open spec fn run_log_seed(
    t: RunLogTexts,
    p: PreviewState,
    modes: Map<usize, ColumnMode>,
    r: FileTranslateRunReadiness,
) -> Seq<Seq<char>> {
    match p {
        PreviewState::Empty => seq!["[list] "@ + t.select_source_to_preview@],
        PreviewState::Error(reason) => seq!["[error] "@ + t.preview_unavailable@ + ": "@ + reason@],
        PreviewState::Ready(SourcePreview::Table(table)) => table_lines(t, table, modes, r),
        PreviewState::Ready(SourcePreview::Text(tp)) => seq![
            tagged(t.source@, tp.file@),
            tagged(t.kind@, t.kind_label@),
            tagged(t.preview@, tp.diagnostic@),
            tagged(t.run@, t.readiness_label@),
        ],
        PreviewState::Ready(SourcePreview::Binary(bp)) => seq![
            tagged(t.source@, bp.file@),
            tagged(t.kind@, t.unsupported_binary@),
            tagged(t.preview@, bp.diagnostic@),
            tagged(t.run@, t.readiness_label@),
        ],
    }
}

fn tag(label: &String, value: &str) -> (r: String)
    ensures
        r@ == tagged(label@, value@),
{
    let mut s = to_owned_string("[");
    s.append(label.as_str());
    s.append("] ");
    s.append(value);
    s
}

fn header_text(t: &RunLogTexts, table: &TableSourceData) -> (r: String)
    ensures
        r@ == header_line(*t, *table),
{
    if table.source_kind == SourceKind::DelimitedText && table.header_mode == HeaderMode::Unknown {
        let mut s = t.header_mode_label.clone();
        s.append(" (");
        s.append(t.header_suggestion_label.as_str());
        s.append(")");
        s
    } else {
        t.header_mode_label.clone()
    }
}

fn selected_text(t: &RunLogTexts, table: &TableSourceData, modes: &BTreeMap<usize, ColumnMode>) -> (r: String)
    requires
        table.column_labels@.len() < usize::MAX,
    ensures
        r@ == selected_line(*t, *table, modes@),
{
    broadcast use vstd::std_specs::btree::group_btree_axioms;

    let labels = &table.column_labels;
    let ghost items = column_items(*t, labels@, modes@, labels@.len() as int);
    let mut out = String::new();
    let mut count: usize = 0;
    let mut i: usize = 0;
    while i < labels.len()
        invariant
            i <= labels@.len(),
            labels@.len() < usize::MAX,
            labels@ == table.column_labels@,
            count == column_items(*t, labels@, modes@, i as int).len(),
            count <= i,
            out@ == joined(column_items(*t, labels@, modes@, i as int)),
        decreases labels.len() - i,
    {
        let ghost before = column_items(*t, labels@, modes@, i as int);
        match modes.get(&i) {
            Some(m) => {
                let m = *m;
                if m != ColumnMode::Skip {
                    let mut item = decimal_string(i + 1);
                    item.append(": ");
                    item.append(labels[i].as_str());
                    item.append(" [");
                    let ml = match m {
                        ColumnMode::Translate => t.translate_label.as_str(),
                        ColumnMode::Original => t.original_label.as_str(),
                        ColumnMode::Skip => t.skip_label.as_str(),
                    };
                    item.append(ml);
                    item.append("]");
                    let ghost after = before.push(item@);
                    if count > 0 {
                        out.append(", ");
                    }
                    out.append(item.as_str());
                    assert(after.drop_last() =~= before);
                    assert(out@ =~= joined(after));
                    count += 1;
                }
            },
            None => {},
        }
        i += 1;
    }
    if count == 0 {
        to_owned_string("-")
    } else {
        out
    }
}

fn slot_text(t: &RunLogTexts, action: &Option<DictSlotAction>) -> (r: String)
    ensures
        r@ == slot_line(*t, *action),
{
    match action {
        Some(DictSlotAction::UseCommitted(p)) => {
            let mut s = t.use_committed_output_directory.clone();
            s.append(": ");
            s.append(p.as_str());
            s
        },
        Some(DictSlotAction::CreateForRun { parent, target_lang }) => {
            let mut s = t.list_output_directory_will_be_used.clone();
            s.append(": ");
            s.append(target_lang.as_str());
            s.append(" ");
            s.append(t.root.as_str());
            s.append(" ");
            s.append(parent.as_str());
            s
        },
        None => t.readiness_label.clone(),
    }
}

fn table_log_lines(
    t: &RunLogTexts,
    table: &TableSourceData,
    modes: &BTreeMap<usize, ColumnMode>,
    readiness: &FileTranslateRunReadiness,
) -> (r: Vec<String>)
    requires
        table.column_labels@.len() < usize::MAX,
    ensures
        r@.map_values(|s: String| s@) == table_lines(*t, *table, modes@, *readiness),
{
    let mut kind = t.kind_label.clone();
    kind.append(" / ");
    kind.append(decimal_string(table.total_rows).as_str());
    kind.append(" ");
    kind.append(t.rows.as_str());
    kind.append(" / ");
    kind.append(decimal_string(table.column_labels.len()).as_str());
    kind.append(" ");
    kind.append(t.cols.as_str());
    let mut lines: Vec<String> = Vec::new();
    lines.push(tag(&t.source, table.file.as_str()));
    lines.push(tag(&t.kind, kind.as_str()));
    lines.push(tag(&t.header, header_text(t, table).as_str()));
    lines.push(tag(&t.selected_columns, selected_text(t, table, modes).as_str()));
    lines.push(tag(&t.output_directory, slot_text(t, &readiness.dict_slot_action).as_str()));
    let ghost base = lines@.map_values(|s: String| s@);
    match &table.json_diagnostic {
        Some(d) => {
            lines.push(tag(&t.json_diagnostic, d.as_str()));
        },
        None => {},
    }
    let ghost with_diag = lines@.map_values(|s: String| s@);
    if readiness.is_ready() {
        lines.push(tag(&t.run, t.ready_to_run.as_str()));
        assert(lines@.map_values(|s: String| s@) =~= table_lines(*t, *table, modes@, *readiness));
    } else {
        let ghost tail = t.blocker_labels@.map_values(|b: String| tagged(t.need@, b@));
        let mut j: usize = 0;
        while j < t.blocker_labels.len()
            invariant
                j <= t.blocker_labels@.len(),
                tail == t.blocker_labels@.map_values(|b: String| tagged(t.need@, b@)),
                lines@.map_values(|s: String| s@) == with_diag + tail.take(j as int),
            decreases t.blocker_labels.len() - j,
        {
            let ghost cur = lines@.map_values(|s: String| s@);
            lines.push(tag(&t.need, t.blocker_labels[j].as_str()));
            assert(lines@.map_values(|s: String| s@) =~= cur.push(tail[j as int]));
            assert(tail.take(j as int + 1) =~= tail.take(j as int).push(tail[j as int]));
            j += 1;
        }
        assert(tail.take(t.blocker_labels.len() as int) =~= tail);
        assert(lines@.map_values(|s: String| s@) =~= table_lines(*t, *table, modes@, *readiness));
    }
    lines
}

/// The first lines of a run's log: what is previewed, how a table will be
/// read and written, and whether the run can start.
pub fn build_run_log_seed(
    texts: &RunLogTexts,
    preview: &PreviewState,
    column_modes: &BTreeMap<usize, ColumnMode>,
    readiness: &FileTranslateRunReadiness,
) -> (r: Vec<String>)
    requires
        preview matches PreviewState::Ready(SourcePreview::Table(table)) ==> table.column_labels@.len() < usize::MAX,
    ensures
        r@.map_values(|s: String| s@) == run_log_seed(*texts, *preview, column_modes@, *readiness),
{
    let mut lines: Vec<String> = Vec::new();
    match preview {
        PreviewState::Empty => {
            let mut s = to_owned_string("[list] ");
            s.append(texts.select_source_to_preview.as_str());
            lines.push(s);
        },
        PreviewState::Error(reason) => {
            let mut s = to_owned_string("[error] ");
            s.append(texts.preview_unavailable.as_str());
            s.append(": ");
            s.append(reason.as_str());
            lines.push(s);
        },
        PreviewState::Ready(SourcePreview::Table(table)) => {
            return table_log_lines(texts, table, column_modes, readiness);
        },
        PreviewState::Ready(SourcePreview::Text(tp)) => {
            lines.push(tag(&texts.source, tp.file.as_str()));
            lines.push(tag(&texts.kind, texts.kind_label.as_str()));
            lines.push(tag(&texts.preview, tp.diagnostic.as_str()));
            lines.push(tag(&texts.run, texts.readiness_label.as_str()));
        },
        PreviewState::Ready(SourcePreview::Binary(bp)) => {
            lines.push(tag(&texts.source, bp.file.as_str()));
            lines.push(tag(&texts.kind, texts.unsupported_binary.as_str()));
            lines.push(tag(&texts.preview, bp.diagnostic.as_str()));
            lines.push(tag(&texts.run, texts.readiness_label.as_str()));
        },
    }
    assert(lines@.map_values(|s: String| s@) =~= run_log_seed(*texts, *preview, column_modes@, *readiness));
    lines
}

} // verus!
