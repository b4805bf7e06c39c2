//! What the file translation view holds, and whether a run can start.

use vstd::prelude::*;

use std::collections::BTreeMap;

use crate::file_translate::asset_intake::{apply_delimited_header_mode_from_unknown, header_applied};
use crate::file_translate::types::{
    clone_table, AssetSourceCandidate, ColumnMode, HeaderMode, PreviewState, SourcePreview,
    TableSourceData, TableView,
};
use crate::slot::{dict_slot_matches_target, lang_text_dir, slot_matches_target, text_dir_for_lang};
use crate::text::{chars_of, string_of, trim, trim_chars};

verus! {

/// How many rows a table preview shows at first.
pub const TABLE_PREVIEW_ROW_LIMIT: usize = 100;

/// How many lines a text preview shows at first.
pub const TEXT_PREVIEW_INITIAL_LINE_LIMIT: usize = 200;

/// The state of the file translation view, apart from the channels of its
/// background work.
pub struct FileTranslateState {
    /// Whether list mode is on; this is not whether the panel is shown.
    pub active: bool,
    pub initialized: bool,
    pub root: Option<String>,
    pub sources: Vec<AssetSourceCandidate>,
    pub selected_source: Option<String>,
    pub preview: PreviewState,
    pub preview_loading: bool,
    pub preview_target: Option<String>,
    pub preview_header_mode: HeaderMode,
    pub column_modes: BTreeMap<usize, ColumnMode>,
    pub table_preview_row_limit: usize,
    pub text_preview_line_limit: usize,
    pub scan_in_progress: bool,
}

/// A state with nothing chosen yet.
pub open spec fn fresh_state(s: FileTranslateState) -> bool {
    &&& !s.active
    &&& !s.initialized
    &&& s.sources@.len() == 0
    &&& s.selected_source is None
    &&& s.preview is Empty
    &&& !s.preview_loading
    &&& s.preview_target is None
    &&& s.preview_header_mode == HeaderMode::Unknown
    &&& s.column_modes@ == Map::<usize, ColumnMode>::empty()
    &&& s.table_preview_row_limit == TABLE_PREVIEW_ROW_LIMIT
    &&& s.text_preview_line_limit == TEXT_PREVIEW_INITIAL_LINE_LIMIT
    &&& !s.scan_in_progress
}

impl Default for FileTranslateState {
    fn default() -> (r: Self)
        ensures
            fresh_state(r),
            r.root is None,
    {
        FileTranslateState {
            active: false,
            initialized: false,
            root: None,
            sources: Vec::new(),
            selected_source: None,
            preview: PreviewState::Empty,
            preview_loading: false,
            preview_target: None,
            preview_header_mode: HeaderMode::Unknown,
            column_modes: BTreeMap::new(),
            table_preview_row_limit: TABLE_PREVIEW_ROW_LIMIT,
            text_preview_line_limit: TEXT_PREVIEW_INITIAL_LINE_LIMIT,
            scan_in_progress: false,
        }
    }
}

impl FileTranslateState {
    /// A fresh state for the given folder.
    pub fn with_root(root: Option<String>) -> (r: Self)
        ensures
            fresh_state(r),
            r.root == root,
    {
        let mut s = Self::default();
        s.root = root;
        s
    }

    /// Takes the result of a folder scan: the folder and its sources, with
    /// the selection, preview and column modes cleared.
    pub fn reset_for_root(&mut self, root: Option<String>, sources: Vec<AssetSourceCandidate>)
        ensures
            final(self).root == root,
            final(self).initialized,
            final(self).sources@ == sources@,
            final(self).active == old(self).active,
            final(self).selected_source is None,
            final(self).preview is Empty,
            !final(self).preview_loading,
            final(self).preview_target is None,
            final(self).preview_header_mode == HeaderMode::Unknown,
            final(self).column_modes@ == Map::<usize, ColumnMode>::empty(),
            final(self).table_preview_row_limit == TABLE_PREVIEW_ROW_LIMIT,
            final(self).text_preview_line_limit == TEXT_PREVIEW_INITIAL_LINE_LIMIT,
            !final(self).scan_in_progress,
    {
        self.root = root;
        self.initialized = true;
        self.sources = sources;
        self.selected_source = None;
        self.preview = PreviewState::Empty;
        self.preview_loading = false;
        self.preview_target = None;
        self.preview_header_mode = HeaderMode::Unknown;
        self.column_modes.clear();
        self.table_preview_row_limit = TABLE_PREVIEW_ROW_LIMIT;
        self.text_preview_line_limit = TEXT_PREVIEW_INITIAL_LINE_LIMIT;
        self.scan_in_progress = false;
    }

    /// Turns list mode on; nothing else changes.
    pub fn enter_list_mode(&mut self)
        ensures
            *final(self) == (FileTranslateState { active: true, ..*old(self) }),
    {
        self.active = true;
    }

    /// Turns list mode off; the scanned folder and the selection stay.
    pub fn leave_list_mode(&mut self)
        ensures
            *final(self) == (FileTranslateState { active: false, ..*old(self) }),
    {
        self.active = false;
    }

    pub fn is_list_mode(&self) -> (r: bool)
        ensures
            r == self.active,
    {
        self.active
    }
}

/// Where a run writes its output.
///
/// `UseCommitted` writes into the committed dictionary slot, which already
/// belongs to the target language. `CreateForRun` writes into
/// `dicts/{target}/text/list_output` under the given parent; it creates
/// no numbered slot, changes no committed slot and saves nothing to the
/// configuration, and the dictionary never reads what is written there.
#[derive(Debug, Clone, PartialEq, Eq)]
pub enum DictSlotAction {
    UseCommitted(String),
    CreateForRun { parent: String, target_lang: String },
}

pub enum ActionView {
    UseCommitted(Seq<char>),
    CreateForRun(Seq<char>, Seq<char>),
}

impl View for DictSlotAction {
    type V = ActionView;

    open spec fn view(&self) -> ActionView {
        match self {
            DictSlotAction::UseCommitted(p) => ActionView::UseCommitted(p@),
            DictSlotAction::CreateForRun { parent, target_lang } => ActionView::CreateForRun(
                parent@,
                target_lang@,
            ),
        }
    }
}

/// What keeps a run from starting.
#[derive(Debug, Clone, PartialEq, Eq)]
pub enum RunBlocker {
    NoSourceSelected,
    SourceMissing(String),
    PreviewLoading,
    PreviewUnavailable(String),
    TableSourceRequired,
    HeaderConfirmationRequired,
    NoColumnsSelected,
    DictSlotUnavailable(String),
}

pub enum BlockerView {
    NoSourceSelected,
    SourceMissing(Seq<char>),
    PreviewLoading,
    PreviewUnavailable(Seq<char>),
    TableSourceRequired,
    HeaderConfirmationRequired,
    NoColumnsSelected,
    DictSlotUnavailable(Seq<char>),
}

impl View for RunBlocker {
    type V = BlockerView;

    open spec fn view(&self) -> BlockerView {
        match self {
            RunBlocker::NoSourceSelected => BlockerView::NoSourceSelected,
            RunBlocker::SourceMissing(p) => BlockerView::SourceMissing(p@),
            RunBlocker::PreviewLoading => BlockerView::PreviewLoading,
            RunBlocker::PreviewUnavailable(r) => BlockerView::PreviewUnavailable(r@),
            RunBlocker::TableSourceRequired => BlockerView::TableSourceRequired,
            RunBlocker::HeaderConfirmationRequired => BlockerView::HeaderConfirmationRequired,
            RunBlocker::NoColumnsSelected => BlockerView::NoColumnsSelected,
            RunBlocker::DictSlotUnavailable(r) => BlockerView::DictSlotUnavailable(r@),
        }
    }
}

pub open spec fn blockers_view(v: Seq<RunBlocker>) -> Seq<BlockerView> {
    v.map_values(|b: RunBlocker| b@)
}

/// Whether a run can start, and with what.
#[derive(Debug, Clone)]
pub struct FileTranslateRunReadiness {
    pub selected_file: Option<String>,
    pub table_source: Option<TableSourceData>,
    pub dict_slot_action: Option<DictSlotAction>,
    pub blockers: Vec<RunBlocker>,
}

impl FileTranslateRunReadiness {
    pub fn is_ready(&self) -> (r: bool)
        ensures
            r == (self.blockers@.len() == 0 && self.table_source is Some && self.dict_slot_action is Some),
    {
        self.blockers.len() == 0 && self.table_source.is_some() && self.dict_slot_action.is_some()
    }
}

/// The table being previewed, if the preview is a table.
pub open spec fn previewed_table(p: PreviewState) -> Option<TableSourceData> {
    match p {
        PreviewState::Ready(SourcePreview::Table(t)) => Some(t),
        _ => None,
    }
}

/// Some column inside the table is translated or copied.
pub open spec fn any_column_selected(modes: Map<usize, ColumnMode>, column_count: int) -> bool {
    exists|i: usize| i < column_count && modes.contains_key(i) && modes[i] != ColumnMode::Skip
}

pub open spec fn no_target_message() -> Seq<char> {
    "Target language is required before creating a List output directory"@
}

/// The committed slot, trimmed, when it is not blank.
pub open spec fn committed_slot(c: Option<Seq<char>>) -> Option<Seq<char>> {
    match c {
        Some(s) => if trim(s).len() > 0 {
            Some(trim(s))
        } else {
            None
        },
        None => None,
    }
}

/// The output directory of a run: the committed slot where it belongs to
/// the target; else the List output directory of the target, which needs
/// a target.
pub open spec fn slot_action_spec(c: Option<Seq<char>>, target: Seq<char>, base: Seq<char>) -> Option<ActionView> {
    let t = trim(target);
    match committed_slot(c) {
        Some(s) if slot_matches_target(s, t) => Some(ActionView::UseCommitted(s)),
        _ => if t.len() == 0 {
            None
        } else {
            Some(ActionView::CreateForRun(lang_text_dir(base, t), t))
        },
    }
}

/// The blockers of a run, in the order they are checked.
pub open spec fn blockers_spec(
    state: FileTranslateState,
    c: Option<Seq<char>>,
    target: Seq<char>,
    base: Seq<char>,
    source_exists: bool,
) -> Seq<BlockerView> {
    let b1: Seq<BlockerView> = match state.selected_source {
        Some(p) => if source_exists {
            seq![]
        } else {
            seq![BlockerView::SourceMissing(p@)]
        },
        None => seq![BlockerView::NoSourceSelected],
    };
    let b2: Seq<BlockerView> = if state.preview_loading {
        seq![BlockerView::PreviewLoading]
    } else {
        seq![]
    };
    let b3: Seq<BlockerView> = match state.preview {
        PreviewState::Error(r) => seq![BlockerView::PreviewUnavailable(r@)],
        _ => seq![],
    };
    let b4: Seq<BlockerView> = match previewed_table(state.preview) {
        Some(t) => (if t.needs_header_confirmation() {
            seq![BlockerView::HeaderConfirmationRequired]
        } else {
            seq![]
        }) + (if any_column_selected(state.column_modes@, t.column_labels@.len() as int) {
            seq![]
        } else {
            seq![BlockerView::NoColumnsSelected]
        }),
        None => if state.preview is Ready {
            seq![BlockerView::TableSourceRequired]
        } else {
            seq![]
        },
    };
    let b5: Seq<BlockerView> = if slot_action_spec(c, target, base) is None {
        seq![BlockerView::DictSlotUnavailable(no_target_message())]
    } else {
        seq![]
    };
    b1 + b2 + b3 + b4 + b5
}

pub open spec fn opt_view(o: Option<&str>) -> Option<Seq<char>> {
    match o {
        Some(s) => Some(s@),
        None => None,
    }
}

fn any_selected_column(modes: &BTreeMap<usize, ColumnMode>, column_count: usize) -> (r: bool)
    ensures
        r == any_column_selected(modes@, column_count as int),
{
    broadcast use vstd::std_specs::btree::group_btree_axioms;

    let mut i: usize = 0;
    while i < column_count
        invariant
            i <= column_count,
            forall|j: usize| j < i ==> !(modes@.contains_key(j) && modes@[j] != ColumnMode::Skip),
        decreases column_count - i,
    {
        match modes.get(&i) {
            Some(m) => {
                if *m != ColumnMode::Skip {
                    return true;
                }
            },
            None => {},
        }
        i += 1;
    }
    false
}

/// Whether a run can start: the selected source, the previewed table, the
/// output directory, and what blocks the run. `source_exists` tells
/// whether the selected source is still on disk.
pub fn evaluate_run_readiness(
    state: &FileTranslateState,
    committed_dict_slot: Option<&str>,
    target_lang: &str,
    base_dir: &str,
    source_exists: bool,
) -> (r: FileTranslateRunReadiness)
    ensures
        r.selected_file == state.selected_source,
        match previewed_table(state.preview) {
            Some(t) => r.table_source matches Some(rt) && rt@ == t@,
            None => r.table_source is None,
        },
        match slot_action_spec(opt_view(committed_dict_slot), target_lang@, base_dir@) {
            Some(a) => r.dict_slot_action matches Some(ra) && ra@ == a,
            None => r.dict_slot_action is None,
        },
        blockers_view(r.blockers@) == blockers_spec(
            *state,
            opt_view(committed_dict_slot),
            target_lang@,
            base_dir@,
            source_exists,
        ),
{
    let target = string_of(&trim_chars(&chars_of(target_lang)));
    let mut blockers: Vec<RunBlocker> = Vec::new();
    let selected_file = state.selected_source.clone();
    let ghost spec_blockers = blockers_spec(
        *state,
        opt_view(committed_dict_slot),
        target_lang@,
        base_dir@,
        source_exists,
    );
    match &state.selected_source {
        Some(p) => {
            if !source_exists {
                blockers.push(RunBlocker::SourceMissing(p.clone()));
            }
        },
        None => {
            blockers.push(RunBlocker::NoSourceSelected);
        },
    }
    if state.preview_loading {
        blockers.push(RunBlocker::PreviewLoading);
    }
    let table_source: Option<TableSourceData> = match &state.preview {
        PreviewState::Ready(SourcePreview::Table(t)) => Some(clone_table(t)),
        PreviewState::Ready(_) => None,
        PreviewState::Error(reason) => {
            blockers.push(RunBlocker::PreviewUnavailable(reason.clone()));
            None
        },
        PreviewState::Empty => None,
    };
    match &state.preview {
        PreviewState::Ready(SourcePreview::Table(t)) => {
            if t.requires_header_confirmation() {
                blockers.push(RunBlocker::HeaderConfirmationRequired);
            }
            if !any_selected_column(&state.column_modes, t.column_labels.len()) {
                blockers.push(RunBlocker::NoColumnsSelected);
            }
        },
        PreviewState::Ready(_) => {
            blockers.push(RunBlocker::TableSourceRequired);
        },
        _ => {},
    }
    let committed: Option<String> = match committed_dict_slot {
        Some(c) => {
            let t = string_of(&trim_chars(&chars_of(c)));
            if t.as_str().unicode_len() > 0 {
                Some(t)
            } else {
                None
            }
        },
        None => None,
    };
    let use_committed = match &committed {
        Some(slot) => dict_slot_matches_target(slot.as_str(), target.as_str()),
        None => false,
    };
    let dict_slot_action: Option<DictSlotAction> = if use_committed {
        match committed {
            Some(slot) => Some(DictSlotAction::UseCommitted(slot)),
            None => None,
        }
    } else if target.as_str().unicode_len() == 0 {
        blockers.push(
            RunBlocker::DictSlotUnavailable(
                "Target language is required before creating a List output directory".to_string(),
            ),
        );
        None
    } else {
        let parent = text_dir_for_lang(base_dir, target.as_str());
        Some(DictSlotAction::CreateForRun { parent, target_lang: target })
    };
    assert(blockers_view(blockers@) =~= spec_blockers);
    FileTranslateRunReadiness { selected_file, table_source, dict_slot_action, blockers }
}


/// What a folder scan reports while it runs and when it is done.
#[derive(Debug, Clone)]
pub enum FileTranslateScanMessage {
    Scanned { index: usize, path: String },
    Done { root: String, sources: Vec<AssetSourceCandidate> },
}

/// What a preview load reports when it is done.
#[derive(Debug)]
pub enum FileTranslatePreviewMessage {
    Done { file: String, header_mode: HeaderMode, result: Result<SourcePreview, String> },
}

pub open spec fn is_some_text(o: Option<String>, t: Seq<char>) -> bool {
    o matches Some(x) && x@ == t
}

fn option_is(o: &Option<String>, t: &str) -> (r: bool)
    ensures
        r == is_some_text(*o, t@),
{
    match o {
        Some(x) => crate::text::str_equal(x.as_str(), t),
        None => false,
    }
}

impl FileTranslateState {
    /// Starts loading the preview of `file` under `header_mode`: it
    /// becomes the selected source and the preview's target, the preview
    /// is cleared and the limits reset; the column modes are cleared when
    /// asked.
    pub fn begin_preview_load(&mut self, file: String, header_mode: HeaderMode, reset_columns: bool)
        ensures
            is_some_text(final(self).selected_source, file@),
            is_some_text(final(self).preview_target, file@),
            final(self).preview is Empty,
            final(self).preview_loading,
            final(self).preview_header_mode == header_mode,
            final(self).table_preview_row_limit == TABLE_PREVIEW_ROW_LIMIT,
            final(self).text_preview_line_limit == TEXT_PREVIEW_INITIAL_LINE_LIMIT,
            reset_columns ==> final(self).column_modes@ == Map::<usize, ColumnMode>::empty(),
            !reset_columns ==> final(self).column_modes@ == old(self).column_modes@,
            final(self).root == old(self).root,
            final(self).sources@ == old(self).sources@,
            final(self).active == old(self).active,
    {
        self.selected_source = Some(file.clone());
        self.preview = PreviewState::Empty;
        self.preview_loading = true;
        self.preview_target = Some(file);
        self.preview_header_mode = header_mode;
        self.table_preview_row_limit = TABLE_PREVIEW_ROW_LIMIT;
        self.text_preview_line_limit = TEXT_PREVIEW_INITIAL_LINE_LIMIT;
        if reset_columns {
            self.column_modes.clear();
        }
    }

    /// Takes a finished preview load. One for another file or header mode
    /// than the current request is dropped (returns false). Otherwise the
    /// load ends: an error is shown as such; a delimited table loaded with
    /// its header undecided takes the suggested header decision.
    pub fn apply_preview_result(
        &mut self,
        file: &str,
        header_mode: HeaderMode,
        result: Result<SourcePreview, String>,
    ) -> (r: bool)
        ensures
            r == (is_some_text(old(self).selected_source, file@) && is_some_text(
                old(self).preview_target,
                file@,
            ) && old(self).preview_header_mode == header_mode),
            !r ==> *final(self) == *old(self),
            r ==> {
                &&& !final(self).preview_loading
                &&& final(self).preview_target is None
                &&& final(self).selected_source == old(self).selected_source
                &&& final(self).column_modes == old(self).column_modes
                &&& match result {
                    Err(e) => final(self).preview == PreviewState::Error(e) && final(self).preview_header_mode
                        == header_mode,
                    Ok(SourcePreview::Table(t)) => if header_mode == HeaderMode::Unknown
                        && t.source_kind == crate::file_translate::types::SourceKind::DelimitedText {
                        let resolved = if t.suggested_header {
                            HeaderMode::Present
                        } else {
                            HeaderMode::Absent
                        };
                        &&& final(self).preview_header_mode == resolved
                        &&& final(self).preview matches PreviewState::Ready(SourcePreview::Table(t2))
                        &&& t2@ == header_applied(t@, resolved)
                    } else {
                        final(self).preview == PreviewState::Ready(SourcePreview::Table(t))
                            && final(self).preview_header_mode == header_mode
                    },
                    Ok(p) => final(self).preview == PreviewState::Ready(p) && final(self).preview_header_mode
                        == header_mode,
                }
            },
    {
        let current = option_is(&self.selected_source, file) && option_is(&self.preview_target, file)
            && self.preview_header_mode == header_mode;
        if !current {
            return false;
        }
        self.preview_loading = false;
        self.preview_target = None;
        self.preview = match result {
            Ok(SourcePreview::Table(t)) => {
                if header_mode == HeaderMode::Unknown && t.supports_header_toggle() {
                    let resolved = if t.suggested_header {
                        HeaderMode::Present
                    } else {
                        HeaderMode::Absent
                    };
                    self.preview_header_mode = resolved;
                    PreviewState::Ready(SourcePreview::Table(apply_delimited_header_mode_from_unknown(t, resolved)))
                } else {
                    PreviewState::Ready(SourcePreview::Table(t))
                }
            },
            Ok(p) => PreviewState::Ready(p),
            Err(e) => PreviewState::Error(e),
        };
        true
    }

    /// The preview worker went away: a load still running ends with an
    /// error (returns true); otherwise nothing changes.
    pub fn preview_worker_lost(&mut self) -> (r: bool)
        ensures
            r == old(self).preview_loading,
            !r ==> *final(self) == *old(self),
            r ==> !final(self).preview_loading && final(self).preview_target is None,
            r ==> (final(self).preview matches PreviewState::Error(e) && e@ == "preview worker disconnected"@),
    {
        if !self.preview_loading {
            return false;
        }
        self.preview_loading = false;
        self.preview_target = None;
        self.preview = PreviewState::Error("preview worker disconnected".to_string());
        true
    }

    /// Sets a column's mode for the selected file; skipping a column
    /// forgets it. A request for another file changes nothing (false).
    pub fn set_column_mode(&mut self, file: &str, column: usize, mode: ColumnMode) -> (r: bool)
        ensures
            r == is_some_text(old(self).selected_source, file@),
            !r ==> final(self).column_modes@ == old(self).column_modes@,
            r && mode == ColumnMode::Skip ==> final(self).column_modes@ == old(self).column_modes@.remove(column),
            r && mode != ColumnMode::Skip ==> final(self).column_modes@ == old(self).column_modes@.insert(
                column,
                mode,
            ),
            final(self).selected_source == old(self).selected_source,
            final(self).preview == old(self).preview,
    {
        broadcast use vstd::std_specs::btree::group_btree_axioms;

        if !option_is(&self.selected_source, file) {
            return false;
        }
        if mode == ColumnMode::Skip {
            self.column_modes.remove(&column);
        } else {
            self.column_modes.insert(column, mode);
        }
        true
    }

    /// Starts a scan of `root`: a fresh state for it, in list mode, with
    /// the scan running.
    pub fn begin_scan(&mut self, root: String)
        ensures
            final(self).root == Some(root),
            final(self).sources@.len() == 0,
            final(self).active,
            final(self).initialized,
            final(self).scan_in_progress,
            final(self).selected_source is None,
            final(self).preview is Empty,
    {
        self.reset_for_root(Some(root), Vec::new());
        self.enter_list_mode();
        self.scan_in_progress = true;
    }

    /// Takes a finished scan; returns the first source, which is selected
    /// next, if any.
    pub fn finish_scan(&mut self, root: String, sources: Vec<AssetSourceCandidate>) -> (r: Option<String>)
        ensures
            final(self).root == Some(root),
            final(self).sources@ == sources@,
            !final(self).scan_in_progress,
            final(self).active == old(self).active,
            match r {
                Some(p) => sources@.len() > 0 && p@ == sources@[0].path@,
                None => sources@.len() == 0,
            },
    {
        let first = if sources.len() > 0 {
            Some(sources[0].path.clone())
        } else {
            None
        };
        self.reset_for_root(Some(root), sources);
        first
    }
}

} // verus!
