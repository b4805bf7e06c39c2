//! The snapshot of the latest completed translation shown in the input
//! analysis view, and its replay.

use vstd::prelude::*;

use crate::text::{replace_str, to_owned_string};
use crate::text::replace_all;

verus! {

/// What the analysis view shows of one completed translation.
#[derive(Debug, Clone, PartialEq, Eq)]
pub struct InputAnalysisSnapshot {
    pub raw_text: String,
    pub extracted_text: String,
    pub visible_text: String,
    pub model_inputs: Vec<String>,
    pub final_output: Option<String>,
    pub result_stale: bool,
    pub dict_hits: usize,
    pub model_calls: usize,
}

/// The mathematical value of an [`InputAnalysisSnapshot`].
pub struct SnapshotView {
    pub raw_text: Seq<char>,
    pub extracted_text: Seq<char>,
    pub visible_text: Seq<char>,
    pub model_inputs: Seq<Seq<char>>,
    pub final_output: Option<Seq<char>>,
    pub result_stale: bool,
    pub dict_hits: usize,
    pub model_calls: usize,
}

pub open spec fn strings_seq(v: Seq<String>) -> Seq<Seq<char>> {
    v.map_values(|s: String| s@)
}

pub open spec fn opt_string_view(o: Option<String>) -> Option<Seq<char>> {
    match o {
        Some(s) => Some(s@),
        None => None,
    }
}

impl View for InputAnalysisSnapshot {
    type V = SnapshotView;

    open spec fn view(&self) -> SnapshotView {
        SnapshotView {
            raw_text: self.raw_text@,
            extracted_text: self.extracted_text@,
            visible_text: self.visible_text@,
            model_inputs: strings_seq(self.model_inputs@),
            final_output: opt_string_view(self.final_output),
            result_stale: self.result_stale,
            dict_hits: self.dict_hits,
            model_calls: self.model_calls,
        }
    }
}

/// The replay state: the latest snapshot, if any.
#[derive(Debug, Clone)]
pub struct InputReplayState {
    pub latest_snapshot: Option<InputAnalysisSnapshot>,
}

impl Default for InputReplayState {
    fn default() -> (r: Self)
        ensures
            r.latest_snapshot is None,
    {
        InputReplayState { latest_snapshot: None }
    }
}

/// The authoritative payload of one completed translation.
#[derive(Debug, Clone, PartialEq, Eq)]
pub struct CompletedAnalysisPayload {
    pub raw_text: String,
    pub extracted_text: String,
    pub visible_text: String,
    pub model_inputs: Vec<String>,
    pub final_output: String,
    pub dict_hits: usize,
    pub model_calls: usize,
}

/// A completed translation as reported to the analysis view.
pub struct CompletedTranslationRecord {
    pub authority_payload: CompletedAnalysisPayload,
}

/// `text` with its CRLF line ends made LF.
pub open spec fn normalized_input(text: Seq<char>) -> Seq<char> {
    replace_all(text, "\r\n"@, "\n"@)
}

/// Makes CRLF line ends LF.
pub fn normalize_input(text: &str) -> (r: String)
    ensures
        r@ == normalized_input(text@),
{
    proof {
        reveal_strlit("\r\n");
    }
    replace_str(text, "\r\n", "\n")
}

/// The snapshot that a payload gives: texts with LF line ends, the final
/// output present and not stale.
pub open spec fn snapshot_of(p: CompletedAnalysisPayload) -> SnapshotView {
    SnapshotView {
        raw_text: normalized_input(p.raw_text@),
        extracted_text: normalized_input(p.extracted_text@),
        visible_text: normalized_input(p.visible_text@),
        model_inputs: strings_seq(p.model_inputs@),
        final_output: Some(p.final_output@),
        result_stale: false,
        dict_hits: p.dict_hits,
        model_calls: p.model_calls,
    }
}

/// The snapshot for a completed translation's payload.
pub fn build_snapshot_from_payload(payload: CompletedAnalysisPayload) -> (r: InputAnalysisSnapshot)
    ensures
        r@ == snapshot_of(payload),
{
    InputAnalysisSnapshot {
        raw_text: normalize_input(payload.raw_text.as_str()),
        extracted_text: normalize_input(payload.extracted_text.as_str()),
        visible_text: normalize_input(payload.visible_text.as_str()),
        model_inputs: payload.model_inputs,
        final_output: Some(payload.final_output),
        result_stale: false,
        dict_hits: payload.dict_hits,
        model_calls: payload.model_calls,
    }
}

fn clone_strings(v: &Vec<String>) -> (r: Vec<String>)
    ensures
        strings_seq(r@) == strings_seq(v@),
{
    let mut r: Vec<String> = Vec::new();
    let mut i: usize = 0;
    while i < v.len()
        invariant
            i <= v.len(),
            strings_seq(r@) == strings_seq(v@).take(i as int),
        decreases v.len() - i,
    {
        let ghost before = strings_seq(r@);
        r.push(v[i].clone());
        assert(strings_seq(r@) =~= before.push(v@[i as int]@));
        assert(strings_seq(v@).take(i as int + 1) =~= strings_seq(v@).take(i as int).push(
            v@[i as int]@,
        ));
        i += 1;
    }
    assert(strings_seq(v@).take(v.len() as int) =~= strings_seq(v@));
    r
}

/// A copy of a snapshot.
pub fn clone_snapshot(s: &InputAnalysisSnapshot) -> (r: InputAnalysisSnapshot)
    ensures
        r@ == s@,
{
    InputAnalysisSnapshot {
        raw_text: s.raw_text.clone(),
        extracted_text: s.extracted_text.clone(),
        visible_text: s.visible_text.clone(),
        model_inputs: clone_strings(&s.model_inputs),
        final_output: match &s.final_output {
            Some(t) => Some(t.clone()),
            None => None,
        },
        result_stale: s.result_stale,
        dict_hits: s.dict_hits,
        model_calls: s.model_calls,
    }
}

/// Builds the snapshot of a completed translation, stores it as the
/// latest one and returns it.
pub fn record_completed_translation(
    replay_state: &mut InputReplayState,
    record: CompletedTranslationRecord,
) -> (r: InputAnalysisSnapshot)
    ensures
        r@ == snapshot_of(record.authority_payload),
        final(replay_state).latest_snapshot matches Some(s) && s@ == r@,
{
    let snapshot = build_snapshot_from_payload(record.authority_payload);
    replay_state.latest_snapshot = Some(clone_snapshot(&snapshot));
    snapshot
}

pub open spec fn stale_marked(s: SnapshotView, marked: bool) -> SnapshotView {
    SnapshotView { result_stale: if marked { true } else { s.result_stale }, ..s }
}

/// The latest snapshot, if any; with `mark_result_stale` a snapshot that
/// has a final output is marked stale, in the state too.
pub fn rebuild_latest_snapshot(replay_state: &mut InputReplayState, mark_result_stale: bool) -> (r:
    Option<InputAnalysisSnapshot>)
    ensures
        old(replay_state).latest_snapshot is None ==> r is None && final(replay_state).latest_snapshot is None,
        old(replay_state).latest_snapshot matches Some(s) ==> {
            let marked = mark_result_stale && s@.final_output is Some;
            &&& r matches Some(x) && x@ == stale_marked(s@, marked)
            &&& final(replay_state).latest_snapshot matches Some(y) && y@ == r.unwrap()@
        },
{
    let mut snapshot = match &replay_state.latest_snapshot {
        Some(s) => clone_snapshot(s),
        None => {
            return None;
        },
    };
    if mark_result_stale && snapshot.final_output.is_some() {
        snapshot.result_stale = true;
        replay_state.latest_snapshot = Some(clone_snapshot(&snapshot));
    }
    Some(snapshot)
}

} // verus!
