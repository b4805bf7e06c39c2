//! Types shared by the translation pipeline.

use vstd::prelude::*;

verus! {

/// Per-request knobs of the rendering and cleanup stages.
#[derive(Debug, Clone, Copy, PartialEq, Eq)]
pub struct TranslationSettings {
    pub enable_model_wrap: bool,
    pub model_wrap_min_chars: usize,
    pub model_wrap_space_fallback_min_chars: usize,
    pub enable_model_symbol_cleanup: bool,
}

/// How a translation was obtained: dictionary hits and model calls.
#[derive(Debug, Clone, Copy, PartialEq, Eq)]
pub struct TranslationStats {
    pub dict_hits: usize,
    pub model_calls: usize,
}

impl TranslationStats {
    /// Statistics of one dictionary hit.
    pub fn dict_hit() -> (r: Self)
        ensures
            r.dict_hits == 1,
            r.model_calls == 0,
    {
        Self { dict_hits: 1, model_calls: 0 }
    }

    /// Statistics of one model call.
    pub fn model_call() -> (r: Self)
        ensures
            r.dict_hits == 0,
            r.model_calls == 1,
    {
        Self { dict_hits: 0, model_calls: 1 }
    }

    /// Adds `other`'s counts to these; a count that would pass the largest
    /// `usize` stays there.
    pub fn merge(&mut self, other: &Self)
        ensures
            final(self).dict_hits == sat_add(old(self).dict_hits as int, other.dict_hits as int),
            final(self).model_calls == sat_add(old(self).model_calls as int, other.model_calls as int),
    {
        self.dict_hits = self.dict_hits.saturating_add(other.dict_hits);
        self.model_calls = self.model_calls.saturating_add(other.model_calls);
    }
}

/// `a + b`, held at the largest `usize`.
pub open spec fn sat_add(a: int, b: int) -> int {
    if a + b > usize::MAX {
        usize::MAX as int
    } else {
        a + b
    }
}

impl Default for TranslationStats {
    fn default() -> (r: Self)
        ensures
            r.dict_hits == 0,
            r.model_calls == 0,
    {
        Self { dict_hits: 0, model_calls: 0 }
    }
}

/// How a new translation is stored in the dictionary.
#[derive(Debug, Clone, PartialEq, Eq)]
pub enum PersistEntry {
    /// An exact key and value.
    Exact { key: String, value: String },
    /// A regular expression and its replacement.
    Regex { pattern: String, replacement: String },
}

/// A translation made by the model, to be stored.
#[derive(Debug, Clone, PartialEq, Eq)]
pub struct NewTranslationEntry {
    pub source: String,
    pub translated: String,
    pub persist: PersistEntry,
}

/// The mathematical value of a persist entry.
pub enum PersistView {
    Exact(Seq<char>, Seq<char>),
    Regex(Seq<char>, Seq<char>),
}

impl View for PersistEntry {
    type V = PersistView;

    open spec fn view(&self) -> PersistView {
        match self {
            PersistEntry::Exact { key, value } => PersistView::Exact(key@, value@),
            PersistEntry::Regex { pattern, replacement } => PersistView::Regex(pattern@, replacement@),
        }
    }
}

/// Source, translation and persist form of a new entry.
pub type EntryView = (Seq<char>, Seq<char>, PersistView);

impl View for NewTranslationEntry {
    type V = EntryView;

    open spec fn view(&self) -> EntryView {
        (self.source@, self.translated@, self.persist@)
    }
}

pub open spec fn entries_view(v: Seq<NewTranslationEntry>) -> Seq<EntryView> {
    v.map_values(|e: NewTranslationEntry| e@)
}

/// A copy of a persist entry.
pub fn clone_persist(p: &PersistEntry) -> (r: PersistEntry)
    ensures
        r@ == p@,
{
    match p {
        PersistEntry::Exact { key, value } => PersistEntry::Exact { key: key.clone(), value: value.clone() },
        PersistEntry::Regex { pattern, replacement } => PersistEntry::Regex {
            pattern: pattern.clone(),
            replacement: replacement.clone(),
        },
    }
}

/// A copy of a new entry.
pub fn clone_entry(e: &NewTranslationEntry) -> (r: NewTranslationEntry)
    ensures
        r@ == e@,
{
    NewTranslationEntry {
        source: e.source.clone(),
        translated: e.translated.clone(),
        persist: clone_persist(&e.persist),
    }
}

/// What happened while a text was translated; times are in microseconds.
#[derive(Debug, Clone, PartialEq, Eq)]
pub enum LogEvent {
    DictHit { original: String, translated: String, elapsed_micros: u128 },
    PreModelCall { original: String },
    ModelResult { source: String, original: String, translated: String, elapsed_micros: u128 },
    Error { message: String },
    Trace { message: String },
}

pub enum LogView {
    DictHit(Seq<char>, Seq<char>, u128),
    PreModelCall(Seq<char>),
    ModelResult(Seq<char>, Seq<char>, Seq<char>, u128),
    Error(Seq<char>),
    Trace(Seq<char>),
}

impl View for LogEvent {
    type V = LogView;

    open spec fn view(&self) -> LogView {
        match self {
            LogEvent::DictHit { original, translated, elapsed_micros } => LogView::DictHit(
                original@,
                translated@,
                *elapsed_micros,
            ),
            LogEvent::PreModelCall { original } => LogView::PreModelCall(original@),
            LogEvent::ModelResult { source, original, translated, elapsed_micros } => LogView::ModelResult(
                source@,
                original@,
                translated@,
                *elapsed_micros,
            ),
            LogEvent::Error { message } => LogView::Error(message@),
            LogEvent::Trace { message } => LogView::Trace(message@),
        }
    }
}

pub open spec fn logs_view(v: Seq<LogEvent>) -> Seq<LogView> {
    v.map_values(|e: LogEvent| e@)
}

/// The outcome of translating a text: the text, the entries to store, the
/// counts and the log.
#[derive(Debug, Clone, PartialEq, Eq)]
pub struct TranslationResult {
    pub text: String,
    pub new_entries: Vec<NewTranslationEntry>,
    pub stats: TranslationStats,
    pub logs: Vec<LogEvent>,
}

pub struct ResultView {
    pub text: Seq<char>,
    pub entries: Seq<EntryView>,
    pub dict_hits: int,
    pub model_calls: int,
    pub logs: Seq<LogView>,
}

impl View for TranslationResult {
    type V = ResultView;

    open spec fn view(&self) -> ResultView {
        ResultView {
            text: self.text@,
            entries: entries_view(self.new_entries@),
            dict_hits: self.stats.dict_hits as int,
            model_calls: self.stats.model_calls as int,
            logs: logs_view(self.logs@),
        }
    }
}

pub open spec fn empty_result(text: Seq<char>) -> ResultView {
    ResultView { text, entries: seq![], dict_hits: 0, model_calls: 0, logs: seq![] }
}

pub open spec fn dict_hit_result(text: Seq<char>, original: Seq<char>, elapsed: u128) -> ResultView {
    ResultView {
        text,
        entries: seq![],
        dict_hits: 1,
        model_calls: 0,
        logs: seq![LogView::DictHit(original, text, elapsed)],
    }
}

pub open spec fn model_success_result(text: Seq<char>, source: Seq<char>, original: Seq<char>, elapsed: u128) -> ResultView {
    ResultView {
        text,
        entries: seq![],
        dict_hits: 0,
        model_calls: 1,
        logs: seq![LogView::PreModelCall(original), LogView::ModelResult(source, original, text, elapsed)],
    }
}

pub open spec fn model_failure_result(original: Seq<char>) -> ResultView {
    ResultView {
        text: original,
        entries: seq![],
        dict_hits: 0,
        model_calls: 1,
        logs: seq![
            LogView::PreModelCall(original),
            LogView::Error("LLM call failed for: "@ + original),
        ],
    }
}

/// `a` followed by `b`: entries and logs appended, counts added.
pub open spec fn absorb_view(a: ResultView, b: ResultView) -> ResultView {
    ResultView {
        text: a.text,
        entries: a.entries + b.entries,
        dict_hits: sat_add(a.dict_hits, b.dict_hits),
        model_calls: sat_add(a.model_calls, b.model_calls),
        logs: a.logs + b.logs,
    }
}

impl TranslationResult {
    /// A result with the given text and nothing else.
    pub fn empty(text: String) -> (r: Self)
        ensures
            r@ == empty_result(text@),
    {
        let r = Self { text, new_entries: Vec::new(), stats: TranslationStats::default(), logs: Vec::new() };
        assert(entries_view(r.new_entries@) =~= seq![]);
        assert(logs_view(r.logs@) =~= seq![]);
        r
    }

    /// The result of a dictionary hit.
    pub fn from_dict_hit(text: String, original: &str, elapsed_micros: u128) -> (r: Self)
        ensures
            r@ == dict_hit_result(text@, original@, elapsed_micros),
    {
        let log = LogEvent::DictHit { original: original.to_string(), translated: text.clone(), elapsed_micros };
        let mut logs: Vec<LogEvent> = Vec::new();
        logs.push(log);
        let r = Self { text, new_entries: Vec::new(), stats: TranslationStats::dict_hit(), logs };
        assert(entries_view(r.new_entries@) =~= seq![]);
        assert(logs_view(r.logs@) =~= seq![LogView::DictHit(original@, text@, elapsed_micros)]);
        r
    }

    /// The result of a model call that answered.
    pub fn from_model_call_success(text: String, source: &str, original: &str, elapsed_micros: u128) -> (r: Self)
        ensures
            r@ == model_success_result(text@, source@, original@, elapsed_micros),
    {
        let mut logs: Vec<LogEvent> = Vec::new();
        logs.push(LogEvent::PreModelCall { original: original.to_string() });
        logs.push(
            LogEvent::ModelResult {
                source: source.to_string(),
                original: original.to_string(),
                translated: text.clone(),
                elapsed_micros,
            },
        );
        let r = Self { text, new_entries: Vec::new(), stats: TranslationStats::model_call(), logs };
        assert(entries_view(r.new_entries@) =~= seq![]);
        assert(logs_view(r.logs@) =~= seq![
            LogView::PreModelCall(original@),
            LogView::ModelResult(source@, original@, text@, elapsed_micros),
        ]);
        r
    }

    /// The result of a model call that failed: the text stays as it was.
    pub fn from_model_call_failure(original: &str) -> (r: Self)
        ensures
            r@ == model_failure_result(original@),
    {
        let mut message = "LLM call failed for: ".to_string();
        message.append(original);
        let mut logs: Vec<LogEvent> = Vec::new();
        logs.push(LogEvent::PreModelCall { original: original.to_string() });
        logs.push(LogEvent::Error { message });
        let r = Self {
            text: original.to_string(),
            new_entries: Vec::new(),
            stats: TranslationStats::model_call(),
            logs,
        };
        assert(entries_view(r.new_entries@) =~= seq![]);
        assert(logs_view(r.logs@) =~= seq![
            LogView::PreModelCall(original@),
            LogView::Error("LLM call failed for: "@ + original@),
        ]);
        r
    }

    /// Takes in `other`'s entries, counts and log.
    pub fn absorb(&mut self, other: Self)
        ensures
            final(self)@ == absorb_view(old(self)@, other@),
    {
        let ghost a = self@;
        let ghost b = other@;
        let mut other = other;
        self.new_entries.append(&mut other.new_entries);
        self.stats.merge(&other.stats);
        self.logs.append(&mut other.logs);
        assert(entries_view(self.new_entries@) =~= a.entries + b.entries);
        assert(logs_view(self.logs@) =~= a.logs + b.logs);
    }
}

} // verus!

verus! {

/// How a piece of surface text is written out.
#[derive(Debug, Clone, Copy, PartialEq, Eq)]
pub enum SurfaceKind {
    Visible,
    ProtectedAngle,
    Newline,
}

/// Text that is written out as it is.
#[derive(Debug, Clone, PartialEq, Eq)]
pub struct SurfaceNode {
    pub text: String,
    pub kind: SurfaceKind,
}

impl SurfaceNode {
    pub fn visible(text: String) -> (r: Self)
        ensures
            r.text == text,
            r.kind == SurfaceKind::Visible,
    {
        SurfaceNode { text, kind: SurfaceKind::Visible }
    }

    pub fn protected_angle(text: String) -> (r: Self)
        ensures
            r.text == text,
            r.kind == SurfaceKind::ProtectedAngle,
    {
        SurfaceNode { text, kind: SurfaceKind::ProtectedAngle }
    }

    pub fn newline(text: String) -> (r: Self)
        ensures
            r.text == text,
            r.kind == SurfaceKind::Newline,
    {
        SurfaceNode { text, kind: SurfaceKind::Newline }
    }
}

/// The source text of a fragment: the dictionary key it is looked up and
/// registered under.
#[derive(Debug, Clone, PartialEq, Eq)]
pub struct FragmentAuthority {
    pub source: String,
}

/// Text to be translated.
#[derive(Debug, Clone, PartialEq, Eq)]
pub struct FragmentNode {
    pub authority: FragmentAuthority,
}

#[derive(Debug, Clone, PartialEq, Eq)]
pub enum PlannedNode {
    Surface(SurfaceNode),
    Fragment(FragmentNode),
}

/// The mathematical value of a planned node.
pub enum NodeView {
    Surface(Seq<char>, SurfaceKind),
    Fragment(Seq<char>),
}

impl View for PlannedNode {
    type V = NodeView;

    open spec fn view(&self) -> NodeView {
        match self {
            PlannedNode::Surface(s) => NodeView::Surface(s.text@, s.kind),
            PlannedNode::Fragment(f) => NodeView::Fragment(f.authority.source@),
        }
    }
}

pub open spec fn nodes_view(v: Seq<PlannedNode>) -> Seq<NodeView> {
    v.map_values(|n: PlannedNode| n@)
}

/// A segment: its nodes and the separator after it, if any.
#[derive(Debug, Clone, PartialEq, Eq)]
pub struct PlannedSegment {
    pub nodes: Vec<PlannedNode>,
    pub trailing_separator: Option<SurfaceNode>,
}

/// A line: its segments and the line break after it, if any.
#[derive(Debug, Clone, PartialEq, Eq)]
pub struct PlannedLine {
    pub segments: Vec<PlannedSegment>,
    pub trailing_newline: Option<SurfaceNode>,
}

/// A text planned for translation.
#[derive(Debug, Clone, PartialEq, Eq)]
pub struct PlannedDocument {
    pub lines: Vec<PlannedLine>,
}

/// A fragment with its translation.
#[derive(Debug, Clone, PartialEq, Eq)]
pub struct ResolvedFragmentNode {
    pub authority: FragmentAuthority,
    pub text: String,
}

#[derive(Debug, Clone, PartialEq, Eq)]
pub enum ResolvedNode {
    Surface(SurfaceNode),
    Fragment(ResolvedFragmentNode),
}

#[derive(Debug, Clone, PartialEq, Eq)]
pub struct ResolvedSegment {
    pub nodes: Vec<ResolvedNode>,
    pub trailing_separator: Option<SurfaceNode>,
}

#[derive(Debug, Clone, PartialEq, Eq)]
pub struct ResolvedLine {
    pub segments: Vec<ResolvedSegment>,
    pub trailing_newline: Option<SurfaceNode>,
}

/// A planned text with every fragment translated.
#[derive(Debug, Clone, PartialEq, Eq)]
pub struct ResolvedDocument {
    pub lines: Vec<ResolvedLine>,
}


pub open spec fn opt_surface(s: Option<SurfaceNode>) -> Option<(Seq<char>, SurfaceKind)> {
    match s {
        Some(x) => Some((x.text@, x.kind)),
        None => None,
    }
}

/// The mathematical value of a resolved node: surface text and kind, or a
/// fragment's source and translation.
pub enum RNodeView {
    Surface(Seq<char>, SurfaceKind),
    Fragment(Seq<char>, Seq<char>),
}

impl View for ResolvedNode {
    type V = RNodeView;

    open spec fn view(&self) -> RNodeView {
        match self {
            ResolvedNode::Surface(s) => RNodeView::Surface(s.text@, s.kind),
            ResolvedNode::Fragment(f) => RNodeView::Fragment(f.authority.source@, f.text@),
        }
    }
}

pub open spec fn rnodes_view(v: Seq<ResolvedNode>) -> Seq<RNodeView> {
    v.map_values(|n: ResolvedNode| n@)
}

pub type RSegView = (Seq<RNodeView>, Option<(Seq<char>, SurfaceKind)>);

pub type RLineView = (Seq<RSegView>, Option<(Seq<char>, SurfaceKind)>);

pub open spec fn rseg_view(s: ResolvedSegment) -> RSegView {
    (rnodes_view(s.nodes@), opt_surface(s.trailing_separator))
}

pub open spec fn rline_view(l: ResolvedLine) -> RLineView {
    (l.segments@.map_values(|s: ResolvedSegment| rseg_view(s)), opt_surface(l.trailing_newline))
}

pub open spec fn rlines_view(v: Seq<ResolvedLine>) -> Seq<RLineView> {
    v.map_values(|l: ResolvedLine| rline_view(l))
}

/// A copy of a surface node.
pub fn clone_surface(s: &SurfaceNode) -> (r: SurfaceNode)
    ensures
        r.text@ == s.text@,
        r.kind == s.kind,
{
    SurfaceNode { text: s.text.clone(), kind: s.kind }
}

/// A copy of an optional surface node.
pub fn clone_opt_surface(s: &Option<SurfaceNode>) -> (r: Option<SurfaceNode>)
    ensures
        opt_surface(r) == opt_surface(*s),
{
    match s {
        Some(x) => Some(clone_surface(x)),
        None => None,
    }
}

} // verus!
