//! The translation server's own rules: request limits, reading a request
//! body, what a batch of texts comes to, and committing new entries.

use vstd::prelude::*;

use crate::analysis::CompletedAnalysisPayload;
use crate::config::{ascii_lowercase, ascii_lowercase_chars};
use crate::text::{
    utf8_text, chars_of, contains_chars, contains_seq, matches_at, occurs_at, replace_all, replace_str,
    slice_string, string_of, trim, trim_chars,
};
use crate::translator::cache::{has_key, NewEntriesCache, TranslationCache};
use crate::translator::zm::{decimal, decimal_string};
use crate::translator::types::{
    entries_view, logs_view, sat_add, EntryView, LogEvent, LogView, NewTranslationEntry, PersistEntry,
    PersistView, TranslationResult, TranslationStats,
};

verus! {

/// The most texts one `/list` request may carry.
pub const MAX_LIST_ITEMS: usize = 1024;

/// The most bytes the texts of one `/list` request may hold together.
pub const MAX_LIST_TOTAL_BYTES: usize = 524288;

/// The largest `/translate` request body, in bytes; it stays below the
/// `/list` limit, so an oversized body is refused before it is logged or
/// read.
pub const MAX_TRANSLATE_BODY_BYTES: usize = 98304;

/// The largest text one `/translate` request may carry, in bytes.
pub const MAX_TRANSLATE_TEXT_BYTES: usize = 65536;

/// The largest payload of one TCP request, in bytes.
pub const TCP_MAX_PAYLOAD_BYTES: usize = 65536;

/// A `/translate` request: the text under `text` or `content`.
#[derive(Debug, Clone, PartialEq, Eq)]
pub struct TranslateRequest {
    pub text: Option<String>,
    pub content: Option<String>,
}

/// A `/list` request.
#[derive(Debug, Clone, PartialEq, Eq)]
pub struct ListRequest {
    pub texts: Vec<String>,
}

/// The answer to a `/list` request.
#[derive(Debug, Clone, PartialEq, Eq)]
pub struct ListResponse {
    pub texts: Vec<String>,
}

// ---------------------------------------------------------------------------
// Previews and sizes
// ---------------------------------------------------------------------------

/// How many characters a preview keeps.
pub const PREVIEW_LIMIT: usize = 80;

/// A one-line preview: carriage returns dropped, line breaks shown as
/// ` [nl] `, and at most the first 80 characters, with `...` after them
/// where the text was longer.
pub open spec fn preview_spec(text: Seq<char>) -> Seq<char> {
    let normalized = replace_all(replace_all(text, "\r"@, ""@), "\n"@, " [nl] "@);
    if normalized.len() > PREVIEW_LIMIT {
        normalized.take(PREVIEW_LIMIT as int) + "..."@
    } else {
        normalized
    }
}

pub fn preview_text(text: &str) -> (r: String)
    ensures
        r@ == preview_spec(text@),
{
    proof {
        reveal_strlit("\r");
        reveal_strlit("\n");
        reveal_strlit("");
    }
    let a = replace_str(text, "\r", "");
    let b = replace_str(a.as_str(), "\n", " [nl] ");
    let cs = chars_of(b.as_str());
    if cs.len() > PREVIEW_LIMIT {
        let mut out = crate::text::slice_string(&cs, 0, PREVIEW_LIMIT);
        out.append("...");
        assert(cs@.subrange(0, PREVIEW_LIMIT as int) =~= cs@.take(PREVIEW_LIMIT as int));
        out
    } else {
        b
    }
}

/// The UTF-8 size of a text in bytes.
pub open spec fn byte_len(t: Seq<char>) -> int {
    (vstd::utf8::encode_utf8(t).len() as usize) as int
}

/// The byte sizes of the texts added up.
pub open spec fn total_bytes(texts: Seq<String>) -> int
    decreases texts.len(),
{
    if texts.len() == 0 {
        0
    } else {
        total_bytes(texts.drop_last()) + byte_len(texts.last()@)
    }
}

/// The byte sizes of the texts added up; a sum past the largest `usize`
/// stays there.
pub fn total_list_request_bytes(texts: &[String]) -> (r: usize)
    ensures
        r == (if total_bytes(texts@) > usize::MAX {
            usize::MAX as int
        } else {
            total_bytes(texts@)
        }),
{
    let mut sum: usize = 0;
    let mut i: usize = 0;
    assert(texts@.take(0) =~= Seq::<String>::empty());
    while i < texts.len()
        invariant
            i <= texts@.len(),
            sum == (if total_bytes(texts@.take(i as int)) > usize::MAX {
                usize::MAX as int
            } else {
                total_bytes(texts@.take(i as int))
            }),
        decreases texts.len() - i,
    {
        assert(texts@.take(i as int + 1).drop_last() =~= texts@.take(i as int));
        proof {
            lemma_total_bytes_nonneg(texts@.take(i as int));
        }
        let n = texts[i].as_str().len();
        sum = sum.saturating_add(n);
        i += 1;
    }
    assert(texts@.take(texts.len() as int) =~= texts@);
    sum
}

proof fn lemma_total_bytes_nonneg(texts: Seq<String>)
    ensures
        total_bytes(texts) >= 0,
    decreases texts.len(),
{
    if texts.len() > 0 {
        lemma_total_bytes_nonneg(texts.drop_last());
    }
}

/// The texts sent to the model, in the order of the log.
pub open spec fn model_inputs_spec(logs: Seq<LogView>) -> Seq<Seq<char>>
    decreases logs.len(),
{
    if logs.len() == 0 {
        seq![]
    } else {
        let p = model_inputs_spec(logs.drop_last());
        match logs.last() {
            LogView::PreModelCall(o) => p.push(o),
            _ => p,
        }
    }
}

pub open spec fn strings_view(v: Seq<String>) -> Seq<Seq<char>> {
    v.map_values(|s: String| s@)
}

/// The texts a translation sent to the model.
pub fn model_inputs_from_logs(logs: &[LogEvent]) -> (r: Vec<String>)
    ensures
        strings_view(r@) == model_inputs_spec(logs_view(logs@)),
{
    let ghost lv = logs_view(logs@);
    let mut out: Vec<String> = Vec::new();
    let mut i: usize = 0;
    assert(lv.take(0) =~= Seq::<LogView>::empty());
    assert(strings_view(out@) =~= seq![]);
    while i < logs.len()
        invariant
            i <= logs@.len(),
            lv == logs_view(logs@),
            strings_view(out@) == model_inputs_spec(lv.take(i as int)),
        decreases logs.len() - i,
    {
        assert(lv.take(i as int + 1).drop_last() =~= lv.take(i as int));
        assert(lv.take(i as int + 1).last() == logs@[i as int]@);
        let ghost before = strings_view(out@);
        match &logs[i] {
            LogEvent::PreModelCall { original } => {
                out.push(original.clone());
                assert(strings_view(out@) =~= before.push(original@));
            },
            _ => {},
        }
        i += 1;
    }
    assert(lv.take(logs.len() as int) =~= lv);
    out
}

// ---------------------------------------------------------------------------
// Batches
// ---------------------------------------------------------------------------

/// What one text of a batch came to, for the diagnostics.
#[derive(Debug, Clone)]
pub struct ItemDiagnostics {
    pub raw_text: String,
    pub extracted_text: String,
    pub visible_text: String,
    pub input_preview: String,
    pub dict_hits: usize,
    pub model_calls: usize,
    pub model_inputs: Vec<String>,
}

/// The translations of a batch of texts, in order, with everything they
/// gathered.
#[derive(Debug)]
pub struct BatchTranslationOutput {
    pub texts: Vec<String>,
    pub new_entries: Vec<crate::translator::types::NewTranslationEntry>,
    pub stats: TranslationStats,
    pub logs: Vec<LogEvent>,
    pub item_diagnostics: Vec<ItemDiagnostics>,
}

impl Default for BatchTranslationOutput {
    fn default() -> (r: Self)
        ensures
            r.texts@.len() == 0,
            r.new_entries@.len() == 0,
            r.stats.dict_hits == 0,
            r.stats.model_calls == 0,
            r.logs@.len() == 0,
            r.item_diagnostics@.len() == 0,
    {
        BatchTranslationOutput {
            texts: Vec::new(),
            new_entries: Vec::new(),
            stats: TranslationStats::default(),
            logs: Vec::new(),
            item_diagnostics: Vec::new(),
        }
    }
}

/// The lines joined with line breaks.
pub open spec fn join_lines(lines: Seq<Seq<char>>) -> Seq<char>
    decreases lines.len(),
{
    if lines.len() == 0 {
        seq![]
    } else if lines.len() == 1 {
        lines[0]
    } else {
        join_lines(lines.drop_last()) + "\n"@ + lines.last()
    }
}

/// The model inputs of all items, in order.
pub open spec fn all_model_inputs(items: Seq<ItemDiagnostics>) -> Seq<Seq<char>>
    decreases items.len(),
{
    if items.len() == 0 {
        seq![]
    } else {
        all_model_inputs(items.drop_last()) + strings_view(items.last().model_inputs@)
    }
}

pub open spec fn raw_texts(items: Seq<ItemDiagnostics>) -> Seq<Seq<char>> {
    items.map_values(|d: ItemDiagnostics| d.raw_text@)
}

pub open spec fn extracted_texts(items: Seq<ItemDiagnostics>) -> Seq<Seq<char>> {
    items.map_values(|d: ItemDiagnostics| d.extracted_text@)
}

pub open spec fn visible_texts(items: Seq<ItemDiagnostics>) -> Seq<Seq<char>> {
    items.map_values(|d: ItemDiagnostics| d.visible_text@)
}

pub(crate) fn join_with_newlines(lines: &Vec<String>) -> (r: String)
    ensures
        r@ == join_lines(strings_view(lines@)),
{
    proof {
        reveal_strlit("\n");
    }
    let ghost lv = strings_view(lines@);
    let mut out = String::new();
    let mut i: usize = 0;
    assert(lv.take(0) =~= Seq::<Seq<char>>::empty());
    while i < lines.len()
        invariant
            i <= lines@.len(),
            lv == strings_view(lines@),
            out@ == join_lines(lv.take(i as int)),
        decreases lines.len() - i,
    {
        assert(lv.take(i as int + 1).drop_last() =~= lv.take(i as int));
        if i > 0 {
            out.append("\n");
        } else {
            assert(lv.take(1)[0] == lv[0]);
        }
        out.append(lines[i].as_str());
        i += 1;
    }
    assert(lv.take(lines.len() as int) =~= lv);
    out
}

/// The analysis payload of a completed batch: the items' texts joined by
/// line breaks, all their model inputs, the final output and the counts;
/// `None` for a batch without items.
pub fn build_completed_analysis_payload(
    batch: &BatchTranslationOutput,
    final_output: &str,
) -> (r: Option<CompletedAnalysisPayload>)
    ensures
        batch.item_diagnostics@.len() == 0 <==> r is None,
        r matches Some(p) ==> {
            &&& p.raw_text@ == join_lines(raw_texts(batch.item_diagnostics@))
            &&& p.extracted_text@ == join_lines(extracted_texts(batch.item_diagnostics@))
            &&& p.visible_text@ == join_lines(visible_texts(batch.item_diagnostics@))
            &&& strings_view(p.model_inputs@) == all_model_inputs(batch.item_diagnostics@)
            &&& p.final_output@ == final_output@
            &&& p.dict_hits == batch.stats.dict_hits
            &&& p.model_calls == batch.stats.model_calls
        },
{
    if batch.item_diagnostics.len() == 0 {
        return None;
    }
    let ghost items = batch.item_diagnostics@;
    let mut raws: Vec<String> = Vec::new();
    let mut extracted: Vec<String> = Vec::new();
    let mut visible: Vec<String> = Vec::new();
    let mut inputs: Vec<String> = Vec::new();
    let mut i: usize = 0;
    assert(items.take(0) =~= Seq::<ItemDiagnostics>::empty());
    assert(strings_view(inputs@) =~= seq![]);
    assert(strings_view(raws@) =~= raw_texts(items.take(0)));
    assert(strings_view(extracted@) =~= extracted_texts(items.take(0)));
    assert(strings_view(visible@) =~= visible_texts(items.take(0)));
    while i < batch.item_diagnostics.len()
        invariant
            i <= items.len(),
            items == batch.item_diagnostics@,
            strings_view(raws@) == raw_texts(items.take(i as int)),
            strings_view(extracted@) == extracted_texts(items.take(i as int)),
            strings_view(visible@) == visible_texts(items.take(i as int)),
            strings_view(inputs@) == all_model_inputs(items.take(i as int)),
        decreases batch.item_diagnostics.len() - i,
    {
        let item = &batch.item_diagnostics[i];
        assert(items.take(i as int + 1).drop_last() =~= items.take(i as int));
        assert(items.take(i as int + 1).last() == *item);
        let ghost r0 = strings_view(raws@);
        let ghost e0 = strings_view(extracted@);
        let ghost v0 = strings_view(visible@);
        let ghost rp = raws@;
        let ghost ep = extracted@;
        let ghost vp = visible@;
        let rc = item.raw_text.clone();
        let ec = item.extracted_text.clone();
        let vc = item.visible_text.clone();
        raws.push(rc);
        extracted.push(ec);
        visible.push(vc);
        assert(raws@ == rp.push(rc) && extracted@ == ep.push(ec) && visible@ == vp.push(vc));
        assert(strings_view(raws@) =~= r0.push(item.raw_text@));
        assert(strings_view(extracted@) =~= e0.push(item.extracted_text@));
        assert(strings_view(visible@) =~= v0.push(item.visible_text@));
        assert(raw_texts(items.take(i as int + 1)) =~= raw_texts(items.take(i as int)).push(item.raw_text@));
        assert(extracted_texts(items.take(i as int + 1)) =~= extracted_texts(items.take(i as int)).push(item.extracted_text@));
        assert(visible_texts(items.take(i as int + 1)) =~= visible_texts(items.take(i as int)).push(item.visible_text@));
        assert(strings_view(raws@) =~= raw_texts(items.take(i as int + 1)));
        assert(strings_view(extracted@) =~= extracted_texts(items.take(i as int + 1)));
        assert(strings_view(visible@) =~= visible_texts(items.take(i as int + 1)));
        let mut j: usize = 0;
        let ghost base = strings_view(inputs@);
        while j < item.model_inputs.len()
            invariant
                j <= item.model_inputs@.len(),
                strings_view(inputs@) == base + strings_view(item.model_inputs@).take(j as int),
            decreases item.model_inputs.len() - j,
        {
            let ghost before = strings_view(inputs@);
            let ghost ip = inputs@;
            let c = item.model_inputs[j].clone();
            inputs.push(c);
            assert(inputs@ == ip.push(c));
            assert(strings_view(inputs@) =~= before.push(c@));
            assert(strings_view(item.model_inputs@).take(j as int + 1) =~= strings_view(item.model_inputs@).take(j as int).push(item.model_inputs@[j as int]@));
            assert(strings_view(inputs@) =~= base + strings_view(item.model_inputs@).take(j as int + 1));
            j += 1;
        }
        assert(strings_view(item.model_inputs@).take(item.model_inputs.len() as int) =~= strings_view(
            item.model_inputs@,
        ));
        i += 1;
    }
    assert(items.take(items.len() as int) =~= items);
    Some(
        CompletedAnalysisPayload {
            raw_text: join_with_newlines(&raws),
            extracted_text: join_with_newlines(&extracted),
            visible_text: join_with_newlines(&visible),
            model_inputs: inputs,
            final_output: final_output.to_string(),
            dict_hits: batch.stats.dict_hits,
            model_calls: batch.stats.model_calls,
        },
    )
}


// ---------------------------------------------------------------------------
// Reading a request body
// ---------------------------------------------------------------------------

/// `s` cut at each `c`.
pub open spec fn split_char(s: Seq<char>, c: char) -> Seq<Seq<char>>
    decreases s.len(),
{
    if s.len() == 0 {
        seq![seq![]]
    } else {
        let p = split_char(s.drop_last(), c);
        if s.last() == c {
            p.push(seq![])
        } else {
            p.update(p.len() - 1, p.last().push(s.last()))
        }
    }
}

proof fn lemma_split_char_nonempty(s: Seq<char>, c: char)
    ensures
        split_char(s, c).len() >= 1,
    decreases s.len(),
{
    if s.len() > 0 {
        lemma_split_char_nonempty(s.drop_last(), c);
    }
}

fn split_on_char(s: &[char], c: char) -> (r: Vec<Vec<char>>)
    ensures
        r@.map_values(|v: Vec<char>| v@) == split_char(s@, c),
{
    let mut pieces: Vec<Vec<char>> = Vec::new();
    let mut cur: Vec<char> = Vec::new();
    let mut i: usize = 0;
    assert(s@.take(0) =~= Seq::<char>::empty());
    assert(pieces@.map_values(|v: Vec<char>| v@).push(cur@) =~= split_char(s@.take(0), c));
    while i < s.len()
        invariant
            i <= s@.len(),
            pieces@.map_values(|v: Vec<char>| v@).push(cur@) == split_char(s@.take(i as int), c),
        decreases s.len() - i,
    {
        assert(s@.take(i as int + 1).drop_last() =~= s@.take(i as int));
        let ghost pv = pieces@.map_values(|v: Vec<char>| v@);
        if s[i] == c {
            let mut done: Vec<char> = Vec::new();
            std::mem::swap(&mut done, &mut cur);
            pieces.push(done);
            assert(pieces@.map_values(|v: Vec<char>| v@).push(cur@) =~= pv.push(done@).push(seq![]));
        } else {
            cur.push(s[i]);
            assert(pieces@.map_values(|v: Vec<char>| v@).push(cur@) =~= pv.push(cur@));
        }
        i += 1;
    }
    assert(s@.take(s.len() as int) =~= s@);
    pieces.push(cur);
    pieces
}

/// The part of `s` before its first `c`, and what follows that `c` (empty
/// where `s` has no `c`).
pub open spec fn split_first(s: Seq<char>, c: char) -> (Seq<char>, Seq<char>) {
    if exists|i: int| 0 <= i < s.len() && s[i] == c {
        let i = choose|i: int| 0 <= i < s.len() && s[i] == c && forall|j: int| 0 <= j < i ==> s[j] != c;
        (s.take(i), s.skip(i + 1))
    } else {
        (s, seq![])
    }
}

fn split_first_char(s: &[char], c: char) -> (r: (String, String))
    ensures
        (r.0@, r.1@) == split_first(s@, c),
{
    let mut i: usize = 0;
    while i < s.len()
        invariant
            i <= s@.len(),
            forall|j: int| 0 <= j < i ==> s@[j] != c,
        decreases s.len() - i,
    {
        if s[i] == c {
            let a = slice_string(s, 0, i);
            let b = slice_string(s, i + 1, s.len());
            proof {
                let k = choose|k: int| 0 <= k < s@.len() && s@[k] == c && forall|j: int| 0 <= j < k ==> s@[j] != c;
                assert(k == i as int) by {
                    if k < i {
                    } else if k > i {
                        assert(s@[i as int] == c);
                    }
                }
                assert(s@.take(i as int) =~= s@.subrange(0, i as int));
                assert(s@.skip(i as int + 1) =~= s@.subrange(i as int + 1, s@.len() as int));
            }
            return (a, b);
        }
        i += 1;
    }
    (string_of(s), String::new())
}

/// What percent-decoding gives for a text (`urlencoding::decode`): `None`
/// where the decoded bytes are not UTF-8.
pub uninterp spec fn url_decoded(v: Seq<char>) -> Option<Seq<char>>;

/// `urlencoding::decode`. Claims: the result is `url_decoded` of the text.
#[verifier::external_body]
fn url_decode(value: &str) -> (r: Option<String>)
    ensures
        match r {
            Some(d) => url_decoded(value@) == Some(d@),
            None => url_decoded(value@) is None,
        },
{
    match urlencoding::decode(value) {
        Ok(decoded) => Some(decoded.into_owned()),
        Err(_) => None,
    }
}

/// The first `text` or `content` field of a form body whose value decodes.
pub open spec fn form_text_from(pairs: Seq<Seq<char>>, i: int) -> Option<Seq<char>>
    decreases pairs.len() - i,
{
    if i < 0 || i >= pairs.len() {
        None
    } else {
        let (k, v) = split_first(pairs[i], '=');
        let key = trim(k);
        if key != "text"@ && key != "content"@ {
            form_text_from(pairs, i + 1)
        } else {
            match url_decoded(v) {
                Some(d) => Some(d),
                None => form_text_from(pairs, i + 1),
            }
        }
    }
}

/// Reads the text of a form body (`text=...` or `content=...`).
pub fn parse_form_text(body: &str) -> (r: Option<String>)
    ensures
        opt_view(r) == form_text_from(split_char(body@, '&'), 0),
{
    proof {
        reveal_strlit("text");
        reveal_strlit("content");
    }
    let bc = chars_of(body);
    let pairs = split_on_char(&bc, '&');
    let ghost pv = pairs@.map_values(|v: Vec<char>| v@);
    let mut i: usize = 0;
    while i < pairs.len()
        invariant
            i <= pairs@.len(),
            pv == pairs@.map_values(|v: Vec<char>| v@),
            pv == split_char(body@, '&'),
            form_text_from(pv, 0) == form_text_from(pv, i as int),
        decreases pairs.len() - i,
    {
        let (k, v) = split_first_char(&pairs[i], '=');
        let key = string_of(&trim_chars(&chars_of(k.as_str())));
        let is_text = crate::text::str_equal(key.as_str(), "text");
        let is_content = crate::text::str_equal(key.as_str(), "content");
        if is_text || is_content {
            match url_decode(v.as_str()) {
                Some(d) => {
                    return Some(d);
                },
                None => {},
            }
        }
        i += 1;
    }
    None
}

pub open spec fn opt_view(o: Option<String>) -> Option<Seq<char>> {
    match o {
        Some(s) => Some(s@),
        None => None,
    }
}

pub open spec fn starts_with(s: Seq<char>, p: Seq<char>) -> bool {
    occurs_at(s, p, 0)
}

/// The body reads as JSON: by its content type, or by its opening brace.
pub open spec fn json_like(ct: Seq<char>, body: Seq<char>) -> bool {
    contains_seq(ct, "application/json"@) || starts_with(body, "{"@)
}

/// The body reads as a form: by its content type, or by its fields.
pub open spec fn form_like(ct: Seq<char>, body: Seq<char>) -> bool {
    ||| contains_seq(ct, "application/x-www-form-urlencoded"@)
    ||| starts_with(body, "text="@)
    ||| starts_with(body, "content="@)
    ||| contains_seq(body, "&text="@)
    ||| contains_seq(body, "&content="@)
}

/// The text of a `/translate` body: none for an empty, non-UTF-8 or blank
/// body; the `text` (else `content`) field of a JSON request; the first
/// decodable `text` or `content` field of a form; else the whole body as
/// it came, edges included.
pub open spec fn post_text_spec(
    content_type: Option<Seq<char>>,
    body: Seq<u8>,
    json_request: Option<(Option<Seq<char>>, Option<Seq<char>>)>,
) -> Option<Seq<char>> {
    if body.len() == 0 || !vstd::utf8::valid_utf8(body) {
        None
    } else {
        let text = vstd::utf8::decode_utf8(body);
        let view = trim(text);
        let ct = ascii_lowercase(
            match content_type {
                Some(c) => c,
                None => seq![],
            },
        );
        let from_json: Option<Seq<char>> = if json_like(ct, view) {
            match json_request {
                Some((Some(t), _)) => Some(t),
                Some((None, Some(c))) => Some(c),
                _ => None,
            }
        } else {
            None
        };
        if view.len() == 0 {
            None
        } else if from_json is Some {
            from_json
        } else if form_like(ct, view) && form_text_from(split_char(view, '&'), 0) is Some {
            form_text_from(split_char(view, '&'), 0)
        } else {
            Some(text)
        }
    }
}

pub open spec fn request_view(r: Option<TranslateRequest>) -> Option<(Option<Seq<char>>, Option<Seq<char>>)> {
    match r {
        Some(q) => Some((opt_view(q.text), opt_view(q.content))),
        None => None,
    }
}

/// The text of a `/translate` request body. `json_request` is the trimmed
/// body read as a JSON request, where it is one.
pub fn extract_translate_post_text(
    content_type: Option<&str>,
    body: &[u8],
    json_request: Option<TranslateRequest>,
) -> (r: Option<String>)
    ensures
        opt_view(r) == post_text_spec(
            match content_type {
                Some(c) => Some(c@),
                None => None,
            },
            body@,
            request_view(json_request),
        ),
{
    proof {
        reveal_strlit("application/json");
        reveal_strlit("{");
        reveal_strlit("application/x-www-form-urlencoded");
        reveal_strlit("text=");
        reveal_strlit("content=");
        reveal_strlit("&text=");
        reveal_strlit("&content=");
    }
    if body.len() == 0 {
        return None;
    }
    let body_text = match utf8_text(body) {
        Some(t) => t,
        None => {
            return None;
        },
    };
    let view = trim_chars(&chars_of(body_text.as_str()));
    if view.len() == 0 {
        return None;
    }
    let ct_raw: Vec<char> = match content_type {
        Some(c) => chars_of(c),
        None => Vec::new(),
    };
    let ct = ascii_lowercase_chars(&ct_raw);
    let json = contains_chars(&ct, &chars_of("application/json")) || matches_at(&view, &chars_of("{"), 0);
    if json {
        match json_request {
            Some(req) => {
                match req.text {
                    Some(t) => {
                        return Some(t);
                    },
                    None => match req.content {
                        Some(c) => {
                            return Some(c);
                        },
                        None => {},
                    },
                }
            },
            None => {},
        }
    }
    let form = contains_chars(&ct, &chars_of("application/x-www-form-urlencoded"))
        || matches_at(&view, &chars_of("text="), 0)
        || matches_at(&view, &chars_of("content="), 0)
        || contains_chars(&view, &chars_of("&text="))
        || contains_chars(&view, &chars_of("&content="));
    if form {
        let vs = string_of(&view);
        match parse_form_text(vs.as_str()) {
            Some(t) => {
                return Some(t);
            },
            None => {},
        }
    }
    Some(body_text)
}

// ---------------------------------------------------------------------------
// Refusing requests
// ---------------------------------------------------------------------------

/// Why a request is refused, with the status and text answered.
#[derive(Debug, Clone, Copy, PartialEq, Eq, Structural)]
pub enum Rejection {
    /// 400 "no text"
    NoText,
    /// 400 "no texts"
    NoTexts,
    /// 400 "too many texts for /list"
    TooManyTexts,
    /// 400 "list payload too large"
    ListTooLarge,
    /// 413 "translate request body too large"
    BodyTooLarge,
    /// 413 "translate text too large"
    TextTooLarge,
}

impl Rejection {
    /// The HTTP status answered.
    pub fn status(self) -> (r: u16)
        ensures
            r == (match self {
                Rejection::BodyTooLarge | Rejection::TextTooLarge => 413u16,
                _ => 400u16,
            }),
    {
        match self {
            Rejection::BodyTooLarge | Rejection::TextTooLarge => 413,
            _ => 400,
        }
    }

    /// The text answered.
    pub fn message(self) -> (r: &'static str)
        ensures
            r@ == (match self {
                Rejection::NoText => "no text"@,
                Rejection::NoTexts => "no texts"@,
                Rejection::TooManyTexts => "too many texts for /list"@,
                Rejection::ListTooLarge => "list payload too large"@,
                Rejection::BodyTooLarge => "translate request body too large"@,
                Rejection::TextTooLarge => "translate text too large"@,
            }),
    {
        match self {
            Rejection::NoText => "no text",
            Rejection::NoTexts => "no texts",
            Rejection::TooManyTexts => "too many texts for /list",
            Rejection::ListTooLarge => "list payload too large",
            Rejection::BodyTooLarge => "translate request body too large",
            Rejection::TextTooLarge => "translate text too large",
        }
    }
}

/// A `/list` request is refused when it has no texts, more than 1024
/// texts, or more than 512 KiB of text; otherwise it is taken.
pub fn check_list_request(texts: &[String]) -> (r: Option<Rejection>)
    ensures
        r == (if texts@.len() == 0 {
            Some(Rejection::NoTexts)
        } else if texts@.len() > MAX_LIST_ITEMS {
            Some(Rejection::TooManyTexts)
        } else if total_bytes(texts@) > MAX_LIST_TOTAL_BYTES {
            Some(Rejection::ListTooLarge)
        } else {
            None::<Rejection>
        }),
{
    if texts.len() == 0 {
        return Some(Rejection::NoTexts);
    }
    if texts.len() > MAX_LIST_ITEMS {
        return Some(Rejection::TooManyTexts);
    }
    if total_list_request_bytes(texts) > MAX_LIST_TOTAL_BYTES {
        return Some(Rejection::ListTooLarge);
    }
    None
}

/// A `/translate` body over 96 KiB is refused before it is read.
pub fn check_translate_body(body_len: usize) -> (r: Option<Rejection>)
    ensures
        r == (if body_len > MAX_TRANSLATE_BODY_BYTES {
            Some(Rejection::BodyTooLarge)
        } else {
            None::<Rejection>
        }),
{
    if body_len > MAX_TRANSLATE_BODY_BYTES {
        Some(Rejection::BodyTooLarge)
    } else {
        None
    }
}

/// The text of a `/translate` request is refused when empty or over 64 KiB.
pub fn check_translate_text(text: &str) -> (r: Option<Rejection>)
    ensures
        r == (if text@.len() == 0 {
            Some(Rejection::NoText)
        } else if byte_len(text@) > MAX_TRANSLATE_TEXT_BYTES {
            Some(Rejection::TextTooLarge)
        } else {
            None::<Rejection>
        }),
{
    if text.unicode_len() == 0 {
        return Some(Rejection::NoText);
    }
    if text.len() > MAX_TRANSLATE_TEXT_BYTES {
        return Some(Rejection::TextTooLarge);
    }
    None
}

/// What a translation route does besides translating.
#[derive(Debug, Clone, Copy, PartialEq, Eq)]
pub struct PipelineBehavior {
    pub use_dictionary_lookup: bool,
    pub emit_dictionary_events: bool,
    pub commit_new_entries: bool,
    pub emit_word_logs: bool,
    pub emit_stats: bool,
    pub emit_observations: bool,
}

impl PipelineBehavior {
    /// `/translate`: everything on.
    pub fn normal_translate() -> (r: Self)
        ensures
            r == (PipelineBehavior {
                use_dictionary_lookup: true,
                emit_dictionary_events: true,
                commit_new_entries: true,
                emit_word_logs: true,
                emit_stats: true,
                emit_observations: true,
            }),
    {
        PipelineBehavior {
            use_dictionary_lookup: true,
            emit_dictionary_events: true,
            commit_new_entries: true,
            emit_word_logs: true,
            emit_stats: true,
            emit_observations: true,
        }
    }

    /// `/list`: no dictionary lookup, nothing committed or counted; only
    /// the word logs.
    pub fn list_mode() -> (r: Self)
        ensures
            r == (PipelineBehavior {
                use_dictionary_lookup: false,
                emit_dictionary_events: false,
                commit_new_entries: false,
                emit_word_logs: true,
                emit_stats: false,
                emit_observations: false,
            }),
    {
        PipelineBehavior {
            use_dictionary_lookup: false,
            emit_dictionary_events: false,
            commit_new_entries: false,
            emit_word_logs: true,
            emit_stats: false,
            emit_observations: false,
        }
    }
}


// ---------------------------------------------------------------------------
// Batch items
// ---------------------------------------------------------------------------

/// The diagnostics of one translated text.
pub fn item_diagnostics_for(text: &str, result: &TranslationResult) -> (r: ItemDiagnostics)
    ensures
        r.raw_text@ == text@,
        r.extracted_text@ == text@,
        r.visible_text@ == text@,
        r.input_preview@ == preview_spec(text@),
        r.dict_hits == result.stats.dict_hits,
        r.model_calls == result.stats.model_calls,
        strings_view(r.model_inputs@) == model_inputs_spec(logs_view(result.logs@)),
{
    ItemDiagnostics {
        raw_text: text.to_string(),
        extracted_text: text.to_string(),
        visible_text: text.to_string(),
        input_preview: preview_text(text),
        dict_hits: result.stats.dict_hits,
        model_calls: result.stats.model_calls,
        model_inputs: model_inputs_from_logs(result.logs.as_slice()),
    }
}

/// Adds one text's result to a batch, after those before it.
pub fn append_batch_item(output: &mut BatchTranslationOutput, result: TranslationResult, diagnostics: ItemDiagnostics)
    ensures
        strings_view(final(output).texts@) == strings_view(old(output).texts@).push(result.text@),
        entries_view(final(output).new_entries@) == entries_view(old(output).new_entries@) + entries_view(
            result.new_entries@,
        ),
        logs_view(final(output).logs@) == logs_view(old(output).logs@) + logs_view(result.logs@),
        final(output).stats.dict_hits == sat_add(
            old(output).stats.dict_hits as int,
            result.stats.dict_hits as int,
        ),
        final(output).stats.model_calls == sat_add(
            old(output).stats.model_calls as int,
            result.stats.model_calls as int,
        ),
        final(output).item_diagnostics@ == old(output).item_diagnostics@.push(diagnostics),
{
    let ghost t0 = output.texts@;
    let ghost e0 = output.new_entries@;
    let ghost l0 = output.logs@;
    let ghost rt = result.text@;
    let ghost re = result.new_entries@;
    let ghost rl = result.logs@;
    let mut result = result;
    output.logs.append(&mut result.logs);
    output.new_entries.append(&mut result.new_entries);
    output.stats.merge(&result.stats);
    let text = result.text;
    output.texts.push(text);
    output.item_diagnostics.push(diagnostics);
    assert(strings_view(output.texts@) =~= strings_view(t0).push(rt));
    assert(entries_view(output.new_entries@) =~= entries_view(e0) + entries_view(re));
    assert(logs_view(output.logs@) =~= logs_view(l0) + logs_view(rl));
}

/// Where a dictionary lookup found its value.
#[derive(Debug, Clone, Copy, PartialEq, Eq, Structural)]
pub enum LookupSource {
    Disabled,
    CacheSource,
    DictionarySource,
    CacheValue,
    DictionaryValue,
    Miss,
}

/// The lookup a translation uses: with lookup on, the session cache by
/// source, then the dictionary by source (a hit is cached), then the
/// session cache by value, then the dictionary by value. Returns the
/// value, where it was found, and whether it is to be cached.
pub fn lookup_decision(
    use_dictionary_lookup: bool,
    cache_source: Option<String>,
    dictionary_source: Option<String>,
    cache_value: Option<String>,
    dictionary_value: Option<String>,
) -> (r: (Option<String>, LookupSource, bool))
    ensures
        !use_dictionary_lookup ==> r.0 is None && r.1 == LookupSource::Disabled && !r.2,
        use_dictionary_lookup ==> match (cache_source, dictionary_source, cache_value, dictionary_value) {
            (Some(v), _, _, _) => opt_view(r.0) == Some(v@) && r.1 == LookupSource::CacheSource && !r.2,
            (None, Some(v), _, _) => opt_view(r.0) == Some(v@) && r.1 == LookupSource::DictionarySource
                && r.2,
            (None, None, Some(v), _) => opt_view(r.0) == Some(v@) && r.1 == LookupSource::CacheValue
                && !r.2,
            (None, None, None, Some(v)) => opt_view(r.0) == Some(v@) && r.1
                == LookupSource::DictionaryValue && !r.2,
            (None, None, None, None) => r.0 is None && r.1 == LookupSource::Miss && !r.2,
        },
{
    if !use_dictionary_lookup {
        return (None, LookupSource::Disabled, false);
    }
    match cache_source {
        Some(v) => {
            return (Some(v), LookupSource::CacheSource, false);
        },
        None => {},
    }
    match dictionary_source {
        Some(v) => {
            return (Some(v), LookupSource::DictionarySource, true);
        },
        None => {},
    }
    match cache_value {
        Some(v) => {
            return (Some(v), LookupSource::CacheValue, false);
        },
        None => {},
    }
    match dictionary_value {
        Some(v) => (Some(v), LookupSource::DictionaryValue, false),
        None => (None, LookupSource::Miss, false),
    }
}

// ---------------------------------------------------------------------------
// Committing new entries
// ---------------------------------------------------------------------------

/// How many new entries were committed, by kind.
#[derive(Debug, Clone, Copy, PartialEq, Eq)]
pub struct CommitSummary {
    pub regex_registered: usize,
    pub regex_skipped: usize,
    pub exact_committed: usize,
}

pub open spec fn exact_count(entries: Seq<EntryView>) -> int
    decreases entries.len(),
{
    if entries.len() == 0 {
        0
    } else {
        exact_count(entries.drop_last()) + if entries.last().2 is Exact {
            1int
        } else {
            0int
        }
    }
}

pub open spec fn regex_count(entries: Seq<EntryView>) -> int
    decreases entries.len(),
{
    if entries.len() == 0 {
        0
    } else {
        regex_count(entries.drop_last()) + if entries.last().2 is Regex {
            1int
        } else {
            0int
        }
    }
}

/// The session cache's sources after the exact entries are committed.
pub open spec fn sources_after(m: Map<Seq<char>, Seq<char>>, entries: Seq<EntryView>) -> Map<Seq<char>, Seq<char>>
    decreases entries.len(),
{
    if entries.len() == 0 {
        m
    } else {
        let p = sources_after(m, entries.drop_last());
        match entries.last().2 {
            PersistView::Exact(k, v) => p.insert(k, v),
            PersistView::Regex(_, _) => p,
        }
    }
}

/// The session cache's values after the exact entries are committed.
pub open spec fn values_after(m: Map<Seq<char>, Seq<char>>, entries: Seq<EntryView>) -> Map<Seq<char>, Seq<char>>
    decreases entries.len(),
{
    if entries.len() == 0 {
        m
    } else {
        let p = values_after(m, entries.drop_last());
        match entries.last().2 {
            PersistView::Exact(_, v) => if v.len() > 0 && !p.contains_key(v) {
                p.insert(v, v)
            } else {
                p
            },
            PersistView::Regex(_, _) => p,
        }
    }
}

/// The key under which a registered regular expression is saved.
pub open spec fn regex_save_key(pattern: Seq<char>) -> Seq<char> {
    "r:\""@ + pattern + "\""@
}

proof fn lemma_counts_nonneg(entries: Seq<EntryView>)
    ensures
        0 <= exact_count(entries) <= entries.len(),
        0 <= regex_count(entries) <= entries.len(),
        exact_count(entries) + regex_count(entries) == entries.len(),
    decreases entries.len(),
{
    if entries.len() > 0 {
        lemma_counts_nonneg(entries.drop_last());
    }
}

/// Commits a batch's new entries: an exact entry goes into the session
/// cache and the save queue; a regular expression is registered with the
/// live dictionary through `register`, and only when that succeeds is it
/// queued for saving as `r:"pattern"`, with no exact entry in its place.
pub fn commit_new_entries<R>(
    register: &R,
    t_cache: &mut TranslationCache,
    n_cache: &mut NewEntriesCache,
    entries: &[NewTranslationEntry],
) -> (r: CommitSummary) where R: Fn(String, String) -> bool
    requires
        forall|p: String, q: String| #[trigger] call_requires(*register, (p, q)),
        old(n_cache).well_formed(),
    ensures
        r.exact_committed == exact_count(entries_view(entries@)),
        r.regex_registered + r.regex_skipped == regex_count(entries_view(entries@)),
        final(t_cache).sources() == sources_after(old(t_cache).sources(), entries_view(entries@)),
        final(t_cache).values() == values_after(old(t_cache).values(), entries_view(entries@)),
        final(n_cache).well_formed(),
        forall|k: Seq<char>| has_key(old(n_cache)@, k) ==> has_key(final(n_cache)@, k),
        forall|i: int|
            0 <= i < entries@.len() ==> (#[trigger] entries@[i].persist@ matches PersistView::Exact(k, _)
                ==> has_key(final(n_cache)@, k)),
{
    proof {
        reveal_strlit("r:\"");
        reveal_strlit("\"");
    }
    let ghost ev = entries_view(entries@);
    let ghost s0 = t_cache.sources();
    let ghost v0 = t_cache.values();
    let ghost n0 = n_cache@;
    let mut summary = CommitSummary { regex_registered: 0, regex_skipped: 0, exact_committed: 0 };
    let mut i: usize = 0;
    assert(ev.take(0) =~= Seq::<EntryView>::empty());
    while i < entries.len()
        invariant
            i <= entries@.len(),
            ev == entries_view(entries@),
            summary.exact_committed == exact_count(ev.take(i as int)),
            summary.regex_registered + summary.regex_skipped == regex_count(ev.take(i as int)),
            t_cache.sources() == sources_after(s0, ev.take(i as int)),
            t_cache.values() == values_after(v0, ev.take(i as int)),
            n_cache.well_formed(),
            forall|k: Seq<char>| has_key(n0, k) ==> has_key(n_cache@, k),
            forall|j: int|
                0 <= j < i ==> (#[trigger] entries@[j].persist@ matches PersistView::Exact(k, _) ==> has_key(
                    n_cache@,
                    k,
                )),
            forall|p: String, q: String| #[trigger] call_requires(*register, (p, q)),
        decreases entries.len() - i,
    {
        assert(ev.take(i as int + 1).drop_last() =~= ev.take(i as int));
        assert(ev.take(i as int + 1).last() == entries@[i as int]@);
        proof {
            lemma_counts_nonneg(ev.take(i as int));
        }
        let entry = &entries[i];
        let ghost nb = n_cache@;
        match &entry.persist {
            PersistEntry::Exact { key, value } => {
                t_cache.insert(key.clone(), value.clone());
                n_cache.insert(key.clone(), value.clone());
                proof {
                    crate::translator::cache::lemma_first_insert_wins(nb, n_cache@, key@, value@);
                }
                summary.exact_committed = summary.exact_committed + 1;
            },
            PersistEntry::Regex { pattern, replacement } => {
                let registered = register(pattern.clone(), replacement.clone());
                if registered {
                    let mut save_key = "r:\"".to_string();
                    save_key.append(pattern.as_str());
                    save_key.append("\"");
                    n_cache.insert(save_key, replacement.clone());
                    proof {
                        crate::translator::cache::lemma_first_insert_wins(nb, n_cache@, regex_save_key(pattern@), replacement@);
                    }
                    summary.regex_registered = summary.regex_registered + 1;
                } else {
                    summary.regex_skipped = summary.regex_skipped + 1;
                }
            },
        }
        proof {
            assert forall|k: Seq<char>| has_key(nb, k) implies has_key(n_cache@, k) by {
                let q = choose|q: int| 0 <= q < nb.len() && (#[trigger] nb[q]).0 == k;
                assert(n_cache@[q] == nb[q]);
            }
        }
        i += 1;
    }
    assert(ev.take(entries.len() as int) =~= ev);
    summary
}


/// The diagnostic lines of a batch: a summary of the request, then one line
/// per item that took more than one model call. A batch without items
/// has none.
pub open spec fn batch_diagnostics_spec(
    route: Seq<char>,
    items: Seq<ItemDiagnostics>,
    stats: TranslationStats,
) -> Seq<Seq<char>> {
    if items.len() == 0 {
        Seq::empty()
    } else {
        seq![
            route + " request: items="@ + decimal(items.len()) + ", model_calls="@ + decimal(
                stats.model_calls as nat,
            ) + ", dict_hits="@ + decimal(stats.dict_hits as nat) + ", segmented_items="@
                + decimal(segmented_count(items, items.len() as int)),
        ] + split_item_lines(route, items, items.len() as int)
    }
}

/// How many of the first `n` items took more than one model call.
pub open spec fn segmented_count(items: Seq<ItemDiagnostics>, n: int) -> nat
    decreases n,
{
    if n <= 0 {
        0
    } else {
        segmented_count(items, n - 1) + if items[n - 1].model_calls > 1 {
            1nat
        } else {
            0nat
        }
    }
}

/// The lines for the first `n` items that took more than one model call.
pub open spec fn split_item_lines(route: Seq<char>, items: Seq<ItemDiagnostics>, n: int) -> Seq<Seq<char>>
    decreases n,
{
    if n <= 0 {
        Seq::empty()
    } else if items[n - 1].model_calls > 1 {
        split_item_lines(route, items, n - 1).push(
            route + " item#"@ + decimal(n as nat) + " split into "@ + decimal(
                items[n - 1].model_calls as nat,
            ) + " model calls (dict_hits="@ + decimal(items[n - 1].dict_hits as nat) + "): "@
                + items[n - 1].input_preview@,
        )
    } else {
        split_item_lines(route, items, n - 1)
    }
}

/// The diagnostic lines for a batch sent to `route`.
pub fn batch_diagnostic_lines(route: &str, batch: &BatchTranslationOutput) -> (r: Vec<String>)
    ensures
        r@.map_values(|s: String| s@) == batch_diagnostics_spec(route@, batch.item_diagnostics@, batch.stats),
{
    let items = &batch.item_diagnostics;
    let mut out: Vec<String> = Vec::new();
    if items.len() == 0 {
        assert(out@.map_values(|s: String| s@) =~= Seq::<Seq<char>>::empty());
        return out;
    }
    let mut segmented: usize = 0;
    let mut lines: Vec<String> = Vec::new();
    let mut i: usize = 0;
    while i < items.len()
        invariant
            i <= items@.len(),
            segmented == segmented_count(items@, i as int),
            segmented <= i,
            lines@.map_values(|s: String| s@) == split_item_lines(route@, items@, i as int),
        decreases items.len() - i,
    {
        let item = &items[i];
        if item.model_calls > 1 {
            segmented += 1;
            let mut l = route.to_string();
            l.append(" item#");
            l.append(decimal_string(i + 1).as_str());
            l.append(" split into ");
            l.append(decimal_string(item.model_calls).as_str());
            l.append(" model calls (dict_hits=");
            l.append(decimal_string(item.dict_hits).as_str());
            l.append("): ");
            l.append(item.input_preview.as_str());
            let ghost before = lines@.map_values(|s: String| s@);
            lines.push(l);
            assert(lines@.map_values(|s: String| s@) =~= before.push(l@));
        }
        i += 1;
    }
    let mut head = route.to_string();
    head.append(" request: items=");
    head.append(decimal_string(items.len()).as_str());
    head.append(", model_calls=");
    head.append(decimal_string(batch.stats.model_calls).as_str());
    head.append(", dict_hits=");
    head.append(decimal_string(batch.stats.dict_hits).as_str());
    head.append(", segmented_items=");
    head.append(decimal_string(segmented).as_str());
    out.push(head);
    let mut k: usize = 0;
    while k < lines.len()
        invariant
            k <= lines@.len(),
            out@.map_values(|s: String| s@) == seq![head@] + lines@.map_values(|s: String| s@).take(k as int),
        decreases lines.len() - k,
    {
        let l = lines[k].clone();
        assert(l@ == lines@[k as int]@);
        let ghost before = out@.map_values(|s: String| s@);
        out.push(l);
        assert(out@.map_values(|s: String| s@) =~= before.push(l@));
        assert(lines@.map_values(|s: String| s@).take(k as int + 1) =~= lines@.map_values(|s: String| s@).take(k as int).push(l@));
        assert(out@.map_values(|s: String| s@) =~= seq![head@] + lines@.map_values(|s: String| s@).take(k as int + 1));
        k += 1;
    }
    assert(lines@.map_values(|s: String| s@).take(lines@.len() as int) =~= lines@.map_values(|s: String| s@));
    out
}
} // verus!

verus! {

/// The prompt the server sends with each text: the plain prompt for the
/// target language when there is no background text, else the prompt built
/// from the template with the background text.
pub open spec fn current_prompt(
    tgt_lang: Seq<char>,
    custom_lang_name: Seq<char>,
    prompt_template: Seq<char>,
    background_text: Seq<char>,
) -> Seq<char> {
    if trim(background_text).len() == 0 {
        crate::translator::lang::fallback_prompt(tgt_lang)
    } else {
        crate::translator::lang::lang_prefix(tgt_lang, custom_lang_name, prompt_template, background_text)
    }
}

/// The prompt for the current languages, template and background text.
pub fn current_prefix(
    src_lang: &str,
    tgt_lang: &str,
    custom_lang_name: &str,
    prompt_template: &str,
    background_text: &str,
) -> (r: String)
    ensures
        r@ == current_prompt(tgt_lang@, custom_lang_name@, prompt_template@, background_text@),
{
    if trim_chars(&chars_of(background_text)).len() == 0 {
        return crate::translator::lang::fallback_prefix(tgt_lang);
    }
    crate::translator::lang::build_lang_prefix(src_lang, tgt_lang, custom_lang_name, prompt_template, background_text)
}

} // verus!
