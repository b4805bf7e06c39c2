//! Turning a model translation of text with number markers into a
//! dictionary rule: a regular expression over the source with a capture
//! for each marker, and a replacement that puts the captures back.

use vstd::prelude::*;

use crate::text::{chars_of, matches_at, occurs_at, push_char, push_chars, to_owned_string, trim, trim_chars};
use crate::translator::restore::wrapper_span;
use crate::translator::types::PersistEntry;
use crate::translator::zm::{
    collect_numeric_runs, decimal, digit_spans, horizontal_space, is_horizontal_space,
    is_percent_sign, is_sign, minus_sign, percent_sign, plus_sign, push_decimal,
    replacements_view, run_matches, ZmNumberMapping, ZmReplacement, ZmReplacementView,
};
use crate::translator::restore::direct_wrapper_span_for_numeric_run;

verus! {

// ---------------------------------------------------------------------------
// Regular expression text
// ---------------------------------------------------------------------------

/// The characters `regex::escape` escapes.
pub open spec fn is_regex_meta(c: char) -> bool {
    c == '\\' || c == '.' || c == '+' || c == '*' || c == '?' || c == '(' || c == ')' || c == '|'
        || c == '[' || c == ']' || c == '{' || c == '}' || c == '^' || c == '$' || c == '#' || c
        == '&' || c == '-' || c == '~'
}

/// `s` with a backslash before each meta character.
pub open spec fn regex_escaped(s: Seq<char>) -> Seq<char>
    decreases s.len(),
{
    if s.len() == 0 {
        seq![]
    } else {
        regex_escaped(s.drop_last()) + if is_regex_meta(s.last()) {
            seq!['\\', s.last()]
        } else {
            seq![s.last()]
        }
    }
}

/// A backslash before each meta character of `s`, as `regex::escape`
/// writes it.
fn regex_escape(s: &str) -> (r: String)
    ensures
        r@ == regex_escaped(s@),
{
    let cs = crate::text::chars_of(s);
    let mut out = String::new();
    let mut i: usize = 0;
    while i < cs.len()
        invariant
            i <= cs@.len(),
            cs@ == s@,
            out@ == regex_escaped(cs@.take(i as int)),
        decreases cs.len() - i,
    {
        let c = cs[i];
        assert(cs@.take(i as int + 1).drop_last() =~= cs@.take(i as int));
        assert(cs@.take(i as int + 1).last() == c);
        if c == '\\' || c == '.' || c == '+' || c == '*' || c == '?' || c == '(' || c == ')' || c == '|'
            || c == '[' || c == ']' || c == '{' || c == '}' || c == '^' || c == '$' || c == '#' || c == '&'
            || c == '-' || c == '~' {
            crate::text::push_char(&mut out, '\\');
        }
        crate::text::push_char(&mut out, c);
        assert(out@ =~= regex_escaped(cs@.take(i as int + 1)));
        i += 1;
    }
    assert(cs@.take(cs.len() as int) =~= cs@);
    out
}

/// Whether `regex::Regex::new` accepts the pattern.
pub uninterp spec fn regex_accepts(pattern: Seq<char>) -> bool;

#[verifier::external_type_specification]
#[verifier::external_body]
pub struct ExRegex(regex::Regex);

/// `regex::Regex::new`. Claims only that whether it succeeds depends on
/// the pattern alone; which patterns compile is left to the regex crate,
/// and nothing is claimed of the compiled expression.
#[verifier::external_body]
pub(crate) fn compile_regex(pattern: &str) -> (r: Option<regex::Regex>)
    ensures
        r is Some <==> regex_accepts(pattern@),
{
    match regex::Regex::new(pattern) {
        Ok(re) => Some(re),
        Err(_) => None,
    }
}

/// The capture that stands for a marker with its sign and percent sign.
pub open spec fn zm_capture() -> Seq<char> {
    "([+＋\\-－−]?Z[A-Z]+Z[%％]?)"@
}

/// `s` with each `$` doubled, so a replacement reads it literally.
pub open spec fn dollar_escaped(s: Seq<char>) -> Seq<char>
    decreases s.len(),
{
    if s.len() == 0 {
        seq![]
    } else {
        dollar_escaped(s.drop_last()) + if s.last() == '$' {
            seq!['$', '$']
        } else {
            seq![s.last()]
        }
    }
}

fn push_dollar_escaped(out: &mut String, s: &[char], a: usize, b: usize)
    requires
        a <= b <= s@.len(),
    ensures
        final(out)@ == old(out)@ + dollar_escaped(s@.subrange(a as int, b as int)),
{
    let ghost start = out@;
    let mut i = a;
    while i < b
        invariant
            a <= i <= b <= s@.len(),
            out@ == start + dollar_escaped(s@.subrange(a as int, i as int)),
        decreases b - i,
    {
        assert(s@.subrange(a as int, i as int + 1).drop_last() =~= s@.subrange(a as int, i as int));
        if s[i] == '$' {
            push_char(out, '$');
            push_char(out, '$');
        } else {
            push_char(out, s[i]);
        }
        i += 1;
        assert(out@ =~= start + dollar_escaped(s@.subrange(a as int, i as int)));
    }
}

// ---------------------------------------------------------------------------
// Where the markers are in the source
// ---------------------------------------------------------------------------

/// The first occurrence of `pat` in `s` at or after `from` (`str::find`).
pub open spec fn find_from(s: Seq<char>, pat: Seq<char>, from: int) -> Option<int>
    decreases s.len() + 1 - from,
{
    if from < 0 || from + pat.len() > s.len() {
        None
    } else if occurs_at(s, pat, from) {
        Some(from)
    } else {
        find_from(s, pat, from + 1)
    }
}

proof fn lemma_find_from(s: Seq<char>, pat: Seq<char>, from: int)
    ensures
        match find_from(s, pat, from) {
            Some(p) => from <= p && p + pat.len() <= s.len() && occurs_at(s, pat, p),
            None => true,
        },
    decreases s.len() + 1 - from,
{
    if !(from < 0 || from + pat.len() > s.len()) && !occurs_at(s, pat, from) {
        lemma_find_from(s, pat, from + 1);
    }
}

fn find_from_of(s: &[char], pat: &[char], from: usize) -> (r: Option<usize>)
    requires
        from <= s@.len(),
    ensures
        match r {
            Some(p) => find_from(s@, pat@, from as int) == Some(p as int),
            None => find_from(s@, pat@, from as int) is None,
        },
{
    if pat.len() > s.len() {
        return None;
    }
    let last = s.len() - pat.len();
    if from > last {
        return None;
    }
    let mut p = from;
    while p < last
        invariant
            from <= p <= last,
            last == s@.len() - pat@.len(),
            find_from(s@, pat@, from as int) == find_from(s@, pat@, p as int),
        decreases last - p,
    {
        if matches_at(s, pat, p) {
            return Some(p);
        }
        p += 1;
    }
    if matches_at(s, pat, p) {
        Some(p)
    } else {
        assert(find_from(s@, pat@, p as int + 1) is None);
        None
    }
}

/// The spans of the replacements' source spans in the source, each found
/// after the previous one; `None` when one is missing.
pub open spec fn source_spans_from(
    source: Seq<char>,
    repls: Seq<ZmReplacementView>,
    j: int,
    from: int,
) -> Option<Seq<(int, int)>>
    decreases repls.len() - j,
{
    if j < 0 || j >= repls.len() {
        Some(seq![])
    } else {
        match find_from(source, repls[j].source_span, from) {
            None => None,
            Some(p) => match source_spans_from(
                source,
                repls,
                j + 1,
                p + repls[j].source_span.len(),
            ) {
                Some(rest) => Some(seq![(p, p + repls[j].source_span.len())] + rest),
                None => None,
            },
        }
    }
}

/// The number slots of the source in order: an existing number (`None`)
/// or the marker of capture `j` (`Some(j)`), a marker first on a tie.
pub open spec fn merge_slots(nums: Seq<(int, int)>, zms: Seq<(int, int)>, i: int, j: int) -> Seq<
    Option<int>,
>
    decreases nums.len() - i + zms.len() - j,
{
    if i < 0 || j < 0 || i > nums.len() || j > zms.len() || (i == nums.len() && j == zms.len()) {
        seq![]
    } else if i < nums.len() && (j >= zms.len() || nums[i].0 < zms[j].0) {
        seq![None] + merge_slots(nums, zms, i + 1, j)
    } else {
        seq![Some(j)] + merge_slots(nums, zms, i, j + 1)
    }
}

// ---------------------------------------------------------------------------
// Where the markers came back in the output
// ---------------------------------------------------------------------------

pub open spec fn sign_char(c: char) -> bool {
    plus_sign(c) || minus_sign(c)
}

/// The sign left of position `p`, across spaces.
pub open spec fn sign_left(out: Seq<char>, p: int) -> Option<int>
    decreases p,
{
    if p <= 0 || p > out.len() {
        None
    } else if sign_char(out[p - 1]) {
        Some(p - 1)
    } else if horizontal_space(out[p - 1]) {
        sign_left(out, p - 1)
    } else {
        None
    }
}

/// The end of the percent sign right of position `p`, across spaces.
pub open spec fn percent_right(out: Seq<char>, p: int) -> Option<int>
    decreases out.len() - p,
{
    if p < 0 || p >= out.len() {
        None
    } else if percent_sign(out[p]) {
        Some(p + 1)
    } else if horizontal_space(out[p]) {
        percent_right(out, p + 1)
    } else {
        None
    }
}

/// The span a marker's number `[s, e)` of the output stands for: with the
/// wrapper around a bare marker's number, else widened to the sign and
/// percent sign that the marker's source span had.
pub open spec fn transport_span(out: Seq<char>, s: int, e: int, repl: ZmReplacementView) -> (int, int) {
    let span = repl.source_span;
    let has_sign = span.len() > 0 && sign_char(span[0]);
    let has_percent = span.len() > 0 && percent_sign(span.last());
    let w = if repl.transport_wrapped {
        wrapper_span(out, s, e)
    } else {
        None
    };
    let start = match w {
        Some(p) => p.0,
        None => if has_sign && s > 0 && sign_left(out, s) is Some {
            sign_left(out, s)->0
        } else {
            s
        },
    };
    let end = match w {
        Some(p) => p.1,
        None => if has_percent && e < out.len() && percent_right(out, e) is Some {
            percent_right(out, e)->0
        } else {
            e
        },
    };
    (start, end)
}

/// The capture index and span of each marker slot, pairing slots with the
/// output's digit runs in order.
pub open spec fn transport_spans(
    out: Seq<char>,
    runs: Seq<(int, int)>,
    slots: Seq<Option<int>>,
    repls: Seq<ZmReplacementView>,
    k: int,
) -> Seq<(int, int, int)>
    decreases slots.len() - k,
{
    if k < 0 || k >= slots.len() || k >= runs.len() {
        seq![]
    } else {
        match slots[k] {
            None => transport_spans(out, runs, slots, repls, k + 1),
            Some(c) => {
                let sp = transport_span(out, runs[k].0, runs[k].1, repls[c]);
                seq![(c, sp.0, sp.1)] + transport_spans(out, runs, slots, repls, k + 1)
            },
        }
    }
}

/// The replacement: the output with each marker span replaced by its
/// capture reference; `None` where spans would overlap.
pub open spec fn replacement_from(out: Seq<char>, spans: Seq<(int, int, int)>, k: int, last: int) -> Option<
    Seq<char>,
>
    decreases spans.len() - k,
{
    if k < 0 || k >= spans.len() {
        if 0 <= last <= out.len() {
            Some(dollar_escaped(out.subrange(last, out.len() as int)))
        } else {
            None
        }
    } else {
        let (c, a, b) = spans[k];
        if a < last || b < a || b > out.len() || last < 0 {
            None
        } else {
            match replacement_from(out, spans, k + 1, b) {
                Some(rest) => Some(
                    dollar_escaped(out.subrange(last, a)) + seq!['$'] + decimal((c + 1) as nat) + rest,
                ),
                None => None,
            }
        }
    }
}

/// The pattern body: the escaped source with each marker span a capture.
pub open spec fn pattern_body(source: Seq<char>, spans: Seq<(int, int)>, k: int, last: int) -> Seq<
    char,
>
    decreases spans.len() - k,
{
    if k < 0 || k >= spans.len() {
        regex_escaped(source.subrange(last, source.len() as int))
    } else {
        regex_escaped(source.subrange(last, spans[k].0)) + zm_capture() + pattern_body(
            source,
            spans,
            k + 1,
            spans[k].1,
        )
    }
}

/// The rule for a model translation of `source`: its pattern and
/// replacement, when the translation is not blank, every marker is found,
/// the output has as many numbers as the source has slots, the marker spans
/// do not overlap, and the pattern compiles.
pub open spec fn zm_persist_rule(
    source: Seq<char>,
    repls: Seq<ZmReplacementView>,
    out: Seq<char>,
    restored: Seq<char>,
) -> Option<(Seq<char>, Seq<char>)> {
    if trim(restored).len() == 0 {
        None
    } else {
        match source_spans_from(source, repls, 0, 0) {
            None => None,
            Some(ss) => {
                let slots = merge_slots(digit_spans(source), ss, 0, 0);
                let runs = digit_spans(out);
                if runs.len() != slots.len() {
                    None
                } else {
                    match replacement_from(out, transport_spans(out, runs, slots, repls, 0), 0, 0) {
                        None => None,
                        Some(rep) => {
                            let pat = seq!['^'] + pattern_body(source, ss, 0, 0) + seq!['$'];
                            if regex_accepts(pat) {
                                Some((pat, rep))
                            } else {
                                None
                            }
                        },
                    }
                }
            },
        }
    }
}

} // verus!

verus! {

proof fn lemma_source_spans_ordered(s: Seq<char>, repls: Seq<ZmReplacementView>, j: int, from: int)
    requires
        0 <= j <= repls.len(),
        0 <= from <= s.len(),
    ensures
        match source_spans_from(s, repls, j, from) {
            Some(ss) => {
                &&& ss.len() == repls.len() - j
                &&& forall|x: int| 0 <= x < ss.len() ==> from <= (#[trigger] ss[x]).0 <= ss[x].1 <= s.len()
                &&& forall|x: int| 0 < x < ss.len() ==> ss[x - 1].1 <= (#[trigger] ss[x]).0
            },
            None => true,
        },
    decreases repls.len() - j,
{
    if j < repls.len() {
        lemma_find_from(s, repls[j].source_span, from);
        match find_from(s, repls[j].source_span, from) {
            None => {},
            Some(p) => {
                let end = p + repls[j].source_span.len();
                lemma_source_spans_ordered(s, repls, j + 1, end);
                match source_spans_from(s, repls, j + 1, end) {
                    Some(rest) => {
                        let ss = seq![(p, end)] + rest;
                        assert forall|x: int| 0 <= x < ss.len() implies from <= (#[trigger] ss[x]).0
                            <= ss[x].1 <= s.len() by {
                            if x > 0 {
                                assert(ss[x] == rest[x - 1]);
                            }
                        }
                        assert forall|x: int| 0 < x < ss.len() implies ss[x - 1].1 <= (#[trigger] ss[x]).0 by {
                            assert(ss[x] == rest[x - 1]);
                            if x > 1 {
                                assert(ss[x - 1] == rest[x - 2]);
                            }
                        }
                    },
                    None => {},
                }
            },
        }
    }
}

proof fn lemma_merge_slots_bounds(nums: Seq<(int, int)>, zms: Seq<(int, int)>, i: int, j: int)
    ensures
        forall|x: int|
            0 <= x < merge_slots(nums, zms, i, j).len() && (#[trigger] merge_slots(nums, zms, i, j)[x])
                is Some ==> 0 <= merge_slots(nums, zms, i, j)[x]->0 < zms.len(),
    decreases nums.len() - i + zms.len() - j,
{
    if !(i < 0 || j < 0 || i > nums.len() || j > zms.len() || (i == nums.len() && j == zms.len())) {
        if i < nums.len() && (j >= zms.len() || nums[i].0 < zms[j].0) {
            lemma_merge_slots_bounds(nums, zms, i + 1, j);
            let m = merge_slots(nums, zms, i + 1, j);
            assert forall|x: int| 0 < x < (seq![None] + m).len() implies (seq![None] + m)[x] == m[x
                - 1] by {}
        } else {
            lemma_merge_slots_bounds(nums, zms, i, j + 1);
            let m = merge_slots(nums, zms, i, j + 1);
            assert forall|x: int| 0 < x < (seq![Some(j)] + m).len() implies (seq![Some(j)]
                + m)[x] == m[x - 1] by {}
        }
    }
}

pub open spec fn spans_view(v: Seq<(usize, usize)>) -> Seq<(int, int)> {
    v.map_values(|p: (usize, usize)| (p.0 as int, p.1 as int))
}

pub open spec fn triples_view(v: Seq<(usize, usize, usize)>) -> Seq<(int, int, int)> {
    v.map_values(|p: (usize, usize, usize)| (p.0 as int, p.1 as int, p.2 as int))
}

pub open spec fn slots_view(v: Seq<Option<usize>>) -> Seq<Option<int>> {
    v.map_values(
        |o: Option<usize>|
            match o {
                Some(c) => Some(c as int),
                None => None,
            },
    )
}

fn sign_left_of(out: &[char], p: usize) -> (r: Option<usize>)
    requires
        p <= out@.len(),
    ensures
        match r {
            Some(x) => sign_left(out@, p as int) == Some(x as int),
            None => sign_left(out@, p as int) is None,
        },
{
    let mut q = p;
    while q > 0
        invariant
            q <= p <= out@.len(),
            sign_left(out@, p as int) == sign_left(out@, q as int),
        decreases q,
    {
        let c = out[q - 1];
        if is_sign(c) {
            return Some(q - 1);
        } else if is_horizontal_space(c) {
            q -= 1;
        } else {
            return None;
        }
    }
    None
}

fn percent_right_of(out: &[char], p: usize) -> (r: Option<usize>)
    requires
        p <= out@.len(),
    ensures
        match r {
            Some(x) => percent_right(out@, p as int) == Some(x as int),
            None => percent_right(out@, p as int) is None,
        },
{
    let mut q = p;
    while q < out.len()
        invariant
            p <= q <= out@.len(),
            percent_right(out@, p as int) == percent_right(out@, q as int),
        decreases out.len() - q,
    {
        let c = out[q];
        if is_percent_sign(c) {
            return Some(q + 1);
        } else if is_horizontal_space(c) {
            q += 1;
        } else {
            return None;
        }
    }
    None
}

/// The span the marker number `[s, e)` of the output stands for.
pub fn expand_transport_span(out: &[char], s: usize, e: usize, repl: &ZmReplacement) -> (r: (usize, usize))
    requires
        s <= e <= out@.len(),
    ensures
        (r.0 as int, r.1 as int) == transport_span(out@, s as int, e as int, repl@),
{
    let span = chars_of(repl.source_span.as_str());
    let has_sign = span.len() > 0 && is_sign(span[0]);
    let has_percent = span.len() > 0 && is_percent_sign(span[span.len() - 1]);
    let w = if repl.transport_wrapped {
        direct_wrapper_span_for_numeric_run(out, s, e)
    } else {
        None
    };
    let start = match w {
        Some(p) => p.0,
        None => if has_sign && s > 0 {
            match sign_left_of(out, s) {
                Some(x) => x,
                None => s,
            }
        } else {
            s
        },
    };
    let end = match w {
        Some(p) => p.1,
        None => if has_percent && e < out.len() {
            match percent_right_of(out, e) {
                Some(x) => x,
                None => e,
            }
        } else {
            e
        },
    };
    (start, end)
}

fn marker_source_spans(sc: &[char], mapping: &ZmNumberMapping) -> (r: Option<Vec<(usize, usize)>>)
    ensures
        match r {
            Some(v) => source_spans_from(sc@, replacements_view(mapping.replacements@), 0, 0)
                == Some(spans_view(v@)),
            None => source_spans_from(sc@, replacements_view(mapping.replacements@), 0, 0) is None,
        },
{
    let ghost rv = replacements_view(mapping.replacements@);
    let mut sspans: Vec<(usize, usize)> = Vec::new();
    let mut from: usize = 0;
    let mut j: usize = 0;
    assert(spans_view(sspans@) + seq![] =~= spans_view(sspans@));
    while j < mapping.replacements.len()
        invariant
            j <= mapping.replacements@.len(),
            from <= sc@.len(),
            rv == replacements_view(mapping.replacements@),
            source_spans_from(sc@, rv, 0, 0) == (match source_spans_from(
                sc@,
                rv,
                j as int,
                from as int,
            ) {
                Some(rest) => Some(spans_view(sspans@) + rest),
                None => None,
            }),
        decreases mapping.replacements.len() - j,
    {
        let pat = chars_of(mapping.replacements[j].source_span.as_str());
        assert(pat@ == rv[j as int].source_span);
        let found = find_from_of(sc, &pat, from);
        if found.is_none() {
            return None;
        }
        let p = found.unwrap();
        proof {
            lemma_find_from(sc@, pat@, from as int);
        }
        assert(p + pat@.len() <= sc@.len());
        assert(p + pat.len() <= sc.len());
        let end = p + pat.len();
        let ghost before = spans_view(sspans@);
        sspans.push((p, end));
        assert(spans_view(sspans@) =~= before.push((p as int, end as int)));
        proof {
            match source_spans_from(sc@, rv, j as int + 1, end as int) {
                Some(rest) => {
                    assert(before + (seq![(p as int, end as int)] + rest) =~= spans_view(sspans@)
                        + rest);
                },
                None => {},
            }
        }
        from = end;
        j += 1;
    }
    assert(spans_view(sspans@) + seq![] =~= spans_view(sspans@));
    Some(sspans)
}

fn source_number_slots(source: &str, sspans: &Vec<(usize, usize)>) -> (r: Vec<Option<usize>>)
    ensures
        slots_view(r@) == merge_slots(digit_spans(source@), spans_view(sspans@), 0, 0),
{
    let ghost ss = spans_view(sspans@);
    let nruns = collect_numeric_runs(source);
    let ghost nums = digit_spans(source@);
    let mut slots: Vec<Option<usize>> = Vec::new();
    let mut a: usize = 0;
    let mut b: usize = 0;
    assert(slots_view(slots@) + merge_slots(nums, ss, 0, 0) =~= merge_slots(nums, ss, 0, 0));
    while a < nruns.len() || b < sspans.len()
        invariant
            a <= nruns@.len(),
            b <= sspans@.len(),
            nruns@.len() == nums.len(),
            forall|x: int| 0 <= x < nruns@.len() ==> run_matches(source@, #[trigger] nruns@[x], nums[x]),
            ss == spans_view(sspans@),
            slots_view(slots@) + merge_slots(nums, ss, a as int, b as int) == merge_slots(nums, ss, 0, 0),
        decreases nruns.len() - a + sspans.len() - b,
    {
        let ghost before = slots_view(slots@);
        if a < nruns.len() {
            assert(run_matches(source@, nruns@[a as int], nums[a as int]));
        }
        if a < nruns.len() && (b >= sspans.len() || nruns[a].start < sspans[b].0) {
            slots.push(None);
            assert(slots_view(slots@) =~= before.push(None));
            assert(before + merge_slots(nums, ss, a as int, b as int) =~= slots_view(slots@)
                + merge_slots(nums, ss, a as int + 1, b as int));
            a += 1;
        } else {
            slots.push(Some(b));
            assert(slots_view(slots@) =~= before.push(Some(b as int)));
            assert(before + merge_slots(nums, ss, a as int, b as int) =~= slots_view(slots@)
                + merge_slots(nums, ss, a as int, b as int + 1));
            b += 1;
        }
    }
    assert(slots_view(slots@) + seq![] =~= slots_view(slots@));
    slots
}

fn marker_transport_spans(
    oc: &[char],
    model_output: &str,
    slots: &Vec<Option<usize>>,
    mapping: &ZmNumberMapping,
) -> (r: Vec<(usize, usize, usize)>)
    requires
        oc@ == model_output@,
        slots@.len() == digit_spans(model_output@).len(),
        forall|x: int|
            0 <= x < slots@.len() && (#[trigger] slots_view(slots@)[x]) is Some ==> 0
                <= slots_view(slots@)[x]->0 < mapping.replacements@.len(),
    ensures
        triples_view(r@) == transport_spans(
            oc@,
            digit_spans(model_output@),
            slots_view(slots@),
            replacements_view(mapping.replacements@),
            0,
        ),
        forall|x: int| 0 <= x < r@.len() ==> (#[trigger] r@[x]).0 < mapping.replacements@.len(),
{
    let ghost rv = replacements_view(mapping.replacements@);
    let ghost sv = slots_view(slots@);
    let ghost ospans = digit_spans(model_output@);
    let oruns = collect_numeric_runs(model_output);
    let mut tspans: Vec<(usize, usize, usize)> = Vec::new();
    let mut k: usize = 0;
    assert(triples_view(tspans@) + transport_spans(oc@, ospans, sv, rv, 0) =~= transport_spans(
        oc@,
        ospans,
        sv,
        rv,
        0,
    ));
    while k < slots.len()
        invariant
            k <= slots@.len(),
            oruns@.len() == slots@.len(),
            oruns@.len() == ospans.len(),
            oc@ == model_output@,
            sv == slots_view(slots@),
            forall|x: int|
                0 <= x < slots@.len() && (#[trigger] sv[x]) is Some ==> 0 <= sv[x]->0
                    < mapping.replacements@.len(),
            rv == replacements_view(mapping.replacements@),
            forall|x: int| 0 <= x < oruns@.len() ==> run_matches(model_output@, #[trigger] oruns@[x], ospans[x]),
            forall|x: int| 0 <= x < tspans@.len() ==> (#[trigger] tspans@[x]).0 < mapping.replacements@.len(),
            transport_spans(oc@, ospans, sv, rv, 0) == triples_view(tspans@) + transport_spans(
                oc@,
                ospans,
                sv,
                rv,
                k as int,
            ),
        decreases slots.len() - k,
    {
        let ghost before = triples_view(tspans@);
        assert(run_matches(model_output@, oruns@[k as int], ospans[k as int]));
        match slots[k] {
            None => {
                assert(sv[k as int] is None);
                assert(before + transport_spans(oc@, ospans, sv, rv, k as int) =~= before
                    + transport_spans(oc@, ospans, sv, rv, k as int + 1));
            },
            Some(c) => {
                assert(sv[k as int] == Some(c as int));
                let (x, y) = expand_transport_span(
                    oc,
                    oruns[k].start,
                    oruns[k].end,
                    &mapping.replacements[c],
                );
                tspans.push((c, x, y));
                assert(triples_view(tspans@) =~= before.push((c as int, x as int, y as int)));
                assert(before + transport_spans(oc@, ospans, sv, rv, k as int) =~= triples_view(
                    tspans@,
                ) + transport_spans(oc@, ospans, sv, rv, k as int + 1));
            },
        }
        k += 1;
    }
    assert(triples_view(tspans@) + seq![] =~= triples_view(tspans@));
    tspans
}

fn capture_replacement(oc: &[char], tspans: &Vec<(usize, usize, usize)>) -> (r: Option<String>)
    requires
        forall|x: int| 0 <= x < tspans@.len() ==> (#[trigger] tspans@[x]).0 < usize::MAX,
    ensures
        match r {
            Some(s) => replacement_from(oc@, triples_view(tspans@), 0, 0) == Some(s@),
            None => replacement_from(oc@, triples_view(tspans@), 0, 0) is None,
        },
{
    let ghost tv = triples_view(tspans@);
    let mut replacement = String::new();
    let mut last: usize = 0;
    let mut t: usize = 0;
    assert(replacement@ + seq![] =~= seq![]);
    while t < tspans.len()
        invariant
            t <= tspans@.len(),
            last <= oc@.len(),
            tv == triples_view(tspans@),
            forall|x: int| 0 <= x < tspans@.len() ==> (#[trigger] tspans@[x]).0 < usize::MAX,
            replacement_from(oc@, tv, 0, 0) == (match replacement_from(oc@, tv, t as int, last as int) {
                Some(rest) => Some(replacement@ + rest),
                None => None,
            }),
        decreases tspans.len() - t,
    {
        let (c, x, y) = tspans[t];
        assert(tv[t as int] == (c as int, x as int, y as int));
        if x < last || y < x || y > oc.len() {
            assert(replacement_from(oc@, tv, t as int, last as int) is None);
            return None;
        }
        let ghost before = replacement@;
        push_dollar_escaped(&mut replacement, oc, last, x);
        push_char(&mut replacement, '$');
        push_decimal(&mut replacement, c + 1);
        proof {
            match replacement_from(oc@, tv, t as int + 1, y as int) {
                Some(rest) => {
                    assert(before + (dollar_escaped(oc@.subrange(last as int, x as int)) + seq!['$']
                        + decimal((c + 1) as nat) + rest) =~= replacement@ + rest);
                },
                None => {},
            }
        }
        last = y;
        t += 1;
    }
    push_dollar_escaped(&mut replacement, oc, last, oc.len());
    Some(replacement)
}

fn rule_pattern(sc: &[char], sspans: &Vec<(usize, usize)>) -> (r: String)
    requires
        forall|x: int|
            0 <= x < sspans@.len() ==> 0 <= (#[trigger] spans_view(sspans@)[x]).0 <= spans_view(
                sspans@,
            )[x].1 <= sc@.len(),
        forall|x: int|
            0 < x < sspans@.len() ==> spans_view(sspans@)[x - 1].1 <= (#[trigger] spans_view(
                sspans@,
            )[x]).0,
    ensures
        r@ == seq!['^'] + pattern_body(sc@, spans_view(sspans@), 0, 0) + seq!['$'],
{
    let ghost ss = spans_view(sspans@);
    let mut pattern = String::new();
    push_char(&mut pattern, '^');
    let cap = chars_of("([+＋\\-－−]?Z[A-Z]+Z[%％]?)");
    let mut plast: usize = 0;
    let mut q: usize = 0;
    while q < sspans.len()
        invariant
            q <= sspans@.len(),
            ss == spans_view(sspans@),
            plast <= sc@.len(),
            q > 0 ==> plast as int == ss[q - 1].1,
            q == 0 ==> plast == 0,
            forall|x: int| 0 <= x < ss.len() ==> 0 <= (#[trigger] ss[x]).0 <= ss[x].1 <= sc@.len(),
            forall|x: int| 0 < x < ss.len() ==> ss[x - 1].1 <= (#[trigger] ss[x]).0,
            cap@ == zm_capture(),
            seq!['^'] + pattern_body(sc@, ss, 0, 0) == pattern@ + pattern_body(
                sc@,
                ss,
                q as int,
                plast as int,
            ),
        decreases sspans.len() - q,
    {
        let (x, y) = sspans[q];
        assert(ss[q as int] == (x as int, y as int));
        let piece = crate::text::slice_string(sc, plast, x);
        let esc = regex_escape(piece.as_str());
        let ghost before = pattern@;
        push_chars(&mut pattern, &chars_of(esc.as_str()));
        push_chars(&mut pattern, &cap);
        assert(before + pattern_body(sc@, ss, q as int, plast as int) =~= pattern@ + pattern_body(
            sc@,
            ss,
            q as int + 1,
            y as int,
        ));
        plast = y;
        q += 1;
    }
    let piece = crate::text::slice_string(sc, plast, sc.len());
    let esc = regex_escape(piece.as_str());
    push_chars(&mut pattern, &chars_of(esc.as_str()));
    push_char(&mut pattern, '$');
    assert(pattern@ =~= seq!['^'] + pattern_body(sc@, ss, 0, 0) + seq!['$']);
    pattern
}

/// The dictionary rule for a model translation of `source` with markers:
/// `model_output` is what the model wrote, `restored_output` the same with
/// the markers back.
pub fn build_zm_persist_entry(
    source: &str,
    mapping: &ZmNumberMapping,
    model_output: &str,
    restored_output: &str,
) -> (r: Option<PersistEntry>)
    ensures
        match zm_persist_rule(
            source@,
            replacements_view(mapping.replacements@),
            model_output@,
            restored_output@,
        ) {
            Some((pat, rep)) => r matches Some(PersistEntry::Regex { pattern, replacement })
                && pattern@ == pat && replacement@ == rep,
            None => r is None,
        },
{
    let ghost rv = replacements_view(mapping.replacements@);
    let rc = chars_of(restored_output);
    if trim_chars(&rc).len() == 0 {
        return None;
    }
    let sc = chars_of(source);
    let oc = chars_of(model_output);
    let sspans = match marker_source_spans(&sc, mapping) {
        Some(v) => v,
        None => {
            return None;
        },
    };
    let ghost ss = spans_view(sspans@);
    proof {
        lemma_source_spans_ordered(sc@, rv, 0, 0);
    }
    let slots = source_number_slots(source, &sspans);
    proof {
        lemma_merge_slots_bounds(digit_spans(source@), ss, 0, 0);
    }
    let oruns = collect_numeric_runs(model_output);
    if oruns.len() != slots.len() {
        return None;
    }
    let tspans = marker_transport_spans(&oc, model_output, &slots, mapping);
    let replacement = match capture_replacement(&oc, &tspans) {
        Some(r) => r,
        None => {
            return None;
        },
    };
    let pattern = rule_pattern(&sc, &sspans);
    if compile_regex(pattern.as_str()).is_none() {
        return None;
    }
    Some(PersistEntry::Regex { pattern, replacement })
}

} // verus!
