//! Turning the transport numbers in a model's output back into the number
//! markers they stand for.

use vstd::prelude::*;

use rustc_hash::FxHashMap;

use crate::text::{chars_of, push_char, push_chars};
use crate::translator::zm::{
    apply_cjk_digit_fallback, ascii_of_cjk, cjk_fallback, cjk_of_ascii, is_digit, replace_char, collect_existing_number_tokens, collect_numeric_runs,
    digit_spans, horizontal_space, is_horizontal_space, is_minus_sign, is_percent_sign, is_sign,
    minus_sign, normalized_digits, percent_sign, plus_sign, replacements_view, run_matches,
    run_tokens_of, strs_view, token_set_contains, token_set_contents, ZmNumberMapping,
    ZmReplacement, ZmReplacementView,
};

verus! {

// ---------------------------------------------------------------------------
// The number index
// ---------------------------------------------------------------------------

/// What an `FxHashMap<String, usize>` maps, by the characters of its keys.
pub uninterp spec fn index_map_contents(m: FxHashMap<String, usize>) -> Map<Seq<char>, usize>;

/// An empty map (`FxHashMap::default`). Claims: it maps nothing.
#[verifier::external_body]
pub(crate) fn index_map_new() -> (r: FxHashMap<String, usize>)
    ensures
        index_map_contents(r).dom() == Set::<Seq<char>>::empty(),
{
    FxHashMap::default()
}

/// `HashMap::insert`. Claims: afterwards `key` maps to `value` and every
/// other key as before, since `String` keys compare by content.
#[verifier::external_body]
pub(crate) fn index_map_insert(m: &mut FxHashMap<String, usize>, key: String, value: usize)
    ensures
        index_map_contents(*final(m)) == index_map_contents(*old(m)).insert(key@, value),
{
    m.insert(key, value);
}

/// `HashMap::get`. Claims: the value `key` maps to, if any.
#[verifier::external_body]
pub(crate) fn index_map_get(m: &FxHashMap<String, usize>, key: &str) -> (r: Option<usize>)
    ensures
        match r {
            Some(v) => index_map_contents(*m).contains_key(key@) && index_map_contents(*m)[key@] == v,
            None => !index_map_contents(*m).contains_key(key@),
        },
{
    m.get(key).copied()
}

/// The index of the last replacement for `number`.
pub open spec fn last_index_for(repls: Seq<ZmReplacementView>, number: Seq<char>) -> Option<int>
    decreases repls.len(),
{
    if repls.len() == 0 {
        None
    } else if repls.last().number == number {
        Some(repls.len() - 1)
    } else {
        last_index_for(repls.drop_last(), number)
    }
}

proof fn lemma_last_index_for(repls: Seq<ZmReplacementView>, number: Seq<char>)
    ensures
        match last_index_for(repls, number) {
            Some(k) => 0 <= k < repls.len() && repls[k].number == number,
            None => true,
        },
    decreases repls.len(),
{
    if repls.len() > 0 {
        lemma_last_index_for(repls.drop_last(), number);
    }
}

/// The map from each number to the index of its last replacement.
pub open spec fn number_index(repls: Seq<ZmReplacementView>) -> Map<Seq<char>, usize> {
    Map::new(
        |n: Seq<char>| last_index_for(repls, n) is Some,
        |n: Seq<char>| last_index_for(repls, n)->0 as usize,
    )
}

fn build_number_index(repls: &Vec<ZmReplacement>) -> (r: FxHashMap<String, usize>)
    ensures
        index_map_contents(r) == number_index(replacements_view(repls@)),
{
    let ghost rv = replacements_view(repls@);
    let mut m = index_map_new();
    assert(index_map_contents(m) =~= number_index(rv.take(0)));
    let mut i: usize = 0;
    while i < repls.len()
        invariant
            i <= repls.len(),
            rv == replacements_view(repls@),
            index_map_contents(m) == number_index(rv.take(i as int)),
        decreases repls.len() - i,
    {
        let ghost before = rv.take(i as int);
        let ghost after = rv.take(i as int + 1);
        assert(after.drop_last() =~= before);
        assert(after.last() == repls@[i as int]@);
        index_map_insert(&mut m, repls[i].number.clone(), i);
        assert(index_map_contents(m) =~= number_index(after));
        i += 1;
    }
    assert(rv.take(repls.len() as int) =~= rv);
    m
}

// ---------------------------------------------------------------------------
// Wrappers and restored surfaces
// ---------------------------------------------------------------------------

/// The quote and bracket pairs a transport number may come back wrapped in.
pub open spec fn direct_wrapper_pair(open: char, close: char) -> bool {
    ||| open == '「' && close == '」'
    ||| open == '(' && close == ')'
    ||| open == '（' && close == '）'
    ||| open == '"' && close == '"'
    ||| open == '\u{201C}' && close == '\u{201D}'
    ||| open == '\u{201D}' && close == '\u{201D}'
}

fn is_direct_wrapper_pair(open: char, close: char) -> (r: bool)
    ensures
        r == direct_wrapper_pair(open, close),
{
    (open == '「' && close == '」') || (open == '(' && close == ')') || (open == '（' && close
        == '）') || (open == '"' && close == '"') || (open == '\u{201C}' && close == '\u{201D}')
        || (open == '\u{201D}' && close == '\u{201D}')
}

/// The span of the run `[s, e)` together with the wrapper directly around it.
pub open spec fn wrapper_span(t: Seq<char>, s: int, e: int) -> Option<(int, int)> {
    if 0 < s && e < t.len() && direct_wrapper_pair(t[s - 1], t[e]) {
        Some((s - 1, e + 1))
    } else {
        None
    }
}

/// The span of the digit run `[s, e)` of `t` with the wrapper directly around it, if any.
pub fn direct_wrapper_span_for_numeric_run(t: &[char], s: usize, e: usize) -> (r: Option<(usize, usize)>)
    requires
        s <= e <= t@.len(),
    ensures
        match r {
            Some((a, b)) => wrapper_span(t@, s as int, e as int) == Some((a as int, b as int)),
            None => wrapper_span(t@, s as int, e as int) is None,
        },
{
    if s > 0 && e < t.len() && is_direct_wrapper_pair(t[s - 1], t[e]) {
        Some((s - 1, e + 1))
    } else {
        None
    }
}

/// Whether the character beside a restored marker allows a space there.
pub open spec fn space_allowed(neighbour: Option<char>, absorbed: bool) -> bool {
    &&& !(neighbour matches Some(c) && horizontal_space(c))
    &&& (absorbed || neighbour is None || (neighbour matches Some(c) && (plus_sign(c) || minus_sign(c)
        || percent_sign(c))))
}

/// What replaces the span `[ss, se)` of `t`: the marker, with the spaces the
/// source had around a bare marker where the surroundings allow them.
pub open spec fn restored_surface(
    t: Seq<char>,
    ss: int,
    se: int,
    repl: ZmReplacementView,
    absorbed: bool,
) -> Seq<char> {
    if !repl.transport_wrapped {
        repl.marker
    } else {
        let prev = if ss > 0 {
            Some(t[ss - 1])
        } else {
            None
        };
        let next = if se < t.len() {
            Some(t[se])
        } else {
            None
        };
        let left: Seq<char> = if repl.transport_left_space && space_allowed(prev, absorbed) {
            seq![' ']
        } else {
            seq![]
        };
        let right: Seq<char> = if repl.transport_right_space && space_allowed(next, absorbed) {
            seq![' ']
        } else {
            seq![]
        };
        left + repl.marker + right
    }
}

fn space_allowed_of(neighbour: Option<char>, absorbed: bool) -> (r: bool)
    ensures
        r == space_allowed(neighbour, absorbed),
{
    match neighbour {
        Some(c) => !is_horizontal_space(c) && (absorbed || is_sign(c) || is_percent_sign(c)),
        None => true,
    }
}

/// The surface that replaces the span `[ss, se)` of `t`.
pub fn build_transport_restored_surface(
    t: &[char],
    ss: usize,
    se: usize,
    repl: &ZmReplacement,
    absorbed: bool,
) -> (r: String)
    requires
        ss <= se <= t@.len(),
    ensures
        r@ == restored_surface(t@, ss as int, se as int, repl@, absorbed),
{
    if !repl.transport_wrapped {
        return repl.marker.clone();
    }
    let prev = if ss > 0 {
        Some(t[ss - 1])
    } else {
        None
    };
    let next = if se < t.len() {
        Some(t[se])
    } else {
        None
    };
    let mut r = String::new();
    if repl.transport_left_space && space_allowed_of(prev, absorbed) {
        push_char(&mut r, ' ');
    }
    let m = chars_of(repl.marker.as_str());
    push_chars(&mut r, &m);
    if repl.transport_right_space && space_allowed_of(next, absorbed) {
        push_char(&mut r, ' ');
    }
    assert(r@ =~= restored_surface(t@, ss as int, se as int, repl@, absorbed));
    r
}

} // verus!

verus! {

// ---------------------------------------------------------------------------
// Restoring
// ---------------------------------------------------------------------------

/// The text from digit run `k` on, given the position `cursor` reached and
/// which replacements are used up: each run that is the first unused
/// occurrence of a replacement's number becomes that replacement's surface
/// (taking a wrapper around a bare marker's number with it); other runs stay.
/// `None` where the runs would have to be read backwards.
pub open spec fn restore_from(
    t: Seq<char>,
    repls: Seq<ZmReplacementView>,
    spans: Seq<(int, int)>,
    k: int,
    cursor: int,
    consumed: Seq<bool>,
) -> Option<Seq<char>>
    decreases spans.len() - k,
{
    if k < 0 || k >= spans.len() {
        if 0 <= cursor <= t.len() {
            Some(t.subrange(cursor, t.len() as int))
        } else {
            None
        }
    } else {
        let s = spans[k].0;
        let e = spans[k].1;
        let idx = last_index_for(repls, normalized_digits(t.subrange(s, e)));
        if idx is None || consumed[idx->0] {
            if cursor <= s {
                match restore_from(t, repls, spans, k + 1, e, consumed) {
                    Some(r) => Some(t.subrange(cursor, s) + t.subrange(s, e) + r),
                    None => None,
                }
            } else {
                None
            }
        } else {
            let i = idx->0;
            let repl = repls[i];
            let w = if repl.transport_wrapped {
                wrapper_span(t, s, e)
            } else {
                None
            };
            let ss = match w {
                Some(p) => p.0,
                None => s,
            };
            let se = match w {
                Some(p) => p.1,
                None => e,
            };
            if cursor > ss {
                None
            } else {
                let next = if repl.trim_trailing_minus {
                    if e < t.len() && minus_sign(t[e]) {
                        e + 1
                    } else {
                        e
                    }
                } else {
                    se
                };
                match restore_from(t, repls, spans, k + 1, next, consumed.update(i, true)) {
                    Some(r) => Some(
                        t.subrange(cursor, ss) + restored_surface(t, ss, se, repl, w is Some) + r,
                    ),
                    None => None,
                }
            }
        }
    }
}

/// The numbers of the replacements that `existing` lacks, in order.
pub open spec fn missing_numbers(repls: Seq<ZmReplacementView>, existing: Set<Seq<char>>) -> Seq<
    Seq<char>,
>
    decreases repls.len(),
{
    if repls.len() == 0 {
        seq![]
    } else if existing.contains(repls.last().number) {
        missing_numbers(repls.drop_last(), existing)
    } else {
        missing_numbers(repls.drop_last(), existing).push(repls.last().number)
    }
}

/// The model output `text` with its transport numbers turned back into
/// markers, after CJK numerals written for missing single digits are read
/// as those digits.
pub open spec fn restored_text(text: Seq<char>, repls: Seq<ZmReplacementView>) -> Option<Seq<char>> {
    let t = cjk_fallback(text, missing_numbers(repls, run_tokens_of(text)));
    restore_from(t, repls, digit_spans(t), 0, 0, Seq::new(repls.len(), |i: int| false))
}

/// Turns transport numbers back into markers; `None` where a wrapper would
/// overlap what an earlier replacement consumed.
#[verifier::rlimit(60)]
pub fn checked_restore_zm_number_tokens(text: &str, mapping: &ZmNumberMapping) -> (r: Option<String>)
    ensures
        match r {
            Some(s) => restored_text(text@, replacements_view(mapping.replacements@)) == Some(s@),
            None => restored_text(text@, replacements_view(mapping.replacements@)) is None,
        },
{
    let ghost rv = replacements_view(mapping.replacements@);
    let existing = collect_existing_number_tokens(text);
    let mut missing: Vec<&str> = Vec::new();
    let mut j: usize = 0;
    while j < mapping.replacements.len()
        invariant
            j <= mapping.replacements@.len(),
            rv == replacements_view(mapping.replacements@),
            token_set_contents(existing) == run_tokens_of(text@),
            strs_view(missing@) == missing_numbers(rv.take(j as int), run_tokens_of(text@)),
        decreases mapping.replacements.len() - j,
    {
        assert(rv.take(j as int + 1).drop_last() =~= rv.take(j as int));
        assert(rv.take(j as int + 1).last() == mapping.replacements@[j as int]@);
        let num = mapping.replacements[j].number.as_str();
        if !token_set_contains(&existing, num) {
            missing.push(num);
            assert(strs_view(missing@) =~= missing_numbers(
                rv.take(j as int + 1),
                run_tokens_of(text@),
            ));
        }
        j += 1;
    }
    assert(rv.take(mapping.replacements.len() as int) =~= rv);
    let fixed = apply_cjk_digit_fallback(text, &missing);
    let t = chars_of(fixed.as_str());
    let ghost spans = digit_spans(t@);
    let index = build_number_index(&mapping.replacements);
    let mut consumed: Vec<bool> = Vec::new();
    let mut c: usize = 0;
    while c < mapping.replacements.len()
        invariant
            c <= mapping.replacements@.len(),
            consumed@ == Seq::new(c as nat, |i: int| false),
        decreases mapping.replacements.len() - c,
    {
        consumed.push(false);
        c += 1;
        assert(consumed@ =~= Seq::new(c as nat, |i: int| false));
    }
    let ghost total = restore_from(t@, rv, spans, 0, 0, consumed@);
    assert(total == restored_text(text@, rv));
    let runs = collect_numeric_runs(fixed.as_str());
    let mut result = String::new();
    let mut cursor: usize = 0;
    let mut k: usize = 0;
    while k < runs.len()
        invariant
            k <= runs@.len(),
            runs@.len() == spans.len(),
            spans == digit_spans(t@),
            t@ == fixed@,
            forall|x: int| 0 <= x < runs@.len() ==> run_matches(t@, #[trigger] runs@[x], spans[x]),
            rv == replacements_view(mapping.replacements@),
            index_map_contents(index) == number_index(rv),
            consumed@.len() == rv.len(),
            cursor <= t@.len(),
            total == restored_text(text@, rv),
            total == (match restore_from(t@, rv, spans, k as int, cursor as int, consumed@) {
                Some(rest) => Some(result@ + rest),
                None => None,
            }),
        decreases runs.len() - k,
    {
        let ghost before = result@;
        assert(run_matches(t@, runs@[k as int], spans[k as int]));
        let s = runs[k].start;
        let e = runs[k].end;
        let found = index_map_get(&index, runs[k].normalized.as_str());
        let ghost idx = last_index_for(rv, normalized_digits(t@.subrange(s as int, e as int)));
        proof {
            lemma_last_index_for(rv, runs@[k as int].normalized@);
            assert(runs@[k as int].normalized@ == normalized_digits(
                t@.subrange(s as int, e as int),
            ));
            match found {
                Some(i) => {
                    assert(number_index(rv).contains_key(runs@[k as int].normalized@));
                    assert(idx is Some);
                    assert(rv.len() == mapping.replacements.len());
                    assert(number_index(rv)[runs@[k as int].normalized@] == (idx->0 as usize));
                    assert(idx->0 == i as int);
                },
                None => {
                    assert(!number_index(rv).contains_key(runs@[k as int].normalized@));
                    assert(idx is None);
                },
            }
        }
        let use_idx: Option<usize> = match found {
            Some(i) => if consumed[i] {
                None
            } else {
                Some(i)
            },
            None => None,
        };
        match use_idx {
            None => {
                assert(idx is None || consumed@[idx->0]);
                if cursor > s {
                    assert(spans[k as int].0 == s);
                    assert(restore_from(t@, rv, spans, k as int, cursor as int, consumed@) is None);
                    return None;
                }
                let piece = crate::text::slice_string(&t, cursor, e);
                push_chars(&mut result, &chars_of(piece.as_str()));
                assert(t@.subrange(cursor as int, s as int) + t@.subrange(s as int, e as int)
                    =~= t@.subrange(cursor as int, e as int));
                assert(before + t@.subrange(cursor as int, e as int) =~= result@);
                cursor = e;
            },
            Some(i) => {
                let repl = &mapping.replacements[i];
                let w = if repl.transport_wrapped {
                    direct_wrapper_span_for_numeric_run(&t, s, e)
                } else {
                    None
                };
                let (ss, se) = match w {
                    Some(p) => p,
                    None => (s, e),
                };
                if cursor > ss {
                    assert(spans[k as int].0 == s && spans[k as int].1 == e);
                    assert(restore_from(t@, rv, spans, k as int, cursor as int, consumed@) is None);
                    return None;
                }
                let piece = crate::text::slice_string(&t, cursor, ss);
                push_chars(&mut result, &chars_of(piece.as_str()));
                let surface = build_transport_restored_surface(&t, ss, se, repl, w.is_some());
                push_chars(&mut result, &chars_of(surface.as_str()));
                assert(result@ =~= before + t@.subrange(cursor as int, ss as int) + restored_surface(
                    t@,
                    ss as int,
                    se as int,
                    rv[i as int],
                    w is Some,
                ));
                consumed.set(i, true);
                cursor = if repl.trim_trailing_minus {
                    if e < t.len() && is_minus_sign(t[e]) {
                        e + 1
                    } else {
                        e
                    }
                } else {
                    se
                };
            },
        }
        k += 1;
    }
    let tail = crate::text::slice_string(&t, cursor, t.len());
    push_chars(&mut result, &chars_of(tail.as_str()));
    Some(result)
}

/// What restoring needs of the output and mapping: no wrapper overlaps what
/// an earlier replacement consumed.
pub open spec fn restorable(text: Seq<char>, mapping: ZmNumberMapping) -> bool {
    restored_text(text, replacements_view(mapping.replacements@)) is Some
}

/// Turns the transport numbers of a model's output back into markers.
pub fn restore_zm_number_tokens(text: &str, mapping: &ZmNumberMapping) -> (r: String)
    requires
        restorable(text@, *mapping),
    ensures
        Some(r@) == restored_text(text@, replacements_view(mapping.replacements@)),
{
    match checked_restore_zm_number_tokens(text, mapping) {
        Some(s) => s,
        None => String::new(),
    }
}

} // verus!

verus! {

/// No character of `t` is a digit or a CJK numeral.
pub open spec fn digit_free(t: Seq<char>) -> bool {
    forall|i: int| 0 <= i < t.len() ==> !is_digit(#[trigger] t[i]) && ascii_of_cjk(t[i]) is None
}

proof fn lemma_digit_free_fallback(text: Seq<char>, missing: Seq<Seq<char>>)
    requires
        digit_free(text),
    ensures
        cjk_fallback(text, missing) == text,
    decreases missing.len(),
{
    if missing.len() > 0 {
        lemma_digit_free_fallback(text, missing.drop_last());
        let num = missing.last();
        if num.len() == 1 && '0' <= num[0] <= '9' {
            let from = cjk_of_ascii(num[0]).unwrap();
            assert(ascii_of_cjk(from) is Some);
            assert(replace_char(text, from, num[0]) =~= text) by {
                assert forall|i: int| 0 <= i < text.len() implies text[i] != from by {
                    assert(ascii_of_cjk(text[i]) is None);
                }
            }
        }
    }
}

proof fn lemma_digit_free_spans(text: Seq<char>)
    requires
        digit_free(text),
    ensures
        digit_spans(text).len() == 0,
    decreases text.len(),
{
    if text.len() > 0 {
        let p = text.drop_last();
        assert(digit_free(p)) by {
            assert forall|i: int| 0 <= i < p.len() implies !is_digit(#[trigger] p[i]) && ascii_of_cjk(p[i]) is None by {
                assert(p[i] == text[i]);
            }
        }
        lemma_digit_free_spans(p);
        assert(!is_digit(text[text.len() - 1]));
    }
}

/// Restoring leaves a text with no digits and no CJK numerals as it is,
/// whatever the replacements.
pub proof fn lemma_restore_digit_free(text: Seq<char>, repls: Seq<ZmReplacementView>)
    requires
        digit_free(text),
    ensures
        restored_text(text, repls) == Some(text),
{
    let missing = missing_numbers(repls, run_tokens_of(text));
    lemma_digit_free_fallback(text, missing);
    lemma_digit_free_spans(text);
    assert(text.subrange(0, text.len() as int) =~= text);
}

} // verus!
