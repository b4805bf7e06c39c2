//! Number markers (`Z[A-Y]+Z`, e.g. "ZMCZ") stand for numbers in game
//! text. Before a segment goes to the model each marker is replaced by a
//! fresh transport number, which the model keeps; afterwards the numbers
//! are turned back into the markers.

use vstd::prelude::*;
use vstd::set_lib::{lemma_len_subset, lemma_map_size, set_int_range, lemma_int_range};
use vstd::relations::injective_on;

use rustc_hash::FxHashSet;

use crate::text::{chars_of, push_char, push_chars, slice_equals, slice_string, string_of};
use crate::translator::helpers::is_zm_inner;

verus! {

#[verifier::external_type_specification]
#[verifier::external_body]
pub struct ExFxBuildHasher(rustc_hash::FxBuildHasher);

/// The strings that an `FxHashSet<String>` holds.
pub uninterp spec fn token_set_contents(s: FxHashSet<String>) -> Set<Seq<char>>;

/// An empty set (`FxHashSet::default`). Claims: it holds nothing.
#[verifier::external_body]
pub(crate) fn new_token_set() -> (r: FxHashSet<String>)
    ensures
        token_set_contents(r) == Set::<Seq<char>>::empty(),
{
    FxHashSet::default()
}

/// Adds a string (`HashSet::insert`). Claims: the set afterwards holds
/// what it held and `token`, since `String` compares by content.
#[verifier::external_body]
pub(crate) fn token_set_insert(set: &mut FxHashSet<String>, token: String)
    ensures
        token_set_contents(*final(set)) == token_set_contents(*old(set)).insert(token@),
{
    set.insert(token);
}

/// Membership (`HashSet::contains`). Claims: true exactly when the set
/// holds a string with the characters of `token`.
#[verifier::external_body]
pub(crate) fn token_set_contains(set: &FxHashSet<String>, token: &str) -> (r: bool)
    ensures
        r == token_set_contents(*set).contains(token@),
{
    set.contains(token)
}

pub open spec fn plus_sign(c: char) -> bool {
    c == '+' || c == '\u{FF0B}'
}

pub open spec fn minus_sign(c: char) -> bool {
    c == '-' || c == '\u{FF0D}' || c == '\u{2212}'
}

pub open spec fn percent_sign(c: char) -> bool {
    c == '%' || c == '\u{FF05}'
}

pub open spec fn horizontal_space(c: char) -> bool {
    c == ' ' || c == '\u{3000}'
}

/// ASCII or fullwidth plus.
pub fn is_plus_sign(ch: char) -> (r: bool)
    ensures
        r == plus_sign(ch),
{
    ch == '+' || ch == '\u{FF0B}'
}

/// ASCII or fullwidth hyphen-minus, or the minus sign.
pub fn is_minus_sign(ch: char) -> (r: bool)
    ensures
        r == minus_sign(ch),
{
    ch == '-' || ch == '\u{FF0D}' || ch == '\u{2212}'
}

/// A plus or minus sign.
pub fn is_sign(ch: char) -> (r: bool)
    ensures
        r == (plus_sign(ch) || minus_sign(ch)),
{
    is_plus_sign(ch) || is_minus_sign(ch)
}

/// ASCII or fullwidth percent.
pub fn is_percent_sign(ch: char) -> (r: bool)
    ensures
        r == percent_sign(ch),
{
    ch == '%' || ch == '\u{FF05}'
}

/// ASCII or ideographic space.
pub fn is_horizontal_space(ch: char) -> (r: bool)
    ensures
        r == horizontal_space(ch),
{
    ch == ' ' || ch == '\u{3000}'
}

/// The ASCII digit `d` (0..=9).
pub open spec fn digit_char(d: int) -> char {
    if d == 0 {
        '0'
    } else if d == 1 {
        '1'
    } else if d == 2 {
        '2'
    } else if d == 3 {
        '3'
    } else if d == 4 {
        '4'
    } else if d == 5 {
        '5'
    } else if d == 6 {
        '6'
    } else if d == 7 {
        '7'
    } else if d == 8 {
        '8'
    } else {
        '9'
    }
}

/// The value of an ASCII or fullwidth digit, if `c` is one.
pub open spec fn digit_value(c: char) -> Option<int> {
    if '0' <= c <= '9' {
        Some(c as int - '0' as int)
    } else if '\u{FF10}' <= c <= '\u{FF19}' {
        Some(c as int - 0xFF10)
    } else {
        None
    }
}

pub open spec fn is_digit(c: char) -> bool {
    digit_value(c) is Some
}

/// An ASCII or fullwidth digit as an ASCII digit.
pub open spec fn normalized_digit(c: char) -> char {
    digit_char(digit_value(c).unwrap())
}

/// The ASCII form of an ASCII or fullwidth digit.
pub fn normalize_digit_char(ch: char) -> (r: Option<char>)
    ensures
        r is Some <==> is_digit(ch),
        r matches Some(d) ==> d == normalized_digit(ch),
{
    if '0' <= ch && ch <= '9' {
        Some(ch)
    } else if '\u{FF10}' <= ch && ch <= '\u{FF19}' {
        let v = (ch as u32) - 0xFF10;
        Some(ascii_digit(v))
    } else {
        None
    }
}

pub(crate) fn ascii_digit(v: u32) -> (r: char)
    requires
        v < 10,
    ensures
        r == digit_char(v as int),
{
    if v == 0 {
        '0'
    } else if v == 1 {
        '1'
    } else if v == 2 {
        '2'
    } else if v == 3 {
        '3'
    } else if v == 4 {
        '4'
    } else if v == 5 {
        '5'
    } else if v == 6 {
        '6'
    } else if v == 7 {
        '7'
    } else if v == 8 {
        '8'
    } else {
        '9'
    }
}

/// The CJK numeral for an ASCII digit.
pub open spec fn cjk_of_ascii(ch: char) -> Option<char> {
    if ch == '0' {
        Some('\u{3007}')
    } else if ch == '1' {
        Some('\u{4E00}')
    } else if ch == '2' {
        Some('\u{4E8C}')
    } else if ch == '3' {
        Some('\u{4E09}')
    } else if ch == '4' {
        Some('\u{56DB}')
    } else if ch == '5' {
        Some('\u{4E94}')
    } else if ch == '6' {
        Some('\u{516D}')
    } else if ch == '7' {
        Some('\u{4E03}')
    } else if ch == '8' {
        Some('\u{516B}')
    } else if ch == '9' {
        Some('\u{4E5D}')
    } else {
        None
    }
}

/// The ASCII digit for a CJK numeral 〇 to 九.
pub open spec fn ascii_of_cjk(ch: char) -> Option<char> {
    if ch == '\u{3007}' {
        Some('0')
    } else if ch == '\u{4E00}' {
        Some('1')
    } else if ch == '\u{4E8C}' {
        Some('2')
    } else if ch == '\u{4E09}' {
        Some('3')
    } else if ch == '\u{56DB}' {
        Some('4')
    } else if ch == '\u{4E94}' {
        Some('5')
    } else if ch == '\u{516D}' {
        Some('6')
    } else if ch == '\u{4E03}' {
        Some('7')
    } else if ch == '\u{516B}' {
        Some('8')
    } else if ch == '\u{4E5D}' {
        Some('9')
    } else {
        None
    }
}

/// The CJK numeral (〇 to 九) for an ASCII digit.
pub fn ascii_digit_to_cjk(ch: char) -> (r: Option<char>)
    ensures
        r == cjk_of_ascii(ch),
{
    if ch == '0' {
        Some('\u{3007}')
    } else if ch == '1' {
        Some('\u{4E00}')
    } else if ch == '2' {
        Some('\u{4E8C}')
    } else if ch == '3' {
        Some('\u{4E09}')
    } else if ch == '4' {
        Some('\u{56DB}')
    } else if ch == '5' {
        Some('\u{4E94}')
    } else if ch == '6' {
        Some('\u{516D}')
    } else if ch == '7' {
        Some('\u{4E03}')
    } else if ch == '8' {
        Some('\u{516B}')
    } else if ch == '9' {
        Some('\u{4E5D}')
    } else {
        None
    }
}

/// The ASCII digit for a CJK numeral 〇 to 九.
pub fn cjk_digit_to_ascii(ch: char) -> (r: Option<char>)
    ensures
        r == ascii_of_cjk(ch),
{
    if ch == '\u{3007}' {
        Some('0')
    } else if ch == '\u{4E00}' {
        Some('1')
    } else if ch == '\u{4E8C}' {
        Some('2')
    } else if ch == '\u{4E09}' {
        Some('3')
    } else if ch == '\u{56DB}' {
        Some('4')
    } else if ch == '\u{4E94}' {
        Some('5')
    } else if ch == '\u{516D}' {
        Some('6')
    } else if ch == '\u{4E03}' {
        Some('7')
    } else if ch == '\u{516B}' {
        Some('8')
    } else if ch == '\u{4E5D}' {
        Some('9')
    } else {
        None
    }
}

/// Replaces every occurrence of the character `from` by `to`.
pub open spec fn replace_char(s: Seq<char>, from: char, to: char) -> Seq<char> {
    s.map_values(|c: char| if c == from { to } else { c })
}

/// One step of the CJK-numeral fallback for a missing number: a single
/// ASCII digit's CJK numeral is turned back into that digit everywhere.
pub open spec fn fallback_step(text: Seq<char>, num: Seq<char>) -> Seq<char> {
    if num.len() == 1 && '0' <= num[0] <= '9' {
        replace_char(text, cjk_of_ascii(num[0]).unwrap(), num[0])
    } else {
        text
    }
}

/// The fallback applied for each missing number in turn.
pub open spec fn cjk_fallback(text: Seq<char>, missing: Seq<Seq<char>>) -> Seq<char>
    decreases missing.len(),
{
    if missing.len() == 0 {
        text
    } else {
        fallback_step(cjk_fallback(text, missing.drop_last()), missing.last())
    }
}

pub open spec fn strs_view(v: Seq<&str>) -> Seq<Seq<char>> {
    v.map_values(|x: &str| x@)
}

fn replace_char_in(text: &[char], from: char, to: char) -> (r: Vec<char>)
    ensures
        r@ == replace_char(text@, from, to),
{
    let mut out: Vec<char> = Vec::new();
    let mut i: usize = 0;
    while i < text.len()
        invariant
            i <= text.len(),
            out@ == replace_char(text@.take(i as int), from, to),
        decreases text.len() - i,
    {
        if text[i] == from {
            out.push(to);
        } else {
            out.push(text[i]);
        }
        i += 1;
        assert(out@ =~= replace_char(text@.take(i as int), from, to));
    }
    assert(text@.take(text.len() as int) =~= text@);
    out
}

/// For each missing single-digit number, the model may have written the
/// CJK numeral instead: every such numeral becomes the ASCII digit again.
pub fn apply_cjk_digit_fallback(text: &str, missing: &[&str]) -> (r: String)
    ensures
        r@ == cjk_fallback(text@, strs_view(missing@)),
{
    let mut result = chars_of(text);
    let mut k: usize = 0;
    let ghost mv = strs_view(missing@);
    while k < missing.len()
        invariant
            mv == strs_view(missing@),
            k <= missing.len(),
            result@ == cjk_fallback(text@, mv.take(k as int)),
        decreases missing.len() - k,
    {
        let num = chars_of(missing[k]);
        assert(mv.take(k as int + 1).drop_last() =~= mv.take(k as int));
        assert(num@ == mv[k as int]);
        if num.len() == 1 && '0' <= num[0] && num[0] <= '9' {
            let ascii_ch = num[0];
            match ascii_digit_to_cjk(ascii_ch) {
                Some(cjk) => {
                    result = replace_char_in(&result, cjk, ascii_ch);
                },
                None => {},
            }
        }
        k += 1;
    }
    assert(mv.take(missing.len() as int) =~= mv);
    string_of(&result)
}

/// A maximal run of digits (ASCII or fullwidth) of a text.
#[derive(Debug, Clone, PartialEq, Eq)]
pub struct NumericRun {
    /// The digits as written.
    pub raw: String,
    /// The digits in ASCII.
    pub normalized: String,
    /// Character position of the first digit.
    pub start: usize,
    /// Character position after the last digit.
    pub end: usize,
}

/// The `[start, end)` character spans of the maximal digit runs of `s`.
pub open spec fn digit_spans(s: Seq<char>) -> Seq<(int, int)>
    decreases s.len(),
{
    if s.len() == 0 {
        Seq::empty()
    } else {
        let prev = digit_spans(s.drop_last());
        let i = s.len() - 1;
        if !is_digit(s[i]) {
            prev
        } else if i >= 1 && is_digit(s[i - 1]) {
            prev.drop_last().push((prev.last().0, s.len() as int))
        } else {
            prev.push((i, s.len() as int))
        }
    }
}

pub open spec fn normalized_digits(t: Seq<char>) -> Seq<char> {
    t.map_values(|c: char| normalized_digit(c))
}

/// `run` describes the digit span `span` of `s`.
pub open spec fn run_matches(s: Seq<char>, run: NumericRun, span: (int, int)) -> bool {
    &&& run.start == span.0
    &&& run.end == span.1
    &&& 0 <= span.0 <= span.1 <= s.len()
    &&& run.raw@ == s.subrange(span.0, span.1)
    &&& run.normalized@ == normalized_digits(s.subrange(span.0, span.1))
}

proof fn lemma_digit_spans_bounds(s: Seq<char>)
    ensures
        forall|k: int|
            0 <= k < digit_spans(s).len() ==> 0 <= (#[trigger] digit_spans(s)[k]).0 < digit_spans(
                s,
            )[k].1 <= s.len(),
        digit_spans(s).len() > 0 ==> digit_spans(s).last().1 <= s.len(),
        s.len() > 0 && is_digit(s.last()) ==> digit_spans(s).len() > 0 && digit_spans(s).last().1
            == s.len(),
    decreases s.len(),
{
    if s.len() > 0 {
        lemma_digit_spans_bounds(s.drop_last());
        let prev = digit_spans(s.drop_last());
        let i = s.len() - 1;
        if is_digit(s[i]) && i >= 1 && is_digit(s[i - 1]) {
            assert(s.drop_last().last() == s[i - 1]);
        }
    }
}

/// The maximal digit runs of `text`, with positions in characters.
pub fn collect_numeric_runs(text: &str) -> (r: Vec<NumericRun>)
    ensures
        r@.len() == digit_spans(text@).len(),
        forall|k: int|
            0 <= k < r@.len() ==> run_matches(text@, #[trigger] r@[k], digit_spans(text@)[k]),
{
    let cs = chars_of(text);
    let ghost s = cs@;
    let mut runs: Vec<NumericRun> = Vec::new();
    let mut index: usize = 0;
    while index < cs.len()
        invariant
            s == cs@,
            s == text@,
            index <= cs.len(),
            index < cs.len() ==> (index == 0 || !is_digit(s[index - 1])),
            runs@.len() == digit_spans(s.take(index as int)).len(),
            forall|k: int|
                0 <= k < runs@.len() ==> run_matches(
                    s,
                    #[trigger] runs@[k],
                    digit_spans(s.take(index as int))[k],
                ),
        decreases cs.len() - index,
    {
        let start = index;
        match normalize_digit_char(cs[index]) {
            None => {
                assert(s.take(index as int + 1).drop_last() =~= s.take(index as int));
                index += 1;
            },
            Some(first) => {
                let mut raw = String::new();
                let mut normalized = String::new();
                push_char(&mut raw, cs[index]);
                push_char(&mut normalized, first);
                let mut probe = index + 1;
                proof {
                    assert(s.take(index as int + 1).drop_last() =~= s.take(index as int));
                    assert(raw@ =~= s.subrange(start as int, probe as int));
                    assert(normalized@ =~= normalized_digits(s.subrange(start as int, probe as int)));
                }
                let mut go = true;
                while go && probe < cs.len()
                    invariant
                        s == cs@,
                        start < probe <= cs.len(),
                        start == index,
                        forall|j: int| start <= j < probe ==> is_digit(s[j]),
                        !go ==> probe < cs.len() && !is_digit(s[probe as int]),
                        raw@ == s.subrange(start as int, probe as int),
                        normalized@ == normalized_digits(s.subrange(start as int, probe as int)),
                        runs@.len() + 1 == digit_spans(s.take(probe as int)).len(),
                        digit_spans(s.take(probe as int)).last() == (start as int, probe as int),
                        digit_spans(s.take(probe as int)).drop_last() == digit_spans(
                            s.take(start as int),
                        ),
                    decreases (if go { 1int } else { 0int }) + cs.len() - probe,
                {
                    match normalize_digit_char(cs[probe]) {
                        Some(d) => {
                            push_char(&mut raw, cs[probe]);
                            push_char(&mut normalized, d);
                            proof {
                                assert(s.take(probe as int + 1).drop_last() =~= s.take(
                                    probe as int,
                                ));
                                assert(s.take(probe as int + 1)[probe - 1] == s[probe - 1]);
                                assert(raw@ =~= s.subrange(start as int, probe + 1));
                                assert(normalized@ =~= normalized_digits(
                                    s.subrange(start as int, probe + 1),
                                ));
                            }
                            probe += 1;
                        },
                        None => {
                            go = false;
                        },
                    }
                }
                proof {
                    if probe < cs.len() {
                        assert(s.take(probe as int + 1).drop_last() =~= s.take(probe as int));
                    }
                }
                let run = NumericRun { raw, normalized, start, end: probe };
                let ghost before = runs@;
                runs.push(run);
                proof {
                    lemma_digit_spans_bounds(s.take(probe as int));
                    let sp = digit_spans(s.take(probe as int));
                    assert forall|k: int| 0 <= k < runs@.len() implies run_matches(
                        s,
                        #[trigger] runs@[k],
                        digit_spans(s.take(probe as int))[k],
                    ) by {
                        if k < before.len() {
                            assert(sp[k] == sp.drop_last()[k]);
                        }
                    }
                    if probe < cs.len() {
                        assert(digit_spans(s.take(probe as int + 1)) == digit_spans(
                            s.take(probe as int),
                        ));
                    }
                }
                if probe < cs.len() {
                    index = probe + 1;
                } else {
                    index = probe;
                }
            },
        }
    }
    assert(s.take(cs.len() as int) =~= s);
    runs
}

/// The decimal digits of `n`.
pub open spec fn decimal(n: nat) -> Seq<char>
    decreases n,
{
    if n < 10 {
        seq![digit_char(n as int)]
    } else {
        decimal(n / 10).push(digit_char((n % 10) as int))
    }
}

proof fn lemma_decimal_len(n: nat)
    ensures
        decimal(n).len() >= 1,
        n >= 10 ==> decimal(n).len() >= 2,
    decreases n,
{
    if n >= 10 {
        lemma_decimal_len(n / 10);
    }
}

proof fn lemma_digit_char_injective(x: int, y: int)
    requires
        0 <= x < 10,
        0 <= y < 10,
        digit_char(x) == digit_char(y),
    ensures
        x == y,
{
}

proof fn lemma_decimal_injective(a: nat, b: nat)
    requires
        decimal(a) == decimal(b),
    ensures
        a == b,
    decreases a,
{
    lemma_decimal_len(a);
    lemma_decimal_len(b);
    if a >= 10 && b >= 10 {
        assert(decimal(a).drop_last() == decimal(a / 10));
        assert(decimal(b).drop_last() == decimal(b / 10));
        lemma_decimal_injective(a / 10, b / 10);
        assert(decimal(a).last() == digit_char((a % 10) as int));
        assert(decimal(b).last() == digit_char((b % 10) as int));
        lemma_digit_char_injective((a % 10) as int, (b % 10) as int);
    } else if a < 10 && b < 10 {
        assert(decimal(a) == seq![digit_char(a as int)]);
        assert(decimal(b) == seq![digit_char(b as int)]);
        assert(decimal(a)[0] == digit_char(a as int));
        assert(decimal(b)[0] == digit_char(b as int));
        lemma_digit_char_injective(a as int, b as int);
    } else if a < 10 {
        assert(decimal(a).len() == 1);
    } else {
        assert(decimal(b).len() == 1);
    }
}

pub(crate) fn push_decimal(s: &mut String, n: usize)
    ensures
        final(s)@ == old(s)@ + decimal(n as nat),
    decreases n,
{
    if n >= 10 {
        push_decimal(s, n / 10);
    }
    push_char(s, ascii_digit((n % 10) as u32));
    assert(final(s)@ =~= old(s)@ + decimal(n as nat));
}

/// The decimal digits of `n` (`usize::to_string`).
pub fn decimal_string(n: usize) -> (r: String)
    ensures
        r@ == decimal(n as nat),
{
    let mut s = String::new();
    push_decimal(&mut s, n);
    s
}

pub open spec fn run_tokens(runs: Seq<NumericRun>) -> Set<Seq<char>> {
    Set::new(|t: Seq<char>| exists|k: int| 0 <= k < runs.len() && t == (#[trigger] runs[k]).normalized@)
}

/// The ASCII forms of the digit runs of `text`.
pub fn collect_existing_number_tokens(text: &str) -> (r: FxHashSet<String>)
    ensures
        token_set_contents(r) == run_tokens_of(text@),
        token_set_contents(r).finite(),
        token_set_contents(r).len() <= text@.len(),
{
    let runs = collect_numeric_runs(text);
    let mut set = new_token_set();
    let mut k: usize = 0;
    proof {
        lemma_digit_spans_bounds(text@);
        lemma_digit_spans_count(text@);
    }
    while k < runs.len()
        invariant
            k <= runs.len(),
            runs@.len() == digit_spans(text@).len(),
            runs@.len() <= text@.len(),
            forall|j: int|
                0 <= j < runs@.len() ==> run_matches(text@, #[trigger] runs@[j], digit_spans(text@)[j]),
            token_set_contents(set) == run_tokens(runs@.take(k as int)),
            token_set_contents(set).finite(),
            token_set_contents(set).len() <= k,
        decreases runs.len() - k,
    {
        let token = runs[k].normalized.clone();
        let ghost before = token_set_contents(set);
        token_set_insert(&mut set, token);
        proof {
            assert(token_set_contents(set) =~= run_tokens(runs@.take(k as int + 1))) by {
                assert forall|t: Seq<char>| #[trigger]
                    run_tokens(runs@.take(k as int + 1)).contains(t) implies token_set_contents(
                    set,
                ).contains(t) by {
                    let j = choose|j: int|
                        0 <= j < k + 1 && t == (#[trigger] runs@.take(k as int + 1)[j]).normalized@;
                    if j < k {
                        assert(runs@.take(k as int)[j] == runs@.take(k as int + 1)[j]);
                    }
                }
                assert forall|t: Seq<char>| #[trigger]
                    token_set_contents(set).contains(t) implies run_tokens(
                    runs@.take(k as int + 1),
                ).contains(t) by {
                    if t != runs@[k as int].normalized@ {
                        let j = choose|j: int|
                            0 <= j < k && t == (#[trigger] runs@.take(k as int)[j]).normalized@;
                        assert(runs@.take(k as int + 1)[j] == runs@.take(k as int)[j]);
                    } else {
                        assert(runs@.take(k as int + 1)[k as int] == runs@[k as int]);
                    }
                }
            }
        }
        k += 1;
    }
    proof {
        assert(runs@.take(runs@.len() as int) =~= runs@);
        assert(run_tokens(runs@) =~= run_tokens_of(text@)) by {
            assert forall|t: Seq<char>| #[trigger] run_tokens(runs@).contains(t) implies run_tokens_of(
                text@,
            ).contains(t) by {
                let j = choose|j: int| 0 <= j < runs@.len() && t == (#[trigger] runs@[j]).normalized@;
                assert(run_matches(text@, runs@[j], digit_spans(text@)[j]));
            }
            assert forall|t: Seq<char>| #[trigger] run_tokens_of(text@).contains(t) implies run_tokens(
                runs@,
            ).contains(t) by {
                let j = choose|j: int|
                    0 <= j < digit_spans(text@).len() && t == normalized_digits(
                        text@.subrange(
                            #[trigger] digit_spans(text@)[j].0,
                            digit_spans(text@)[j].1,
                        ),
                    );
                assert(run_matches(text@, runs@[j], digit_spans(text@)[j]));
            }
        }
    }
    set
}

/// The ASCII forms of the digit runs of `s`.
pub open spec fn run_tokens_of(s: Seq<char>) -> Set<Seq<char>> {
    Set::new(
        |t: Seq<char>|
            exists|k: int|
                0 <= k < digit_spans(s).len() && t == normalized_digits(
                    s.subrange(#[trigger] digit_spans(s)[k].0, digit_spans(s)[k].1),
                ),
    )
}

proof fn lemma_digit_spans_count(s: Seq<char>)
    ensures
        digit_spans(s).len() <= s.len(),
    decreases s.len(),
{
    if s.len() > 0 {
        lemma_digit_spans_count(s.drop_last());
    }
}


/// One number marker replaced by a transport number.
#[derive(Debug, Clone, PartialEq, Eq)]
pub struct ZmReplacement {
    pub number: String,
    pub marker: String,
    pub trim_trailing_minus: bool,
    pub transport_wrapped: bool,
    pub transport_left_space: bool,
    pub transport_right_space: bool,
    pub source_span: String,
}

/// The text sent to the model and the replacements made in it.
#[derive(Debug, Clone, PartialEq, Eq)]
pub struct ZmNumberMapping {
    pub sent_text: String,
    pub replacements: Vec<ZmReplacement>,
}

/// The mathematical value of a [`ZmReplacement`].
pub struct ZmReplacementView {
    pub number: Seq<char>,
    pub marker: Seq<char>,
    pub trim_trailing_minus: bool,
    pub transport_wrapped: bool,
    pub transport_left_space: bool,
    pub transport_right_space: bool,
    pub source_span: Seq<char>,
}

impl View for ZmReplacement {
    type V = ZmReplacementView;

    open spec fn view(&self) -> ZmReplacementView {
        ZmReplacementView {
            number: self.number@,
            marker: self.marker@,
            trim_trailing_minus: self.trim_trailing_minus,
            transport_wrapped: self.transport_wrapped,
            transport_left_space: self.transport_left_space,
            transport_right_space: self.transport_right_space,
            source_span: self.source_span@,
        }
    }
}

pub open spec fn replacements_view(v: Seq<ZmReplacement>) -> Seq<ZmReplacementView> {
    v.map_values(|r: ZmReplacement| r@)
}

/// The ASCII digits of the CJK numerals of `s`.
pub open spec fn cjk_tokens(s: Seq<char>) -> Set<Seq<char>> {
    Set::new(
        |t: Seq<char>|
            exists|i: int|
                0 <= i < s.len() && ascii_of_cjk(#[trigger] s[i]) is Some && t == seq![
                    ascii_of_cjk(s[i]).unwrap(),
                ],
    )
}

/// Numbers the text already holds, which transport numbers must avoid:
/// its digit runs in ASCII and the digits its CJK numerals stand for.
pub open spec fn mapping_tokens(s: Seq<char>) -> Set<Seq<char>> {
    run_tokens_of(s).union(cjk_tokens(s))
}

/// `n` is the least number from `c` on whose decimal form is not in `ex`.
pub open spec fn is_next_free(ex: Set<Seq<char>>, c: nat, n: nat) -> bool {
    &&& c <= n
    &&& !ex.contains(decimal(n))
    &&& forall|m: nat| c <= m < n ==> ex.contains(#[trigger] decimal(m))
}

pub open spec fn next_free(ex: Set<Seq<char>>, c: nat) -> nat {
    choose|n: nat| is_next_free(ex, c, n)
}

proof fn lemma_next_free_unique(ex: Set<Seq<char>>, c: nat, n: nat, m: nat)
    requires
        is_next_free(ex, c, n),
        is_next_free(ex, c, m),
    ensures
        n == m,
{
    if n < m {
        assert(ex.contains(decimal(n)));
    } else if m < n {
        assert(ex.contains(decimal(m)));
    }
}

/// The end of the run of `A`..`Y` letters of `s` that starts at `k`.
pub open spec fn inner_end(s: Seq<char>, k: int) -> int
    decreases s.len() - k,
{
    if 0 <= k < s.len() && is_zm_inner(s[k]) {
        inner_end(s, k + 1)
    } else {
        k
    }
}

/// A marker `Z[A-Y]+Z` starts at `i` (and ends before `inner_end(s, i + 1) + 1`).
pub open spec fn marker_starts(s: Seq<char>, i: int) -> bool {
    &&& 0 <= i < s.len()
    &&& s[i] == 'Z'
    &&& inner_end(s, i + 1) > i + 1
    &&& inner_end(s, i + 1) < s.len()
    &&& s[inner_end(s, i + 1)] == 'Z'
}

pub open spec fn opt_char(s: Seq<char>, i: int) -> Option<char> {
    if 0 <= i < s.len() {
        Some(s[i])
    } else {
        None
    }
}

/// The last character before position `j` that is not a horizontal space.
pub open spec fn prev_non_space(s: Seq<char>, j: int) -> Option<char>
    decreases j,
{
    if j <= 0 || j > s.len() {
        None
    } else if !horizontal_space(s[j - 1]) {
        Some(s[j - 1])
    } else {
        prev_non_space(s, j - 1)
    }
}

/// The first character from position `j` on that is not a horizontal space.
pub open spec fn next_non_space(s: Seq<char>, j: int) -> Option<char>
    decreases s.len() - j,
{
    if j < 0 || j >= s.len() {
        None
    } else if !horizontal_space(s[j]) {
        Some(s[j])
    } else {
        next_non_space(s, j + 1)
    }
}

pub open spec fn is_some_sign(c: Option<char>) -> bool {
    c matches Some(ch) && (plus_sign(ch) || minus_sign(ch))
}

pub open spec fn is_some_percent(c: Option<char>) -> bool {
    c matches Some(ch) && percent_sign(ch)
}

pub open spec fn is_some_space(c: Option<char>) -> bool {
    c matches Some(ch) && horizontal_space(ch)
}

/// The replacement of the marker that starts at `i` by the number `n`.
/// A marker standing alone between spaces or text edges, with no sign
/// before it and no percent after it, travels as `「n」` (transport wrapped).
pub open spec fn replacement_at(s: Seq<char>, i: int, n: nat) -> ZmReplacementView {
    let end = inner_end(s, i + 1) + 1;
    let prev = opt_char(s, i - 1);
    let next = opt_char(s, end);
    let span_start = if is_some_sign(prev) {
        i - 1
    } else {
        i
    };
    let span_end = if is_some_percent(next) {
        end + 1
    } else {
        end
    };
    let marker = s.subrange(i, end);
    let source_span = s.subrange(span_start, span_end);
    let prev_space = is_some_space(prev);
    let next_space = is_some_space(next);
    let isolated = (prev_space && next_space) || (prev is None && next_space) || (prev_space
        && next is None);
    let wrapped = source_span == marker && isolated && !is_some_sign(prev_non_space(s, i))
        && !is_some_percent(next_non_space(s, end));
    ZmReplacementView {
        number: decimal(n),
        marker,
        trim_trailing_minus: (prev matches Some(c) && minus_sign(c)) && !is_some_percent(next),
        transport_wrapped: wrapped,
        transport_left_space: wrapped && prev_space,
        transport_right_space: wrapped && next_space,
        source_span,
    }
}

/// How a marker's number is written in the text sent to the model.
pub open spec fn transport_text(r: ZmReplacementView) -> Seq<char> {
    if r.transport_wrapped {
        seq!['\u{300C}'] + r.number + seq!['\u{300D}']
    } else {
        r.number
    }
}

/// Scans `s` from `i` with next candidate number `c`: the text to send
/// from there on, and the replacements made.
pub open spec fn zm_scan(s: Seq<char>, ex: Set<Seq<char>>, i: int, c: nat) -> (
    Seq<char>,
    Seq<ZmReplacementView>,
)
    decreases s.len() - i,
{
    if i < 0 || i >= s.len() {
        (Seq::empty(), Seq::empty())
    } else if marker_starts(s, i) {
        let n = next_free(ex, c);
        let r = replacement_at(s, i, n);
        let rest = zm_scan(s, ex, inner_end(s, i + 1) + 1, n + 1);
        (transport_text(r) + rest.0, seq![r] + rest.1)
    } else {
        let rest = zm_scan(s, ex, i + 1, c);
        (seq![s[i]] + rest.0, rest.1)
    }
}

/// The mapping for `s`: numbers from 2 on, skipping those it holds.
pub open spec fn zm_mapping_spec(s: Seq<char>) -> Option<(Seq<char>, Seq<ZmReplacementView>)> {
    let scan = zm_scan(s, mapping_tokens(s), 0, 2);
    if scan.1.len() == 0 {
        None
    } else {
        Some(scan)
    }
}

proof fn lemma_inner_end_bounds(s: Seq<char>, k: int)
    requires
        0 <= k <= s.len(),
    ensures
        k <= inner_end(s, k) <= s.len(),
        forall|j: int| k <= j < inner_end(s, k) ==> is_zm_inner(s[j]),
        inner_end(s, k) < s.len() ==> !is_zm_inner(s[inner_end(s, k)]),
    decreases s.len() - k,
{
    if k < s.len() && is_zm_inner(s[k]) {
        lemma_inner_end_bounds(s, k + 1);
    }
}

proof fn lemma_skipped_bound(skipped: Set<nat>, ex: Set<Seq<char>>)
    requires
        skipped.finite(),
        ex.finite(),
        forall|m: nat| skipped.contains(m) ==> ex.contains(#[trigger] decimal(m)),
    ensures
        skipped.len() <= ex.len(),
{
    let f = |m: nat| decimal(m);
    assert(injective_on(f, skipped)) by {
        assert forall|a: nat, b: nat|
            skipped.contains(a) && skipped.contains(b) && #[trigger] f(a) == #[trigger] f(b) implies a
            == b by {
            lemma_decimal_injective(a, b);
        }
    }
    lemma_map_size(skipped, skipped.map(f), f);
    assert(skipped.map(f).subset_of(ex)) by {
        assert forall|t: Seq<char>| skipped.map(f).contains(t) implies ex.contains(t) by {
            let m = choose|m: nat| skipped.contains(m) && f(m) == t;
        }
    }
    lemma_len_subset(skipped.map(f), ex);
}

/// The set of tokens that transport numbers must avoid.
fn mapping_token_set(cs: &Vec<char>, text: &str) -> (r: FxHashSet<String>)
    requires
        cs@ == text@,
    ensures
        token_set_contents(r) == mapping_tokens(text@),
        token_set_contents(r).finite(),
        token_set_contents(r).len() <= 2 * text@.len(),
{
    let mut existing = collect_existing_number_tokens(text);
    let ghost base = token_set_contents(existing);
    let mut i: usize = 0;
    while i < cs.len()
        invariant
            cs@ == text@,
            i <= cs.len(),
            base == run_tokens_of(text@),
            base.len() <= text@.len(),
            base.finite(),
            token_set_contents(existing) == base.union(cjk_tokens(cs@.take(i as int))),
            token_set_contents(existing).finite(),
            token_set_contents(existing).len() <= base.len() + i,
        decreases cs.len() - i,
    {
        let ghost before = token_set_contents(existing);
        match cjk_digit_to_ascii(cs[i]) {
            Some(ascii) => {
                let one = [ascii];
                let token = string_of(&one);
                assert(token@ =~= seq![ascii]);
                token_set_insert(&mut existing, token);
            },
            None => {},
        }
        proof {
            let t1 = cs@.take(i as int + 1);
            let t0 = cs@.take(i as int);
            assert(token_set_contents(existing) =~= base.union(cjk_tokens(t1))) by {
                assert forall|t: Seq<char>| #[trigger] cjk_tokens(t1).contains(t) implies token_set_contents(
                    existing,
                ).contains(t) by {
                    let j = choose|j: int|
                        0 <= j < t1.len() && ascii_of_cjk(#[trigger] t1[j]) is Some && t == seq![
                            ascii_of_cjk(t1[j]).unwrap(),
                        ];
                    if j < i {
                        assert(t0[j] == t1[j]);
                        assert(cjk_tokens(t0).contains(t));
                    }
                }
                assert forall|t: Seq<char>| #[trigger] token_set_contents(existing).contains(t)
                    && !base.contains(t) implies cjk_tokens(t1).contains(t) by {
                    if before.contains(t) {
                        let j = choose|j: int|
                            0 <= j < t0.len() && ascii_of_cjk(#[trigger] t0[j]) is Some && t
                                == seq![ascii_of_cjk(t0[j]).unwrap()];
                        assert(t1[j] == t0[j]);
                    } else {
                        assert(t1[i as int] == cs@[i as int]);
                    }
                }
            }
        }
        i += 1;
    }
    assert(cs@.take(cs.len() as int) =~= cs@);
    existing
}

/// Replaces each number marker of `text` by a fresh transport number (2,
/// 3, ..., skipping numbers the text already holds); `None` when the text
/// has no marker.
pub fn build_zm_number_mapping(text: &str) -> (r: Option<ZmNumberMapping>)
    requires
        3 * text@.len() + 3 <= usize::MAX,
    ensures
        r is None <==> zm_mapping_spec(text@) is None,
        r matches Some(m) ==> zm_mapping_spec(text@) == Some(
            (m.sent_text@, replacements_view(m.replacements@)),
        ),
{
    let cs = chars_of(text);
    let ghost s = cs@;
    let existing = mapping_token_set(&cs, text);
    let ghost ex = token_set_contents(existing);
    let ghost total = zm_scan(s, ex, 0, 2);
    let mut output = String::new();
    let mut replacements: Vec<ZmReplacement> = Vec::new();
    let mut counter: usize = 2;
    let mut index: usize = 0;
    let ghost mut skipped: Set<nat> = Set::empty();
    assert(replacements_view(replacements@) =~= Seq::<ZmReplacementView>::empty());
    while index < cs.len()
        invariant
            s == cs@,
            s == text@,
            3 * s.len() + 3 <= usize::MAX,
            ex == token_set_contents(existing),
            ex.finite(),
            ex.len() <= 2 * s.len(),
            total == zm_scan(s, ex, 0, 2),
            index <= cs.len(),
            replacements@.len() <= index,
            output@ + zm_scan(s, ex, index as int, counter as nat).0 == total.0,
            replacements_view(replacements@) + zm_scan(s, ex, index as int, counter as nat).1
                == total.1,
            skipped.finite(),
            forall|m: nat| skipped.contains(m) ==> ex.contains(#[trigger] decimal(m)),
            forall|m: nat| skipped.contains(m) ==> m < counter,
            counter == 2 + replacements@.len() + skipped.len(),
        decreases cs.len() - index,
    {
        let ghost i = index as int;
        let ghost c0 = counter as nat;
        if cs[index] != 'Z' {
            push_char(&mut output, cs[index]);
            assert(output@ + zm_scan(s, ex, i + 1, c0).0 =~= total.0);
            index += 1;
            continue;
        }
        let mut probe = index + 1;
        while probe < cs.len() && 'A' <= cs[probe] && cs[probe] <= 'Y'
            invariant
                s == cs@,
                index + 1 <= probe <= cs.len(),
                inner_end(s, i + 1) == inner_end(s, probe as int),
            decreases cs.len() - probe,
        {
            probe += 1;
        }
        proof {
            lemma_inner_end_bounds(s, i + 1);
        }
        if !(probe > index + 1 && probe < cs.len() && cs[probe] == 'Z') {
            assert(!marker_starts(s, i));
            push_char(&mut output, cs[index]);
            assert(output@ + zm_scan(s, ex, i + 1, c0).0 =~= total.0);
            index += 1;
            continue;
        }
        assert(marker_starts(s, i));
        let start = index;
        let end = probe + 1;
        // Each number already given is below `counter`, so only the
        // numbers the text holds have to be skipped.
        let mut candidate = counter;
        proof {
            lemma_skipped_bound(skipped, ex);
        }
        loop
            invariant
                ex == token_set_contents(existing),
                ex.finite(),
                ex.len() <= 2 * s.len(),
                3 * s.len() + 3 <= usize::MAX,
                replacements@.len() <= index < s.len(),
                c0 <= candidate,
                forall|m: nat| c0 <= m < candidate ==> ex.contains(#[trigger] decimal(m)),
                skipped.finite(),
                forall|m: nat| skipped.contains(m) ==> ex.contains(#[trigger] decimal(m)),
                forall|m: nat| skipped.contains(m) ==> m < candidate,
                skipped.len() <= ex.len(),
                candidate == 2 + replacements@.len() + skipped.len(),
            ensures
                c0 <= candidate,
                forall|m: nat| c0 <= m < candidate ==> ex.contains(#[trigger] decimal(m)),
                !ex.contains(decimal(candidate as nat)),
                skipped.finite(),
                forall|m: nat| skipped.contains(m) ==> ex.contains(#[trigger] decimal(m)),
                forall|m: nat| skipped.contains(m) ==> m < candidate,
                skipped.len() <= ex.len(),
                candidate == 2 + replacements@.len() + skipped.len(),
            decreases ex.len() - skipped.len(),
        {
            let cand = decimal_string(candidate);
            if !token_set_contains(&existing, cand.as_str()) {
                break;
            }
            proof {
                let old_skipped = skipped;
                skipped = skipped.insert(candidate as nat);
                assert(!old_skipped.contains(candidate as nat));
                lemma_skipped_bound(skipped, ex);
            }
            candidate += 1;
        }
        let number_value = candidate;
        proof {
            assert(is_next_free(ex, c0, number_value as nat));
            let n = next_free(ex, c0);
            lemma_next_free_unique(ex, c0, n, number_value as nat);
        }
        let number = decimal_string(number_value);
        let ghost rv = replacement_at(s, i, number_value as nat);
        // Characters around the marker.
        let prev_char: Option<char> = if start > 0 {
            Some(cs[start - 1])
        } else {
            None
        };
        let next_char: Option<char> = if end < cs.len() {
            Some(cs[end])
        } else {
            None
        };
        let prev_sign = match prev_char {
            Some(c) => is_sign(c),
            None => false,
        };
        let next_percent = match next_char {
            Some(c) => is_percent_sign(c),
            None => false,
        };
        let span_start = if prev_sign {
            start - 1
        } else {
            start
        };
        let span_end = if next_percent {
            end + 1
        } else {
            end
        };
        let marker = slice_string(&cs, start, end);
        let source_span = slice_string(&cs, span_start, span_end);
        let marker_chars = chars_of(marker.as_str());
        let span_is_marker = slice_equals(&cs, span_start, span_end, &marker_chars);
        // Nearest characters that are not spaces.
        let mut back = start;
        while back > 0 && is_horizontal_space(cs[back - 1])
            invariant
                s == cs@,
                back <= start < s.len(),
                prev_non_space(s, i) == prev_non_space(s, back as int),
            decreases back,
        {
            back -= 1;
        }
        let prev_non_space_char: Option<char> = if back > 0 {
            Some(cs[back - 1])
        } else {
            None
        };
        let mut fwd = end;
        while fwd < cs.len() && is_horizontal_space(cs[fwd])
            invariant
                s == cs@,
                end <= fwd <= s.len(),
                next_non_space(s, end as int) == next_non_space(s, fwd as int),
            decreases cs.len() - fwd,
        {
            fwd += 1;
        }
        let next_non_space_char: Option<char> = if fwd < cs.len() {
            Some(cs[fwd])
        } else {
            None
        };
        let prev_is_space = match prev_char {
            Some(c) => is_horizontal_space(c),
            None => false,
        };
        let next_is_space = match next_char {
            Some(c) => is_horizontal_space(c),
            None => false,
        };
        let prev_is_start = prev_char.is_none();
        let next_is_end = next_char.is_none();
        let isolated_bare_marker = (prev_is_space && next_is_space) || (prev_is_start
            && next_is_space) || (prev_is_space && next_is_end);
        let prev_non_space_is_sign = match prev_non_space_char {
            Some(c) => is_sign(c),
            None => false,
        };
        let next_non_space_is_percent = match next_non_space_char {
            Some(c) => is_percent_sign(c),
            None => false,
        };
        let transport_wrapped = span_is_marker && isolated_bare_marker && !prev_non_space_is_sign
            && !next_non_space_is_percent;
        let trim_trailing_minus = match prev_char {
            Some(c) => is_minus_sign(c),
            None => false,
        } && !next_percent;
        let ghost before_out = output@;
        if transport_wrapped {
            push_char(&mut output, '\u{300C}');
            output.append(number.as_str());
            push_char(&mut output, '\u{300D}');
        } else {
            output.append(number.as_str());
        }
        let repl = ZmReplacement {
            number,
            marker,
            trim_trailing_minus,
            transport_wrapped,
            transport_left_space: transport_wrapped && prev_is_space,
            transport_right_space: transport_wrapped && next_is_space,
            source_span,
        };
        assert(repl@ == rv);
        let ghost before_repls = replacements_view(replacements@);
        replacements.push(repl);
        proof {
            assert(replacements_view(replacements@) =~= before_repls.push(rv));
            assert(output@ =~= before_out + transport_text(rv));
            let rest = zm_scan(s, ex, end as int, number_value as nat + 1);
            assert(zm_scan(s, ex, i, c0) == (transport_text(rv) + rest.0, seq![rv] + rest.1));
            assert(output@ + rest.0 =~= total.0);
            assert(replacements_view(replacements@) + rest.1 =~= total.1);
        }
        counter = number_value + 1;
        index = end;
    }
    assert(zm_scan(s, ex, cs.len() as int, counter as nat).0 =~= Seq::<char>::empty());
    assert(output@ =~= total.0);
    assert(replacements_view(replacements@) =~= total.1);
    if replacements.len() == 0 {
        return None;
    }
    Some(ZmNumberMapping { sent_text: output, replacements })
}

} // verus!

verus! {

/// A set each of whose members is `g(i)` for some `i` below `n` is finite.
proof fn lemma_indexed_set_finite(n: int, g: spec_fn(int) -> Seq<char>, st: Set<Seq<char>>)
    requires
        0 <= n,
        forall|t: Seq<char>| #[trigger] st.contains(t) ==> exists|i: int| 0 <= i < n && t == #[trigger] g(i),
    ensures
        st.finite(),
{
    lemma_int_range(0, n);
    set_int_range(0, n).lemma_map_finite(g);
    assert(st.subset_of(set_int_range(0, n).map(g))) by {
        assert forall|t: Seq<char>| st.contains(t) implies set_int_range(0, n).map(g).contains(t) by {
            let i = choose|i: int| 0 <= i < n && t == #[trigger] g(i);
            assert(set_int_range(0, n).contains(i));
        }
    }
    lemma_len_subset(st, set_int_range(0, n).map(g));
}

/// The numbers a text holds are finitely many.
proof fn lemma_mapping_tokens_finite(s: Seq<char>)
    ensures
        mapping_tokens(s).finite(),
{
    let spans = digit_spans(s);
    let g1 = |k: int| normalized_digits(s.subrange(spans[k].0, spans[k].1));
    assert forall|t: Seq<char>| #[trigger] run_tokens_of(s).contains(t) implies exists|i: int|
        0 <= i < spans.len() && t == #[trigger] g1(i) by {
        let k = choose|k: int|
            0 <= k < digit_spans(s).len() && t == normalized_digits(
                s.subrange(#[trigger] digit_spans(s)[k].0, digit_spans(s)[k].1),
            );
        assert(t == g1(k));
    }
    lemma_indexed_set_finite(spans.len() as int, g1, run_tokens_of(s));
    let g2 = |i: int| seq![ascii_of_cjk(s[i]).unwrap()];
    assert forall|t: Seq<char>| #[trigger] cjk_tokens(s).contains(t) implies exists|i: int|
        0 <= i < s.len() && t == #[trigger] g2(i) by {
        let i = choose|i: int|
            0 <= i < s.len() && ascii_of_cjk(#[trigger] s[i]) is Some && t == seq![ascii_of_cjk(s[i]).unwrap()];
        assert(t == g2(i));
    }
    lemma_indexed_set_finite(s.len() as int, g2, cjk_tokens(s));
}

/// Past any number there is a least one whose decimal form a finite set
/// lacks.
proof fn lemma_next_free_exists(ex: Set<Seq<char>>, c: nat)
    requires
        ex.finite(),
    ensures
        is_next_free(ex, c, next_free(ex, c)),
    decreases ex.len(),
{
    if !ex.contains(decimal(c)) {
        assert(is_next_free(ex, c, c));
    } else {
        let ex2 = ex.remove(decimal(c));
        lemma_next_free_exists(ex2, c + 1);
        let n = next_free(ex2, c + 1);
        if decimal(n) == decimal(c) {
            lemma_decimal_injective(n, c);
        }
        assert forall|m: nat| c <= m < n implies ex.contains(#[trigger] decimal(m)) by {
            if m > c {
                assert(ex2.contains(decimal(m)));
            }
        }
        assert(is_next_free(ex, c, n));
    }
}

/// `t` is the decimal form of a number from `c` on that `ex` lacks.
pub open spec fn fresh_number(ex: Set<Seq<char>>, c: nat, t: Seq<char>) -> bool {
    exists|n: nat| #![trigger decimal(n)] c <= n && t == decimal(n) && !ex.contains(decimal(n))
}

/// The replacements of a scan from `i` with next candidate `c` take
/// distinct numbers from `c` on, each missing from `ex`.
proof fn lemma_scan_numbers(s: Seq<char>, ex: Set<Seq<char>>, i: int, c: nat)
    requires
        ex.finite(),
    ensures
        forall|k: int|
            0 <= k < zm_scan(s, ex, i, c).1.len() ==> fresh_number(ex, c, (#[trigger] zm_scan(s, ex, i, c).1[k]).number),
        forall|j: int, k: int|
            0 <= j < k < zm_scan(s, ex, i, c).1.len() ==> (#[trigger] zm_scan(s, ex, i, c).1[j]).number
                != (#[trigger] zm_scan(s, ex, i, c).1[k]).number,
    decreases s.len() - i,
{
    let reps = zm_scan(s, ex, i, c).1;
    if i < 0 || i >= s.len() {
    } else if marker_starts(s, i) {
        let n = next_free(ex, c);
        lemma_next_free_exists(ex, c);
        let r = replacement_at(s, i, n);
        let j0 = inner_end(s, i + 1) + 1;
        lemma_inner_end_bounds(s, i + 1);
        let rest = zm_scan(s, ex, j0, n + 1).1;
        lemma_scan_numbers(s, ex, j0, n + 1);
        assert(reps == seq![r] + rest);
        assert(r.number == decimal(n));
        assert forall|k: int| 0 <= k < reps.len() implies fresh_number(ex, c, (#[trigger] reps[k]).number) by {
            if k > 0 {
                assert(reps[k] == rest[k - 1]);
                assert(fresh_number(ex, n + 1, rest[k - 1].number));
                let m = choose|m: nat|
                    #![trigger decimal(m)]
                    n + 1 <= m && rest[k - 1].number == decimal(m) && !ex.contains(decimal(m));
                assert(c <= m && reps[k].number == decimal(m) && !ex.contains(decimal(m)));
            } else {
                assert(reps[k] == r);
                assert(c <= n && reps[k].number == decimal(n) && !ex.contains(decimal(n)));
            }
        }
        assert forall|j: int, k: int| 0 <= j < k < reps.len() implies (#[trigger] reps[j]).number
            != (#[trigger] reps[k]).number by {
            assert(reps[k] == rest[k - 1]);
            if j > 0 {
                assert(reps[j] == rest[j - 1]);
            } else {
                assert(reps[j] == r);
                assert(fresh_number(ex, n + 1, rest[k - 1].number));
                let m = choose|m: nat|
                    #![trigger decimal(m)]
                    n + 1 <= m && rest[k - 1].number == decimal(m) && !ex.contains(decimal(m));
                if decimal(n) == decimal(m) {
                    lemma_decimal_injective(n, m);
                }
            }
        }
    } else {
        lemma_scan_numbers(s, ex, i + 1, c);
        let rest = zm_scan(s, ex, i + 1, c).1;
        assert(reps == rest);
        assert forall|k: int| 0 <= k < reps.len() implies fresh_number(ex, c, (#[trigger] reps[k]).number) by {
            assert(reps[k] == rest[k]);
        }
        assert forall|j: int, k: int| 0 <= j < k < reps.len() implies (#[trigger] reps[j]).number
            != (#[trigger] reps[k]).number by {
            assert(reps[k] == rest[k] && reps[j] == rest[j]);
        }
    }
}

/// The transport numbers of a text's mapping are distinct, none of them is
/// a number the text holds (a digit run, or a CJK numeral's digit), and
/// each is a decimal number from 2 on.
pub proof fn lemma_transport_numbers(s: Seq<char>)
    ensures
        zm_mapping_spec(s) matches Some((_, reps)) ==> {
            &&& forall|j: int, k: int| 0 <= j < k < reps.len() ==> (#[trigger] reps[j]).number != (#[trigger] reps[k]).number
            &&& forall|k: int| 0 <= k < reps.len() ==> fresh_number(mapping_tokens(s), 2, (#[trigger] reps[k]).number)
        },
{
    lemma_mapping_tokens_finite(s);
    lemma_scan_numbers(s, mapping_tokens(s), 0, 2);
}

} // verus!

verus! {

/// The number of markers a left-to-right scan of `s` from `i` finds, each
/// scan resuming after the marker it found.
pub open spec fn marker_count(s: Seq<char>, i: int) -> nat
    decreases s.len() - i,
{
    if i < 0 || i >= s.len() {
        0
    } else if marker_starts(s, i) {
        1 + marker_count(s, inner_end(s, i + 1) + 1)
    } else {
        marker_count(s, i + 1)
    }
}

proof fn lemma_scan_count(s: Seq<char>, ex: Set<Seq<char>>, i: int, c: nat)
    requires
        0 <= i,
    ensures
        zm_scan(s, ex, i, c).1.len() == marker_count(s, i),
        marker_count(s, i) == 0 <==> forall|j: int| i <= j < s.len() ==> !#[trigger] marker_starts(s, j),
    decreases s.len() - i,
{
    if i >= s.len() {
    } else if marker_starts(s, i) {
        lemma_inner_end_bounds(s, i + 1);
        lemma_scan_count(s, ex, inner_end(s, i + 1) + 1, next_free(ex, c) + 1);
    } else {
        lemma_scan_count(s, ex, i + 1, c);
        assert forall|j: int| i <= j < s.len() && marker_count(s, i) == 0 implies !#[trigger] marker_starts(s, j) by {
            if j > i {
                assert(i + 1 <= j);
            }
        }
    }
}

/// The mapping of a text has one replacement for each marker that a
/// left-to-right scan finds, and there is none exactly when the text holds
/// no marker `Z[A-Y]+Z`.
pub proof fn lemma_mapping_markers(s: Seq<char>)
    ensures
        zm_mapping_spec(s) is None <==> forall|j: int| 0 <= j < s.len() ==> !#[trigger] marker_starts(s, j),
        zm_mapping_spec(s) matches Some((_, reps)) ==> reps.len() == marker_count(s, 0),
{
    lemma_scan_count(s, mapping_tokens(s), 0, 2);
}

} // verus!
