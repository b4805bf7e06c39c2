//! Cleanup of raw model output before it is shown or stored.

use vstd::prelude::*;

use crate::normalize::{display_text, normalize_display};
use crate::text::{
    chars_equal, chars_of, collect_runs, count_char, count_occurrences, in_run, is_whitespace,
    is_ws, push_char, push_chars, rstrip, runs, string_of, trim, trim_chars, vecs_view, RunKind,
};

verus! {

/// Whether the regex crate's `\p{L}` (Unicode general category Letter)
/// matches `c`.
pub uninterp spec fn is_letter_char(c: char) -> bool;

/// `regex::Regex::new(r"^\p{L}$")` and `is_match` on the character: whether
/// it is a Unicode letter as the regex crate's tables say. The pattern is
/// valid, so the compile does not fail; the answer is named by
/// `is_letter_char`.
#[verifier::external_body]
fn is_letter(c: char) -> (r: bool)
    ensures
        r == is_letter_char(c),
{
    let mut buf = [0u8; 4];
    match regex::Regex::new(r"^\p{L}$") {
        Ok(re) => re.is_match(c.encode_utf8(&mut buf)),
        Err(_) => false,
    }
}

/// Target languages whose output is written without spaces between words.
pub open spec fn compacts_spaces(t: Seq<char>) -> bool {
    ||| t == seq!['j', 'a']
    ||| t == seq!['z', 'h']
    ||| t == seq!['z', 'h', '-', 'C', 'N']
    ||| t == seq!['z', 'h', '-', 'H', 'a', 'n', 't']
    ||| t == seq!['z', 'h', '-', 'T', 'W']
}

/// Whether the target language is written without inter-word spaces.
pub fn target_compacts_internal_spaces(tgt_lang: &str) -> (r: bool)
    ensures
        r == compacts_spaces(tgt_lang@),
{
    let t = chars_of(tgt_lang);
    let ja = ['j', 'a'];
    let zh = ['z', 'h'];
    let zh_cn = ['z', 'h', '-', 'C', 'N'];
    let zh_hant = ['z', 'h', '-', 'H', 'a', 'n', 't'];
    let zh_tw = ['z', 'h', '-', 'T', 'W'];
    assert(ja@ =~= seq!['j', 'a']);
    assert(zh@ =~= seq!['z', 'h']);
    assert(zh_cn@ =~= seq!['z', 'h', '-', 'C', 'N']);
    assert(zh_hant@ =~= seq!['z', 'h', '-', 'H', 'a', 'n', 't']);
    assert(zh_tw@ =~= seq!['z', 'h', '-', 'T', 'W']);
    chars_equal(&t, &ja) || chars_equal(&t, &zh) || chars_equal(&t, &zh_cn) || chars_equal(
        &t,
        &zh_hant,
    ) || chars_equal(&t, &zh_tw)
}

/// The targets written without spaces between words are exactly Japanese
/// and Chinese in its forms: "ja", "zh", "zh-CN", "zh-Hant" and "zh-TW".
pub proof fn lemma_compacting_targets(t: Seq<char>)
    ensures
        compacts_spaces(t) <==> (t == "ja"@ || t == "zh"@ || t == "zh-CN"@ || t == "zh-Hant"@
            || t == "zh-TW"@),
{
    reveal_strlit("ja");
    reveal_strlit("zh");
    reveal_strlit("zh-CN");
    reveal_strlit("zh-Hant");
    reveal_strlit("zh-TW");
    assert("ja"@ =~= seq!['j', 'a']);
    assert("zh"@ =~= seq!['z', 'h']);
    assert("zh-CN"@ =~= seq!['z', 'h', '-', 'C', 'N']);
    assert("zh-Hant"@ =~= seq!['z', 'h', '-', 'H', 'a', 'n', 't']);
    assert("zh-TW"@ =~= seq!['z', 'h', '-', 'T', 'W']);
}

/// `n` ASCII spaces.
pub open spec fn spaces(n: nat) -> Seq<char> {
    Seq::new(n, |_i: int| ' ')
}

/// The number of ASCII spaces that `s` starts with.
pub open spec fn leading_spaces(s: Seq<char>) -> nat
    decreases s.len(),
{
    if s.len() > 0 && s[0] == ' ' {
        1 + leading_spaces(s.skip(1))
    } else {
        0
    }
}

/// The number of ASCII spaces that `s` ends with.
pub open spec fn trailing_spaces(s: Seq<char>) -> nat
    decreases s.len(),
{
    if s.len() > 0 && s.last() == ' ' {
        1 + trailing_spaces(s.drop_last())
    } else {
        0
    }
}

proof fn lemma_leading_skip(s: Seq<char>, a: int)
    requires
        0 <= a <= s.len(),
        forall|j: int| 0 <= j < a ==> s[j] == ' ',
    ensures
        leading_spaces(s) == a + leading_spaces(s.skip(a)),
    decreases a,
{
    if a > 0 {
        assert(s.skip(1).skip(a - 1) =~= s.skip(a));
        lemma_leading_skip(s.skip(1), a - 1);
    } else {
        assert(s.skip(0) =~= s);
    }
}

proof fn lemma_trailing_take(s: Seq<char>, b: int)
    requires
        0 <= b <= s.len(),
        forall|j: int| b <= j < s.len() ==> s[j] == ' ',
    ensures
        trailing_spaces(s) == (s.len() - b) + trailing_spaces(s.take(b)),
    decreases s.len() - b,
{
    if b < s.len() {
        assert(s.drop_last().take(b) =~= s.take(b));
        lemma_trailing_take(s.drop_last(), b);
    } else {
        assert(s.take(b) =~= s);
    }
}

/// How many ASCII spaces `text` starts with.
pub fn count_leading_spaces(text: &str) -> (n: usize)
    ensures
        n == leading_spaces(text@),
{
    let cs = chars_of(text);
    let mut a: usize = 0;
    while a < cs.len() && cs[a] == ' '
        invariant
            cs@ == text@,
            a <= cs.len(),
            forall|j: int| 0 <= j < a ==> cs@[j] == ' ',
        decreases cs.len() - a,
    {
        a += 1;
    }
    proof {
        lemma_leading_skip(cs@, a as int);
    }
    a
}

/// How many ASCII spaces `text` ends with.
pub fn count_trailing_spaces(text: &str) -> (n: usize)
    ensures
        n == trailing_spaces(text@),
{
    let cs = chars_of(text);
    let mut b: usize = cs.len();
    while b > 0 && cs[b - 1] == ' '
        invariant
            cs@ == text@,
            b <= cs.len(),
            forall|j: int| b <= j < cs.len() ==> cs@[j] == ' ',
        decreases b,
    {
        b -= 1;
    }
    proof {
        lemma_trailing_take(cs@, b as int);
    }
    cs.len() - b
}

pub open spec fn strings_view(v: Seq<String>) -> Seq<Seq<char>> {
    v.map_values(|x: String| x@)
}

fn strings_of(v: &Vec<Vec<char>>) -> (r: Vec<String>)
    ensures
        strings_view(r@) == vecs_view(v@),
{
    let mut r: Vec<String> = Vec::new();
    let mut i: usize = 0;
    while i < v.len()
        invariant
            i <= v.len(),
            strings_view(r@) == vecs_view(v@).take(i as int),
        decreases v.len() - i,
    {
        let x = string_of(v[i].as_slice());
        assert(x@ == vecs_view(v@)[i as int]);
        let ghost before = strings_view(r@);
        r.push(x);
        assert(strings_view(r@) =~= before.push(x@));
        assert(vecs_view(v@).take(i as int + 1) =~= vecs_view(v@).take(i as int).push(
            vecs_view(v@)[i as int],
        ));
        i += 1;
    }
    assert(vecs_view(v@).take(v.len() as int) =~= vecs_view(v@));
    r
}

/// The maximal runs of ASCII spaces of `text`.
pub fn collect_space_runs(text: &str) -> (r: Vec<String>)
    ensures
        strings_view(r@) == runs(text@, RunKind::Space),
{
    let cs = chars_of(text);
    let v = collect_runs(&cs, RunKind::Space);
    strings_of(&v)
}

pub open spec fn has_double_space(s: Seq<char>) -> bool {
    exists|i: int| 0 <= i < s.len() - 1 && s[i] == ' ' && #[trigger] s[i + 1] == ' '
}

/// `words[0] + seps[0] + words[1] + ... + words[n]`.
pub open spec fn interleave(words: Seq<Seq<char>>, seps: Seq<Seq<char>>) -> Seq<char>
    decreases words.len(),
{
    if words.len() == 0 {
        Seq::empty()
    } else if words.len() == 1 {
        words[0]
    } else {
        interleave(words.drop_last(), seps.drop_last()) + seps.last() + words.last()
    }
}

/// When the trimmed source separates its words by runs of spaces one of
/// which is double, and the translation has as many words, the
/// translation's words joined by the source's space runs.
pub open spec fn space_template(src: Seq<char>, translated: Seq<char>) -> Option<Seq<char>> {
    let core = trim(src);
    let chunks = runs(core, RunKind::NonSpace);
    let src_runs = runs(core, RunKind::Space);
    let words = runs(translated, RunKind::NonWhitespace);
    if !has_double_space(core) || chunks.len() < 2 || src_runs.len() + 1 != chunks.len()
        || words.len() != chunks.len() {
        None
    } else {
        Some(interleave(words, src_runs))
    }
}

/// Rebuilds the translation with the source's space runs between words.
pub fn reapply_source_space_template(src_text: &str, translated_text: &str) -> (r: Option<String>)
    ensures
        r matches Some(x) ==> space_template(src_text@, translated_text@) == Some(x@),
        r is None ==> space_template(src_text@, translated_text@) is None,
{
    let src = chars_of(src_text);
    let core = trim_chars(&src);
    let mut found = false;
    let mut i: usize = 0;
    while core.len() > 0 && i < core.len() - 1
        invariant
            i <= core.len(),
            found ==> has_double_space(core@),
            !found ==> forall|k: int|
                0 <= k < i && core@[k] == ' ' ==> #[trigger] core@[k + 1] != ' ',
        decreases core.len() - i,
    {
        if core[i] == ' ' && core[i + 1] == ' ' {
            found = true;
            assert(core@[i as int + 1] == ' ');
        }
        i += 1;
    }
    if !found {
        assert(!has_double_space(core@)) by {
            assert forall|k: int|
                0 <= k < core@.len() - 1 && core@[k] == ' ' implies #[trigger] core@[k + 1]
                != ' ' by {
                assert(k < i);
            }
        }
        return None;
    }
    let chunks = collect_runs(&core, RunKind::NonSpace);
    if chunks.len() < 2 {
        return None;
    }
    let src_runs = collect_runs(&core, RunKind::Space);
    if src_runs.len() != chunks.len() - 1 {
        return None;
    }
    let tr = chars_of(translated_text);
    let words = collect_runs(&tr, RunKind::NonWhitespace);
    if words.len() != chunks.len() {
        return None;
    }
    let ghost wv = vecs_view(words@);
    let ghost rv = vecs_view(src_runs@);
    let mut rebuilt = string_of(words[0].as_slice());
    let mut k: usize = 1;
    proof {
        assert(wv.take(1).len() == 1);
        assert(interleave(wv.take(1), rv.take(0)) == wv[0]);
    }
    while k < words.len()
        invariant
            words.len() == src_runs.len() + 1,
            wv == vecs_view(words@),
            rv == vecs_view(src_runs@),
            1 <= k <= words.len(),
            rebuilt@ == interleave(wv.take(k as int), rv.take(k as int - 1)),
        decreases words.len() - k,
    {
        push_chars(&mut rebuilt, src_runs[k - 1].as_slice());
        push_chars(&mut rebuilt, words[k].as_slice());
        proof {
            assert(wv.take(k as int + 1).drop_last() =~= wv.take(k as int));
            assert(rv.take(k as int).drop_last() =~= rv.take(k as int - 1));
        }
        k += 1;
    }
    assert(wv.take(words.len() as int) =~= wv);
    assert(rv.take(words.len() as int - 1) =~= rv);
    Some(rebuilt)
}

/// Typographic apostrophes (U+2019, U+02BC) and the backtick become `'`.
pub open spec fn apostrophe_char(c: char) -> char {
    if c == '\u{2019}' || c == '\u{02BC}' || c == '`' {
        '\''
    } else {
        c
    }
}

/// The end of the run of white space of `s` that starts at `k`.
pub open spec fn ws_end(s: Seq<char>, k: int) -> int
    decreases s.len() - k,
{
    if 0 <= k < s.len() && is_ws(s[k]) {
        ws_end(s, k + 1)
    } else {
        k
    }
}

/// If `s` starts with a letter, an apostrophe, white space and a letter,
/// the index of that second letter; otherwise 0.
pub open spec fn apostrophe_gap_at_start(s: Seq<char>) -> int {
    if s.len() >= 4 && is_letter_char(s[0]) && s[1] == '\'' && is_ws(s[2]) {
        let j = ws_end(s, 2);
        if j < s.len() && is_letter_char(s[j]) {
            j
        } else {
            0
        }
    } else {
        0
    }
}

/// Left-to-right removal of white space between a letter's apostrophe and
/// the next letter (what replacing `(letter)'\s+(letter)` by `$1'$2` does).
pub open spec fn close_apostrophe_gaps(s: Seq<char>) -> Seq<char>
    decreases s.len(),
{
    if s.len() == 0 {
        s
    } else {
        let j = apostrophe_gap_at_start(s);
        if j > 0 {
            seq![s[0], '\'', s[j]] + close_apostrophe_gaps(s.skip(j + 1))
        } else {
            seq![s[0]] + close_apostrophe_gaps(s.skip(1))
        }
    }
}

pub open spec fn apostrophes_normalized(s: Seq<char>) -> Seq<char> {
    close_apostrophe_gaps(s.map_values(|c: char| apostrophe_char(c)))
}

proof fn lemma_ws_end_bounds(s: Seq<char>, k: int)
    requires
        0 <= k <= s.len(),
    ensures
        k <= ws_end(s, k) <= s.len(),
        forall|j: int| k <= j < ws_end(s, k) ==> is_ws(s[j]),
        ws_end(s, k) < s.len() ==> !is_ws(s[ws_end(s, k)]),
    decreases s.len() - k,
{
    if k < s.len() && is_ws(s[k]) {
        lemma_ws_end_bounds(s, k + 1);
    }
}

proof fn lemma_ws_end_shift(s: Seq<char>, i: int, k: int)
    requires
        0 <= i <= k <= s.len(),
    ensures
        ws_end(s.skip(i), k - i) == ws_end(s, k) - i,
    decreases s.len() - k,
{
    if k < s.len() && is_ws(s[k]) {
        lemma_ws_end_shift(s, i, k + 1);
    }
}

/// Normalizes apostrophes and closes the gap in "one' s"-like spellings.
pub fn normalize_apostrophes(text: &str) -> (r: String)
    ensures
        r@ == apostrophes_normalized(text@),
{
    let raw = chars_of(text);
    let mut cs: Vec<char> = Vec::new();
    let mut i: usize = 0;
    while i < raw.len()
        invariant
            i <= raw.len(),
            cs@ == raw@.take(i as int).map_values(|c: char| apostrophe_char(c)),
        decreases raw.len() - i,
    {
        let c = raw[i];
        let m = if c == '\u{2019}' || c == '\u{02BC}' || c == '`' {
            '\''
        } else {
            c
        };
        cs.push(m);
        i += 1;
        assert(cs@ =~= raw@.take(i as int).map_values(|c: char| apostrophe_char(c)));
    }
    assert(raw@.take(raw.len() as int) =~= raw@);
    assert(raw@ == text@);
    let ghost s = cs@;
    let mut out = String::new();
    let mut i: usize = 0;
    assert(s.skip(0) =~= s);
    while i < cs.len()
        invariant
            s == cs@,
            i <= cs.len(),
            out@ + close_apostrophe_gaps(s.skip(i as int)) == close_apostrophe_gaps(s),
        decreases cs.len() - i,
    {
        let ghost rest = s.skip(i as int);
        let mut j: usize = 0;
        if cs.len() - i >= 4 && cs[i + 1] == '\'' && is_whitespace(cs[i + 2]) && is_letter(cs[i]) {
            let mut k = i + 2;
            while k < cs.len() && is_whitespace(cs[k])
                invariant
                    i + 2 <= k <= cs.len(),
                    ws_end(s, i + 2) == ws_end(s, k as int),
                    s == cs@,
                decreases cs.len() - k,
            {
                k += 1;
            }
            proof {
                lemma_ws_end_shift(s, i as int, i as int + 2);
                lemma_ws_end_bounds(s, i as int + 2);
            }
            if k < cs.len() && is_letter(cs[k]) {
                j = k - i;
            }
        }
        proof {
            if cs.len() - i >= 4 && is_letter_char(s[i as int]) && s[i + 1] == '\''
                && is_ws(s[i + 2]) {
                lemma_ws_end_shift(s, i as int, i as int + 2);
            }
            assert(j as int == apostrophe_gap_at_start(rest));
        }
        if j > 0 {
            push_char(&mut out, cs[i]);
            push_char(&mut out, '\'');
            push_char(&mut out, cs[i + j]);
            assert(rest.skip(j as int + 1) =~= s.skip(i + j + 1));
            i = i + j + 1;
        } else {
            push_char(&mut out, cs[i]);
            assert(rest.skip(1) =~= s.skip(i + 1));
            i = i + 1;
        }
    }
    assert(s.skip(cs.len() as int) =~= Seq::<char>::empty());
    out
}

/// `s` with only its first `m` ASCII spaces kept.
pub open spec fn keep_first_spaces(s: Seq<char>, m: nat) -> Seq<char>
    decreases s.len(),
{
    if s.len() == 0 {
        s
    } else if s[0] == ' ' {
        if m > 0 {
            seq![' '] + keep_first_spaces(s.skip(1), (m - 1) as nat)
        } else {
            keep_first_spaces(s.skip(1), 0)
        }
    } else {
        seq![s[0]] + keep_first_spaces(s.skip(1), m)
    }
}

pub open spec fn min_nat(a: nat, b: nat) -> nat {
    if a <= b {
        a
    } else {
        b
    }
}

/// What `fix_extra_spaces` makes of a translation.
pub open spec fn fixed_spaces(src: Seq<char>, translated: Seq<char>, preserve: bool) -> Seq<char> {
    let lead = spaces(leading_spaces(src));
    let trail = spaces(trailing_spaces(src));
    let t = trim(translated);
    if preserve {
        lead + t + trail
    } else {
        match space_template(src, t) {
            Some(rebuilt) => lead + rebuilt + trail,
            None => lead + keep_first_spaces(t, min_nat(count_char(t, ' '), count_char(trim(src), ' ')))
                + trail,
        }
    }
}

fn push_spaces(s: &mut String, n: usize)
    ensures
        final(s)@ == old(s)@ + spaces(n as nat),
{
    let ghost start = s@;
    let mut i: usize = 0;
    while i < n
        invariant
            i <= n,
            s@ == start + spaces(i as nat),
        decreases n - i,
    {
        push_char(s, ' ');
        i += 1;
        assert(s@ =~= start + spaces(i as nat));
    }
}

/// Keeps only the first `m` ASCII spaces of `t`.
fn keep_first_spaces_of(t: &[char], m: usize) -> (r: String)
    ensures
        r@ == keep_first_spaces(t@, m as nat),
{
    let mut out = String::new();
    let mut left = m;
    let mut i: usize = 0;
    assert(t@.skip(0) =~= t@);
    while i < t.len()
        invariant
            i <= t.len(),
            left <= m,
            out@ + keep_first_spaces(t@.skip(i as int), left as nat) == keep_first_spaces(
                t@,
                m as nat,
            ),
        decreases t.len() - i,
    {
        let ghost rest = t@.skip(i as int);
        assert(rest.skip(1) =~= t@.skip(i + 1));
        if t[i] == ' ' {
            if left > 0 {
                push_char(&mut out, ' ');
                left -= 1;
            }
        } else {
            push_char(&mut out, t[i]);
        }
        i += 1;
    }
    assert(t@.skip(t.len() as int) =~= Seq::<char>::empty());
    out
}

/// Restores the source's edge spaces; unless internal spaces are kept,
/// no run of spaces inside the result is longer than the source allows.
pub fn fix_extra_spaces(src_text: &str, translated_text: &str, preserve_internal_spaces: bool) -> (r:
    String)
    ensures
        r@ == fixed_spaces(src_text@, translated_text@, preserve_internal_spaces),
{
    let leading = count_leading_spaces(src_text);
    let trailing = count_trailing_spaces(src_text);
    let tr = chars_of(translated_text);
    let t = trim_chars(&tr);
    let mut out = String::new();
    push_spaces(&mut out, leading);
    if preserve_internal_spaces {
        push_chars(&mut out, &t);
        push_spaces(&mut out, trailing);
        return out;
    }
    let t_str = string_of(&t);
    match reapply_source_space_template(src_text, t_str.as_str()) {
        Some(rebuilt) => {
            out.append(rebuilt.as_str());
            push_spaces(&mut out, trailing);
            out
        },
        None => {
            let src = chars_of(src_text);
            let src_core = trim_chars(&src);
            let src_spaces = count_occurrences(&src_core, ' ');
            let t_spaces = count_occurrences(&t, ' ');
            let keep = if t_spaces <= src_spaces {
                t_spaces
            } else {
                src_spaces
            };
            let kept = keep_first_spaces_of(&t, keep);
            out.append(kept.as_str());
            push_spaces(&mut out, trailing);
            out
        },
    }
}

/// `s` has a number marker `Z[A-Y]+Z` starting at `start`.
pub open spec fn zm_marker_at(s: Seq<char>, start: int) -> bool {
    exists|end: int|
        #![trigger s[end]]
        start + 1 < end < s.len() && s[start] == 'Z' && s[end] == 'Z' && forall|k: int|
            start < k < end ==> #[trigger] is_zm_inner(s[k])
}

pub open spec fn is_zm_inner(c: char) -> bool {
    'A' <= c <= 'Y'
}

/// Whether a number marker starts at `start`.
pub fn is_zm_marker_start(chars: &[char], start: usize) -> (r: bool)
    ensures
        r == zm_marker_at(chars@, start as int),
{
    if start >= chars.len() || chars[start] != 'Z' {
        return false;
    }
    let mut probe = start + 1;
    while probe < chars.len() && 'A' <= chars[probe] && chars[probe] <= 'Y'
        invariant
            start < probe <= chars.len(),
            forall|k: int| start < k < probe ==> is_zm_inner(chars@[k]),
        decreases chars.len() - probe,
    {
        probe += 1;
    }
    let r = probe > start + 1 && probe < chars.len() && chars[probe] == 'Z';
    proof {
        if r {
            assert(start + 1 < probe < chars@.len());
        } else if zm_marker_at(chars@, start as int) {
            let end = choose|end: int|
                #![trigger chars@[end]]
                start + 1 < end < chars@.len() && chars@[start as int] == 'Z' && chars@[end]
                    == 'Z' && forall|k: int| start < k < end ==> #[trigger] is_zm_inner(chars@[k]);
            if end < probe {
                assert(is_zm_inner(chars@[end]));
            } else if end > probe {
                assert(is_zm_inner(chars@[probe as int]));
            }
        }
    }
    r
}

pub open spec fn sign_of(c: char) -> Option<char> {
    if c == '+' || c == '\u{FF0B}' {
        Some('+')
    } else if c == '-' || c == '\u{FF0D}' {
        Some('-')
    } else {
        None
    }
}

/// The end of the run of ASCII spaces of `s` that starts at `k`.
pub open spec fn space_run_end(s: Seq<char>, k: int) -> int
    decreases s.len() - k,
{
    if 0 <= k < s.len() && s[k] == ' ' {
        space_run_end(s, k + 1)
    } else {
        k
    }
}

/// Left to right: a plus or minus sign (ASCII or fullwidth) followed by
/// spaces and a number marker loses the spaces and becomes ASCII.
pub open spec fn tightened_signs(s: Seq<char>) -> Seq<char>
    decreases s.len(),
{
    if s.len() == 0 {
        s
    } else {
        let p = space_run_end(s, 1);
        if sign_of(s[0]) is Some && p > 1 && zm_marker_at(s, p) {
            seq![sign_of(s[0]).unwrap()] + tightened_signs(s.skip(p))
        } else {
            seq![s[0]] + tightened_signs(s.skip(1))
        }
    }
}

proof fn lemma_space_run_shift(s: Seq<char>, i: int, k: int)
    requires
        0 <= i <= k <= s.len(),
    ensures
        space_run_end(s.skip(i), k - i) == space_run_end(s, k) - i,
        k <= space_run_end(s, k) <= s.len(),
    decreases s.len() - k,
{
    if k < s.len() && s[k] == ' ' {
        lemma_space_run_shift(s, i, k + 1);
    }
}

proof fn lemma_zm_marker_shift(s: Seq<char>, i: int, p: int)
    requires
        0 <= i <= p <= s.len(),
    ensures
        zm_marker_at(s.skip(i), p - i) == zm_marker_at(s, p),
{
    let t = s.skip(i);
    if zm_marker_at(s, p) {
        let end = choose|end: int|
            #![trigger s[end]]
            p + 1 < end < s.len() && s[p] == 'Z' && s[end] == 'Z' && forall|k: int|
                p < k < end ==> #[trigger] is_zm_inner(s[k]);
        assert forall|k: int| p - i < k < end - i implies #[trigger] is_zm_inner(t[k]) by {
            assert(t[k] == s[k + i]);
        }
        assert(t[end - i] == 'Z');
    }
    if zm_marker_at(t, p - i) {
        let end = choose|end: int|
            #![trigger t[end]]
            p - i + 1 < end < t.len() && t[p - i] == 'Z' && t[end] == 'Z' && forall|k: int|
                p - i < k < end ==> #[trigger] is_zm_inner(t[k]);
        assert forall|k: int| p < k < end + i implies #[trigger] is_zm_inner(s[k]) by {
            assert(t[k - i] == s[k]);
        }
        assert(s[end + i] == 'Z');
    }
}

/// Removes the spaces between a sign and a following number marker.
pub fn normalize_plus_minus_spacing(text: &str) -> (r: String)
    ensures
        r@ == tightened_signs(text@),
{
    let cs = chars_of(text);
    let ghost s = cs@;
    let mut out = String::new();
    let mut index: usize = 0;
    assert(s.skip(0) =~= s);
    while index < cs.len()
        invariant
            s == cs@,
            s == text@,
            index <= cs.len(),
            out@ + tightened_signs(s.skip(index as int)) == tightened_signs(s),
        decreases cs.len() - index,
    {
        let ghost rest = s.skip(index as int);
        let ch = cs[index];
        let normalized_sign = if ch == '+' || ch == '\u{FF0B}' {
            Some('+')
        } else if ch == '-' || ch == '\u{FF0D}' {
            Some('-')
        } else {
            None
        };
        let mut done = false;
        if let Some(sign) = normalized_sign {
            let mut probe = index + 1;
            let mut saw_space = false;
            while probe < cs.len() && cs[probe] == ' '
                invariant
                    index + 1 <= probe <= cs.len(),
                    space_run_end(s, index + 1) == space_run_end(s, probe as int),
                    saw_space <==> probe > index + 1,
                    s == cs@,
                decreases cs.len() - probe,
            {
                saw_space = true;
                probe += 1;
            }
            proof {
                lemma_space_run_shift(s, index as int, index as int + 1);
                lemma_zm_marker_shift(s, index as int, probe as int);
            }
            if saw_space && is_zm_marker_start(&cs, probe) {
                push_char(&mut out, sign);
                assert(rest.skip(probe - index) =~= s.skip(probe as int));
                index = probe;
                done = true;
            }
        }
        if !done {
            proof {
                if sign_of(ch) is Some {
                    lemma_space_run_shift(s, index as int, index as int + 1);
                    lemma_zm_marker_shift(s, index as int, space_run_end(s, index + 1));
                }
            }
            push_char(&mut out, ch);
            assert(rest.skip(1) =~= s.skip(index + 1));
            index += 1;
        }
    }
    assert(s.skip(cs.len() as int) =~= Seq::<char>::empty());
    out
}

/// How many copies of `p` end `s`.
pub open spec fn trailing_count(s: Seq<char>, p: char) -> nat
    decreases s.len(),
{
    if s.len() > 0 && s.last() == p {
        1 + trailing_count(s.drop_last(), p)
    } else {
        0
    }
}

/// A doubled final `p` loses one copy, and the text its trailing white space.
pub open spec fn collapse_one(s: Seq<char>, p: char) -> Seq<char> {
    if trailing_count(s, p) == 2 {
        rstrip(s.drop_last())
    } else {
        s
    }
}

pub open spec fn collapsed_terminal(s: Seq<char>) -> Seq<char> {
    collapse_one(collapse_one(s, '\u{3002}'), '\u{3001}')
}

proof fn lemma_rstrip_is_trim_end(s: Seq<char>, b: int)
    requires
        0 <= b <= s.len(),
        forall|j: int| b <= j < s.len() ==> is_ws(s[j]),
        b == 0 || !is_ws(s[b - 1]),
    ensures
        rstrip(s) == s.take(b),
    decreases s.len() - b,
{
    if b < s.len() {
        assert(s.drop_last().take(b) =~= s.take(b));
        lemma_rstrip_is_trim_end(s.drop_last(), b);
    } else {
        assert(s.take(b) =~= s);
    }
}

fn collapse_duplicate_terminal(cs: Vec<char>, p: char) -> (r: Vec<char>)
    ensures
        r@ == collapse_one(cs@, p),
{
    let mut b: usize = cs.len();
    assert(cs@.take(b as int) =~= cs@);
    while b > 0 && cs[b - 1] == p
        invariant
            b <= cs.len(),
            forall|j: int| b <= j < cs.len() ==> cs@[j] == p,
            trailing_count(cs@, p) == (cs.len() - b) + trailing_count(cs@.take(b as int), p),
        decreases b,
    {
        assert(cs@.take(b as int).drop_last() =~= cs@.take(b - 1));
        b -= 1;
    }
    assert(trailing_count(cs@.take(b as int), p) == 0);
    if cs.len() - b != 2 {
        return cs;
    }
    let ghost t = cs@.drop_last();
    let mut e: usize = cs.len() - 1;
    while e > 0 && is_whitespace(cs[e - 1])
        invariant
            e <= cs.len() - 1,
            t == cs@.drop_last(),
            forall|j: int| e <= j < t.len() ==> is_ws(t[j]),
        decreases e,
    {
        e -= 1;
    }
    proof {
        lemma_rstrip_is_trim_end(t, e as int);
    }
    let mut r: Vec<char> = Vec::new();
    let mut k: usize = 0;
    while k < e
        invariant
            k <= e <= cs.len() - 1,
            r@ == cs@.take(k as int),
        decreases e - k,
    {
        r.push(cs[k]);
        k += 1;
        assert(r@ =~= cs@.take(k as int));
    }
    assert(t.take(e as int) =~= cs@.take(e as int));
    r
}

/// A doubled final "。" or "、" loses one copy (three or one are kept).
pub fn collapse_duplicate_terminal_punctuation(text: String) -> (r: String)
    ensures
        r@ == collapsed_terminal(text@),
{
    let cs = chars_of(text.as_str());
    let a = collapse_duplicate_terminal(cs, '\u{3002}');
    let b = collapse_duplicate_terminal(a, '\u{3001}');
    string_of(&b)
}

/// The whole cleanup of one model output for the source segment `src`.
pub open spec fn cleaned_output(
    src: Seq<char>,
    translated: Seq<char>,
    tgt_lang: Seq<char>,
    enable_symbol_cleanup: bool,
) -> Seq<char> {
    let fixed = fixed_spaces(
        trim(src),
        apostrophes_normalized(display_text(translated)),
        !compacts_spaces(tgt_lang),
    );
    collapsed_terminal(
        if enable_symbol_cleanup {
            tightened_signs(fixed)
        } else {
            fixed
        },
    )
}

/// Every Chinese target ("zh", "zh-CN", "zh-Hant", "zh-TW") has its model
/// output cleaned exactly as a Japanese one is, whatever the source, the
/// output and the sign option: the spaces the model put between words are
/// handled as for a language written without them.
pub proof fn lemma_chinese_cleans_as_japanese(
    src: Seq<char>,
    translated: Seq<char>,
    tgt_lang: Seq<char>,
    enable_symbol_cleanup: bool,
)
    requires
        tgt_lang == "zh"@ || tgt_lang == "zh-CN"@ || tgt_lang == "zh-Hant"@ || tgt_lang == "zh-TW"@,
    ensures
        cleaned_output(src, translated, tgt_lang, enable_symbol_cleanup) == cleaned_output(
            src,
            translated,
            "ja"@,
            enable_symbol_cleanup,
        ),
{
    lemma_compacting_targets(tgt_lang);
    lemma_compacting_targets("ja"@);
}

/// Cleans a model output: display folding, apostrophe repair, space
/// repair against the source, sign tightening and doubled-stop collapse.
pub fn clean_model_output(
    src: &str,
    translated: &str,
    tgt_lang: &str,
    enable_symbol_cleanup: bool,
) -> (r: String)
    ensures
        r@ == cleaned_output(src@, translated@, tgt_lang@, enable_symbol_cleanup),
{
    let src_chars = chars_of(src);
    let src_trimmed = string_of(&trim_chars(&src_chars));
    let mut result = normalize_display(translated);
    result = normalize_apostrophes(result.as_str());
    result = fix_extra_spaces(
        src_trimmed.as_str(),
        result.as_str(),
        !target_compacts_internal_spaces(tgt_lang),
    );
    if enable_symbol_cleanup {
        result = normalize_plus_minus_spacing(result.as_str());
    }
    collapse_duplicate_terminal_punctuation(result)
}

} // verus!
