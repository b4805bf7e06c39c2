//! Splitting game text into protected structure and translatable text, and
//! putting a translation back into the structure.
//!
//! Protected structure is, leftmost match first and the first kind that
//! matches at a position winning:
//! escaped sequences (`\r\n`, `\n`, `\t` written with a backslash), tags
//! `<..>`, brackets `[..]`, placeholders `{{..}}`, braces `{..}`, number
//! markers `Z..Z` of capitals, and single boundary symbols.

use vstd::prelude::*;
use crate::config::{ascii_lower, GameTextOptions};
use crate::text::{chars_of, is_ws, push_chars, string_of, trim, trim_chars};

verus! {

/// The kinds of protected structure, in the order they are tried.
#[derive(Debug, Clone, Copy, PartialEq, Eq)]
pub enum ProtectedKind {
    Escaped,
    Tag,
    Bracket,
    Placeholder,
    Brace,
    Marker,
    Boundary,
}

pub open spec fn is_line_break(c: char) -> bool {
    c == '\r' || c == '\n'
}

/// The symbols that split text into segments.
pub open spec fn is_boundary_char(c: char) -> bool {
    c == '+' || c == '-' || c == ':' || c == '/' || c == '%' || c == '(' || c == ')' || c == '|'
        || c == '[' || c == ']' || c == ';' || c == '（' || c == '）' || c == '【' || c == '】'
        || c == '《' || c == '》' || c == '：' || c == '；'
}

/// The first index at or after `from` holding `close` or a line break, or
/// the length of `s`.
pub open spec fn stop_index(s: Seq<char>, from: int, close: char) -> int
    decreases s.len() - from,
{
    if from >= s.len() {
        s.len() as int
    } else if s[from] == close || is_line_break(s[from]) {
        from
    } else {
        stop_index(s, from + 1, close)
    }
}

/// End of `open [^close CR LF]+ close` at `p`.
pub open spec fn delimited_end(s: Seq<char>, p: int, open: char, close: char) -> Option<int> {
    if 0 <= p < s.len() && s[p] == open {
        let q = stop_index(s, p + 1, close);
        if q > p + 1 && q < s.len() && s[q] == close {
            Some(q + 1)
        } else {
            None
        }
    } else {
        None
    }
}

/// End of `\r\n`, `\n` or `\t` (backslash escapes) at `p`.
pub open spec fn escaped_end(s: Seq<char>, p: int) -> Option<int> {
    if 0 <= p && p + 1 < s.len() && s[p] == '\\' {
        if s.len() - p > 3 && s[p + 1] == 'r' && s[p + 2] == '\\' && s[p + 3] == 'n' {
            Some(p + 4)
        } else if s[p + 1] == 'n' || s[p + 1] == 't' {
            Some(p + 2)
        } else {
            None
        }
    } else {
        None
    }
}

/// End of `{{[^} CR LF]+}}` at `p`.
pub open spec fn placeholder_end(s: Seq<char>, p: int) -> Option<int> {
    if 0 <= p && p + 1 < s.len() && s[p] == '{' && s[p + 1] == '{' {
        let q = stop_index(s, p + 2, '}');
        if q > p + 2 && q < s.len() && q + 1 < s.len() && s[q] == '}' && s[q + 1] == '}' {
            Some(q + 2)
        } else {
            None
        }
    } else {
        None
    }
}

pub open spec fn is_upper(c: char) -> bool {
    'A' <= c <= 'Z'
}

/// The first index at or after `from` that is not an ASCII capital.
pub open spec fn upper_run_end(s: Seq<char>, from: int) -> int
    decreases s.len() - from,
{
    if from >= s.len() {
        s.len() as int
    } else if !is_upper(s[from]) {
        from
    } else {
        upper_run_end(s, from + 1)
    }
}

/// The last index in `[lo, hi)` holding `Z`.
pub open spec fn last_z_before(s: Seq<char>, lo: int, hi: int) -> Option<int>
    decreases hi - lo,
{
    if hi <= lo {
        None
    } else if s[hi - 1] == 'Z' {
        Some(hi - 1)
    } else {
        last_z_before(s, lo, hi - 1)
    }
}

/// End of `Z[A-Z]+Z` at `p`: the capitals run on as far as the last `Z`.
pub open spec fn marker_end(s: Seq<char>, p: int) -> Option<int> {
    if 0 <= p < s.len() && s[p] == 'Z' {
        match last_z_before(s, p + 2, upper_run_end(s, p + 1)) {
            Some(k) => Some(k + 1),
            None => None,
        }
    } else {
        None
    }
}

/// The protected structure starting at `p`, if any: its end and kind.
pub open spec fn protected_at(s: Seq<char>, p: int) -> Option<(int, ProtectedKind)> {
    if escaped_end(s, p) is Some {
        Some((escaped_end(s, p)->0, ProtectedKind::Escaped))
    } else if delimited_end(s, p, '<', '>') is Some {
        Some((delimited_end(s, p, '<', '>')->0, ProtectedKind::Tag))
    } else if delimited_end(s, p, '[', ']') is Some {
        Some((delimited_end(s, p, '[', ']')->0, ProtectedKind::Bracket))
    } else if placeholder_end(s, p) is Some {
        Some((placeholder_end(s, p)->0, ProtectedKind::Placeholder))
    } else if delimited_end(s, p, '{', '}') is Some {
        Some((delimited_end(s, p, '{', '}')->0, ProtectedKind::Brace))
    } else if marker_end(s, p) is Some {
        Some((marker_end(s, p)->0, ProtectedKind::Marker))
    } else if 0 <= p < s.len() && is_boundary_char(s[p]) {
        Some((p + 1, ProtectedKind::Boundary))
    } else {
        None
    }
}

pub open spec fn is_ascii_alpha(c: char) -> bool {
    ('a' <= c <= 'z') || ('A' <= c <= 'Z')
}

/// A boundary symbol is kept unless it is a hyphen between ASCII letters.
pub open spec fn boundary_protected(s: Seq<char>, p: int) -> bool {
    !(s[p] == '-' && p > 0 && p + 1 < s.len() && is_ascii_alpha(s[p - 1]) && is_ascii_alpha(
        s[p + 1],
    ))
}

/// Whether the options protect structure of kind `k` found at `p`.
pub open spec fn kind_protected(opts: GameTextOptions, s: Seq<char>, p: int, k: ProtectedKind) -> bool {
    match k {
        ProtectedKind::Escaped => opts.protect_escaped_sequences,
        ProtectedKind::Tag => opts.protect_tags,
        ProtectedKind::Bracket => opts.protect_brackets,
        ProtectedKind::Placeholder => opts.protect_placeholders,
        ProtectedKind::Brace => opts.protect_placeholders,
        ProtectedKind::Marker => opts.protect_placeholders,
        ProtectedKind::Boundary => opts.split_symbolic_segments && boundary_protected(s, p),
    }
}

pub proof fn lemma_stop_index(s: Seq<char>, from: int, close: char)
    requires
        0 <= from <= s.len(),
    ensures
        from <= stop_index(s, from, close) <= s.len(),
        forall|j: int| from <= j < stop_index(s, from, close) ==> s[j] != close && !is_line_break(s[j]),
        stop_index(s, from, close) < s.len() ==> (s[stop_index(s, from, close)] == close
            || is_line_break(s[stop_index(s, from, close)])),
    decreases s.len() - from,
{
    if from < s.len() && !(s[from] == close || is_line_break(s[from])) {
        lemma_stop_index(s, from + 1, close);
    }
}

pub proof fn lemma_upper_run_end(s: Seq<char>, from: int)
    requires
        0 <= from <= s.len(),
    ensures
        from <= upper_run_end(s, from) <= s.len(),
        forall|j: int| from <= j < upper_run_end(s, from) ==> is_upper(s[j]),
        upper_run_end(s, from) < s.len() ==> !is_upper(s[upper_run_end(s, from)]),
    decreases s.len() - from,
{
    if from < s.len() && is_upper(s[from]) {
        lemma_upper_run_end(s, from + 1);
    }
}

pub proof fn lemma_last_z_before(s: Seq<char>, lo: int, hi: int)
    ensures
        match last_z_before(s, lo, hi) {
            Some(k) => lo <= k < hi && s[k] == 'Z' && forall|j: int| k < j < hi ==> s[j] != 'Z',
            None => forall|j: int| lo <= j < hi ==> s[j] != 'Z',
        },
    decreases hi - lo,
{
    if hi > lo && s[hi - 1] != 'Z' {
        lemma_last_z_before(s, lo, hi - 1);
    }
}

pub proof fn lemma_protected_at_bounds(s: Seq<char>, p: int)
    requires
        0 <= p < s.len(),
    ensures
        protected_at(s, p) is Some ==> p < (protected_at(s, p)->0).0 <= s.len(),
{
    if p + 1 <= s.len() {
        lemma_stop_index(s, p + 1, '>');
        lemma_stop_index(s, p + 1, ']');
        lemma_stop_index(s, p + 1, '}');
    }
    if p + 2 <= s.len() {
        lemma_stop_index(s, p + 2, '}');
    }
    lemma_upper_run_end(s, p + 1);
    lemma_last_z_before(s, p + 2, upper_run_end(s, p + 1));
}

/// The tokens of `s` from position `pos` on, where unprotected text has
/// run since `last`: each token with whether it is protected structure.
/// Structure that the options leave unprotected stays in the text, and the
/// search resumes after it.
pub open spec fn split_from(s: Seq<char>, opts: GameTextOptions, pos: int, last: int) -> Seq<
    (Seq<char>, bool),
>
    decreases s.len() - pos,
{
    if pos >= s.len() || pos < 0 {
        if last < s.len() {
            seq![(s.subrange(last, s.len() as int), false)]
        } else {
            seq![]
        }
    } else {
        match protected_at(s, pos) {
            Some((end, kind)) => if kind_protected(opts, s, pos, kind) {
                proof {
                    lemma_protected_at_bounds(s, pos);
                }
                let before: Seq<(Seq<char>, bool)> = if pos > last {
                    seq![(s.subrange(last, pos), false)]
                } else {
                    seq![]
                };
                before + seq![(s.subrange(pos, end), true)] + split_from(s, opts, end, end)
            } else {
                proof {
                    lemma_protected_at_bounds(s, pos);
                }
                split_from(s, opts, end, last)
            },
            None => split_from(s, opts, pos + 1, last),
        }
    }
}

/// The tokens of `s`.
pub open spec fn split_tokens(s: Seq<char>, opts: GameTextOptions) -> Seq<(Seq<char>, bool)> {
    split_from(s, opts, 0, 0)
}

/// A character that starts no protected structure: an ASCII letter other
/// than `Z`, a digit or a space.
pub open spec fn plain_char(c: char) -> bool {
    ('a' <= c <= 'z') || ('A' <= c <= 'Y') || ('0' <= c <= '9') || c == ' '
}

proof fn lemma_split_plain_prefix(s: Seq<char>, opts: GameTextOptions, j: int, p: int)
    requires
        0 <= j <= p <= s.len(),
        forall|i: int| 0 <= i < p ==> plain_char(#[trigger] s[i]),
    ensures
        split_from(s, opts, j, 0) == split_from(s, opts, p, 0),
    decreases p - j,
{
    if j < p {
        assert(protected_at(s, j) is None);
        lemma_split_plain_prefix(s, opts, j + 1, p);
    }
}

/// Once the search has passed the start with nothing protected yet, the
/// first token is unprotected text that starts at the beginning of `s`
/// and runs at least as far as the search has come.
proof fn lemma_split_unprotected_start(s: Seq<char>, opts: GameTextOptions, pos: int)
    requires
        1 <= pos <= s.len(),
    ensures
        split_from(s, opts, pos, 0).len() >= 1,
        !split_from(s, opts, pos, 0)[0].1,
        pos <= split_from(s, opts, pos, 0)[0].0.len() <= s.len(),
        split_from(s, opts, pos, 0)[0].0 == s.subrange(0, split_from(s, opts, pos, 0)[0].0.len() as int),
    decreases s.len() - pos,
{
    if pos < s.len() {
        lemma_protected_at_bounds(s, pos);
        match protected_at(s, pos) {
            Some((end, kind)) => {
                if !kind_protected(opts, s, pos, kind) {
                    lemma_split_unprotected_start(s, opts, end);
                }
            },
            None => {
                lemma_split_unprotected_start(s, opts, pos + 1);
            },
        }
    }
}

/// The option that governs a tag `<..>`, a bracket `[..]` or a brace
/// `{..}`, by its opening character.
pub open spec fn delimiter_option(opts: GameTextOptions, open: char) -> bool {
    if open == '<' {
        opts.protect_tags
    } else if open == '[' {
        opts.protect_brackets
    } else {
        opts.protect_placeholders
    }
}

/// Tags follow `protect_tags`, brackets `protect_brackets` and braces
/// (which are placeholders) `protect_placeholders`. Take such a structure
/// after plain text: `<..>`, `[..]` or `{..}` with something inside and no
/// closing character or line break inside, a brace not being the start of
/// a `{{..}}` placeholder. With its option on, it is protected structure of
/// its own: the text before it is one unprotected token and the whole
/// structure the protected token after it, so it never reaches the text
/// that is translated. With its option off, it stays in the first text
/// token, which starts at the beginning and runs past it.
pub proof fn lemma_delimited_protected(
    s: Seq<char>,
    opts: GameTextOptions,
    p: int,
    q: int,
    open: char,
    close: char,
)
    requires
        (open == '<' && close == '>') || (open == '[' && close == ']') || (open == '{' && close
            == '}'),
        0 <= p,
        p + 1 < q < s.len(),
        forall|j: int| 0 <= j < p ==> plain_char(#[trigger] s[j]),
        s[p] == open,
        open == '{' ==> s[p + 1] != '{',
        s[q] == close,
        forall|j: int| p < j < q ==> s[j] != close && s[j] != '\r' && s[j] != '\n',
    ensures
        delimiter_option(opts, open) && p == 0 ==> split_tokens(s, opts).len() >= 1 && split_tokens(
            s,
            opts,
        )[0] == (s.subrange(p, q + 1), true),
        delimiter_option(opts, open) && p > 0 ==> split_tokens(s, opts).len() >= 2 && split_tokens(
            s,
            opts,
        )[0] == (s.subrange(0, p), false) && split_tokens(s, opts)[1] == (s.subrange(p, q + 1), true),
        !delimiter_option(opts, open) ==> split_tokens(s, opts).len() >= 1 && !split_tokens(s, opts)[0].1
            && split_tokens(s, opts)[0].0.len() > q && split_tokens(s, opts)[0].0 == s.subrange(
            0,
            split_tokens(s, opts)[0].0.len() as int,
        ),
{
    lemma_split_plain_prefix(s, opts, 0, p);
    lemma_stop_index(s, p + 1, close);
    let m = stop_index(s, p + 1, close);
    assert(m == q) by {
        if m < q {
            assert(s[m] == close || is_line_break(s[m]));
        }
        if m > q {
            assert(s[q] != close);
        }
    }
    if open == '<' {
        assert(protected_at(s, p) == Some((q + 1, ProtectedKind::Tag)));
    } else if open == '[' {
        assert(protected_at(s, p) == Some((q + 1, ProtectedKind::Bracket)));
    } else {
        assert(protected_at(s, p) == Some((q + 1, ProtectedKind::Brace)));
    }
    if !delimiter_option(opts, open) {
        lemma_split_unprotected_start(s, opts, q + 1);
    }
}

} // verus!

verus! {

fn stop_index_of(s: &[char], from: usize, close: char) -> (r: usize)
    requires
        from <= s@.len(),
    ensures
        r == stop_index(s@, from as int, close),
{
    let mut i = from;
    while i < s.len() && s[i] != close && s[i] != '\r' && s[i] != '\n'
        invariant
            from <= i <= s@.len(),
            stop_index(s@, from as int, close) == stop_index(s@, i as int, close),
        decreases s.len() - i,
    {
        i += 1;
    }
    i
}

fn upper_run_end_of(s: &[char], from: usize) -> (r: usize)
    requires
        from <= s@.len(),
    ensures
        r == upper_run_end(s@, from as int),
{
    let mut i = from;
    while i < s.len() && 'A' <= s[i] && s[i] <= 'Z'
        invariant
            from <= i <= s@.len(),
            upper_run_end(s@, from as int) == upper_run_end(s@, i as int),
        decreases s.len() - i,
    {
        i += 1;
    }
    i
}

fn last_z_before_of(s: &[char], lo: usize, hi: usize) -> (r: Option<usize>)
    requires
        hi <= s@.len(),
    ensures
        match r {
            Some(k) => last_z_before(s@, lo as int, hi as int) == Some(k as int),
            None => last_z_before(s@, lo as int, hi as int) is None,
        },
{
    let mut h = hi;
    while h > lo
        invariant
            h <= hi <= s@.len(),
            last_z_before(s@, lo as int, hi as int) == last_z_before(s@, lo as int, h as int),
        decreases h,
    {
        if s[h - 1] == 'Z' {
            return Some(h - 1);
        }
        h -= 1;
    }
    None
}

fn delimited_end_of(s: &[char], p: usize, open: char, close: char) -> (r: Option<usize>)
    requires
        p < s.len(),
    ensures
        match r {
            Some(e) => delimited_end(s@, p as int, open, close) == Some(e as int),
            None => delimited_end(s@, p as int, open, close) is None,
        },
{
    if s[p] != open {
        return None;
    }
    let q = stop_index_of(s, p + 1, close);
    proof {
        lemma_stop_index(s@, p as int + 1, close);
    }
    if q > p + 1 && q < s.len() && s[q] == close {
        Some(q + 1)
    } else {
        None
    }
}

fn escaped_end_of(s: &[char], p: usize) -> (r: Option<usize>)
    requires
        p < s.len(),
    ensures
        match r {
            Some(e) => escaped_end(s@, p as int) == Some(e as int),
            None => escaped_end(s@, p as int) is None,
        },
{
    if p + 1 < s.len() && s[p] == '\\' {
        if s.len() - p > 3 && s[p + 1] == 'r' && s[p + 2] == '\\' && s[p + 3] == 'n' {
            Some(p + 4)
        } else if s[p + 1] == 'n' || s[p + 1] == 't' {
            Some(p + 2)
        } else {
            None
        }
    } else {
        None
    }
}

fn placeholder_end_of(s: &[char], p: usize) -> (r: Option<usize>)
    requires
        p < s.len(),
    ensures
        match r {
            Some(e) => placeholder_end(s@, p as int) == Some(e as int),
            None => placeholder_end(s@, p as int) is None,
        },
{
    if p + 1 < s.len() && s[p] == '{' && s[p + 1] == '{' {
        let q = stop_index_of(s, p + 2, '}');
        proof {
            lemma_stop_index(s@, p as int + 2, '}');
        }
        if q > p + 2 && q < s.len() && q + 1 < s.len() && s[q] == '}' && s[q + 1] == '}' {
            Some(q + 2)
        } else {
            None
        }
    } else {
        None
    }
}

fn marker_end_of(s: &[char], p: usize) -> (r: Option<usize>)
    requires
        p < s.len(),
    ensures
        match r {
            Some(e) => marker_end(s@, p as int) == Some(e as int),
            None => marker_end(s@, p as int) is None,
        },
{
    if s[p] != 'Z' {
        return None;
    }
    let u = upper_run_end_of(s, p + 1);
    proof {
        lemma_upper_run_end(s@, p as int + 1);
    }
    if u <= p + 1 {
        return None;
    }
    match last_z_before_of(s, p + 2, u) {
        Some(k) => {
            proof {
                lemma_last_z_before(s@, p as int + 2, u as int);
            }
            Some(k + 1)
        },
        None => None,
    }
}

fn is_boundary(c: char) -> (r: bool)
    ensures
        r == is_boundary_char(c),
{
    c == '+' || c == '-' || c == ':' || c == '/' || c == '%' || c == '(' || c == ')' || c == '|'
        || c == '[' || c == ']' || c == ';' || c == '（' || c == '）' || c == '【' || c == '】'
        || c == '《' || c == '》' || c == '：' || c == '；'
}

/// The protected structure starting at `p`, if any.
pub fn protected_at_of(s: &[char], p: usize) -> (r: Option<(usize, ProtectedKind)>)
    requires
        p < s.len(),
    ensures
        match r {
            Some((e, k)) => protected_at(s@, p as int) == Some((e as int, k)),
            None => protected_at(s@, p as int) is None,
        },
{
    if let Some(e) = escaped_end_of(s, p) {
        return Some((e, ProtectedKind::Escaped));
    }
    if let Some(e) = delimited_end_of(s, p, '<', '>') {
        return Some((e, ProtectedKind::Tag));
    }
    if let Some(e) = delimited_end_of(s, p, '[', ']') {
        return Some((e, ProtectedKind::Bracket));
    }
    if let Some(e) = placeholder_end_of(s, p) {
        return Some((e, ProtectedKind::Placeholder));
    }
    if let Some(e) = delimited_end_of(s, p, '{', '}') {
        return Some((e, ProtectedKind::Brace));
    }
    if let Some(e) = marker_end_of(s, p) {
        return Some((e, ProtectedKind::Marker));
    }
    if is_boundary(s[p]) {
        return Some((p + 1, ProtectedKind::Boundary));
    }
    None
}

fn is_alpha(c: char) -> (r: bool)
    ensures
        r == is_ascii_alpha(c),
{
    ('a' <= c && c <= 'z') || ('A' <= c && c <= 'Z')
}

fn kind_protected_of(opts: &GameTextOptions, s: &[char], p: usize, k: ProtectedKind) -> (r: bool)
    requires
        p < s.len(),
    ensures
        r == kind_protected(*opts, s@, p as int, k),
{
    match k {
        ProtectedKind::Escaped => opts.protect_escaped_sequences,
        ProtectedKind::Tag => opts.protect_tags,
        ProtectedKind::Bracket => opts.protect_brackets,
        ProtectedKind::Placeholder => opts.protect_placeholders,
        ProtectedKind::Brace => opts.protect_placeholders,
        ProtectedKind::Marker => opts.protect_placeholders,
        ProtectedKind::Boundary => opts.split_symbolic_segments && !(s[p] == '-' && p > 0 && p + 1
            < s.len() && is_alpha(s[p - 1]) && is_alpha(s[p + 1])),
    }
}

/// The tokens held as strings and flags.
/// Tokens and flags are read pairwise, as far as both go.
pub open spec fn token_pairs(tokens: Seq<String>, flags: Seq<bool>) -> Seq<(Seq<char>, bool)> {
    Seq::new(
        if tokens.len() <= flags.len() {
            tokens.len()
        } else {
            flags.len()
        },
        |i: int| (tokens[i]@, flags[i]),
    )
}

fn push_token(tokens: &mut Vec<String>, flags: &mut Vec<bool>, s: &[char], a: usize, b: usize, flag: bool)
    requires
        a <= b <= s@.len(),
        old(tokens)@.len() == old(flags)@.len(),
    ensures
        final(tokens)@.len() == final(flags)@.len(),
        token_pairs(final(tokens)@, final(flags)@) == token_pairs(old(tokens)@, old(flags)@).push(
            (s@.subrange(a as int, b as int), flag),
        ),
{
    let t = crate::text::slice_string(s, a, b);
    tokens.push(t);
    flags.push(flag);
    assert(token_pairs(tokens@, flags@) =~= token_pairs(old(tokens)@, old(flags)@).push(
        (s@.subrange(a as int, b as int), flag),
    ));
}

/// Splits `s` into tokens: unprotected text and protected structure, with a
/// flag telling which each token is.
pub fn split_text_and_structure(opts: &GameTextOptions, s: &[char]) -> (r: (Vec<String>, Vec<bool>))
    ensures
        r.0@.len() == r.1@.len(),
        token_pairs(r.0@, r.1@) == split_tokens(s@, *opts),
{
    let mut tokens: Vec<String> = Vec::new();
    let mut flags: Vec<bool> = Vec::new();
    let mut pos: usize = 0;
    let mut last: usize = 0;
    while pos < s.len()
        invariant
            last <= pos <= s@.len(),
            tokens@.len() == flags@.len(),
            token_pairs(tokens@, flags@) + split_from(s@, *opts, pos as int, last as int)
                == split_tokens(s@, *opts),
        decreases s.len() - pos,
    {
        proof {
            lemma_protected_at_bounds(s@, pos as int);
        }
        let ghost before = token_pairs(tokens@, flags@);
        match protected_at_of(s, pos) {
            Some((end, kind)) => {
                if kind_protected_of(opts, s, pos, kind) {
                    let ghost pre: Seq<(Seq<char>, bool)> = if pos > last {
                        seq![(s@.subrange(last as int, pos as int), false)]
                    } else {
                        seq![]
                    };
                    if pos > last {
                        push_token(&mut tokens, &mut flags, s, last, pos, false);
                    }
                    assert(token_pairs(tokens@, flags@) =~= before + pre);
                    push_token(&mut tokens, &mut flags, s, pos, end, true);
                    assert(before + pre + seq![(s@.subrange(pos as int, end as int), true)]
                        + split_from(s@, *opts, end as int, end as int) =~= token_pairs(
                        tokens@,
                        flags@,
                    ) + split_from(s@, *opts, end as int, end as int));
                    pos = end;
                    last = end;
                } else {
                    pos = end;
                }
            },
            None => {
                pos += 1;
            },
        }
    }
    let ghost before = token_pairs(tokens@, flags@);
    if last < s.len() {
        push_token(&mut tokens, &mut flags, s, last, s.len(), false);
    }
    assert(token_pairs(tokens@, flags@) =~= before + split_from(s@, *opts, pos as int, last as int));
    (tokens, flags)
}

} // verus!

verus! {

/// The unprotected text of the tokens, joined.
pub open spec fn visible_of(pairs: Seq<(Seq<char>, bool)>) -> Seq<char>
    decreases pairs.len(),
{
    if pairs.len() == 0 {
        seq![]
    } else if pairs.last().1 {
        visible_of(pairs.drop_last())
    } else {
        visible_of(pairs.drop_last()) + pairs.last().0
    }
}

/// The text the model sees: the unprotected tokens joined.
pub fn collect_visible_text(tokens: &[String], flags: &[bool]) -> (r: String)
    ensures
        r@ == visible_of(token_pairs(tokens@, flags@)),
{
    let ghost pairs = token_pairs(tokens@, flags@);
    let n = if tokens.len() <= flags.len() {
        tokens.len()
    } else {
        flags.len()
    };
    let mut r = String::new();
    let mut i: usize = 0;
    while i < n
        invariant
            i <= n,
            n == pairs.len(),
            n <= tokens@.len(),
            n <= flags@.len(),
            pairs == token_pairs(tokens@, flags@),
            r@ == visible_of(pairs.take(i as int)),
        decreases n - i,
    {
        assert(pairs.take(i as int + 1).drop_last() =~= pairs.take(i as int));
        assert(pairs[i as int] == (tokens@[i as int]@, flags@[i as int]));
        if !flags[i] {
            let cs = chars_of(tokens[i].as_str());
            push_chars(&mut r, &cs);
        }
        i += 1;
    }
    assert(pairs.take(n as int) =~= pairs);
    r
}

/// A token that is exactly one boundary symbol.
pub open spec fn is_segment_boundary(t: Seq<char>) -> bool {
    t.len() == 1 && is_boundary_char(t[0])
}

/// The translatable segments: unprotected, non-blank tokens joined, a new
/// segment starting at each boundary symbol once the current one holds
/// non-blank text; `current` is the segment being gathered.
pub open spec fn text_tokens_from(pairs: Seq<(Seq<char>, bool)>, current: Seq<char>) -> Seq<Seq<char>>
    decreases pairs.len(),
{
    if pairs.len() == 0 {
        if trim(current).len() > 0 {
            seq![current]
        } else {
            seq![]
        }
    } else {
        let t = pairs[0].0;
        let rest = pairs.drop_first();
        if !pairs[0].1 {
            text_tokens_from(rest, if trim(t).len() > 0 { current + t } else { current })
        } else if is_segment_boundary(t) && trim(current).len() > 0 {
            seq![current] + text_tokens_from(rest, seq![])
        } else {
            text_tokens_from(rest, current)
        }
    }
}

fn is_segment_boundary_token(t: &[char]) -> (r: bool)
    ensures
        r == is_segment_boundary(t@),
{
    t.len() == 1 && is_boundary(t[0])
}

/// The segments of the tokens, for translating one by one.
pub fn collect_text_tokens(tokens: &[String], flags: &[bool]) -> (r: Vec<String>)
    ensures
        r@.map_values(|x: String| x@) == text_tokens_from(token_pairs(tokens@, flags@), seq![]),
{
    let ghost pairs = token_pairs(tokens@, flags@);
    let n = if tokens.len() <= flags.len() {
        tokens.len()
    } else {
        flags.len()
    };
    let mut out: Vec<String> = Vec::new();
    let mut current: Vec<char> = Vec::new();
    let mut i: usize = 0;
    assert(pairs.skip(0) =~= pairs);
    assert(out@.map_values(|x: String| x@) + text_tokens_from(pairs, current@) =~= text_tokens_from(
        pairs,
        seq![],
    ));
    while i < n
        invariant
            i <= n,
            n == pairs.len(),
            n <= tokens@.len(),
            n <= flags@.len(),
            pairs == token_pairs(tokens@, flags@),
            out@.map_values(|x: String| x@) + text_tokens_from(pairs.skip(i as int), current@)
                == text_tokens_from(pairs, seq![]),
        decreases n - i,
    {
        let ghost rest = pairs.skip(i as int);
        assert(rest[0] == (tokens@[i as int]@, flags@[i as int]));
        assert(rest.drop_first() =~= pairs.skip(i as int + 1));
        let t = chars_of(tokens[i].as_str());
        let ghost before = out@.map_values(|x: String| x@);
        if !flags[i] {
            let tt = trim_chars(&t);
            if tt.len() > 0 {
                let mut k: usize = 0;
                let ghost c0 = current@;
                while k < t.len()
                    invariant
                        k <= t.len(),
                        current@ == c0 + t@.take(k as int),
                    decreases t.len() - k,
                {
                    current.push(t[k]);
                    k += 1;
                    assert(current@ =~= c0 + t@.take(k as int));
                }
                assert(t@.take(t.len() as int) =~= t@);
            }
        } else {
            let cur_trim = trim_chars(&current);
            if is_segment_boundary_token(&t) && cur_trim.len() > 0 {
                let seg = string_of(&current);
                out.push(seg);
                assert(out@.map_values(|x: String| x@) =~= before.push(current@));
                assert(before + (seq![current@] + text_tokens_from(rest.drop_first(), seq![]))
                    =~= out@.map_values(|x: String| x@) + text_tokens_from(
                    rest.drop_first(),
                    seq![],
                ));
                current = Vec::new();
            }
        }
        i += 1;
    }
    let ghost before = out@.map_values(|x: String| x@);
    let cur_trim = trim_chars(&current);
    if cur_trim.len() > 0 {
        let seg = string_of(&current);
        out.push(seg);
        assert(out@.map_values(|x: String| x@) =~= before.push(current@));
    }
    assert(out@.map_values(|x: String| x@) =~= before + text_tokens_from(
        pairs.skip(n as int),
        current@,
    ));
    out
}

} // verus!

verus! {

// ---------------------------------------------------------------------------
// Aligning a translation with its source
// ---------------------------------------------------------------------------

/// Characters align when equal up to ASCII case.
pub open spec fn align_eq(a: char, b: char) -> bool {
    ascii_lower(a) == ascii_lower(b)
}

/// The length of a longest common subsequence of `s[i..]` and `t[j..]`
/// under `align_eq`.
pub open spec fn lcs(s: Seq<char>, t: Seq<char>, i: int, j: int) -> nat
    decreases s.len() - i + t.len() - j,
{
    if i < 0 || j < 0 || i >= s.len() || j >= t.len() {
        0
    } else if align_eq(s[i], t[j]) {
        1 + lcs(s, t, i + 1, j + 1)
    } else if lcs(s, t, i + 1, j) >= lcs(s, t, i, j + 1) {
        lcs(s, t, i + 1, j)
    } else {
        lcs(s, t, i, j + 1)
    }
}

/// The matched positions (one past each matched character) that the
/// alignment walk from `(i, j)` passes: matching characters are taken,
/// otherwise the side with the longer remaining common subsequence is
/// advanced, the source side on ties.
pub open spec fn align_walk(s: Seq<char>, t: Seq<char>, i: int, j: int) -> Seq<(int, int)>
    decreases s.len() - i + t.len() - j,
{
    if i < 0 || j < 0 || i >= s.len() || j >= t.len() {
        seq![]
    } else if align_eq(s[i], t[j]) {
        seq![(i + 1, j + 1)] + align_walk(s, t, i + 1, j + 1)
    } else if lcs(s, t, i + 1, j) >= lcs(s, t, i, j + 1) {
        align_walk(s, t, i + 1, j)
    } else {
        align_walk(s, t, i, j + 1)
    }
}

/// The anchors of the alignment: the origin, the matched positions and the
/// two ends.
pub open spec fn anchors_of(s: Seq<char>, t: Seq<char>) -> Seq<(int, int)> {
    if s.len() == 0 || t.len() == 0 {
        seq![(0, 0), (s.len() as int, t.len() as int)]
    } else {
        let a = seq![(0int, 0int)] + align_walk(s, t, 0, 0);
        if a.last() == (s.len() as int, t.len() as int) {
            a
        } else {
            a.push((s.len() as int, t.len() as int))
        }
    }
}

proof fn lemma_lcs_bound(s: Seq<char>, t: Seq<char>, i: int, j: int)
    requires
        0 <= i <= s.len(),
        0 <= j <= t.len(),
    ensures
        lcs(s, t, i, j) <= s.len() - i,
    decreases s.len() - i + t.len() - j,
{
    if i < s.len() && j < t.len() {
        lemma_lcs_bound(s, t, i + 1, j + 1);
        lemma_lcs_bound(s, t, i + 1, j);
        lemma_lcs_bound(s, t, i, j + 1);
    }
}

/// The alignment walk takes a longest common subsequence: it matches as
/// many characters as one can.
pub proof fn lemma_align_walk_is_longest(s: Seq<char>, t: Seq<char>, i: int, j: int)
    requires
        0 <= i <= s.len(),
        0 <= j <= t.len(),
    ensures
        align_walk(s, t, i, j).len() == lcs(s, t, i, j),
    decreases s.len() - i + t.len() - j,
{
    if i < s.len() && j < t.len() {
        if align_eq(s[i], t[j]) {
            lemma_align_walk_is_longest(s, t, i + 1, j + 1);
        } else if lcs(s, t, i + 1, j) >= lcs(s, t, i, j + 1) {
            lemma_align_walk_is_longest(s, t, i + 1, j);
        } else {
            lemma_align_walk_is_longest(s, t, i, j + 1);
        }
    }
}

/// Each matched position of the walk pairs aligning characters, and the
/// positions increase strictly on both sides.
pub proof fn lemma_align_walk_matches(s: Seq<char>, t: Seq<char>, i: int, j: int)
    requires
        0 <= i <= s.len(),
        0 <= j <= t.len(),
    ensures
        forall|k: int|
            0 <= k < align_walk(s, t, i, j).len() ==> {
                let (a, b) = #[trigger] align_walk(s, t, i, j)[k];
                i < a <= s.len() && j < b <= t.len() && align_eq(s[a - 1], t[b - 1])
            },
        forall|k: int, l: int|
            0 <= k < l < align_walk(s, t, i, j).len() ==> align_walk(s, t, i, j)[k].0 < align_walk(
                s,
                t,
                i,
                j,
            )[l].0 && align_walk(s, t, i, j)[k].1 < align_walk(s, t, i, j)[l].1,
    decreases s.len() - i + t.len() - j,
{
    if i < s.len() && j < t.len() {
        if align_eq(s[i], t[j]) {
            lemma_align_walk_matches(s, t, i + 1, j + 1);
            let w = align_walk(s, t, i + 1, j + 1);
            let v = seq![(i + 1, j + 1)] + w;
            assert(align_walk(s, t, i, j) == v);
            assert forall|k: int| 0 <= k < v.len() implies {
                let (a, b) = #[trigger] v[k];
                i < a <= s.len() && j < b <= t.len() && align_eq(s[a - 1], t[b - 1])
            } by {
                if k > 0 {
                    assert(v[k] == w[k - 1]);
                }
            }
            assert forall|k: int, l: int| 0 <= k < l < v.len() implies v[k].0 < v[l].0 && v[k].1
                < v[l].1 by {
                assert(v[l] == w[l - 1]);
                if k > 0 {
                    assert(v[k] == w[k - 1]);
                }
            }
        } else if lcs(s, t, i + 1, j) >= lcs(s, t, i, j + 1) {
            lemma_align_walk_matches(s, t, i + 1, j);
            assert(align_walk(s, t, i, j) == align_walk(s, t, i + 1, j));
        } else {
            lemma_align_walk_matches(s, t, i, j + 1);
            assert(align_walk(s, t, i, j) == align_walk(s, t, i, j + 1));
        }
    }
}

fn lower_char(c: char) -> (r: char)
    ensures
        r == ascii_lower(c),
{
    if 'A' <= c && c <= 'Z' {
        let b: u8 = (c as u8) + 32;
        b as char
    } else {
        c
    }
}

/// The table of `lcs(s, t, i, j)`, row `k` holding `i = s.len() - k`.
fn lcs_table(s: &[char], t: &[char]) -> (rows: Vec<Vec<usize>>)
    requires
        s.len() < usize::MAX,
        t.len() < usize::MAX,
    ensures
        rows@.len() == s@.len() + 1,
        forall|k: int| 0 <= k < rows@.len() ==> (#[trigger] rows@[k])@.len() == t@.len() + 1,
        forall|k: int, y: int|
            0 <= k < rows@.len() && 0 <= y <= t@.len() ==> (#[trigger] rows@[k]@[y]) as int == lcs(
                s@,
                t@,
                s@.len() - k,
                y,
            ),
{
    let n = s.len();
    let m = t.len();
    let mut rows: Vec<Vec<usize>> = Vec::new();
    let mut last_row: Vec<usize> = Vec::new();
    let mut y: usize = 0;
    while y <= m
        invariant
            y <= m + 1,
            m == t@.len(),
            m < usize::MAX,
            last_row@.len() == y,
            forall|z: int| 0 <= z < y ==> last_row@[z] == 0,
        decreases m + 1 - y,
    {
        last_row.push(0);
        y += 1;
    }
    rows.push(last_row);
    let mut i = n;
    while i > 0
        invariant
            i <= n,
            n == s@.len(),
            m == t@.len(),
            m < usize::MAX,
            rows@.len() == n - i + 1,
            forall|k: int| 0 <= k < rows@.len() ==> (#[trigger] rows@[k])@.len() == m + 1,
            forall|k: int, z: int|
                0 <= k < rows@.len() && 0 <= z <= m ==> (#[trigger] rows@[k]@[z]) as int == lcs(
                    s@,
                    t@,
                    n - k,
                    z,
                ),
        decreases i,
    {
        let r = i - 1;
        let below = n - i;
        let mut cur: Vec<usize> = Vec::new();
        let mut z: usize = 0;
        while z <= m
            invariant
                z <= m + 1,
                m == t@.len(),
                m < usize::MAX,
                cur@.len() == z,
                forall|x: int| 0 <= x < z ==> cur@[x] == 0,
            decreases m + 1 - z,
        {
            cur.push(0);
            z += 1;
        }
        assert(rows@[below as int]@.len() == m + 1);
        let mut j = m;
        while j > 0
            invariant
                j <= m,
                r < n,
                n == s@.len(),
                m == t@.len(),
                below == n - r - 1,
                below < rows@.len(),
                rows@[below as int]@.len() == m + 1,
                forall|z: int|
                    0 <= z <= m ==> (#[trigger] rows@[below as int]@[z]) as int == lcs(
                        s@,
                        t@,
                        r + 1,
                        z,
                    ),
                cur@.len() == m + 1,
                cur@[m as int] == 0,
                forall|z: int| j <= z <= m ==> (#[trigger] cur@[z]) as int == lcs(s@, t@, r as int, z),
            decreases j,
        {
            let c = j - 1;
            proof {
                lemma_lcs_bound(s@, t@, r as int + 1, c as int + 1);
            }
            let v: usize = if lower_char(s[r]) == lower_char(t[c]) {
                rows[below][c + 1] + 1
            } else {
                let down = rows[below][c];
                let right = cur[c + 1];
                if down >= right {
                    down
                } else {
                    right
                }
            };
            cur.set(c, v);
            j = c;
        }
        rows.push(cur);
        i = r;
    }
    rows
}

} // verus!

verus! {

pub open spec fn pairs_view(v: Seq<(usize, usize)>) -> Seq<(int, int)> {
    v.map_values(|p: (usize, usize)| (p.0 as int, p.1 as int))
}

/// The anchors that align `translated` with `source`.
pub fn alignment_anchors(source: &[char], translated: &[char]) -> (r: Vec<(usize, usize)>)
    requires
        source.len() < usize::MAX,
        translated.len() < usize::MAX,
    ensures
        pairs_view(r@) == anchors_of(source@, translated@),
{
    let n = source.len();
    let m = translated.len();
    if n == 0 || m == 0 {
        let mut r: Vec<(usize, usize)> = Vec::new();
        r.push((0, 0));
        r.push((n, m));
        assert(pairs_view(r@) =~= anchors_of(source@, translated@));
        return r;
    }
    let rows = lcs_table(source, translated);
    let mut anchors: Vec<(usize, usize)> = Vec::new();
    anchors.push((0, 0));
    let ghost target = seq![(0int, 0int)] + align_walk(source@, translated@, 0, 0);
    assert(pairs_view(anchors@) + align_walk(source@, translated@, 0, 0) =~= target);
    let mut i: usize = 0;
    let mut j: usize = 0;
    while i < n && j < m
        invariant
            i <= n,
            j <= m,
            n == source@.len(),
            m == translated@.len(),
            rows@.len() == n + 1,
            forall|k: int| 0 <= k < rows@.len() ==> (#[trigger] rows@[k])@.len() == m + 1,
            forall|k: int, y: int|
                0 <= k < rows@.len() && 0 <= y <= m ==> (#[trigger] rows@[k]@[y]) as int == lcs(
                    source@,
                    translated@,
                    n - k,
                    y,
                ),
            pairs_view(anchors@) + align_walk(source@, translated@, i as int, j as int) == target,
        decreases n - i + m - j,
    {
        let ghost before = pairs_view(anchors@);
        if lower_char(source[i]) == lower_char(translated[j]) {
            anchors.push((i + 1, j + 1));
            assert(pairs_view(anchors@) =~= before.push((i as int + 1, j as int + 1)));
            assert(before + align_walk(source@, translated@, i as int, j as int) =~= pairs_view(
                anchors@,
            ) + align_walk(source@, translated@, i as int + 1, j as int + 1));
            i += 1;
            j += 1;
        } else {
            let down = rows[n - i - 1][j];
            let right = rows[n - i][j + 1];
            if down >= right {
                i += 1;
            } else {
                j += 1;
            }
        }
    }
    let last = anchors[anchors.len() - 1];
    assert(pairs_view(anchors@) =~= target);
    if last.0 != n || last.1 != m {
        anchors.push((n, m));
        assert(pairs_view(anchors@) =~= target.push((n as int, m as int)));
    }
    anchors
}

/// Where source offset `off` falls in the translation: interpolated, with
/// rounding, between the first pair of consecutive anchors around it; the
/// last anchor's translated position when none is.
pub open spec fn boundary_from(off: int, anchors: Seq<(int, int)>, k: int) -> int
    decreases anchors.len() - k,
{
    if anchors.len() == 0 {
        0
    } else if k < 0 || k + 1 >= anchors.len() {
        anchors.last().1
    } else {
        let (ss, ts) = anchors[k];
        let (se, te) = anchors[k + 1];
        if off < ss || off > se {
            boundary_from(off, anchors, k + 1)
        } else if se == ss {
            ts
        } else {
            let tspan = if te >= ts {
                te - ts
            } else {
                0
            };
            ts + ((off - ss) * tspan + (se - ss) / 2) / (se - ss)
        }
    }
}

pub open spec fn translated_boundary_of(off: int, anchors: Seq<(int, int)>) -> int {
    boundary_from(off, anchors, 0)
}

proof fn lemma_rounded_share(delta: int, span: int, tspan: int)
    requires
        0 <= delta <= span,
        0 < span,
        0 <= tspan,
    ensures
        0 <= (delta * tspan + span / 2) / span <= tspan,
        delta * tspan <= span * tspan,
{
    assert(delta * tspan <= span * tspan) by (nonlinear_arith)
        requires
            0 <= delta <= span,
            0 <= tspan,
    ;
    assert(span * tspan + span / 2 < span * (tspan + 1)) by (nonlinear_arith)
        requires
            0 < span,
            0 <= tspan,
    ;
    assert((delta * tspan + span / 2) / span <= tspan) by (nonlinear_arith)
        requires
            0 <= delta * tspan + span / 2 < span * (tspan + 1),
            0 < span,
    ;
    assert(0 <= (delta * tspan + span / 2) / span) by (nonlinear_arith)
        requires
            0 <= delta * tspan + span / 2,
            0 < span,
    ;
}

/// The translated position of source offset `off`.
pub fn translated_boundary(off: usize, anchors: &[(usize, usize)]) -> (r: usize)
    requires
        forall|k: int, l: int|
            0 <= k < anchors@.len() && 0 <= l < anchors@.len() ==> anchors@[k].0 * anchors@[l].1
                + anchors@[k].0 <= usize::MAX,
    ensures
        r == translated_boundary_of(off as int, pairs_view(anchors@)),
{
    let ghost a = pairs_view(anchors@);
    if anchors.len() == 0 {
        return 0;
    }
    let mut k: usize = 0;
    while k + 1 < anchors.len()
        invariant
            k < anchors@.len(),
            a == pairs_view(anchors@),
            translated_boundary_of(off as int, a) == boundary_from(off as int, a, k as int),
            forall|x: int, y: int|
                0 <= x < anchors@.len() && 0 <= y < anchors@.len() ==> anchors@[x].0 * anchors@[y].1
                    + anchors@[x].0 <= usize::MAX,
        decreases anchors.len() - k,
    {
        let (ss, ts) = anchors[k];
        let (se, te) = anchors[k + 1];
        if off < ss || off > se {
            k += 1;
        } else if se == ss {
            return ts;
        } else {
            let delta = off - ss;
            let span = se - ss;
            let tspan = if te >= ts {
                te - ts
            } else {
                0
            };
            proof {
                lemma_rounded_share(delta as int, span as int, tspan as int);
                assert(span * tspan <= se * te) by (nonlinear_arith)
                    requires
                        span <= se,
                        tspan <= te,
                ;
                assert(se * te + se <= usize::MAX);
            }
            let share = (delta * tspan + span / 2) / span;
            return ts + share;
        }
    }
    anchors[anchors.len() - 1].1
}

} // verus!

verus! {

/// The number of unprotected characters before token `k`.
pub open spec fn source_offset_before(pairs: Seq<(Seq<char>, bool)>, k: int) -> int
    decreases k,
{
    if k <= 0 {
        0
    } else {
        source_offset_before(pairs, k - 1) + if pairs[k - 1].1 {
            0
        } else {
            pairs[k - 1].0.len() as int
        }
    }
}

proof fn lemma_source_offset_monotone(pairs: Seq<(Seq<char>, bool)>, k: int, l: int)
    requires
        k <= l,
    ensures
        source_offset_before(pairs, k) <= source_offset_before(pairs, l),
    decreases l - k,
{
    if k < l {
        lemma_source_offset_monotone(pairs, k, l - 1);
    }
}

/// Where protected token `k` goes back into a translation of length `tl`
/// of visible text of length `vl`: after the translation when the token
/// comes after all the visible text, else at its aligned position.
pub open spec fn insertion_point(
    pairs: Seq<(Seq<char>, bool)>,
    k: int,
    anchors: Seq<(int, int)>,
    vl: int,
    tl: int,
) -> int {
    let off = source_offset_before(pairs, k);
    if off >= vl {
        tl
    } else {
        let b = translated_boundary_of(off, anchors);
        if b <= tl {
            b
        } else {
            tl
        }
    }
}

/// The protected tokens among the first `upto` that go back at position `b`, joined.
pub open spec fn inserted_at(
    pairs: Seq<(Seq<char>, bool)>,
    anchors: Seq<(int, int)>,
    vl: int,
    tl: int,
    b: int,
    upto: int,
) -> Seq<char>
    decreases upto,
{
    if upto <= 0 {
        seq![]
    } else {
        inserted_at(pairs, anchors, vl, tl, b, upto - 1) + if pairs[upto - 1].1 && insertion_point(
            pairs,
            upto - 1,
            anchors,
            vl,
            tl,
        ) == b {
            pairs[upto - 1].0
        } else {
            seq![]
        }
    }
}

/// The first `i` translated characters with the protected tokens that go
/// before and between them.
pub open spec fn rebuilt_upto(
    pairs: Seq<(Seq<char>, bool)>,
    anchors: Seq<(int, int)>,
    vl: int,
    translated: Seq<char>,
    i: int,
) -> Seq<char>
    decreases i,
{
    let tl = translated.len() as int;
    if i <= 0 {
        inserted_at(pairs, anchors, vl, tl, 0, pairs.len() as int)
    } else {
        rebuilt_upto(pairs, anchors, vl, translated, i - 1) + seq![translated[i - 1]] + inserted_at(
            pairs,
            anchors,
            vl,
            tl,
            i,
            pairs.len() as int,
        )
    }
}

/// A translation of the whole visible text with the protected tokens put
/// back at their aligned positions.
pub open spec fn reassembled_single(
    pairs: Seq<(Seq<char>, bool)>,
    visible: Seq<char>,
    translated: Seq<char>,
) -> Seq<char> {
    rebuilt_upto(
        pairs,
        anchors_of(visible, translated),
        visible.len() as int,
        translated,
        translated.len() as int,
    )
}

/// What aligning `visible` with `translated` needs: room for the table and
/// for the products of positions.
pub open spec fn alignment_fits(visible: Seq<char>, translated: Seq<char>) -> bool {
    &&& visible.len() < usize::MAX
    &&& translated.len() < usize::MAX
    &&& visible.len() * translated.len() + visible.len() <= usize::MAX
}

proof fn lemma_anchors_bounds(s: Seq<char>, t: Seq<char>)
    ensures
        forall|k: int|
            0 <= k < anchors_of(s, t).len() ==> 0 <= (#[trigger] anchors_of(s, t)[k]).0 <= s.len()
                && 0 <= anchors_of(s, t)[k].1 <= t.len(),
{
    if s.len() > 0 && t.len() > 0 {
        lemma_align_walk_matches(s, t, 0, 0);
        let w = align_walk(s, t, 0, 0);
        let a = seq![(0int, 0int)] + w;
        assert forall|k: int| 0 <= k < a.len() implies 0 <= (#[trigger] a[k]).0 <= s.len() && 0
            <= a[k].1 <= t.len() by {
            if k > 0 {
                assert(a[k] == w[k - 1]);
            }
        }
        let full = a.push((s.len() as int, t.len() as int));
        assert forall|k: int| 0 <= k < full.len() implies 0 <= (#[trigger] full[k]).0 <= s.len()
            && 0 <= full[k].1 <= t.len() by {
            if k < a.len() {
                assert(full[k] == a[k]);
            }
        }
    }
}

/// Puts the protected tokens back into `translated`, a translation of the
/// whole visible text, at the positions the alignment gives them.
pub fn reassemble_single_translation(
    tokens: &[String],
    flags: &[bool],
    visible: &[char],
    translated: &[char],
) -> (r: String)
    requires
        alignment_fits(visible@, translated@),
    ensures
        r@ == reassembled_single(token_pairs(tokens@, flags@), visible@, translated@),
{
    let ghost pairs = token_pairs(tokens@, flags@);
    let anchors = alignment_anchors(visible, translated);
    let ghost av = pairs_view(anchors@);
    let tl = translated.len();
    let vl = visible.len();
    let n = if tokens.len() <= flags.len() {
        tokens.len()
    } else {
        flags.len()
    };
    proof {
        lemma_anchors_bounds(visible@, translated@);
        assert forall|k: int, l: int|
            0 <= k < anchors@.len() && 0 <= l < anchors@.len() implies anchors@[k].0
            * anchors@[l].1 + anchors@[k].0 <= usize::MAX by {
            assert(av[k] == (anchors@[k].0 as int, anchors@[k].1 as int));
            assert(av[l] == (anchors@[l].0 as int, anchors@[l].1 as int));
            let x = anchors@[k].0 as int;
            let y = anchors@[l].1 as int;
            assert(x * y <= vl * tl) by (nonlinear_arith)
                requires
                    0 <= x <= vl,
                    0 <= y <= tl,
            ;
        }
    }
    // Where each token goes back (unused for unprotected tokens).
    let mut points: Vec<usize> = Vec::new();
    let mut off: usize = 0;
    let mut k: usize = 0;
    while k < n
        invariant
            k <= n,
            n == pairs.len(),
            n <= tokens@.len(),
            n <= flags@.len(),
            pairs == token_pairs(tokens@, flags@),
            av == pairs_view(anchors@),
            av == anchors_of(visible@, translated@),
            tl == translated@.len(),
            vl == visible@.len(),
            points@.len() == k,
            off as int == (if source_offset_before(pairs, k as int) <= vl {
                source_offset_before(pairs, k as int)
            } else {
                vl as int
            }),
            forall|j: int| 0 <= j < k ==> pairs[j].1 ==> points@[j] as int == insertion_point(
                pairs,
                j,
                av,
                vl as int,
                tl as int,
            ),
            forall|x: int, y: int|
                0 <= x < anchors@.len() && 0 <= y < anchors@.len() ==> anchors@[x].0 * anchors@[y].1
                    + anchors@[x].0 <= usize::MAX,
        decreases n - k,
    {
        assert(pairs[k as int] == (tokens@[k as int]@, flags@[k as int]));
        proof {
            lemma_source_offset_monotone(pairs, 0, k as int);
        }
        if !flags[k] {
            points.push(tl);
            let len = crate::text::char_count(tokens[k].as_str());
            if off < vl {
                if len >= vl - off {
                    off = vl;
                } else {
                    off = off + len;
                }
            }
        } else {
            let b = if off >= vl {
                tl
            } else {
                let tb = translated_boundary(off, &anchors);
                if tb <= tl {
                    tb
                } else {
                    tl
                }
            };
            points.push(b);
        }
        k += 1;
    }
    let mut result = String::new();
    let mut i: usize = 0;
    loop
        invariant_except_break
            i == 0 ==> result@.len() == 0,
            i > 0 ==> result@ == rebuilt_upto(pairs, av, vl as int, translated@, i - 1) + seq![
                translated@[i - 1],
            ],
        invariant
            i <= tl,
            n == pairs.len(),
            n <= tokens@.len(),
            n <= flags@.len(),
            pairs == token_pairs(tokens@, flags@),
            tl == translated@.len(),
            vl == visible@.len(),
            points@.len() == n,
            av == anchors_of(visible@, translated@),
            forall|j: int| 0 <= j < n ==> pairs[j].1 ==> points@[j] as int == insertion_point(
                pairs,
                j,
                av,
                vl as int,
                tl as int,
            ),
        ensures
            result@ == rebuilt_upto(pairs, av, vl as int, translated@, tl as int),
        decreases tl - i,
    {
        // The tokens that go back at position i.
        let ghost base = result@;
        let mut j: usize = 0;
        while j < n
            invariant
                j <= n,
                n == pairs.len(),
                n <= tokens@.len(),
                n <= flags@.len(),
                pairs == token_pairs(tokens@, flags@),
                points@.len() == n,
                forall|x: int| 0 <= x < n ==> pairs[x].1 ==> points@[x] as int == insertion_point(
                    pairs,
                    x,
                    av,
                    vl as int,
                    tl as int,
                ),
                result@ == base + inserted_at(pairs, av, vl as int, tl as int, i as int, j as int),
            decreases n - j,
        {
            assert(pairs[j as int] == (tokens@[j as int]@, flags@[j as int]));
            if flags[j] && points[j] == i {
                let cs = chars_of(tokens[j].as_str());
                push_chars(&mut result, &cs);
            }
            j += 1;
            assert(result@ =~= base + inserted_at(pairs, av, vl as int, tl as int, i as int, j as int));
        }
        assert(result@ == rebuilt_upto(pairs, av, vl as int, translated@, i as int));
        if i == tl {
            break;
        }
        crate::text::push_char(&mut result, translated[i]);
        i += 1;
    }
    result
}

} // verus!

verus! {

pub open spec fn strings_view(v: Seq<String>) -> Seq<Seq<char>> {
    v.map_values(|s: String| s@)
}

/// The tokens with each non-blank unprotected token replaced, in order, by
/// the next translated part (or kept when the parts run out).
pub open spec fn multiple_from(pairs: Seq<(Seq<char>, bool)>, parts: Seq<Seq<char>>, idx: int) -> Seq<
    char,
>
    decreases pairs.len(),
{
    if pairs.len() == 0 {
        seq![]
    } else {
        let t = pairs[0].0;
        let rest = pairs.drop_first();
        if pairs[0].1 || trim(t).len() == 0 {
            t + multiple_from(rest, parts, idx)
        } else {
            (if 0 <= idx < parts.len() {
                parts[idx]
            } else {
                t
            }) + multiple_from(rest, parts, idx + 1)
        }
    }
}

/// Puts translated segments back in place of the unprotected tokens.
pub fn reassemble_multiple_translations(tokens: &[String], flags: &[bool], parts: &[String]) -> (r: String)
    ensures
        r@ == multiple_from(token_pairs(tokens@, flags@), strings_view(parts@), 0),
{
    let ghost pairs = token_pairs(tokens@, flags@);
    let ghost pv = strings_view(parts@);
    let n = if tokens.len() <= flags.len() {
        tokens.len()
    } else {
        flags.len()
    };
    let mut result = String::new();
    let mut idx: usize = 0;
    let mut k: usize = 0;
    assert(pairs.skip(0) =~= pairs);
    while k < n
        invariant
            k <= n,
            idx <= k,
            n == pairs.len(),
            n <= tokens@.len(),
            n <= flags@.len(),
            pairs == token_pairs(tokens@, flags@),
            pv == strings_view(parts@),
            result@ + multiple_from(pairs.skip(k as int), pv, idx as int) == multiple_from(
                pairs,
                pv,
                0,
            ),
        decreases n - k,
    {
        let ghost rest = pairs.skip(k as int);
        assert(rest[0] == (tokens@[k as int]@, flags@[k as int]));
        assert(rest.drop_first() =~= pairs.skip(k as int + 1));
        let ghost before = result@;
        let t = chars_of(tokens[k].as_str());
        if flags[k] {
            push_chars(&mut result, &t);
            assert(before + multiple_from(rest, pv, idx as int) =~= result@ + multiple_from(
                pairs.skip(k as int + 1),
                pv,
                idx as int,
            ));
        } else {
            let tt = trim_chars(&t);
            if tt.len() == 0 {
                push_chars(&mut result, &t);
                assert(before + multiple_from(rest, pv, idx as int) =~= result@ + multiple_from(
                    pairs.skip(k as int + 1),
                    pv,
                    idx as int,
                ));
            } else {
                if idx < parts.len() {
                    let p = chars_of(parts[idx].as_str());
                    push_chars(&mut result, &p);
                } else {
                    push_chars(&mut result, &t);
                }
                assert(before + multiple_from(rest, pv, idx as int) =~= result@ + multiple_from(
                    pairs.skip(k as int + 1),
                    pv,
                    idx as int + 1,
                ));
                idx += 1;
            }
        }
        k += 1;
    }
    assert(pairs.skip(n as int) =~= Seq::<(Seq<char>, bool)>::empty());
    assert(result@ + multiple_from(pairs.skip(n as int), pv, idx as int) =~= result@);
    result
}

/// The strings `parts` joined.
pub open spec fn joined(parts: Seq<Seq<char>>) -> Seq<char>
    decreases parts.len(),
{
    if parts.len() == 0 {
        seq![]
    } else {
        joined(parts.drop_last()) + parts.last()
    }
}

/// `parts` joined with nothing between them.
pub fn join_parts(parts: &[String]) -> (r: String)
    ensures
        r@ == joined(strings_view(parts@)),
{
    let ghost pv = strings_view(parts@);
    let mut r = String::new();
    let mut i: usize = 0;
    while i < parts.len()
        invariant
            i <= parts.len(),
            pv == strings_view(parts@),
            r@ == joined(pv.take(i as int)),
        decreases parts.len() - i,
    {
        assert(pv.take(i as int + 1).drop_last() =~= pv.take(i as int));
        let cs = chars_of(parts[i].as_str());
        push_chars(&mut r, &cs);
        i += 1;
    }
    assert(pv.take(parts.len() as int) =~= pv);
    r
}

} // verus!

verus! {

// ---------------------------------------------------------------------------
// Modes, contexts and processors
// ---------------------------------------------------------------------------

/// How text is prepared for the model.
#[derive(Debug, Clone, Copy, PartialEq, Eq)]
pub enum TranslationMode {
    Structured,
    Passthrough,
}

impl Default for TranslationMode {
    fn default() -> (r: Self)
        ensures
            r == TranslationMode::Structured,
    {
        TranslationMode::Structured
    }
}

impl TranslationMode {
    /// `passthrough` selects the passthrough mode; anything else the structural one.
    pub fn from_str(value: &str) -> (r: Self)
        ensures
            r == (if value@ == "passthrough"@ {
                TranslationMode::Passthrough
            } else {
                TranslationMode::Structured
            }),
    {
        if crate::text::str_equal(value, "passthrough") {
            TranslationMode::Passthrough
        } else {
            TranslationMode::Structured
        }
    }
}

/// What a processor keeps between preparing a text and rebuilding it.
#[derive(Debug, Clone)]
pub enum ProcessorData {
    Passthrough,
    Structured {
        tokens: Vec<String>,
        flags: Vec<bool>,
        text_tokens: Vec<String>,
        visible_text: String,
    },
}

/// A prepared text: the parts to translate and what rebuilding needs.
#[derive(Debug, Clone)]
pub struct TranslationContext {
    pub parts_to_translate: Vec<String>,
    pub processor_data: ProcessorData,
}

/// Nothing to translate when blank, else the text itself.
pub open spec fn parts_for(text: Seq<char>) -> Seq<Seq<char>> {
    if trim(text).len() == 0 {
        seq![]
    } else {
        seq![text]
    }
}

fn parts_of(text: &String) -> (r: Vec<String>)
    ensures
        strings_view(r@) == parts_for(text@),
{
    let cs = chars_of(text.as_str());
    let t = trim_chars(&cs);
    let mut r: Vec<String> = Vec::new();
    if t.len() > 0 {
        r.push(text.clone());
    }
    assert(strings_view(r@) =~= parts_for(text@));
    r
}

impl TranslationContext {
    /// The context of the passthrough mode: the whole text, unless blank.
    pub fn new_passthrough(text: String) -> (r: Self)
        ensures
            strings_view(r.parts_to_translate@) == parts_for(text@),
            r.processor_data is Passthrough,
    {
        Self { parts_to_translate: parts_of(&text), processor_data: ProcessorData::Passthrough }
    }

    /// The context of the structural mode: the visible text to translate,
    /// unless blank, and the tokens to rebuild with.
    pub fn new_structural(
        visible_text: String,
        tokens: Vec<String>,
        flags: Vec<bool>,
        text_tokens: Vec<String>,
    ) -> (r: Self)
        ensures
            strings_view(r.parts_to_translate@) == parts_for(visible_text@),
            r.processor_data == (ProcessorData::Structured { tokens, flags, text_tokens, visible_text }),
    {
        let parts = parts_of(&visible_text);
        Self {
            parts_to_translate: parts,
            processor_data: ProcessorData::Structured { tokens, flags, text_tokens, visible_text },
        }
    }

    /// The segments of a structural context.
    pub fn structural_text_tokens(&self) -> (r: Option<&[String]>)
        ensures
            match self.processor_data {
                ProcessorData::Structured { text_tokens, .. } => r is Some && r->0@
                    == text_tokens@,
                ProcessorData::Passthrough => r is None,
            },
    {
        match &self.processor_data {
            ProcessorData::Structured { text_tokens, .. } => Some(text_tokens.as_slice()),
            ProcessorData::Passthrough => None,
        }
    }

    /// What the model is shown of `source`: the visible text in the
    /// structural mode, the source itself otherwise.
    pub fn preview_text(&self, source: &str) -> (r: String)
        ensures
            r@ == match self.processor_data {
                ProcessorData::Structured { visible_text, .. } => visible_text@,
                ProcessorData::Passthrough => source@,
            },
    {
        match &self.processor_data {
            ProcessorData::Passthrough => crate::text::to_owned_string(source),
            ProcessorData::Structured { visible_text, .. } => visible_text.clone(),
        }
    }
}

/// The translation a single-part rebuild uses: the first part, else the visible text.
pub open spec fn chosen_translation(parts: Seq<String>, visible: Seq<char>) -> Seq<char> {
    if parts.len() > 0 {
        parts[0]@
    } else {
        visible
    }
}

pub open spec fn any_flag(flags: Seq<bool>) -> bool {
    exists|i: int| 0 <= i < flags.len() && flags[i]
}

/// Whether the parts are rebuilt segment by segment.
pub open spec fn rebuilds_per_segment(parts: Seq<String>, text_tokens: Seq<String>) -> bool {
    parts.len() == text_tokens.len() && parts.len() > 1
}

/// What rebuilding `parts` into `ctx` needs.
pub open spec fn postprocess_fits(parts: Seq<String>, ctx: TranslationContext) -> bool {
    match ctx.processor_data {
        ProcessorData::Structured { flags, text_tokens, visible_text, .. } => rebuilds_per_segment(
            parts,
            text_tokens@,
        ) || !any_flag(flags@) || alignment_fits(
            visible_text@,
            chosen_translation(parts, visible_text@),
        ),
        ProcessorData::Passthrough => true,
    }
}

/// The text `parts` rebuild into `ctx`.
pub open spec fn postprocessed(parts: Seq<String>, ctx: TranslationContext) -> Seq<char> {
    match ctx.processor_data {
        ProcessorData::Structured { tokens, flags, text_tokens, visible_text } => if rebuilds_per_segment(
            parts,
            text_tokens@,
        ) {
            multiple_from(token_pairs(tokens@, flags@), strings_view(parts), 0)
        } else if !any_flag(flags@) {
            chosen_translation(parts, visible_text@)
        } else {
            reassembled_single(
                token_pairs(tokens@, flags@),
                visible_text@,
                chosen_translation(parts, visible_text@),
            )
        },
        ProcessorData::Passthrough => joined(strings_view(parts)),
    }
}

fn has_flag(flags: &[bool]) -> (r: bool)
    ensures
        r == any_flag(flags@),
{
    let mut i: usize = 0;
    while i < flags.len()
        invariant
            i <= flags.len(),
            forall|j: int| 0 <= j < i ==> !flags@[j],
        decreases flags.len() - i,
    {
        if flags[i] {
            return true;
        }
        i += 1;
    }
    false
}

/// Rebuilds translated parts into the context they came from.
pub fn postprocess_context(parts: &[String], ctx: &TranslationContext) -> (r: String)
    requires
        postprocess_fits(parts@, *ctx),
    ensures
        r@ == postprocessed(parts@, *ctx),
{
    match &ctx.processor_data {
        ProcessorData::Structured { tokens, flags, text_tokens, visible_text } => {
            if parts.len() == text_tokens.len() && parts.len() > 1 {
                return reassemble_multiple_translations(tokens, flags, parts);
            }
            let translated = if parts.len() > 0 {
                parts[0].clone()
            } else {
                visible_text.clone()
            };
            if !has_flag(flags) {
                return translated;
            }
            let v = chars_of(visible_text.as_str());
            let t = chars_of(translated.as_str());
            reassemble_single_translation(tokens, flags, &v, &t)
        },
        ProcessorData::Passthrough => join_parts(parts),
    }
}

/// Prepares text for the model and rebuilds what comes back.
pub trait TextProcessor {
    fn preprocess(&self, text: &str) -> TranslationContext;

    fn postprocess(&self, translated_parts: &[String], ctx: &TranslationContext) -> (r: String)
        requires
            postprocess_fits(translated_parts@, *ctx),
    ;
}

/// Sends text to the model as it is.
#[derive(Debug, Clone, Copy)]
pub struct PassthroughProcessor;

impl PassthroughProcessor {
    pub fn new() -> (r: Self) {
        PassthroughProcessor
    }
}

impl Default for PassthroughProcessor {
    fn default() -> (r: Self) {
        PassthroughProcessor
    }
}

impl TextProcessor for PassthroughProcessor {
    /// The whole text is one part, unless blank.
    fn preprocess(&self, text: &str) -> (r: TranslationContext)
        ensures
            strings_view(r.parts_to_translate@) == parts_for(text@),
            r.processor_data is Passthrough,
    {
        TranslationContext::new_passthrough(crate::text::to_owned_string(text))
    }

    fn postprocess(&self, translated_parts: &[String], ctx: &TranslationContext) -> (r: String)
        ensures
            r@ == joined(strings_view(translated_parts@)),
    {
        join_parts(translated_parts)
    }
}

/// Keeps the structure of game text away from the model.
#[derive(Debug, Clone, Copy)]
pub struct StructuralProcessor {
    options: GameTextOptions,
}

/// The context structural preprocessing makes of `text`.
pub open spec fn structural_context_ok(opts: GameTextOptions, text: Seq<char>, r: TranslationContext) -> bool {
    match r.processor_data {
        ProcessorData::Structured { tokens, flags, text_tokens, visible_text } => {
            let pairs = split_tokens(text, opts);
            &&& tokens@.len() == flags@.len()
            &&& token_pairs(tokens@, flags@) == pairs
            &&& visible_text@ == visible_of(pairs)
            &&& strings_view(text_tokens@) == text_tokens_from(pairs, seq![])
            &&& strings_view(r.parts_to_translate@) == parts_for(visible_of(pairs))
        },
        ProcessorData::Passthrough => false,
    }
}

impl StructuralProcessor {
    /// Everything protected.
    pub fn new() -> (r: Self)
        ensures
            r.options().protect_tags && r.options().protect_brackets
                && r.options().protect_escaped_sequences && r.options().protect_placeholders
                && r.options().split_symbolic_segments,
    {
        Self {
            options: GameTextOptions {
                protect_tags: true,
                protect_brackets: true,
                protect_escaped_sequences: true,
                protect_placeholders: true,
                split_symbolic_segments: true,
            },
        }
    }

    pub fn with_options(options: GameTextOptions) -> (r: Self)
        ensures
            r.options() == options,
    {
        Self { options }
    }

    pub closed spec fn options(&self) -> GameTextOptions {
        self.options
    }
}

impl Default for StructuralProcessor {
    fn default() -> (r: Self)
        ensures
            r.options().protect_tags,
    {
        Self::new()
    }
}

impl TextProcessor for StructuralProcessor {
    /// Splits the text into tokens and gathers its visible text and segments.
    fn preprocess(&self, text: &str) -> (r: TranslationContext)
        ensures
            structural_context_ok(self.options(), text@, r),
    {
        let cs = chars_of(text);
        let (tokens, flags) = split_text_and_structure(&self.options, &cs);
        let visible = collect_visible_text(&tokens, &flags);
        let text_tokens = collect_text_tokens(&tokens, &flags);
        TranslationContext::new_structural(visible, tokens, flags, text_tokens)
    }

    fn postprocess(&self, translated_parts: &[String], ctx: &TranslationContext) -> (r: String)
        ensures
            r@ == postprocessed(translated_parts@, *ctx),
    {
        postprocess_context(translated_parts, ctx)
    }
}

/// A processor of either kind.
#[derive(Debug, Clone, Copy)]
pub enum Processor {
    Passthrough(PassthroughProcessor),
    Structure(StructuralProcessor),
}

impl TextProcessor for Processor {
    fn preprocess(&self, text: &str) -> (r: TranslationContext)
        ensures
            match *self {
                Processor::Passthrough(_) => strings_view(r.parts_to_translate@) == parts_for(text@)
                    && r.processor_data is Passthrough,
                Processor::Structure(p) => structural_context_ok(p.options(), text@, r),
            },
    {
        match self {
            Processor::Passthrough(p) => p.preprocess(text),
            Processor::Structure(p) => p.preprocess(text),
        }
    }

    fn postprocess(&self, translated_parts: &[String], ctx: &TranslationContext) -> (r: String)
        ensures
            match *self {
                Processor::Passthrough(_) => r@ == joined(strings_view(translated_parts@)),
                Processor::Structure(_) => r@ == postprocessed(translated_parts@, *ctx),
            },
    {
        match self {
            Processor::Passthrough(p) => p.postprocess(translated_parts, ctx),
            Processor::Structure(p) => p.postprocess(translated_parts, ctx),
        }
    }
}

/// Makes the processor of a mode.
pub struct ProcessorFactory;

impl ProcessorFactory {
    /// A passthrough processor, or a structural one with the options.
    pub fn create(mode: TranslationMode, options: GameTextOptions) -> (r: Processor)
        ensures
            match mode {
                TranslationMode::Passthrough => r is Passthrough,
                TranslationMode::Structured => (r matches Processor::Structure(p) && p.options()
                    == options),
            },
    {
        match mode {
            TranslationMode::Passthrough => Processor::Passthrough(PassthroughProcessor::new()),
            TranslationMode::Structured => Processor::Structure(StructuralProcessor::with_options(options)),
        }
    }
}

} // verus!

verus! {

// ---------------------------------------------------------------------------
// Rebuilding the unchanged visible text
// ---------------------------------------------------------------------------

/// The tokens' texts, joined.
pub open spec fn tokens_text(pairs: Seq<(Seq<char>, bool)>) -> Seq<char>
    decreases pairs.len(),
{
    if pairs.len() == 0 {
        seq![]
    } else {
        tokens_text(pairs.drop_last()) + pairs.last().0
    }
}

proof fn lemma_tokens_text_append(a: Seq<(Seq<char>, bool)>, b: Seq<(Seq<char>, bool)>)
    ensures
        tokens_text(a + b) == tokens_text(a) + tokens_text(b),
    decreases b.len(),
{
    if b.len() == 0 {
        assert(a + b =~= a);
        assert(tokens_text(a) + tokens_text(b) =~= tokens_text(a));
    } else {
        lemma_tokens_text_append(a, b.drop_last());
        assert((a + b).drop_last() =~= a + b.drop_last());
        assert((a + b).last() == b.last());
        assert(tokens_text(a) + tokens_text(b.drop_last()) + b.last().0 =~= tokens_text(a) + tokens_text(b));
    }
}

proof fn lemma_tokens_text_single(t: Seq<char>, f: bool)
    ensures
        tokens_text(seq![(t, f)]) == t,
{
    let v = seq![(t, f)];
    assert(v.drop_last() =~= Seq::<(Seq<char>, bool)>::empty());
    assert(v.last() == (t, f));
    assert(tokens_text(v.drop_last()) =~= seq![]);
    assert(tokens_text(v) =~= t);
}

/// Splitting into tokens loses nothing.
proof fn lemma_split_from_lossless(s: Seq<char>, opts: GameTextOptions, pos: int, last: int)
    requires
        0 <= last <= pos <= s.len(),
    ensures
        tokens_text(split_from(s, opts, pos, last)) == s.subrange(last, s.len() as int),
    decreases s.len() - pos,
{
    if pos >= s.len() {
        if last < s.len() {
            lemma_tokens_text_single(s.subrange(last, s.len() as int), false);
        } else {
            assert(s.subrange(last, s.len() as int) =~= seq![]);
        }
    } else {
        match protected_at(s, pos) {
            Some((end, kind)) => {
                lemma_protected_at_bounds(s, pos);
                if kind_protected(opts, s, pos, kind) {
                    let before: Seq<(Seq<char>, bool)> = if pos > last {
                        seq![(s.subrange(last, pos), false)]
                    } else {
                        seq![]
                    };
                    let mid = seq![(s.subrange(pos, end), true)];
                    let rest = split_from(s, opts, end, end);
                    lemma_split_from_lossless(s, opts, end, end);
                    if pos > last {
                        lemma_tokens_text_single(s.subrange(last, pos), false);
                    } else {
                        assert(tokens_text(before) =~= seq![]);
                    }
                    lemma_tokens_text_single(s.subrange(pos, end), true);
                    lemma_tokens_text_append(before + mid, rest);
                    lemma_tokens_text_append(before, mid);
                    assert(split_from(s, opts, pos, last) == before + mid + rest);
                    assert(s.subrange(last, pos) + s.subrange(pos, end) + s.subrange(end, s.len() as int)
                        =~= s.subrange(last, s.len() as int));
                } else {
                    lemma_split_from_lossless(s, opts, end, last);
                }
            },
            None => {
                lemma_split_from_lossless(s, opts, pos + 1, last);
            },
        }
    }
}

/// With nothing protected, the visible text is all of the tokens.
proof fn lemma_visible_unprotected(pairs: Seq<(Seq<char>, bool)>)
    requires
        forall|k: int| 0 <= k < pairs.len() ==> !(#[trigger] pairs[k]).1,
    ensures
        visible_of(pairs) == tokens_text(pairs),
    decreases pairs.len(),
{
    if pairs.len() > 0 {
        let p = pairs.drop_last();
        assert forall|k: int| 0 <= k < p.len() implies !(#[trigger] p[k]).1 by {
            assert(p[k] == pairs[k]);
        }
        lemma_visible_unprotected(p);
        assert(!pairs[pairs.len() - 1].1);
    }
}

/// The walk of a text against itself matches every character.
proof fn lemma_walk_diagonal(v: Seq<char>, i: int)
    requires
        0 <= i <= v.len(),
    ensures
        align_walk(v, v, i, i) =~= Seq::new((v.len() - i) as nat, |j: int| (i + j + 1, i + j + 1)),
    decreases v.len() - i,
{
    if i < v.len() {
        assert(align_eq(v[i], v[i]));
        lemma_walk_diagonal(v, i + 1);
    }
}

/// The anchors of a text against itself: every position with itself.
proof fn lemma_anchors_diagonal(v: Seq<char>)
    requires
        v.len() > 0,
    ensures
        anchors_of(v, v) =~= Seq::new((v.len() + 1) as nat, |j: int| (j, j)),
{
    lemma_walk_diagonal(v, 0);
    let a = seq![(0int, 0int)] + align_walk(v, v, 0, 0);
    assert(a =~= Seq::new((v.len() + 1) as nat, |j: int| (j, j)));
    assert(a.last() == (v.len() as int, v.len() as int));
}

/// On the diagonal anchors every offset stays where it is.
proof fn lemma_boundary_diagonal(n: int, off: int, k: int)
    requires
        0 <= k <= off <= n,
    ensures
        boundary_from(off, Seq::new((n + 1) as nat, |j: int| (j, j)), k) == off,
    decreases n - k,
{
    let a = Seq::new((n + 1) as nat, |j: int| (j, j));
    if k + 1 >= a.len() {
        assert(a.last() == (n, n));
    } else {
        assert(a[k] == (k, k));
        assert(a[k + 1] == (k + 1, k + 1));
        if off > k + 1 {
            lemma_boundary_diagonal(n, off, k + 1);
        } else {
            assert(((off - k) * 1int + 1int / 2int) / 1int == off - k) by (nonlinear_arith)
                requires
                    0 <= off - k <= 1,
            ;
        }
    }
}

/// The protected tokens among the first `upto` whose offset is `b`, joined.
pub open spec fn tokens_at(pairs: Seq<(Seq<char>, bool)>, b: int, upto: int) -> Seq<char>
    decreases upto,
{
    if upto <= 0 {
        seq![]
    } else {
        tokens_at(pairs, b, upto - 1) + if pairs[upto - 1].1 && source_offset_before(pairs, upto - 1) == b {
            pairs[upto - 1].0
        } else {
            seq![]
        }
    }
}

/// The first `i` characters of `v` with the protected tokens among the
/// first `upto` put back at their offsets.
pub open spec fn woven(pairs: Seq<(Seq<char>, bool)>, v: Seq<char>, i: int, upto: int) -> Seq<char>
    decreases i,
{
    if i <= 0 {
        tokens_at(pairs, 0, upto)
    } else {
        woven(pairs, v, i - 1, upto) + seq![v[i - 1]] + tokens_at(pairs, i, upto)
    }
}

proof fn lemma_offset_is_visible_len(pairs: Seq<(Seq<char>, bool)>, k: int)
    requires
        0 <= k <= pairs.len(),
    ensures
        source_offset_before(pairs, k) == visible_of(pairs.take(k)).len(),
    decreases k,
{
    if k > 0 {
        lemma_offset_is_visible_len(pairs, k - 1);
        assert(pairs.take(k).drop_last() =~= pairs.take(k - 1));
        assert(pairs.take(k).last() == pairs[k - 1]);
    }
}

proof fn lemma_visible_prefix(pairs: Seq<(Seq<char>, bool)>, k: int, l: int)
    requires
        0 <= k <= l <= pairs.len(),
    ensures
        visible_of(pairs.take(k)).len() <= visible_of(pairs.take(l)).len(),
        visible_of(pairs.take(l)).subrange(0, visible_of(pairs.take(k)).len() as int) == visible_of(pairs.take(k)),
    decreases l - k,
{
    if k < l {
        lemma_visible_prefix(pairs, k, l - 1);
        assert(pairs.take(l).drop_last() =~= pairs.take(l - 1));
        assert(pairs.take(l).last() == pairs[l - 1]);
        let a = visible_of(pairs.take(k));
        let b = visible_of(pairs.take(l - 1));
        let c = visible_of(pairs.take(l));
        assert(c.subrange(0, a.len() as int) =~= b.subrange(0, a.len() as int));
    } else {
        assert(visible_of(pairs.take(l)).subrange(0, visible_of(pairs.take(k)).len() as int) =~= visible_of(
            pairs.take(k),
        ));
    }
}

proof fn lemma_tokens_at_beyond(pairs: Seq<(Seq<char>, bool)>, b: int, m: int)
    requires
        0 <= m <= pairs.len(),
        b > source_offset_before(pairs, m),
    ensures
        tokens_at(pairs, b, m) == Seq::<char>::empty(),
    decreases m,
{
    if m > 0 {
        lemma_source_offset_monotone(pairs, m - 1, m);
        lemma_tokens_at_beyond(pairs, b, m - 1);
        assert(tokens_at(pairs, b, m) =~= Seq::<char>::empty());
    }
}

proof fn lemma_woven_same(pairs: Seq<(Seq<char>, bool)>, v: Seq<char>, i: int, m1: int, m2: int)
    requires
        0 <= i,
        forall|b: int| 0 <= b <= i ==> tokens_at(pairs, b, m1) == tokens_at(pairs, b, m2),
    ensures
        woven(pairs, v, i, m1) == woven(pairs, v, i, m2),
    decreases i,
{
    if i > 0 {
        lemma_woven_same(pairs, v, i - 1, m1, m2);
        assert(tokens_at(pairs, i, m1) == tokens_at(pairs, i, m2));
        assert(woven(pairs, v, i, m1) == woven(pairs, v, i - 1, m1) + seq![v[i - 1]] + tokens_at(pairs, i, m1));
        assert(tokens_at(pairs, i, m1) == tokens_at(pairs, i, m2));
    } else {
        assert(tokens_at(pairs, 0, m1) == tokens_at(pairs, 0, m2));
    }
}

proof fn lemma_woven_run(pairs: Seq<(Seq<char>, bool)>, v: Seq<char>, m: int, j: int)
    requires
        0 <= m <= pairs.len(),
        0 <= j,
        0 <= source_offset_before(pairs, m),
        source_offset_before(pairs, m) + j <= v.len(),
    ensures
        woven(pairs, v, source_offset_before(pairs, m) + j, m) == woven(pairs, v, source_offset_before(pairs, m), m)
            + v.subrange(source_offset_before(pairs, m), source_offset_before(pairs, m) + j),
    decreases j,
{
    let o = source_offset_before(pairs, m);
    if j == 0 {
        assert(v.subrange(o, o) =~= Seq::<char>::empty());
        assert(woven(pairs, v, o, m) + v.subrange(o, o) =~= woven(pairs, v, o, m));
    } else {
        lemma_woven_run(pairs, v, m, j - 1);
        lemma_tokens_at_beyond(pairs, o + j, m);
        assert(woven(pairs, v, o + j, m) == woven(pairs, v, o + j - 1, m) + seq![v[o + j - 1]] + tokens_at(
            pairs,
            o + j,
            m,
        ));
        assert(v.subrange(o, o + j - 1) + seq![v[o + j - 1]] =~= v.subrange(o, o + j));
        assert(woven(pairs, v, o + j, m) =~= woven(pairs, v, o, m) + v.subrange(o, o + j));
    }
}

/// The tokens so far are the visible text so far with the protected tokens
/// woven in at their offsets.
proof fn lemma_woven_tokens(pairs: Seq<(Seq<char>, bool)>, m: int)
    requires
        0 <= m <= pairs.len(),
    ensures
        tokens_text(pairs.take(m)) == woven(pairs, visible_of(pairs), source_offset_before(pairs, m), m),
    decreases m,
{
    let v = visible_of(pairs);
    if m == 0 {
        assert(pairs.take(0) =~= Seq::<(Seq<char>, bool)>::empty());
    } else {
        let k = m - 1;
        lemma_woven_tokens(pairs, k);
        let o = source_offset_before(pairs, k);
        let (t, f) = pairs[k];
        assert(pairs.take(m).drop_last() =~= pairs.take(k));
        assert(pairs.take(m).last() == pairs[k]);
        assert(tokens_text(pairs.take(m)) == tokens_text(pairs.take(k)) + t);
        lemma_offset_is_visible_len(pairs, k);
        assert(o >= 0);
        if f {
            assert forall|b: int| 0 <= b <= o - 1 implies tokens_at(pairs, b, m) == tokens_at(pairs, b, k) by {
                assert(tokens_at(pairs, b, m) =~= tokens_at(pairs, b, k));
            }
            if o == 0 {
                assert(woven(pairs, v, 0, m) == tokens_at(pairs, 0, m));
            } else {
                lemma_woven_same(pairs, v, o - 1, m, k);
            }
            assert(woven(pairs, v, o, m) =~= woven(pairs, v, o, k) + t);
        } else {
            assert forall|b: int| 0 <= b <= o + t.len() implies tokens_at(pairs, b, m) == tokens_at(pairs, b, k) by {
                assert(tokens_at(pairs, b, m) =~= tokens_at(pairs, b, k));
            }
            lemma_woven_same(pairs, v, o + t.len(), m, k);
            lemma_offset_is_visible_len(pairs, m);
            lemma_visible_prefix(pairs, m, pairs.len() as int);
            assert(pairs.take(pairs.len() as int) =~= pairs);
            assert(visible_of(pairs.take(m)) == visible_of(pairs.take(k)) + t);
            lemma_woven_run(pairs, v, k, t.len() as int);
            assert(v.subrange(o, o + t.len()) =~= t) by {
                assert forall|q: int| 0 <= q < t.len() implies v.subrange(o, o + t.len())[q] == t[q] by {
                    assert(v.subrange(0, visible_of(pairs.take(m)).len() as int)[o + q] == visible_of(pairs.take(m))[o + q]);
                }
            }
        }
    }
}

/// Against the unchanged visible text each protected token goes back at
/// its own offset.
proof fn lemma_insertion_unchanged(pairs: Seq<(Seq<char>, bool)>, k: int)
    requires
        0 <= k < pairs.len(),
    ensures
        insertion_point(
            pairs,
            k,
            anchors_of(visible_of(pairs), visible_of(pairs)),
            visible_of(pairs).len() as int,
            visible_of(pairs).len() as int,
        ) == source_offset_before(pairs, k),
{
    let v = visible_of(pairs);
    let n = v.len() as int;
    lemma_offset_is_visible_len(pairs, k);
    lemma_visible_prefix(pairs, k, pairs.len() as int);
    assert(pairs.take(pairs.len() as int) =~= pairs);
    let off = source_offset_before(pairs, k);
    if off < n {
        lemma_anchors_diagonal(v);
        lemma_boundary_diagonal(n, off, 0);
    }
}

proof fn lemma_inserted_unchanged(pairs: Seq<(Seq<char>, bool)>, b: int, upto: int)
    requires
        0 <= upto <= pairs.len(),
    ensures
        inserted_at(
            pairs,
            anchors_of(visible_of(pairs), visible_of(pairs)),
            visible_of(pairs).len() as int,
            visible_of(pairs).len() as int,
            b,
            upto,
        ) == tokens_at(pairs, b, upto),
    decreases upto,
{
    if upto > 0 {
        lemma_inserted_unchanged(pairs, b, upto - 1);
        lemma_insertion_unchanged(pairs, upto - 1);
    }
}

proof fn lemma_rebuilt_unchanged(pairs: Seq<(Seq<char>, bool)>, i: int)
    requires
        0 <= i,
    ensures
        rebuilt_upto(
            pairs,
            anchors_of(visible_of(pairs), visible_of(pairs)),
            visible_of(pairs).len() as int,
            visible_of(pairs),
            i,
        ) == woven(pairs, visible_of(pairs), i, pairs.len() as int),
    decreases i,
{
    lemma_inserted_unchanged(pairs, i, pairs.len() as int);
    if i > 0 {
        lemma_rebuilt_unchanged(pairs, i - 1);
    }
}

/// Rebuilding the unchanged visible text, or no parts at all, into the
/// context that structural preprocessing made of `text` gives `text` back.
pub proof fn lemma_postprocess_round_trip(opts: GameTextOptions, text: Seq<char>, ctx: TranslationContext)
    requires
        structural_context_ok(opts, text, ctx),
    ensures
        ctx.processor_data matches ProcessorData::Structured { visible_text, .. } && {
            &&& postprocessed(seq![visible_text], ctx) == text
            &&& postprocessed(Seq::<String>::empty(), ctx) == text
        },
{
    match ctx.processor_data {
        ProcessorData::Structured { tokens, flags, text_tokens, visible_text } => {
            let pairs = split_tokens(text, opts);
            lemma_split_from_lossless(text, opts, 0, 0);
            assert(text.subrange(0, text.len() as int) =~= text);
            assert(pairs == token_pairs(tokens@, flags@));
            let v = visible_of(pairs);
            if !any_flag(flags@) {
                assert forall|k: int| 0 <= k < pairs.len() implies !(#[trigger] pairs[k]).1 by {
                    assert(pairs[k].1 == flags@[k]);
                }
                lemma_visible_unprotected(pairs);
            } else {
                lemma_woven_tokens(pairs, pairs.len() as int);
                assert(pairs.take(pairs.len() as int) =~= pairs);
                lemma_offset_is_visible_len(pairs, pairs.len() as int);
                lemma_rebuilt_unchanged(pairs, v.len() as int);
            }
            assert(chosen_translation(seq![visible_text], visible_text@) == visible_text@);
            assert(chosen_translation(Seq::<String>::empty(), visible_text@) == visible_text@);
        },
        ProcessorData::Passthrough => {},
    }
}

} // verus!
