//! The structure of a line of game text: bracket slots, separators and
//! line breaks, and the text between them.

use vstd::prelude::*;

use crate::text::{chars_of, push_char, push_chars, slice_string, string_of};

verus! {

// ---------------------------------------------------------------------------
// Tokens
// ---------------------------------------------------------------------------

#[derive(Debug, Clone, Copy, PartialEq, Eq, Structural)]
pub enum DelimiterKind {
    Newline,
    Separator,
}

/// A line break or separator with the spaces around it.
#[derive(Debug, Clone, PartialEq, Eq)]
pub struct DelimiterToken {
    pub text: String,
    pub kind: DelimiterKind,
}

/// A bracketed span: the brackets, the spaces just inside them, and the core.
#[derive(Debug, Clone, PartialEq, Eq)]
pub struct BracketSlot {
    pub open: char,
    pub close: char,
    pub inner_left_spaces: String,
    pub inner_core: String,
    pub inner_right_spaces: String,
}

#[derive(Debug, Clone, PartialEq, Eq)]
pub enum StructureToken {
    Text(String),
    Delimiter(DelimiterToken),
    Bracket(BracketSlot),
}

/// The mathematical value of a token.
pub enum TokenView {
    Text(Seq<char>),
    Delimiter(Seq<char>, DelimiterKind),
    Bracket(char, char, Seq<char>, Seq<char>, Seq<char>),
}

impl View for StructureToken {
    type V = TokenView;

    open spec fn view(&self) -> TokenView {
        match self {
            StructureToken::Text(s) => TokenView::Text(s@),
            StructureToken::Delimiter(d) => TokenView::Delimiter(d.text@, d.kind),
            StructureToken::Bracket(b) => TokenView::Bracket(
                b.open,
                b.close,
                b.inner_left_spaces@,
                b.inner_core@,
                b.inner_right_spaces@,
            ),
        }
    }
}

pub open spec fn tokens_view(v: Seq<StructureToken>) -> Seq<TokenView> {
    v.map_values(|t: StructureToken| t@)
}

/// The text a bracket spans, with `inner` in place of its core.
pub open spec fn bracket_text(open: char, left: Seq<char>, inner: Seq<char>, right: Seq<char>, close: char) -> Seq<char> {
    seq![open] + left + inner + right + seq![close]
}

/// The text a token spans.
pub open spec fn token_text(t: TokenView) -> Seq<char> {
    match t {
        TokenView::Text(s) => s,
        TokenView::Delimiter(s, _) => s,
        TokenView::Bracket(o, c, l, core, r) => bracket_text(o, l, core, r, c),
    }
}

/// The texts of `tokens`, joined.
pub open spec fn tokens_text(tokens: Seq<TokenView>) -> Seq<char>
    decreases tokens.len(),
{
    if tokens.len() == 0 {
        seq![]
    } else {
        tokens_text(tokens.drop_last()) + token_text(tokens.last())
    }
}

pub proof fn lemma_tokens_text_append(a: Seq<TokenView>, b: Seq<TokenView>)
    ensures
        tokens_text(a + b) == tokens_text(a) + tokens_text(b),
    decreases b.len(),
{
    if b.len() == 0 {
        assert(a + b =~= a);
        assert(tokens_text(a) + tokens_text(b) =~= tokens_text(a));
    } else {
        lemma_tokens_text_append(a, b.drop_last());
        assert((a + b).drop_last() =~= a + b.drop_last());
        assert((a + b).last() == b.last());
        assert(tokens_text(a) + tokens_text(b.drop_last()) + token_text(b.last()) =~= tokens_text(a)
            + tokens_text(b));
    }
}

// ---------------------------------------------------------------------------
// Brackets
// ---------------------------------------------------------------------------

/// The closing bracket of an opening one.
pub open spec fn close_of(open: char) -> Option<char> {
    if open == '(' {
        Some(')')
    } else if open == '[' {
        Some(']')
    } else if open == '{' {
        Some('}')
    } else if open == '\u{FF08}' {
        Some('\u{FF09}')
    } else if open == '\u{FF3B}' {
        Some('\u{FF3D}')
    } else if open == '\u{FF5B}' {
        Some('\u{FF5D}')
    } else if open == '\u{3008}' {
        Some('\u{3009}')
    } else if open == '\u{300A}' {
        Some('\u{300B}')
    } else if open == '\u{3010}' {
        Some('\u{3011}')
    } else {
        None
    }
}

/// The opening bracket of a closing one.
pub open spec fn open_of(close: char) -> Option<char> {
    if close == ')' {
        Some('(')
    } else if close == ']' {
        Some('[')
    } else if close == '}' {
        Some('{')
    } else if close == '\u{FF09}' {
        Some('\u{FF08}')
    } else if close == '\u{FF3D}' {
        Some('\u{FF3B}')
    } else if close == '\u{FF5D}' {
        Some('\u{FF5B}')
    } else if close == '\u{3009}' {
        Some('\u{3008}')
    } else if close == '\u{300B}' {
        Some('\u{300A}')
    } else if close == '\u{3011}' {
        Some('\u{3010}')
    } else {
        None
    }
}

/// The closing bracket of `open`, if it opens a pair.
pub fn matching_close_bracket(open: char) -> (r: Option<char>)
    ensures
        r == close_of(open),
{
    if open == '(' {
        Some(')')
    } else if open == '[' {
        Some(']')
    } else if open == '{' {
        Some('}')
    } else if open == '\u{FF08}' {
        Some('\u{FF09}')
    } else if open == '\u{FF3B}' {
        Some('\u{FF3D}')
    } else if open == '\u{FF5B}' {
        Some('\u{FF5D}')
    } else if open == '\u{3008}' {
        Some('\u{3009}')
    } else if open == '\u{300A}' {
        Some('\u{300B}')
    } else if open == '\u{3010}' {
        Some('\u{3011}')
    } else {
        None
    }
}

/// The opening bracket of `close`, if it closes a pair.
pub fn matching_open_bracket(close: char) -> (r: Option<char>)
    ensures
        r == open_of(close),
{
    if close == ')' {
        Some('(')
    } else if close == ']' {
        Some('[')
    } else if close == '}' {
        Some('{')
    } else if close == '\u{FF09}' {
        Some('\u{FF08}')
    } else if close == '\u{FF3D}' {
        Some('\u{FF3B}')
    } else if close == '\u{FF5D}' {
        Some('\u{FF5B}')
    } else if close == '\u{3009}' {
        Some('\u{3008}')
    } else if close == '\u{300B}' {
        Some('\u{300A}')
    } else if close == '\u{3011}' {
        Some('\u{3010}')
    } else {
        None
    }
}

/// The number of ASCII spaces that `s` starts with.
pub open spec fn leading_spaces(s: Seq<char>) -> nat
    decreases s.len(),
{
    if s.len() > 0 && s[0] == ' ' {
        1 + leading_spaces(s.skip(1))
    } else {
        0
    }
}

/// The number of ASCII spaces that `s` ends with.
pub open spec fn trailing_spaces(s: Seq<char>) -> nat
    decreases s.len(),
{
    if s.len() > 0 && s.last() == ' ' {
        1 + trailing_spaces(s.drop_last())
    } else {
        0
    }
}

proof fn lemma_leading_spaces(s: Seq<char>, k: int)
    requires
        0 <= k <= s.len(),
        forall|j: int| 0 <= j < k ==> s[j] == ' ',
        k == s.len() || s[k] != ' ',
    ensures
        leading_spaces(s) == k,
    decreases k,
{
    if k > 0 {
        lemma_leading_spaces(s.skip(1), k - 1);
    }
}

proof fn lemma_trailing_spaces(s: Seq<char>, k: int)
    requires
        0 <= k <= s.len(),
        forall|j: int| s.len() - k <= j < s.len() ==> s[j] == ' ',
        k == s.len() || s[s.len() - k - 1] != ' ',
    ensures
        trailing_spaces(s) == k,
    decreases k,
{
    if k > 0 {
        lemma_trailing_spaces(s.drop_last(), k - 1);
    }
}

/// `s` as leading spaces, core and trailing spaces.
pub open spec fn inner_split(s: Seq<char>) -> (Seq<char>, Seq<char>, Seq<char>) {
    let l = leading_spaces(s) as int;
    let rest = s.skip(l);
    let r = trailing_spaces(rest) as int;
    (s.take(l), rest.take(rest.len() - r), rest.skip(rest.len() - r))
}

/// The count of leading ASCII spaces of `s[a..b]`.
fn count_leading(s: &[char], a: usize, b: usize) -> (r: usize)
    requires
        a <= b <= s@.len(),
    ensures
        a + r <= b,
        r == leading_spaces(s@.subrange(a as int, b as int)),
{
    let mut i = a;
    while i < b && s[i] == ' '
        invariant
            a <= i <= b <= s@.len(),
            forall|j: int| a <= j < i ==> s@[j] == ' ',
        decreases b - i,
    {
        i += 1;
    }
    proof {
        lemma_leading_spaces(s@.subrange(a as int, b as int), i - a);
    }
    i - a
}

/// The count of trailing ASCII spaces of `s[a..b]`.
fn count_trailing(s: &[char], a: usize, b: usize) -> (r: usize)
    requires
        a <= b <= s@.len(),
    ensures
        a + r <= b,
        r == trailing_spaces(s@.subrange(a as int, b as int)),
{
    let mut i = b;
    while i > a && s[i - 1] == ' '
        invariant
            a <= i <= b <= s@.len(),
            forall|j: int| i <= j < b ==> s@[j] == ' ',
        decreases i - a,
    {
        i -= 1;
    }
    proof {
        let t = s@.subrange(a as int, b as int);
        assert forall|j: int| t.len() - (b - i) <= j < t.len() implies t[j] == ' ' by {
            assert(t[j] == s@[a + j]);
        }
        lemma_trailing_spaces(t, b - i);
    }
    b - i
}

/// Splits the bracket content `s[a..b]` into its edge spaces and core.
fn split_inner_spaces(s: &[char], a: usize, b: usize) -> (r: (String, String, String))
    requires
        a <= b <= s@.len(),
    ensures
        (r.0@, r.1@, r.2@) == inner_split(s@.subrange(a as int, b as int)),
        r.0@ + r.1@ + r.2@ == s@.subrange(a as int, b as int),
{
    let l = count_leading(s, a, b);
    let r = count_trailing(s, a + l, b);
    let left = slice_string(s, a, a + l);
    let core = slice_string(s, a + l, b - r);
    let right = slice_string(s, b - r, b);
    let ghost t = s@.subrange(a as int, b as int);
    assert(t.skip(l as int) =~= s@.subrange(a + l, b as int));
    assert(left@ =~= t.take(l as int));
    let ghost rest = t.skip(l as int);
    assert(core@ =~= rest.take(rest.len() - r));
    assert(right@ =~= rest.skip(rest.len() - r));
    assert(left@ + core@ + right@ =~= t);
    (left, core, right)
}

} // verus!

verus! {

// ---------------------------------------------------------------------------
// Separators and line breaks in text
// ---------------------------------------------------------------------------

pub open spec fn is_separator_char(c: char) -> bool {
    c == ':' || c == '\u{FF1A}' || c == ';' || c == '\u{FF1B}'
}

/// The delimiter starting at `i`: a CRLF or LF line break, or a separator,
/// with its length.
pub open spec fn delimiter_at(s: Seq<char>, i: int) -> Option<(DelimiterKind, int)> {
    if 0 <= i < s.len() {
        if s[i] == '\r' && i + 1 < s.len() && s[i + 1] == '\n' {
            Some((DelimiterKind::Newline, 2))
        } else if s[i] == '\n' {
            Some((DelimiterKind::Newline, 1))
        } else if is_separator_char(s[i]) {
            Some((DelimiterKind::Separator, 1))
        } else {
            None
        }
    } else {
        None
    }
}

pub proof fn lemma_delimiter_len(s: Seq<char>, i: int)
    ensures
        delimiter_at(s, i) is Some ==> 1 <= (delimiter_at(s, i)->0).1 <= 2 && i + (delimiter_at(
            s,
            i,
        )->0).1 <= s.len(),
{
}

/// The tokens of `s` from `i` on, the text since `cur` not yet emitted:
/// text runs and delimiters, each delimiter taking the spaces around it.
pub open spec fn text_split_from(s: Seq<char>, i: int, cur: int) -> Seq<TokenView>
    decreases s.len() - i,
{
    if i < 0 || cur < 0 || cur > i || i >= s.len() {
        if 0 <= cur < s.len() {
            seq![TokenView::Text(s.subrange(cur, s.len() as int))]
        } else {
            seq![]
        }
    } else {
        let d = delimiter_at(s, i);
        if d is None {
            text_split_from(s, i + 1, cur)
        } else {
            let kind = (d->0).0;
            let n = (d->0).1;
            let pending = s.subrange(cur, i);
            let l = trailing_spaces(pending) as int;
            let body = pending.take(pending.len() - l);
            let after = i + n;
            let r = leading_spaces(s.subrange(after, s.len() as int)) as int;
            let lead: Seq<TokenView> = if body.len() > 0 {
                seq![TokenView::Text(body)]
            } else {
                seq![]
            };
            proof {
                lemma_delimiter_len(s, i);
                lemma_leading_spaces_bound(s.subrange(after, s.len() as int));
                assert(i < after + r <= s.len());
            }
            lead + seq![TokenView::Delimiter(s.subrange(i - l, after + r), kind)] + text_split_from(
                s,
                after + r,
                after + r,
            )
        }
    }
}

pub proof fn lemma_trailing_spaces_bound(s: Seq<char>)
    ensures
        trailing_spaces(s) <= s.len(),
    decreases s.len(),
{
    if s.len() > 0 && s.last() == ' ' {
        lemma_trailing_spaces_bound(s.drop_last());
    }
}

pub proof fn lemma_leading_spaces_bound(s: Seq<char>)
    ensures
        leading_spaces(s) <= s.len(),
    decreases s.len(),
{
    if s.len() > 0 && s[0] == ' ' {
        lemma_leading_spaces_bound(s.skip(1));
    }
}

/// Splitting text at delimiters loses nothing.
pub proof fn lemma_text_split_lossless(s: Seq<char>, i: int, cur: int)
    requires
        0 <= cur <= i <= s.len(),
    ensures
        tokens_text(text_split_from(s, i, cur)) == s.subrange(cur, s.len() as int),
    decreases s.len() - i,
{
    if i < s.len() {
        match delimiter_at(s, i) {
            None => {
                lemma_text_split_lossless(s, i + 1, cur);
            },
            Some((kind, n)) => {
                lemma_delimiter_len(s, i);
                let pending = s.subrange(cur, i);
                lemma_trailing_spaces_bound(pending);
                let l = trailing_spaces(pending) as int;
                let body = pending.take(pending.len() - l);
                let after = i + n;
                lemma_leading_spaces_bound(s.subrange(after, s.len() as int));
                let r = leading_spaces(s.subrange(after, s.len() as int)) as int;
                let lead: Seq<TokenView> = if body.len() > 0 {
                    seq![TokenView::Text(body)]
                } else {
                    seq![]
                };
                let d = seq![TokenView::Delimiter(s.subrange(i - l, after + r), kind)];
                lemma_text_split_lossless(s, after + r, after + r);
                lemma_tokens_text_append(lead + d, text_split_from(s, after + r, after + r));
                lemma_tokens_text_append(lead, d);
                assert(tokens_text(d) =~= s.subrange(i - l, after + r)) by {
                    assert(d.drop_last() =~= Seq::<TokenView>::empty());
                    assert(d.last() == TokenView::Delimiter(s.subrange(i - l, after + r), kind));
                    assert(tokens_text(d.drop_last()) =~= seq![]);
                }
                assert(tokens_text(lead) =~= body) by {
                    if body.len() > 0 {
                        assert(lead.drop_last() =~= Seq::<TokenView>::empty());
                        assert(lead.last() == TokenView::Text(body));
                        assert(tokens_text(lead.drop_last()) =~= seq![]);
                    } else {
                        assert(lead =~= Seq::<TokenView>::empty());
                    }
                }
                assert(body + s.subrange(i - l, after + r) + s.subrange(after + r, s.len() as int)
                    =~= s.subrange(cur, s.len() as int));
                assert(text_split_from(s, i, cur) == lead + d + text_split_from(
                    s,
                    after + r,
                    after + r,
                ));
            },
        }
    } else {
        if cur < s.len() {
            let t = seq![TokenView::Text(s.subrange(cur, s.len() as int))];
            assert(t.drop_last() =~= Seq::<TokenView>::empty());
            assert(t.last() == TokenView::Text(s.subrange(cur, s.len() as int)));
            assert(tokens_text(t.drop_last()) =~= seq![]);
            assert(tokens_text(t) =~= s.subrange(cur, s.len() as int));
        } else {
            assert(s.subrange(cur, s.len() as int) =~= seq![]);
        }
    }
}

fn delimiter_of(s: &[char], i: usize) -> (r: Option<(DelimiterKind, usize)>)
    requires
        i < s.len(),
    ensures
        match r {
            Some((k, n)) => delimiter_at(s@, i as int) == Some((k, n as int)),
            None => delimiter_at(s@, i as int) is None,
        },
{
    let c = s[i];
    if c == '\r' && i + 1 < s.len() && s[i + 1] == '\n' {
        Some((DelimiterKind::Newline, 2))
    } else if c == '\n' {
        Some((DelimiterKind::Newline, 1))
    } else if c == ':' || c == '\u{FF1A}' || c == ';' || c == '\u{FF1B}' {
        Some((DelimiterKind::Separator, 1))
    } else {
        None
    }
}

/// Splits text without brackets at its line breaks and separators.
pub fn split_text_token(text: &[char]) -> (r: Vec<StructureToken>)
    ensures
        tokens_view(r@) == text_split_from(text@, 0, 0),
{
    let ghost s = text@;
    let mut tokens: Vec<StructureToken> = Vec::new();
    let mut cur: usize = 0;
    let mut i: usize = 0;
    while i < text.len()
        invariant
            cur <= i <= text@.len(),
            s == text@,
            text_split_from(s, 0, 0) == tokens_view(tokens@) + text_split_from(s, i as int, cur as int),
        decreases text.len() - i,
    {
        match delimiter_of(text, i) {
            None => {
                i += 1;
            },
            Some((kind, n)) => {
                let ghost before = tokens_view(tokens@);
                let l = count_trailing(text, cur, i);
                let after = i + n;
                let r = count_leading(text, after, text.len());
                let ghost pending = s.subrange(cur as int, i as int);
                assert(s.subrange(cur as int, (i - l) as int) =~= pending.take(pending.len() - l));
                if i - l > cur {
                    tokens.push(StructureToken::Text(slice_string(text, cur, i - l)));
                }
                let d = slice_string(text, i - l, after + r);
                tokens.push(StructureToken::Delimiter(DelimiterToken { text: d, kind }));
                let ghost lead: Seq<TokenView> = if i - l > cur {
                    seq![TokenView::Text(pending.take(pending.len() - l))]
                } else {
                    seq![]
                };
                assert(tokens_view(tokens@) =~= before + lead + seq![
                    TokenView::Delimiter(s.subrange(i - l, after + r), kind),
                ]);
                i = after + r;
                cur = i;
            },
        }
    }
    let ghost before = tokens_view(tokens@);
    if cur < text.len() {
        tokens.push(StructureToken::Text(slice_string(text, cur, text.len())));
    }
    assert(tokens_view(tokens@) =~= before + text_split_from(s, i as int, cur as int));
    tokens
}

} // verus!

verus! {

// ---------------------------------------------------------------------------
// Bracket slots
// ---------------------------------------------------------------------------

/// The tokens of `s` from `i` on: `stack` holds the open brackets seen
/// (with their positions) and `cursor` where unemitted text starts. A
/// closing bracket that matches the innermost open one makes a slot, unless
/// an enclosing bracket of the same kind is still open; a mismatch forgets
/// the open brackets.
pub open spec fn bracket_scan(s: Seq<char>, i: int, stack: Seq<(char, int)>, cursor: int) -> Seq<
    TokenView,
>
    decreases s.len() - i,
{
    if i < 0 || i >= s.len() {
        if 0 <= cursor < s.len() {
            seq![TokenView::Text(s.subrange(cursor, s.len() as int))]
        } else {
            seq![]
        }
    } else {
        let c = s[i];
        if close_of(c) is Some {
            bracket_scan(s, i + 1, stack.push((c, i)), cursor)
        } else if open_of(c) is None || stack.len() == 0 {
            bracket_scan(s, i + 1, stack, cursor)
        } else {
            let open = stack.last().0;
            let start = stack.last().1;
            let rest = stack.drop_last();
            if open_of(c) != Some(open) {
                bracket_scan(s, i + 1, seq![], cursor)
            } else if rest.len() > 0 && close_of(open) == close_of(rest.last().0) {
                bracket_scan(s, i + 1, rest, cursor)
            } else {
                let from = if rest.len() > 0 {
                    rest.last().1
                } else {
                    cursor
                };
                let lead: Seq<TokenView> = if 0 <= from < start {
                    seq![TokenView::Text(s.subrange(from, start))]
                } else {
                    seq![]
                };
                let parts = inner_split(s.subrange(start + 1, i));
                lead + seq![TokenView::Bracket(open, c, parts.0, parts.1, parts.2)] + bracket_scan(
                    s,
                    i + 1,
                    seq![],
                    i + 1,
                )
            }
        }
    }
}

/// Whether the scan leaves out text: a slot made inside an unclosed
/// bracket of another kind starts its text at that bracket.
pub open spec fn bracket_scan_drops(s: Seq<char>, i: int, stack: Seq<(char, int)>, cursor: int) -> bool
    decreases s.len() - i,
{
    if i < 0 || i >= s.len() {
        false
    } else {
        let c = s[i];
        if close_of(c) is Some {
            bracket_scan_drops(s, i + 1, stack.push((c, i)), cursor)
        } else if open_of(c) is None || stack.len() == 0 {
            bracket_scan_drops(s, i + 1, stack, cursor)
        } else {
            let open = stack.last().0;
            let rest = stack.drop_last();
            if open_of(c) != Some(open) {
                bracket_scan_drops(s, i + 1, seq![], cursor)
            } else if rest.len() > 0 && close_of(open) == close_of(rest.last().0) {
                bracket_scan_drops(s, i + 1, rest, cursor)
            } else if rest.len() > 0 && rest.last().1 > cursor {
                true
            } else {
                bracket_scan_drops(s, i + 1, seq![], i + 1)
            }
        }
    }
}

/// The bracket slots of `s` and the text around them; one empty text token
/// for empty text.
pub open spec fn bracket_tokens(s: Seq<char>) -> Seq<TokenView> {
    let t = bracket_scan(s, 0, seq![], 0);
    if t.len() == 0 {
        seq![TokenView::Text(seq![])]
    } else {
        t
    }
}

/// The open brackets on the stack are where they say, in order, after the cursor.
pub open spec fn stack_ok(s: Seq<char>, stack: Seq<(char, int)>, cursor: int, i: int) -> bool {
    &&& forall|k: int|
        0 <= k < stack.len() ==> cursor <= (#[trigger] stack[k]).1 < i && stack[k].1 < s.len()
            && s[stack[k].1] == stack[k].0
    &&& forall|k: int| 0 < k < stack.len() ==> stack[k - 1].1 < (#[trigger] stack[k]).1
}

proof fn lemma_text_token(t: Seq<char>)
    ensures
        tokens_text(seq![TokenView::Text(t)]) == t,
{
    let v = seq![TokenView::Text(t)];
    assert(v.drop_last() =~= Seq::<TokenView>::empty());
    assert(v.last() == TokenView::Text(t));
    assert(tokens_text(v.drop_last()) =~= seq![]);
    assert(tokens_text(v) =~= t);
}

/// Cutting out bracket slots loses nothing where no slot is made inside an
/// unclosed bracket of another kind.
pub proof fn lemma_bracket_scan_lossless(s: Seq<char>, i: int, stack: Seq<(char, int)>, cursor: int)
    requires
        0 <= cursor <= i <= s.len(),
        stack_ok(s, stack, cursor, i),
        !bracket_scan_drops(s, i, stack, cursor),
    ensures
        tokens_text(bracket_scan(s, i, stack, cursor)) == s.subrange(cursor, s.len() as int),
    decreases s.len() - i,
{
    if i >= s.len() {
        if cursor < s.len() {
            lemma_text_token(s.subrange(cursor, s.len() as int));
        } else {
            assert(s.subrange(cursor, s.len() as int) =~= seq![]);
        }
    } else {
        let c = s[i];
        if close_of(c) is Some {
            let st = stack.push((c, i));
            assert forall|k: int| 0 <= k < st.len() implies cursor <= (#[trigger] st[k]).1 < i + 1
                && st[k].1 < s.len() && s[st[k].1] == st[k].0 by {
                if k < stack.len() {
                    assert(st[k] == stack[k]);
                }
            }
            assert forall|k: int| 0 < k < st.len() implies st[k - 1].1 < (#[trigger] st[k]).1 by {
                if k < stack.len() {
                    assert(st[k] == stack[k]);
                }
                assert(st[k - 1] == stack[k - 1]);
            }
            lemma_bracket_scan_lossless(s, i + 1, st, cursor);
        } else if open_of(c) is None || stack.len() == 0 {
            lemma_bracket_scan_lossless(s, i + 1, stack, cursor);
        } else {
            let open = stack.last().0;
            let start = stack.last().1;
            let rest = stack.drop_last();
            assert(stack[stack.len() - 1] == stack.last());
            if open_of(c) != Some(open) {
                lemma_bracket_scan_lossless(s, i + 1, seq![], cursor);
            } else if rest.len() > 0 && close_of(open) == close_of(rest.last().0) {
                assert forall|k: int| 0 <= k < rest.len() implies cursor <= (#[trigger] rest[k]).1
                    < i + 1 && rest[k].1 < s.len() && s[rest[k].1] == rest[k].0 by {
                    assert(rest[k] == stack[k]);
                }
                assert forall|k: int| 0 < k < rest.len() implies rest[k - 1].1 < (#[trigger] rest[k]).1 by {
                    assert(rest[k] == stack[k]);
                    assert(rest[k - 1] == stack[k - 1]);
                }
                lemma_bracket_scan_lossless(s, i + 1, rest, cursor);
            } else {
                let from = if rest.len() > 0 {
                    rest.last().1
                } else {
                    cursor
                };
                if rest.len() > 0 {
                    assert(rest[rest.len() - 1] == stack[stack.len() - 2]);
                    assert(rest.last().1 >= cursor);
                }
                assert(from == cursor);
                let lead: Seq<TokenView> = if 0 <= from < start {
                    seq![TokenView::Text(s.subrange(from, start))]
                } else {
                    seq![]
                };
                let parts = inner_split(s.subrange(start + 1, i));
                let b = seq![TokenView::Bracket(open, c, parts.0, parts.1, parts.2)];
                lemma_bracket_scan_lossless(s, i + 1, seq![], i + 1);
                lemma_tokens_text_append(lead + b, bracket_scan(s, i + 1, seq![], i + 1));
                lemma_tokens_text_append(lead, b);
                if 0 <= from < start {
                    lemma_text_token(s.subrange(from, start));
                } else {
                    assert(tokens_text(lead) =~= seq![]);
                    assert(from == start);
                }
                lemma_inner_split(s.subrange(start + 1, i));
                assert(tokens_text(b) =~= bracket_text(open, parts.0, parts.1, parts.2, c)) by {
                    assert(b.drop_last() =~= Seq::<TokenView>::empty());
                    assert(b.last() == TokenView::Bracket(open, c, parts.0, parts.1, parts.2));
                    assert(tokens_text(b.drop_last()) =~= seq![]);
                }
                assert(s[start] == open);
                let inner = s.subrange(start + 1, i);
                assert(parts.0 + parts.1 + parts.2 == inner);
                assert(seq![open] + inner + seq![c] =~= s.subrange(start, i + 1));
                assert(bracket_text(open, parts.0, parts.1, parts.2, c) =~= seq![open] + (parts.0
                    + parts.1 + parts.2) + seq![c]);
                assert(s.subrange(from, start) + s.subrange(start, i + 1) + s.subrange(
                    i + 1,
                    s.len() as int,
                ) =~= s.subrange(cursor, s.len() as int));
                assert(bracket_scan(s, i, stack, cursor) == lead + b + bracket_scan(
                    s,
                    i + 1,
                    seq![],
                    i + 1,
                ));
            }
        }
    }
}

proof fn lemma_inner_split(t: Seq<char>)
    ensures
        inner_split(t).0 + inner_split(t).1 + inner_split(t).2 == t,
{
    lemma_leading_spaces_bound(t);
    let l = leading_spaces(t) as int;
    let rest = t.skip(l);
    lemma_trailing_spaces_bound(rest);
    assert(t.take(l) + rest.take(rest.len() - trailing_spaces(rest)) + rest.skip(
        rest.len() - trailing_spaces(rest),
    ) =~= t);
}

/// Tokenising into bracket slots and text loses nothing where no slot is
/// made inside an unclosed bracket of another kind.
pub proof fn lemma_bracket_tokens_lossless(s: Seq<char>)
    requires
        !bracket_scan_drops(s, 0, seq![], 0),
    ensures
        tokens_text(bracket_tokens(s)) == s,
{
    lemma_bracket_scan_lossless(s, 0, seq![], 0);
    assert(s.subrange(0, s.len() as int) =~= s);
    if bracket_scan(s, 0, seq![], 0).len() == 0 {
        lemma_text_token(seq![]);
        assert(s =~= seq![]);
    }
}

} // verus!

verus! {

pub open spec fn stack_view(v: Seq<(char, usize)>) -> Seq<(char, int)> {
    v.map_values(|p: (char, usize)| (p.0, p.1 as int))
}

/// Cuts `text` into bracket slots and the text around them.
pub fn extract_bracket_slots(text: &[char]) -> (r: Vec<StructureToken>)
    ensures
        tokens_view(r@) == bracket_tokens(text@),
{
    let ghost s = text@;
    let mut tokens: Vec<StructureToken> = Vec::new();
    let mut stack: Vec<(char, usize)> = Vec::new();
    let mut cursor: usize = 0;
    let mut i: usize = 0;
    assert(stack_view(stack@) =~= seq![]);
    assert(tokens_view(tokens@) =~= seq![]);
    assert(tokens_view(tokens@) + bracket_scan(s, 0, stack_view(stack@), 0) =~= bracket_scan(
        s,
        0,
        seq![],
        0,
    ));
    while i < text.len()
        invariant
            cursor <= i <= text@.len(),
            s == text@,
            forall|k: int| 0 <= k < stack@.len() ==> (#[trigger] stack@[k]).1 < i,
            bracket_scan(s, 0, seq![], 0) == tokens_view(tokens@) + bracket_scan(
                s,
                i as int,
                stack_view(stack@),
                cursor as int,
            ),
        decreases text.len() - i,
    {
        let c = text[i];
        let ghost sv = stack_view(stack@);
        let ghost before = tokens_view(tokens@);
        if matching_close_bracket(c).is_some() {
            stack.push((c, i));
            assert(stack_view(stack@) =~= sv.push((c, i as int)));
            i += 1;
            continue;
        }
        let expected = matching_open_bracket(c);
        if expected.is_none() || stack.len() == 0 {
            i += 1;
            continue;
        }
        let (open, start) = stack[stack.len() - 1];
        assert(sv.last() == (open, start as int));
        stack.pop();
        assert(stack_view(stack@) =~= sv.drop_last());
        if expected != Some(open) {
            stack = Vec::new();
            assert(stack_view(stack@) =~= seq![]);
            i += 1;
            continue;
        }
        if stack.len() > 0 && matching_close_bracket(open) == matching_close_bracket(
            stack[stack.len() - 1].0,
        ) {
            assert(sv.drop_last().last().0 == stack@[stack@.len() - 1].0);
            i += 1;
            continue;
        }
        let from = if stack.len() > 0 {
            stack[stack.len() - 1].1
        } else {
            cursor
        };
        if stack.len() > 0 {
            assert(sv.drop_last().last().1 == from as int);
        }
        let ghost lead: Seq<TokenView> = if 0 <= from < start {
            seq![TokenView::Text(s.subrange(from as int, start as int))]
        } else {
            seq![]
        };
        if from < start {
            tokens.push(StructureToken::Text(slice_string(text, from, start)));
        }
        let (left, core, right) = split_inner_spaces(text, start + 1, i);
        tokens.push(
            StructureToken::Bracket(
                BracketSlot {
                    open,
                    close: c,
                    inner_left_spaces: left,
                    inner_core: core,
                    inner_right_spaces: right,
                },
            ),
        );
        let ghost parts = inner_split(s.subrange(start + 1, i as int));
        assert(tokens_view(tokens@) =~= before + lead + seq![
            TokenView::Bracket(open, c, parts.0, parts.1, parts.2),
        ]);
        stack = Vec::new();
        assert(stack_view(stack@) =~= seq![]);
        cursor = i + 1;
        i += 1;
    }
    let ghost before = tokens_view(tokens@);
    if cursor < text.len() {
        tokens.push(StructureToken::Text(slice_string(text, cursor, text.len())));
    }
    assert(tokens_view(tokens@) =~= before + bracket_scan(
        s,
        i as int,
        stack_view(stack@),
        cursor as int,
    ));
    if tokens.len() == 0 {
        tokens.push(StructureToken::Text(String::new()));
        assert(tokens_view(tokens@) =~= seq![TokenView::Text(seq![])]);
    }
    tokens
}

} // verus!

verus! {

// ---------------------------------------------------------------------------
// Protected angle spans and line breaks
// ---------------------------------------------------------------------------

#[derive(Debug, Clone, Copy, PartialEq, Eq)]
pub enum RawKind {
    Text,
    ProtectedAngle,
    Newline,
}

/// A piece of input: text, a protected `<...>` span, or a line break.
#[derive(Debug, Clone, PartialEq, Eq)]
pub struct RawPart {
    pub kind: RawKind,
    pub text: String,
}

pub open spec fn raw_view(v: Seq<RawPart>) -> Seq<(RawKind, Seq<char>)> {
    v.map_values(|p: RawPart| (p.kind, p.text@))
}

/// Where the protected angle span opened at `start` closes: the first `>`
/// before any line break or another `<`.
pub open spec fn angle_end_from(s: Seq<char>, i: int) -> Option<int>
    decreases s.len() - i,
{
    if i < 0 || i >= s.len() {
        None
    } else if s[i] == '>' {
        Some(i)
    } else if s[i] == '\r' || s[i] == '\n' || s[i] == '<' {
        None
    } else {
        angle_end_from(s, i + 1)
    }
}

pub proof fn lemma_angle_end(s: Seq<char>, i: int)
    ensures
        angle_end_from(s, i) is Some ==> i <= angle_end_from(s, i)->0 < s.len(),
    decreases s.len() - i,
{
    if 0 <= i < s.len() && s[i] != '>' && !(s[i] == '\r' || s[i] == '\n' || s[i] == '<') {
        lemma_angle_end(s, i + 1);
    }
}

/// The pieces of `s` from `i` on, the text since `buf` not yet emitted.
pub open spec fn raw_parts_from(s: Seq<char>, i: int, buf: int) -> Seq<(RawKind, Seq<char>)>
    decreases s.len() - i,
{
    if i < 0 || buf < 0 || buf > i || i >= s.len() {
        if 0 <= buf < s.len() {
            seq![(RawKind::Text, s.subrange(buf, s.len() as int))]
        } else {
            seq![]
        }
    } else {
        let flush: Seq<(RawKind, Seq<char>)> = if buf < i {
            seq![(RawKind::Text, s.subrange(buf, i))]
        } else {
            seq![]
        };
        if s[i] == '\r' || s[i] == '\n' {
            let n = if s[i] == '\r' && i + 1 < s.len() && s[i + 1] == '\n' {
                2int
            } else {
                1int
            };
            flush + seq![(RawKind::Newline, s.subrange(i, i + n))] + raw_parts_from(s, i + n, i + n)
        } else if s[i] == '<' && angle_end_from(s, i + 1) is Some {
            let e = angle_end_from(s, i + 1)->0;
            proof {
                lemma_angle_end(s, i + 1);
            }
            flush + seq![(RawKind::ProtectedAngle, s.subrange(i, e + 1))] + raw_parts_from(
                s,
                e + 1,
                e + 1,
            )
        } else {
            raw_parts_from(s, i + 1, buf)
        }
    }
}

fn angle_end_of(s: &[char], i: usize) -> (r: Option<usize>)
    requires
        i <= s.len(),
    ensures
        match r {
            Some(e) => angle_end_from(s@, i as int) == Some(e as int),
            None => angle_end_from(s@, i as int) is None,
        },
{
    let mut k = i;
    while k < s.len()
        invariant
            i <= k <= s@.len(),
            angle_end_from(s@, i as int) == angle_end_from(s@, k as int),
        decreases s.len() - k,
    {
        let c = s[k];
        if c == '>' {
            return Some(k);
        }
        if c == '\r' || c == '\n' || c == '<' {
            return None;
        }
        k += 1;
    }
    None
}

fn push_raw(parts: &mut Vec<RawPart>, kind: RawKind, s: &[char], a: usize, b: usize)
    requires
        a <= b <= s@.len(),
    ensures
        raw_view(final(parts)@) == raw_view(old(parts)@).push((kind, s@.subrange(a as int, b as int))),
{
    let t = slice_string(s, a, b);
    parts.push(RawPart { kind, text: t });
    assert(raw_view(parts@) =~= raw_view(old(parts)@).push((kind, s@.subrange(a as int, b as int))));
}

/// Splits the input into text, protected angle spans and line breaks.
pub fn split_protected_angles_and_newlines(input: &[char]) -> (r: Vec<RawPart>)
    ensures
        raw_view(r@) == raw_parts_from(input@, 0, 0),
{
    let ghost s = input@;
    let mut parts: Vec<RawPart> = Vec::new();
    let mut buf: usize = 0;
    let mut i: usize = 0;
    assert(raw_view(parts@) + raw_parts_from(s, 0, 0) =~= raw_parts_from(s, 0, 0));
    while i < input.len()
        invariant
            buf <= i <= input@.len(),
            s == input@,
            raw_parts_from(s, 0, 0) == raw_view(parts@) + raw_parts_from(s, i as int, buf as int),
        decreases input.len() - i,
    {
        let c = input[i];
        let ghost before = raw_view(parts@);
        if c == '\r' || c == '\n' {
            if buf < i {
                push_raw(&mut parts, RawKind::Text, input, buf, i);
            }
            let n: usize = if c == '\r' && i + 1 < input.len() && input[i + 1] == '\n' {
                2
            } else {
                1
            };
            push_raw(&mut parts, RawKind::Newline, input, i, i + n);
            let ghost flush: Seq<(RawKind, Seq<char>)> = if buf < i {
                seq![(RawKind::Text, s.subrange(buf as int, i as int))]
            } else {
                seq![]
            };
            assert(raw_view(parts@) =~= before + flush + seq![
                (RawKind::Newline, s.subrange(i as int, i + n)),
            ]);
            i = i + n;
            buf = i;
        } else if c == '<' {
            match angle_end_of(input, i + 1) {
                Some(e) => {
                    proof {
                        lemma_angle_end(s, i as int + 1);
                    }
                    if buf < i {
                        push_raw(&mut parts, RawKind::Text, input, buf, i);
                    }
                    push_raw(&mut parts, RawKind::ProtectedAngle, input, i, e + 1);
                    let ghost flush: Seq<(RawKind, Seq<char>)> = if buf < i {
                        seq![(RawKind::Text, s.subrange(buf as int, i as int))]
                    } else {
                        seq![]
                    };
                    assert(raw_view(parts@) =~= before + flush + seq![
                        (RawKind::ProtectedAngle, s.subrange(i as int, e + 1)),
                    ]);
                    i = e + 1;
                    buf = i;
                },
                None => {
                    i += 1;
                },
            }
        } else {
            i += 1;
        }
    }
    let ghost before = raw_view(parts@);
    if buf < input.len() {
        push_raw(&mut parts, RawKind::Text, input, buf, input.len());
    }
    assert(raw_view(parts@) =~= before + raw_parts_from(s, i as int, buf as int));
    parts
}

/// The texts of the pieces, joined.
pub open spec fn raw_text(parts: Seq<(RawKind, Seq<char>)>) -> Seq<char>
    decreases parts.len(),
{
    if parts.len() == 0 {
        seq![]
    } else {
        raw_text(parts.drop_last()) + parts.last().1
    }
}

proof fn lemma_raw_text_append(a: Seq<(RawKind, Seq<char>)>, b: Seq<(RawKind, Seq<char>)>)
    ensures
        raw_text(a + b) == raw_text(a) + raw_text(b),
    decreases b.len(),
{
    if b.len() == 0 {
        assert(a + b =~= a);
        assert(raw_text(a) + raw_text(b) =~= raw_text(a));
    } else {
        lemma_raw_text_append(a, b.drop_last());
        assert((a + b).drop_last() =~= a + b.drop_last());
        assert((a + b).last() == b.last());
        assert(raw_text(a) + raw_text(b.drop_last()) + b.last().1 =~= raw_text(a) + raw_text(b));
    }
}

proof fn lemma_raw_single(k: RawKind, t: Seq<char>)
    ensures
        raw_text(seq![(k, t)]) == t,
{
    let v = seq![(k, t)];
    assert(v.drop_last() =~= Seq::<(RawKind, Seq<char>)>::empty());
    assert(v.last() == (k, t));
    assert(raw_text(v.drop_last()) =~= seq![]);
    assert(raw_text(v) =~= t);
}

/// Cutting out protected angle spans and line breaks loses nothing.
pub proof fn lemma_raw_parts_lossless(s: Seq<char>, i: int, buf: int)
    requires
        0 <= buf <= i <= s.len(),
    ensures
        raw_text(raw_parts_from(s, i, buf)) == s.subrange(buf, s.len() as int),
    decreases s.len() - i,
{
    if i >= s.len() {
        if buf < s.len() {
            lemma_raw_single(RawKind::Text, s.subrange(buf, s.len() as int));
        } else {
            assert(s.subrange(buf, s.len() as int) =~= seq![]);
        }
    } else {
        let flush: Seq<(RawKind, Seq<char>)> = if buf < i {
            seq![(RawKind::Text, s.subrange(buf, i))]
        } else {
            seq![]
        };
        if buf < i {
            lemma_raw_single(RawKind::Text, s.subrange(buf, i));
        } else {
            assert(raw_text(flush) =~= seq![]);
        }
        if s[i] == '\r' || s[i] == '\n' {
            let n = if s[i] == '\r' && i + 1 < s.len() && s[i + 1] == '\n' {
                2int
            } else {
                1int
            };
            let mid = seq![(RawKind::Newline, s.subrange(i, i + n))];
            lemma_raw_single(RawKind::Newline, s.subrange(i, i + n));
            lemma_raw_parts_lossless(s, i + n, i + n);
            lemma_raw_text_append(flush + mid, raw_parts_from(s, i + n, i + n));
            lemma_raw_text_append(flush, mid);
            assert(s.subrange(buf, i) + s.subrange(i, i + n) + s.subrange(i + n, s.len() as int)
                =~= s.subrange(buf, s.len() as int));
            assert(raw_parts_from(s, i, buf) == flush + mid + raw_parts_from(s, i + n, i + n));
        } else if s[i] == '<' && angle_end_from(s, i + 1) is Some {
            let e = angle_end_from(s, i + 1)->0;
            lemma_angle_end(s, i + 1);
            let mid = seq![(RawKind::ProtectedAngle, s.subrange(i, e + 1))];
            lemma_raw_single(RawKind::ProtectedAngle, s.subrange(i, e + 1));
            lemma_raw_parts_lossless(s, e + 1, e + 1);
            lemma_raw_text_append(flush + mid, raw_parts_from(s, e + 1, e + 1));
            lemma_raw_text_append(flush, mid);
            assert(s.subrange(buf, i) + s.subrange(i, e + 1) + s.subrange(e + 1, s.len() as int)
                =~= s.subrange(buf, s.len() as int));
            assert(raw_parts_from(s, i, buf) == flush + mid + raw_parts_from(s, e + 1, e + 1));
        } else {
            lemma_raw_parts_lossless(s, i + 1, buf);
        }
    }
}

/// The shape of a piece of the split: text that is not empty and holds no
/// line break; a protected span from `<` to `>` with no `<` or line break
/// between; a line break `\r\n`, `\r` or `\n`.
pub open spec fn raw_part_shaped(p: (RawKind, Seq<char>)) -> bool {
    let t = p.1;
    match p.0 {
        RawKind::Text => t.len() > 0 && forall|k: int| 0 <= k < t.len() ==> #[trigger] t[k] != '\r' && t[k] != '\n',
        RawKind::ProtectedAngle => {
            &&& t.len() >= 2
            &&& t[0] == '<'
            &&& t[t.len() - 1] == '>'
            &&& forall|k: int| 1 <= k < t.len() - 1 ==> #[trigger] t[k] != '<' && t[k] != '\r' && t[k] != '\n'
        },
        RawKind::Newline => t == seq!['\r', '\n'] || t == seq!['\r'] || t == seq!['\n'],
    }
}

proof fn lemma_angle_end_shape(s: Seq<char>, j: int)
    requires
        0 <= j,
        angle_end_from(s, j) is Some,
    ensures
        s[angle_end_from(s, j)->0] == '>',
        forall|k: int|
            j <= k < angle_end_from(s, j)->0 ==> #[trigger] s[k] != '<' && s[k] != '\r' && s[k] != '\n',
    decreases s.len() - j,
{
    if s[j] != '>' {
        lemma_angle_end_shape(s, j + 1);
    }
}

/// Every piece of the split has its shape.
pub proof fn lemma_raw_parts_shaped(s: Seq<char>, i: int, buf: int)
    requires
        0 <= buf <= i <= s.len(),
        forall|j: int| buf <= j < i ==> #[trigger] s[j] != '\r' && s[j] != '\n',
    ensures
        forall|k: int|
            0 <= k < raw_parts_from(s, i, buf).len() ==> raw_part_shaped(#[trigger] raw_parts_from(s, i, buf)[k]),
    decreases s.len() - i,
{
    let parts = raw_parts_from(s, i, buf);
    if i >= s.len() {
        if buf < s.len() {
            let t = s.subrange(buf, s.len() as int);
            assert(raw_part_shaped((RawKind::Text, t))) by {
                assert forall|k: int| 0 <= k < t.len() implies #[trigger] t[k] != '\r' && t[k] != '\n' by {
                    assert(t[k] == s[buf + k]);
                }
            }
            assert(parts == seq![(RawKind::Text, t)]);
        }
    } else {
        let flush: Seq<(RawKind, Seq<char>)> = if buf < i {
            seq![(RawKind::Text, s.subrange(buf, i))]
        } else {
            seq![]
        };
        assert forall|k: int| 0 <= k < flush.len() implies raw_part_shaped(#[trigger] flush[k]) by {
            let t = s.subrange(buf, i);
            assert forall|q: int| 0 <= q < t.len() implies #[trigger] t[q] != '\r' && t[q] != '\n' by {
                assert(t[q] == s[buf + q]);
            }
        }
        if s[i] == '\r' || s[i] == '\n' {
            let n = if s[i] == '\r' && i + 1 < s.len() && s[i + 1] == '\n' {
                2int
            } else {
                1int
            };
            let mid = seq![(RawKind::Newline, s.subrange(i, i + n))];
            if n == 2 {
                assert(s.subrange(i, i + n) =~= seq!['\r', '\n']);
            } else if s[i] == '\r' {
                assert(s.subrange(i, i + n) =~= seq!['\r']);
            } else {
                assert(s.subrange(i, i + n) =~= seq!['\n']);
            }
            let rest = raw_parts_from(s, i + n, i + n);
            lemma_raw_parts_shaped(s, i + n, i + n);
            assert(parts == flush + mid + rest);
            assert forall|k: int| 0 <= k < parts.len() implies raw_part_shaped(#[trigger] parts[k]) by {
                if k < flush.len() {
                    assert(parts[k] == flush[k]);
                } else if k < flush.len() + 1 {
                    assert(parts[k] == mid[0]);
                } else {
                    assert(parts[k] == rest[k - flush.len() - 1]);
                }
            }
        } else if s[i] == '<' && angle_end_from(s, i + 1) is Some {
            let e = angle_end_from(s, i + 1)->0;
            lemma_angle_end(s, i + 1);
            lemma_angle_end_shape(s, i + 1);
            let t = s.subrange(i, e + 1);
            assert(raw_part_shaped((RawKind::ProtectedAngle, t))) by {
                assert(t[0] == s[i]);
                assert(t[t.len() - 1] == s[e]);
                assert forall|k: int| 1 <= k < t.len() - 1 implies #[trigger] t[k] != '<' && t[k] != '\r' && t[k]
                    != '\n' by {
                    assert(t[k] == s[i + k]);
                }
            }
            let mid = seq![(RawKind::ProtectedAngle, t)];
            let rest = raw_parts_from(s, e + 1, e + 1);
            lemma_raw_parts_shaped(s, e + 1, e + 1);
            assert(parts == flush + mid + rest);
            assert forall|k: int| 0 <= k < parts.len() implies raw_part_shaped(#[trigger] parts[k]) by {
                if k < flush.len() {
                    assert(parts[k] == flush[k]);
                } else if k < flush.len() + 1 {
                    assert(parts[k] == mid[0]);
                } else {
                    assert(parts[k] == rest[k - flush.len() - 1]);
                }
            }
        } else {
            lemma_raw_parts_shaped(s, i + 1, buf);
            assert(parts == raw_parts_from(s, i + 1, buf));
        }
    }
}

/// The pieces that `split_protected_angles_and_newlines` makes of a text
/// each have their shape.
pub proof fn lemma_split_parts_shaped(s: Seq<char>)
    ensures
        forall|k: int|
            0 <= k < raw_parts_from(s, 0, 0).len() ==> raw_part_shaped(#[trigger] raw_parts_from(s, 0, 0)[k]),
{
    lemma_raw_parts_shaped(s, 0, 0);
}

} // verus!

verus! {

// ---------------------------------------------------------------------------
// Tokenising, lines and segments
// ---------------------------------------------------------------------------

/// Text tokens split at their delimiters; other tokens kept.
pub open spec fn expand_texts(ts: Seq<TokenView>) -> Seq<TokenView>
    decreases ts.len(),
{
    if ts.len() == 0 {
        seq![]
    } else {
        expand_texts(ts.drop_last()) + match ts.last() {
            TokenView::Text(t) => text_split_from(t, 0, 0),
            other => seq![other],
        }
    }
}

/// The structure tokens of `s`: bracket slots, delimiters and text.
pub open spec fn structure_tokens(s: Seq<char>) -> Seq<TokenView> {
    expand_texts(bracket_tokens(s))
}

proof fn lemma_single_token(t: TokenView)
    ensures
        tokens_text(seq![t]) == token_text(t),
{
    let v = seq![t];
    assert(v.drop_last() =~= Seq::<TokenView>::empty());
    assert(v.last() == t);
    assert(tokens_text(v.drop_last()) =~= seq![]);
    assert(tokens_text(v) =~= token_text(t));
}

proof fn lemma_expand_texts_lossless(ts: Seq<TokenView>)
    ensures
        tokens_text(expand_texts(ts)) == tokens_text(ts),
    decreases ts.len(),
{
    if ts.len() > 0 {
        lemma_expand_texts_lossless(ts.drop_last());
        let tail = match ts.last() {
            TokenView::Text(t) => text_split_from(t, 0, 0),
            other => seq![other],
        };
        lemma_tokens_text_append(expand_texts(ts.drop_last()), tail);
        match ts.last() {
            TokenView::Text(t) => {
                lemma_text_split_lossless(t, 0, 0);
                assert(t.subrange(0, t.len() as int) =~= t);
            },
            other => {
                lemma_single_token(other);
            },
        }
    }
}

/// Tokenising loses nothing where no slot is made inside an unclosed
/// bracket of another kind.
pub proof fn lemma_structure_tokens_lossless(s: Seq<char>)
    requires
        !bracket_scan_drops(s, 0, seq![], 0),
    ensures
        tokens_text(structure_tokens(s)) == s,
{
    lemma_bracket_tokens_lossless(s);
    lemma_expand_texts_lossless(bracket_tokens(s));
}

/// A copy of a token.
pub fn clone_token(t: &StructureToken) -> (r: StructureToken)
    ensures
        r@ == t@,
{
    match t {
        StructureToken::Text(s) => StructureToken::Text(s.clone()),
        StructureToken::Delimiter(d) => StructureToken::Delimiter(
            DelimiterToken { text: d.text.clone(), kind: d.kind },
        ),
        StructureToken::Bracket(b) => StructureToken::Bracket(
            BracketSlot {
                open: b.open,
                close: b.close,
                inner_left_spaces: b.inner_left_spaces.clone(),
                inner_core: b.inner_core.clone(),
                inner_right_spaces: b.inner_right_spaces.clone(),
            },
        ),
    }
}

/// The structure tokens of `text`.
pub fn tokenize_structure(text: &[char]) -> (r: Vec<StructureToken>)
    ensures
        tokens_view(r@) == structure_tokens(text@),
{
    let slots = extract_bracket_slots(text);
    let ghost bt = tokens_view(slots@);
    let mut tokens: Vec<StructureToken> = Vec::new();
    let mut k: usize = 0;
    while k < slots.len()
        invariant
            k <= slots@.len(),
            bt == tokens_view(slots@),
            bt == bracket_tokens(text@),
            tokens_view(tokens@) == expand_texts(bt.take(k as int)),
        decreases slots.len() - k,
    {
        assert(bt.take(k as int + 1).drop_last() =~= bt.take(k as int));
        assert(bt.take(k as int + 1).last() == slots@[k as int]@);
        let ghost before = tokens_view(tokens@);
        match &slots[k] {
            StructureToken::Text(t) => {
                let cs = chars_of(t.as_str());
                let parts = split_text_token(&cs);
                let mut j: usize = 0;
                while j < parts.len()
                    invariant
                        j <= parts@.len(),
                        tokens_view(tokens@) == before + tokens_view(parts@).take(j as int),
                    decreases parts.len() - j,
                {
                    let ghost pv = tokens_view(parts@);
                    assert(pv.take(j as int + 1) =~= pv.take(j as int).push(parts@[j as int]@));
                    let ghost mid = tokens_view(tokens@);
                    tokens.push(clone_token(&parts[j]));
                    assert(tokens_view(tokens@) =~= mid.push(parts@[j as int]@));
                    j += 1;
                    assert(tokens_view(tokens@) =~= before + tokens_view(parts@).take(j as int));
                }
                assert(tokens_view(parts@).take(parts.len() as int) =~= tokens_view(parts@));
            },
            other => {
                tokens.push(clone_token(other));
                assert(tokens_view(tokens@) =~= before + seq![slots@[k as int]@]);
            },
        }
        k += 1;
    }
    assert(bt.take(slots.len() as int) =~= bt);
    tokens
}

pub open spec fn is_delimiter_of(t: TokenView, kind: DelimiterKind) -> bool {
    t matches TokenView::Delimiter(_, k) && k == kind
}

/// `ts` cut at the delimiters of `kind`; always at least one group.
pub open spec fn groups_split(ts: Seq<TokenView>, kind: DelimiterKind) -> Seq<Seq<TokenView>>
    decreases ts.len(),
{
    if ts.len() == 0 {
        seq![seq![]]
    } else {
        let g = groups_split(ts.drop_last(), kind);
        if is_delimiter_of(ts.last(), kind) {
            g.push(seq![])
        } else {
            g.update(g.len() - 1, g.last().push(ts.last()))
        }
    }
}

/// The texts of the delimiters of `kind` in `ts`, in order.
pub open spec fn delimiters_of(ts: Seq<TokenView>, kind: DelimiterKind) -> Seq<Seq<char>>
    decreases ts.len(),
{
    if ts.len() == 0 {
        seq![]
    } else if is_delimiter_of(ts.last(), kind) {
        delimiters_of(ts.drop_last(), kind).push(token_text(ts.last()))
    } else {
        delimiters_of(ts.drop_last(), kind)
    }
}

pub proof fn lemma_groups_nonempty(ts: Seq<TokenView>, kind: DelimiterKind)
    ensures
        groups_split(ts, kind).len() >= 1,
        groups_split(ts, kind).len() == delimiters_of(ts, kind).len() + 1,
    decreases ts.len(),
{
    if ts.len() > 0 {
        lemma_groups_nonempty(ts.drop_last(), kind);
    }
}

/// A line: its segments and the separators between them.
#[derive(Debug, Clone, PartialEq, Eq)]
pub struct LinePlan {
    pub segments: Vec<Vec<StructureToken>>,
    pub separators: Vec<DelimiterToken>,
}

pub open spec fn groups_view(v: Seq<Vec<StructureToken>>) -> Seq<Seq<TokenView>> {
    v.map_values(|g: Vec<StructureToken>| tokens_view(g@))
}

pub open spec fn delims_view(v: Seq<DelimiterToken>) -> Seq<Seq<char>> {
    v.map_values(|d: DelimiterToken| d.text@)
}

/// Cuts `tokens` at the delimiters of `kind`.
fn split_groups(tokens: &Vec<StructureToken>, kind: DelimiterKind) -> (r: (
    Vec<Vec<StructureToken>>,
    Vec<DelimiterToken>,
))
    ensures
        groups_view(r.0@) == groups_split(tokens_view(tokens@), kind),
        delims_view(r.1@) == delimiters_of(tokens_view(tokens@), kind),
        forall|k: int| 0 <= k < r.1@.len() ==> (#[trigger] r.1@[k]).kind == kind,
{
    let ghost tv = tokens_view(tokens@);
    let mut groups: Vec<Vec<StructureToken>> = Vec::new();
    let mut delims: Vec<DelimiterToken> = Vec::new();
    let mut current: Vec<StructureToken> = Vec::new();
    let mut i: usize = 0;
    assert(tv.take(0) =~= Seq::<TokenView>::empty());
    assert(groups_view(groups@) =~= seq![]);
    assert(tokens_view(current@) =~= seq![]);
    assert(groups_view(groups@).push(tokens_view(current@)) =~= groups_split(tv.take(0), kind));
    assert(delims_view(delims@) =~= seq![]);
    while i < tokens.len()
        invariant
            i <= tokens@.len(),
            tv == tokens_view(tokens@),
            groups_view(groups@).push(tokens_view(current@)) == groups_split(tv.take(i as int), kind),
            delims_view(delims@) == delimiters_of(tv.take(i as int), kind),
            forall|k: int| 0 <= k < delims@.len() ==> (#[trigger] delims@[k]).kind == kind,
        decreases tokens.len() - i,
    {
        assert(tv.take(i as int + 1).drop_last() =~= tv.take(i as int));
        assert(tv.take(i as int + 1).last() == tokens@[i as int]@);
        let ghost g = groups_view(groups@).push(tokens_view(current@));
        let is_split = match &tokens[i] {
            StructureToken::Delimiter(d) => d.kind == kind,
            _ => false,
        };
        if is_split {
            match &tokens[i] {
                StructureToken::Delimiter(d) => {
                    let ghost gv = groups_view(groups@);
                    let ghost cv = tokens_view(current@);
                    let mut done: Vec<StructureToken> = Vec::new();
                    std::mem::swap(&mut done, &mut current);
                    assert(tokens_view(done@) == cv);
                    groups.push(done);
                    assert(groups_view(groups@) =~= gv.push(cv));
                    assert(tokens_view(current@) =~= seq![]);
                    let ghost dv = delims_view(delims@);
                    delims.push(DelimiterToken { text: d.text.clone(), kind: d.kind });
                    assert(delims_view(delims@) =~= dv.push(d.text@));
                },
                _ => {},
            }
            assert(groups_view(groups@).push(tokens_view(current@)) =~= g.push(seq![]));
            assert(delims_view(delims@) =~= delimiters_of(tv.take(i as int + 1), kind));
        } else {
            let ghost cur_before = tokens_view(current@);
            current.push(clone_token(&tokens[i]));
            assert(tokens_view(current@) =~= cur_before.push(tv[i as int]));
            assert(groups_view(groups@).push(tokens_view(current@)) =~= g.update(
                g.len() - 1,
                g.last().push(tv[i as int]),
            ));
        }
        i += 1;
    }
    groups.push(current);
    assert(tv.take(tokens.len() as int) =~= tv);
    (groups, delims)
}

/// Cuts tokens into lines at line breaks, each line cut into segments.
pub fn split_lines(tokens: &Vec<StructureToken>) -> (r: (Vec<LinePlan>, Vec<DelimiterToken>))
    ensures
        r.0@.len() == groups_split(tokens_view(tokens@), DelimiterKind::Newline).len(),
        forall|k: int|
            0 <= k < r.0@.len() ==> {
                let line = groups_split(tokens_view(tokens@), DelimiterKind::Newline)[k];
                &&& groups_view((#[trigger] r.0@[k]).segments@) == groups_split(
                    line,
                    DelimiterKind::Separator,
                )
                &&& delims_view(r.0@[k].separators@) == delimiters_of(line, DelimiterKind::Separator)
            },
        delims_view(r.1@) == delimiters_of(tokens_view(tokens@), DelimiterKind::Newline),
{
    let (line_groups, newlines) = split_groups(tokens, DelimiterKind::Newline);
    let ghost lg = groups_split(tokens_view(tokens@), DelimiterKind::Newline);
    let mut lines: Vec<LinePlan> = Vec::new();
    let mut k: usize = 0;
    while k < line_groups.len()
        invariant
            k <= line_groups@.len(),
            groups_view(line_groups@) == lg,
            lines@.len() == k,
            forall|x: int|
                0 <= x < k ==> {
                    &&& groups_view((#[trigger] lines@[x]).segments@) == groups_split(
                        lg[x],
                        DelimiterKind::Separator,
                    )
                    &&& delims_view(lines@[x].separators@) == delimiters_of(
                        lg[x],
                        DelimiterKind::Separator,
                    )
                },
        decreases line_groups.len() - k,
    {
        assert(lg[k as int] == tokens_view(line_groups@[k as int]@));
        let plan = build_line_plan(&line_groups[k]);
        lines.push(plan);
        k += 1;
    }
    (lines, newlines)
}

/// A line's segments, cut at its separators.
pub fn build_line_plan(tokens: &Vec<StructureToken>) -> (r: LinePlan)
    ensures
        groups_view(r.segments@) == groups_split(tokens_view(tokens@), DelimiterKind::Separator),
        delims_view(r.separators@) == delimiters_of(tokens_view(tokens@), DelimiterKind::Separator),
{
    let (segments, separators) = split_groups(tokens, DelimiterKind::Separator);
    LinePlan { segments, separators }
}

/// The text of a segment: its text and brackets, delimiters left out.
pub open spec fn segment_text(ts: Seq<TokenView>) -> Seq<char>
    decreases ts.len(),
{
    if ts.len() == 0 {
        seq![]
    } else {
        segment_text(ts.drop_last()) + match ts.last() {
            TokenView::Delimiter(_, _) => seq![],
            other => token_text(other),
        }
    }
}

/// A bracket slot with `inner` as its core.
pub fn reconstruct_bracket(slot: &BracketSlot, inner: &str) -> (r: String)
    ensures
        r@ == bracket_text(
            slot.open,
            slot.inner_left_spaces@,
            inner@,
            slot.inner_right_spaces@,
            slot.close,
        ),
{
    let mut r = String::new();
    push_char(&mut r, slot.open);
    push_chars(&mut r, &chars_of(slot.inner_left_spaces.as_str()));
    push_chars(&mut r, &chars_of(inner));
    push_chars(&mut r, &chars_of(slot.inner_right_spaces.as_str()));
    push_char(&mut r, slot.close);
    assert(r@ =~= bracket_text(
        slot.open,
        slot.inner_left_spaces@,
        inner@,
        slot.inner_right_spaces@,
        slot.close,
    ));
    r
}

/// The text of a segment's tokens.
pub fn reconstruct_segment(tokens: &[StructureToken]) -> (r: String)
    ensures
        r@ == segment_text(tokens_view(tokens@)),
{
    let ghost tv = tokens_view(tokens@);
    let mut r = String::new();
    let mut i: usize = 0;
    while i < tokens.len()
        invariant
            i <= tokens@.len(),
            tv == tokens_view(tokens@),
            r@ == segment_text(tv.take(i as int)),
        decreases tokens.len() - i,
    {
        assert(tv.take(i as int + 1).drop_last() =~= tv.take(i as int));
        assert(tv.take(i as int + 1).last() == tokens@[i as int]@);
        match &tokens[i] {
            StructureToken::Text(t) => push_chars(&mut r, &chars_of(t.as_str())),
            StructureToken::Bracket(b) => {
                let s = reconstruct_bracket(b, b.inner_core.as_str());
                push_chars(&mut r, &chars_of(s.as_str()));
            },
            StructureToken::Delimiter(_) => {},
        }
        i += 1;
        assert(r@ =~= segment_text(tv.take(i as int)));
    }
    assert(tv.take(tokens.len() as int) =~= tv);
    r
}

} // verus!

verus! {

// ---------------------------------------------------------------------------
// Bracket cores are shorter than the text they come from
// ---------------------------------------------------------------------------

/// Every bracket token of `ts` has a core shorter than `n`.
pub open spec fn cores_below(ts: Seq<TokenView>, n: int) -> bool {
    forall|k: int|
        0 <= k < ts.len() ==> ((#[trigger] ts[k]) matches TokenView::Bracket(_, _, _, core, _)
            ==> core.len() < n)
}

proof fn lemma_cores_below_append(a: Seq<TokenView>, b: Seq<TokenView>, n: int)
    requires
        cores_below(a, n),
        cores_below(b, n),
    ensures
        cores_below(a + b, n),
{
    assert forall|k: int| 0 <= k < (a + b).len() implies ((#[trigger] (a + b)[k]) matches TokenView::Bracket(
        _,
        _,
        _,
        core,
        _,
    ) ==> core.len() < n) by {
        if k < a.len() {
            assert((a + b)[k] == a[k]);
        } else {
            assert((a + b)[k] == b[k - a.len()]);
        }
    }
}

proof fn lemma_inner_split_core_len(t: Seq<char>)
    ensures
        inner_split(t).1.len() <= t.len(),
{
    lemma_inner_split(t);
}

proof fn lemma_bracket_scan_cores(s: Seq<char>, i: int, stack: Seq<(char, int)>, cursor: int)
    requires
        forall|k: int| 0 <= k < stack.len() ==> 0 <= (#[trigger] stack[k]).1 < s.len() && stack[k].1 < i,
    ensures
        cores_below(bracket_scan(s, i, stack, cursor), s.len() as int),
    decreases s.len() - i,
{
    if i < 0 || i >= s.len() {
    } else {
        let c = s[i];
        if close_of(c) is Some {
            let st = stack.push((c, i));
            assert forall|k: int| 0 <= k < st.len() implies 0 <= (#[trigger] st[k]).1 < s.len() && st[k].1
                < i + 1 by {
                if k < stack.len() {
                    assert(st[k] == stack[k]);
                }
            }
            lemma_bracket_scan_cores(s, i + 1, st, cursor);
        } else if open_of(c) is None || stack.len() == 0 {
            lemma_bracket_scan_cores(s, i + 1, stack, cursor);
        } else {
            let open = stack.last().0;
            let start = stack.last().1;
            let rest = stack.drop_last();
            assert(stack[stack.len() - 1] == stack.last());
            if open_of(c) != Some(open) {
                lemma_bracket_scan_cores(s, i + 1, seq![], cursor);
            } else if rest.len() > 0 && close_of(open) == close_of(rest.last().0) {
                assert forall|k: int| 0 <= k < rest.len() implies 0 <= (#[trigger] rest[k]).1 < s.len()
                    && rest[k].1 < i + 1 by {
                    assert(rest[k] == stack[k]);
                }
                lemma_bracket_scan_cores(s, i + 1, rest, cursor);
            } else {
                let from = if rest.len() > 0 {
                    rest.last().1
                } else {
                    cursor
                };
                let lead: Seq<TokenView> = if 0 <= from < start {
                    seq![TokenView::Text(s.subrange(from, start))]
                } else {
                    seq![]
                };
                let parts = inner_split(s.subrange(start + 1, i));
                let b = seq![TokenView::Bracket(open, c, parts.0, parts.1, parts.2)];
                assert(start < i);
                lemma_inner_split_core_len(s.subrange(start + 1, i));
                lemma_bracket_scan_cores(s, i + 1, seq![], i + 1);
                assert(cores_below(lead, s.len() as int));
                assert(cores_below(b, s.len() as int));
                lemma_cores_below_append(lead, b, s.len() as int);
                lemma_cores_below_append(lead + b, bracket_scan(s, i + 1, seq![], i + 1), s.len() as int);
            }
        }
    }
}

proof fn lemma_text_split_no_brackets(s: Seq<char>, i: int, cur: int)
    ensures
        cores_below(text_split_from(s, i, cur), 0),
    decreases s.len() - i,
{
    if i < 0 || cur < 0 || cur > i || i >= s.len() {
    } else {
        let d = delimiter_at(s, i);
        if d is None {
            lemma_text_split_no_brackets(s, i + 1, cur);
        } else {
            let n = (d->0).1;
            let pending = s.subrange(cur, i);
            let l = trailing_spaces(pending) as int;
            let body = pending.take(pending.len() - l);
            let after = i + n;
            let r = leading_spaces(s.subrange(after, s.len() as int)) as int;
            lemma_delimiter_len(s, i);
            lemma_leading_spaces_bound(s.subrange(after, s.len() as int));
            let lead: Seq<TokenView> = if body.len() > 0 {
                seq![TokenView::Text(body)]
            } else {
                seq![]
            };
            let dl = seq![TokenView::Delimiter(s.subrange(i - l, after + r), (d->0).0)];
            lemma_text_split_no_brackets(s, after + r, after + r);
            lemma_cores_below_append(lead, dl, 0);
            lemma_cores_below_append(lead + dl, text_split_from(s, after + r, after + r), 0);
        }
    }
}

proof fn lemma_expand_texts_cores(ts: Seq<TokenView>, n: int)
    requires
        cores_below(ts, n),
        n >= 0,
    ensures
        cores_below(expand_texts(ts), n),
    decreases ts.len(),
{
    if ts.len() > 0 {
        assert(cores_below(ts.drop_last(), n)) by {
            assert forall|k: int| 0 <= k < ts.drop_last().len() implies ((#[trigger] ts.drop_last()[k]) matches TokenView::Bracket(
                _,
                _,
                _,
                core,
                _,
            ) ==> core.len() < n) by {
                assert(ts.drop_last()[k] == ts[k]);
            }
        }
        lemma_expand_texts_cores(ts.drop_last(), n);
        let tail = match ts.last() {
            TokenView::Text(t) => text_split_from(t, 0, 0),
            other => seq![other],
        };
        match ts.last() {
            TokenView::Text(t) => {
                lemma_text_split_no_brackets(t, 0, 0);
            },
            other => {
                assert(ts[ts.len() - 1] == ts.last());
            },
        }
        assert(cores_below(tail, n));
        lemma_cores_below_append(expand_texts(ts.drop_last()), tail, n);
    }
}

/// The bracket cores of the tokens of `s` are shorter than `s`.
pub proof fn lemma_structure_cores(s: Seq<char>)
    ensures
        cores_below(structure_tokens(s), s.len() as int),
{
    lemma_bracket_scan_cores(s, 0, seq![], 0);
    if bracket_scan(s, 0, seq![], 0).len() == 0 {
        assert(cores_below(seq![TokenView::Text(seq![])], s.len() as int));
    }
    lemma_expand_texts_cores(bracket_tokens(s), s.len() as int);
}

/// Each group of a split has only tokens of the whole.
pub proof fn lemma_groups_cores(ts: Seq<TokenView>, kind: DelimiterKind, n: int)
    requires
        cores_below(ts, n),
    ensures
        forall|g: int|
            0 <= g < groups_split(ts, kind).len() ==> cores_below(
                #[trigger] groups_split(ts, kind)[g],
                n,
            ),
    decreases ts.len(),
{
    if ts.len() > 0 {
        let d = ts.drop_last();
        assert(cores_below(d, n)) by {
            assert forall|k: int| 0 <= k < d.len() implies ((#[trigger] d[k]) matches TokenView::Bracket(
                _,
                _,
                _,
                core,
                _,
            ) ==> core.len() < n) by {
                assert(d[k] == ts[k]);
            }
        }
        lemma_groups_cores(d, kind, n);
        lemma_groups_nonempty(d, kind);
        let g0 = groups_split(d, kind);
        if !is_delimiter_of(ts.last(), kind) {
            let last = g0.last().push(ts.last());
            assert(g0[g0.len() - 1] == g0.last());
            assert(ts[ts.len() - 1] == ts.last());
            assert(cores_below(last, n)) by {
                assert forall|k: int| 0 <= k < last.len() implies ((#[trigger] last[k]) matches TokenView::Bracket(
                    _,
                    _,
                    _,
                    core,
                    _,
                ) ==> core.len() < n) by {
                    if k < g0.last().len() {
                        assert(last[k] == g0.last()[k]);
                    }
                }
            }
            let g1 = g0.update(g0.len() - 1, last);
            assert forall|g: int| 0 <= g < g1.len() implies cores_below(#[trigger] g1[g], n) by {
                if g < g0.len() - 1 {
                    assert(g1[g] == g0[g]);
                }
            }
        } else {
            let g1 = g0.push(seq![]);
            assert forall|g: int| 0 <= g < g1.len() implies cores_below(#[trigger] g1[g], n) by {
                if g < g0.len() {
                    assert(g1[g] == g0[g]);
                }
            }
        }
    }
}

} // verus!

verus! {

// ---------------------------------------------------------------------------
// Line-break delimiters come from line breaks
// ---------------------------------------------------------------------------

/// `d` holds a line-break character.
pub open spec fn has_break(d: Seq<char>) -> bool {
    exists|q: int| 0 <= q < d.len() && (#[trigger] d[q] == '\r' || d[q] == '\n')
}

/// A line-break delimiter holds a line-break character.
pub open spec fn holds_break(t: TokenView) -> bool {
    match t {
        TokenView::Delimiter(d, k) => k == DelimiterKind::Newline ==> has_break(d),
        _ => true,
    }
}

/// Every line-break delimiter among `ts` holds a line-break character.
pub open spec fn breaks_hold_break(ts: Seq<TokenView>) -> bool {
    forall|j: int| 0 <= j < ts.len() ==> holds_break(#[trigger] ts[j])
}

proof fn lemma_breaks_append(a: Seq<TokenView>, b: Seq<TokenView>)
    requires
        breaks_hold_break(a),
        breaks_hold_break(b),
    ensures
        breaks_hold_break(a + b),
{
    assert forall|j: int| 0 <= j < (a + b).len() implies holds_break(#[trigger] (a + b)[j]) by {
        if j < a.len() {
            assert((a + b)[j] == a[j]);
        } else {
            assert((a + b)[j] == b[j - a.len()]);
        }
    }
}

proof fn lemma_text_split_breaks(s: Seq<char>, i: int, cur: int)
    ensures
        breaks_hold_break(text_split_from(s, i, cur)),
    decreases s.len() - i,
{
    if i < 0 || cur < 0 || cur > i || i >= s.len() {
    } else {
        let d = delimiter_at(s, i);
        if d is None {
            lemma_text_split_breaks(s, i + 1, cur);
        } else {
            let kind = (d->0).0;
            let n = (d->0).1;
            let pending = s.subrange(cur, i);
            let l = trailing_spaces(pending) as int;
            let body = pending.take(pending.len() - l);
            let after = i + n;
            let r = leading_spaces(s.subrange(after, s.len() as int)) as int;
            lemma_delimiter_len(s, i);
            lemma_leading_spaces_bound(s.subrange(after, s.len() as int));
            lemma_trailing_spaces_bound(pending);
            let lead: Seq<TokenView> = if body.len() > 0 {
                seq![TokenView::Text(body)]
            } else {
                seq![]
            };
            let dt = s.subrange(i - l, after + r);
            let mid = seq![TokenView::Delimiter(dt, kind)];
            assert(dt[l] == s[i]);
            assert(kind == DelimiterKind::Newline ==> (s[i] == '\r' || s[i] == '\n'));
            if kind == DelimiterKind::Newline {
                assert(0 <= l < dt.len() && (dt[l] == '\r' || dt[l] == '\n'));
                assert(has_break(dt));
            }
            assert(holds_break(mid[0]));
            assert(breaks_hold_break(mid));
            assert(breaks_hold_break(lead));
            lemma_text_split_breaks(s, after + r, after + r);
            lemma_breaks_append(lead, mid);
            lemma_breaks_append(lead + mid, text_split_from(s, after + r, after + r));
        }
    }
}

/// No token among `ts` is a delimiter.
pub open spec fn no_delimiter(ts: Seq<TokenView>) -> bool {
    forall|j: int| 0 <= j < ts.len() ==> !((#[trigger] ts[j]) is Delimiter)
}

proof fn lemma_bracket_scan_no_delimiter(s: Seq<char>, i: int, stack: Seq<(char, int)>, cursor: int)
    ensures
        no_delimiter(bracket_scan(s, i, stack, cursor)),
    decreases s.len() - i,
{
    if i < 0 || i >= s.len() {
    } else {
        let c = s[i];
        if close_of(c) is Some {
            lemma_bracket_scan_no_delimiter(s, i + 1, stack.push((c, i)), cursor);
        } else if open_of(c) is None || stack.len() == 0 {
            lemma_bracket_scan_no_delimiter(s, i + 1, stack, cursor);
        } else {
            let open = stack.last().0;
            let start = stack.last().1;
            let rest = stack.drop_last();
            if open_of(c) != Some(open) {
                lemma_bracket_scan_no_delimiter(s, i + 1, seq![], cursor);
            } else if rest.len() > 0 && close_of(open) == close_of(rest.last().0) {
                lemma_bracket_scan_no_delimiter(s, i + 1, rest, cursor);
            } else {
                lemma_bracket_scan_no_delimiter(s, i + 1, seq![], i + 1);
                let t = bracket_scan(s, i, stack, cursor);
                let tail = bracket_scan(s, i + 1, seq![], i + 1);
                assert forall|j: int| 0 <= j < t.len() implies !((#[trigger] t[j]) is Delimiter) by {
                    let from = if rest.len() > 0 {
                        rest.last().1
                    } else {
                        cursor
                    };
                    let lead: Seq<TokenView> = if 0 <= from < start {
                        seq![TokenView::Text(s.subrange(from, start))]
                    } else {
                        seq![]
                    };
                    let parts = inner_split(s.subrange(start + 1, i));
                    let mid = seq![TokenView::Bracket(open, c, parts.0, parts.1, parts.2)];
                    assert(t == lead + mid + tail);
                    if j < lead.len() {
                        assert(t[j] == lead[j]);
                    } else if j < lead.len() + 1 {
                        assert(t[j] == mid[0]);
                    } else {
                        assert(t[j] == tail[j - lead.len() - 1]);
                    }
                }
            }
        }
    }
}

proof fn lemma_expand_breaks(ts: Seq<TokenView>)
    requires
        no_delimiter(ts),
    ensures
        breaks_hold_break(expand_texts(ts)),
    decreases ts.len(),
{
    if ts.len() > 0 {
        let t0 = ts.drop_last();
        assert forall|j: int| 0 <= j < t0.len() implies !((#[trigger] t0[j]) is Delimiter) by {
            assert(t0[j] == ts[j]);
        }
        lemma_expand_breaks(t0);
        assert(!(ts[ts.len() - 1] is Delimiter));
        match ts.last() {
            TokenView::Text(t) => {
                lemma_text_split_breaks(t, 0, 0);
                lemma_breaks_append(expand_texts(t0), text_split_from(t, 0, 0));
            },
            other => {
                assert(holds_break(seq![other][0]));
                assert(breaks_hold_break(seq![other]));
                lemma_breaks_append(expand_texts(t0), seq![other]);
            },
        }
    }
}

/// A line-break delimiter of the structure tokens holds a line break.
pub proof fn lemma_structure_breaks(s: Seq<char>)
    ensures
        breaks_hold_break(structure_tokens(s)),
{
    lemma_bracket_scan_no_delimiter(s, 0, seq![], 0);
    assert(no_delimiter(bracket_tokens(s)));
    lemma_expand_breaks(bracket_tokens(s));
}

} // verus!
