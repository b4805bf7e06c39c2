//! Planning a text for translation: which parts are fragments for the
//! dictionary and the model, and which are surface written out as it is.

use vstd::prelude::*;

use crate::text::{chars_of, is_whitespace, is_ws, slice_string, trim, trim_chars};
use crate::translator::structure::{raw_parts_from, raw_view, split_protected_angles_and_newlines, RawKind};
use crate::translator::structure::{
    cores_below, delimiters_of, delims_view, groups_split, groups_view, lemma_groups_cores,
    lemma_groups_nonempty, lemma_structure_cores, reconstruct_segment, segment_text, split_lines,
    structure_tokens, tokenize_structure, tokens_view, DelimiterKind, StructureToken, TokenView,
};
use crate::translator::structure::{
    breaks_hold_break, has_break, lemma_raw_parts_lossless, lemma_split_parts_shaped, lemma_structure_breaks,
    raw_part_shaped, raw_text,
};
use crate::translator::structure::{
    bracket_scan_drops, is_delimiter_of, lemma_structure_tokens_lossless, lemma_tokens_text_append, token_text,
    tokens_text,
};
use crate::translator::types::{
    FragmentAuthority, FragmentNode, NodeView, PlannedDocument, PlannedLine, PlannedNode,
    PlannedSegment, SurfaceKind, SurfaceNode, nodes_view,
};
use crate::translator::zm::{horizontal_space, is_horizontal_space};

verus! {

// ---------------------------------------------------------------------------
// Edge brackets and the translatable core of a text
// ---------------------------------------------------------------------------

/// Closing brackets that may open a text, left over from a bracket before it.
pub open spec fn edge_prefix_closing(c: char) -> bool {
    c == ')' || c == '\u{FF09}' || c == ']' || c == '\u{FF3D}' || c == '\u{300B}' || c == '\u{3011}'
}

/// Brackets that may end a text.
pub open spec fn edge_suffix_bracket(c: char) -> bool {
    c == '(' || c == '\u{FF08}' || c == '[' || c == '\u{FF3B}' || c == '\u{300A}' || c == '\u{3010}'
        || edge_prefix_closing(c)
}

/// Punctuation that may follow an edge closing bracket.
pub open spec fn edge_adjacent_punctuation(c: char) -> bool {
    c == '\u{3001}' || c == '\u{3002}' || c == '\u{FF0C}' || c == '\u{FF0E}'
}

/// Punctuation that is written out rather than translated.
pub open spec fn surface_punctuation(c: char) -> bool {
    c == '.' || c == ',' || c == '!' || c == '?' || c == ';' || c == ':' || c == '\u{3002}' || c
        == '\u{3001}' || c == '\u{FF01}' || c == '\u{FF1F}' || c == '\u{FF1B}' || c == '\u{FF1A}'
        || c == '\u{FF0E}' || c == '\u{FF0C}' || c == '\u{2026}'
}

/// A character that makes text worth translating.
pub open spec fn translation_core_char(c: char) -> bool {
    !is_ws(c) && !surface_punctuation(c) && !edge_suffix_bracket(c)
}

/// Where the edge prefix of `s` ends, scanning from `i`.
pub open spec fn prefix_end_from(s: Seq<char>, i: int, seen: bool) -> int
    decreases s.len() - i,
{
    if i < 0 || i >= s.len() {
        s.len() as int
    } else if edge_prefix_closing(s[i]) {
        prefix_end_from(s, i + 1, true)
    } else if seen && (edge_adjacent_punctuation(s[i]) || horizontal_space(s[i])) {
        prefix_end_from(s, i + 1, seen)
    } else {
        i
    }
}

/// Where the edge suffix of `s` starts, scanning down from `j` to `lo`.
pub open spec fn suffix_start_from(s: Seq<char>, j: int, lo: int, seen: bool) -> int
    decreases j - lo,
{
    if j <= lo || j > s.len() {
        j
    } else if edge_suffix_bracket(s[j - 1]) {
        suffix_start_from(s, j - 1, lo, true)
    } else if seen && horizontal_space(s[j - 1]) {
        suffix_start_from(s, j - 1, lo, seen)
    } else {
        j
    }
}

proof fn lemma_prefix_end(s: Seq<char>, i: int, seen: bool)
    requires
        0 <= i <= s.len(),
    ensures
        i <= prefix_end_from(s, i, seen) <= s.len(),
    decreases s.len() - i,
{
    if i < s.len() {
        if edge_prefix_closing(s[i]) {
            lemma_prefix_end(s, i + 1, true);
        } else if seen && (edge_adjacent_punctuation(s[i]) || horizontal_space(s[i])) {
            lemma_prefix_end(s, i + 1, seen);
        }
    }
}

proof fn lemma_suffix_start(s: Seq<char>, j: int, lo: int, seen: bool)
    requires
        0 <= lo <= j <= s.len(),
    ensures
        lo <= suffix_start_from(s, j, lo, seen) <= j,
    decreases j - lo,
{
    if j > lo {
        if edge_suffix_bracket(s[j - 1]) {
            lemma_suffix_start(s, j - 1, lo, true);
        } else if seen && horizontal_space(s[j - 1]) {
            lemma_suffix_start(s, j - 1, lo, seen);
        }
    }
}

/// `s` as its edge prefix, core and edge suffix.
pub open spec fn edge_affixes(s: Seq<char>) -> (Seq<char>, Seq<char>, Seq<char>) {
    let pe = prefix_end_from(s, 0, false);
    let ss = suffix_start_from(s, s.len() as int, pe, false);
    (s.take(pe), s.subrange(pe, ss), s.skip(ss))
}

fn is_edge_prefix_closing(c: char) -> (r: bool)
    ensures
        r == edge_prefix_closing(c),
{
    c == ')' || c == '\u{FF09}' || c == ']' || c == '\u{FF3D}' || c == '\u{300B}' || c == '\u{3011}'
}

fn is_edge_suffix_bracket(c: char) -> (r: bool)
    ensures
        r == edge_suffix_bracket(c),
{
    c == '(' || c == '\u{FF08}' || c == '[' || c == '\u{FF3B}' || c == '\u{300A}' || c == '\u{3010}'
        || is_edge_prefix_closing(c)
}

fn is_edge_adjacent_punctuation(c: char) -> (r: bool)
    ensures
        r == edge_adjacent_punctuation(c),
{
    c == '\u{3001}' || c == '\u{3002}' || c == '\u{FF0C}' || c == '\u{FF0E}'
}

fn is_surface_punctuation(c: char) -> (r: bool)
    ensures
        r == surface_punctuation(c),
{
    c == '.' || c == ',' || c == '!' || c == '?' || c == ';' || c == ':' || c == '\u{3002}' || c
        == '\u{3001}' || c == '\u{FF01}' || c == '\u{FF1F}' || c == '\u{FF1B}' || c == '\u{FF1A}'
        || c == '\u{FF0E}' || c == '\u{FF0C}' || c == '\u{2026}'
}

/// Whether `c` makes text worth translating.
pub fn is_translation_core_char(c: char) -> (r: bool)
    ensures
        r == translation_core_char(c),
{
    !is_whitespace(c) && !is_surface_punctuation(c) && !is_edge_suffix_bracket(c)
}

/// Splits off the brackets (and punctuation and spaces next to them) at the
/// edges of a text.
pub fn split_text_edge_structural_affixes(s: &[char]) -> (r: (String, String, String))
    ensures
        (r.0@, r.1@, r.2@) == edge_affixes(s@),
{
    let mut pe: usize = 0;
    let mut seen = false;
    while pe < s.len()
        invariant
            pe <= s@.len(),
            prefix_end_from(s@, 0, false) == prefix_end_from(s@, pe as int, seen),
        ensures
            pe as int == prefix_end_from(s@, 0, false),
        decreases s.len() - pe,
    {
        let c = s[pe];
        if is_edge_prefix_closing(c) {
            seen = true;
            pe += 1;
        } else if seen && (is_edge_adjacent_punctuation(c) || is_horizontal_space(c)) {
            pe += 1;
        } else {
            break;
        }
    }
    let mut ss: usize = s.len();
    let mut seen2 = false;
    while ss > pe
        invariant
            pe <= ss <= s@.len(),
            pe as int == prefix_end_from(s@, 0, false),
            suffix_start_from(s@, s@.len() as int, pe as int, false) == suffix_start_from(
                s@,
                ss as int,
                pe as int,
                seen2,
            ),
        ensures
            ss as int == suffix_start_from(s@, s@.len() as int, pe as int, false),
        decreases ss - pe,
    {
        let c = s[ss - 1];
        if is_edge_suffix_bracket(c) {
            seen2 = true;
            ss -= 1;
        } else if seen2 && is_horizontal_space(c) {
            ss -= 1;
        } else {
            break;
        }
    }
    let prefix = slice_string(s, 0, pe);
    let core = slice_string(s, pe, ss);
    let suffix = slice_string(s, ss, s.len());
    assert(prefix@ =~= s@.take(pe as int));
    assert(suffix@ =~= s@.skip(ss as int));
    (prefix, core, suffix)
}

pub open spec fn has_core_char(s: Seq<char>) -> bool {
    exists|i: int| 0 <= i < s.len() && translation_core_char(#[trigger] s[i])
}

fn any_core_char(s: &[char]) -> (r: bool)
    ensures
        r == has_core_char(s@),
{
    let mut i: usize = 0;
    while i < s.len()
        invariant
            i <= s@.len(),
            forall|j: int| 0 <= j < i ==> !translation_core_char(#[trigger] s@[j]),
        decreases s.len() - i,
    {
        if is_translation_core_char(s[i]) {
            return true;
        }
        i += 1;
    }
    false
}

pub open spec fn visible(t: Seq<char>) -> NodeView {
    NodeView::Surface(t, SurfaceKind::Visible)
}

/// The nodes of a text without brackets: its edge affixes as surface, and
/// its core as a fragment when it has something to translate, as surface
/// when it has only punctuation; a blank core is left out.
pub open spec fn text_nodes(text: Seq<char>) -> Seq<NodeView> {
    let (p, c, x) = edge_affixes(text);
    let pre: Seq<NodeView> = if p.len() > 0 {
        seq![visible(p)]
    } else {
        seq![]
    };
    let mid: Seq<NodeView> = if trim(c).len() > 0 {
        if has_core_char(c) {
            seq![NodeView::Fragment(c)]
        } else {
            seq![visible(c)]
        }
    } else {
        seq![]
    };
    let post: Seq<NodeView> = if x.len() > 0 {
        seq![visible(x)]
    } else {
        seq![]
    };
    pre + mid + post
}

fn visible_node(text: String) -> (r: PlannedNode)
    ensures
        r@ == visible(text@),
{
    PlannedNode::Surface(SurfaceNode { text, kind: SurfaceKind::Visible })
}

/// Appends the nodes of a text without brackets.
pub fn push_text_token_nodes(nodes: &mut Vec<PlannedNode>, text: &[char])
    ensures
        nodes_view(final(nodes)@) == nodes_view(old(nodes)@) + text_nodes(text@),
{
    let ghost start = nodes_view(nodes@);
    let (prefix, core, suffix) = split_text_edge_structural_affixes(text);
    let ghost (p, c, x) = edge_affixes(text@);
    if prefix.as_str().unicode_len() > 0 {
        nodes.push(visible_node(prefix));
    }
    let ghost after_pre = nodes_view(nodes@);
    let cc = chars_of(core.as_str());
    if trim_chars(&cc).len() > 0 {
        if any_core_char(&cc) {
            nodes.push(
                PlannedNode::Fragment(FragmentNode { authority: FragmentAuthority { source: core } }),
            );
        } else {
            nodes.push(visible_node(core));
        }
    }
    let ghost after_mid = nodes_view(nodes@);
    if suffix.as_str().unicode_len() > 0 {
        nodes.push(visible_node(suffix));
    }
    let ghost pre: Seq<NodeView> = if p.len() > 0 {
        seq![visible(p)]
    } else {
        seq![]
    };
    let ghost mid: Seq<NodeView> = if trim(c).len() > 0 {
        if has_core_char(c) {
            seq![NodeView::Fragment(c)]
        } else {
            seq![visible(c)]
        }
    } else {
        seq![]
    };
    assert(after_pre =~= start + pre);
    assert(after_mid =~= start + pre + mid);
    assert(nodes_view(nodes@) =~= start + text_nodes(text@));
}

} // verus!

verus! {

// ---------------------------------------------------------------------------
// Segments, brackets and inner text
// ---------------------------------------------------------------------------

pub open spec fn has_bracket(ts: Seq<TokenView>) -> bool {
    exists|k: int| 0 <= k < ts.len() && (#[trigger] ts[k]) is Bracket
}

/// The nodes of one token of a segment with brackets: a bracket's brackets
/// and spaces are surface and its core is planned again; `n` bounds the
/// length of the cores planned.
pub open spec fn token_nodes(t: TokenView, n: int) -> Seq<NodeView>
    decreases n, 0int, 0int,
{
    match t {
        TokenView::Bracket(o, c, l, core, r) => seq![visible(seq![o]), visible(l)] + (if 0 <= core.len()
            < n {
            inner_nodes(core)
        } else {
            seq![]
        }) + seq![visible(r), visible(seq![c])],
        TokenView::Text(s) => text_nodes(s),
        TokenView::Delimiter(_, _) => seq![],
    }
}

/// The nodes of a segment with brackets.
pub open spec fn mixed_nodes(ts: Seq<TokenView>, n: int) -> Seq<NodeView>
    decreases n, 1int, ts.len(),
{
    if ts.len() == 0 {
        seq![]
    } else {
        mixed_nodes(ts.drop_last(), n) + token_nodes(ts.last(), n)
    }
}

/// The nodes of a segment: without brackets, the nodes of its text; with
/// brackets, those of each token.
pub open spec fn segment_nodes(ts: Seq<TokenView>, n: int) -> Seq<NodeView>
    decreases n, 2int, 0int,
{
    if !has_bracket(ts) {
        let f = segment_text(ts);
        if f.len() == 0 {
            seq![]
        } else {
            text_nodes(f)
        }
    } else {
        mixed_nodes(ts, n)
    }
}

/// The nodes of a line's segments, each followed by its separator.
pub open spec fn line_nodes(segs: Seq<Seq<TokenView>>, seps: Seq<Seq<char>>, n: int) -> Seq<NodeView>
    decreases n, 3int, segs.len(),
{
    if segs.len() == 0 {
        seq![]
    } else {
        let k = segs.len() - 1;
        line_nodes(segs.drop_last(), seps, n) + segment_nodes(segs.last(), n) + (if k < seps.len() {
            seq![visible(seps[k])]
        } else {
            seq![]
        })
    }
}

/// The nodes of lines, each followed by its line break.
pub open spec fn lines_nodes(lines: Seq<Seq<TokenView>>, nls: Seq<Seq<char>>, n: int) -> Seq<NodeView>
    decreases n, 4int, lines.len(),
{
    if lines.len() == 0 {
        seq![]
    } else {
        let k = lines.len() - 1;
        let line = lines.last();
        lines_nodes(lines.drop_last(), nls, n) + line_nodes(
            groups_split(line, DelimiterKind::Separator),
            delimiters_of(line, DelimiterKind::Separator),
            n,
        ) + (if k < nls.len() {
            seq![visible(nls[k])]
        } else {
            seq![]
        })
    }
}

/// The nodes of the text inside a bracket: one empty surface when empty.
pub open spec fn inner_nodes(text: Seq<char>) -> Seq<NodeView>
    decreases text.len(), 5int, 0int,
{
    if text.len() == 0 {
        seq![visible(seq![])]
    } else {
        let ts = structure_tokens(text);
        lines_nodes(
            groups_split(ts, DelimiterKind::Newline),
            delimiters_of(ts, DelimiterKind::Newline),
            text.len() as int,
        )
    }
}

fn char_string(c: char) -> (r: String)
    ensures
        r@ == seq![c],
{
    let mut s = String::new();
    crate::text::push_char(&mut s, c);
    s
}

fn count_brackets(tokens: &[StructureToken]) -> (r: bool)
    ensures
        r == has_bracket(tokens_view(tokens@)),
{
    let ghost tv = tokens_view(tokens@);
    let mut i: usize = 0;
    while i < tokens.len()
        invariant
            i <= tokens@.len(),
            tv == tokens_view(tokens@),
            forall|k: int| 0 <= k < i ==> !((#[trigger] tv[k]) is Bracket),
        decreases tokens.len() - i,
    {
        assert(tv[i as int] == tokens@[i as int]@);
        match &tokens[i] {
            StructureToken::Bracket(_) => {
                return true;
            },
            _ => {},
        }
        i += 1;
    }
    false
}

/// The nodes of a segment with brackets.
fn plan_mixed_structure_nodes(tokens: &[StructureToken], Ghost(n): Ghost<int>) -> (r: Vec<PlannedNode>)
    requires
        cores_below(tokens_view(tokens@), n),
    ensures
        nodes_view(r@) == mixed_nodes(tokens_view(tokens@), n),
    decreases n, 1int,
{
    let ghost tv = tokens_view(tokens@);
    let mut nodes: Vec<PlannedNode> = Vec::new();
    let mut i: usize = 0;
    assert(nodes_view(nodes@) =~= seq![]);
    while i < tokens.len()
        invariant
            i <= tokens@.len(),
            tv == tokens_view(tokens@),
            cores_below(tv, n),
            nodes_view(nodes@) == mixed_nodes(tv.take(i as int), n),
        decreases tokens.len() - i,
    {
        assert(tv.take(i as int + 1).drop_last() =~= tv.take(i as int));
        assert(tv.take(i as int + 1).last() == tokens@[i as int]@);
        let ghost before = nodes_view(nodes@);
        match &tokens[i] {
            StructureToken::Text(t) => {
                let cs = chars_of(t.as_str());
                push_text_token_nodes(&mut nodes, &cs);
            },
            StructureToken::Bracket(slot) => {
                assert(tv[i as int] == tokens@[i as int]@);
                assert(slot.inner_core@.len() < n);
                nodes.push(visible_node(char_string(slot.open)));
                nodes.push(visible_node(slot.inner_left_spaces.clone()));
                assert(nodes_view(nodes@) =~= before + seq![
                    visible(seq![slot.open]),
                    visible(slot.inner_left_spaces@),
                ]);
                let core = chars_of(slot.inner_core.as_str());
                let inner = plan_inner_text_to_segment_nodes(&core);
                let mut j: usize = 0;
                let ghost mid = nodes_view(nodes@);
                while j < inner.len()
                    invariant
                        j <= inner@.len(),
                        nodes_view(nodes@) == mid + nodes_view(inner@).take(j as int),
                    decreases inner.len() - j,
                {
                    let ghost iv = nodes_view(inner@);
                    assert(iv.take(j as int + 1) =~= iv.take(j as int).push(inner@[j as int]@));
                    let ghost cur = nodes_view(nodes@);
                    nodes.push(clone_node(&inner[j]));
                    assert(nodes_view(nodes@) =~= cur.push(inner@[j as int]@));
                    j += 1;
                }
                assert(nodes_view(inner@).take(inner.len() as int) =~= nodes_view(inner@));
                assert(nodes_view(inner@) == inner_nodes(slot.inner_core@));
                let ghost mid2 = nodes_view(nodes@);
                nodes.push(visible_node(slot.inner_right_spaces.clone()));
                nodes.push(visible_node(char_string(slot.close)));
                assert(nodes_view(nodes@) =~= mid2 + seq![
                    visible(slot.inner_right_spaces@),
                    visible(seq![slot.close]),
                ]);
                assert(nodes_view(nodes@) =~= before + token_nodes(tv[i as int], n));
            },
            StructureToken::Delimiter(_) => {
                assert(nodes_view(nodes@) =~= before + token_nodes(tv[i as int], n));
            },
        }
        i += 1;
    }
    assert(tv.take(tokens.len() as int) =~= tv);
    nodes
}

/// A copy of a node.
pub fn clone_node(n: &PlannedNode) -> (r: PlannedNode)
    ensures
        r@ == n@,
{
    match n {
        PlannedNode::Surface(s) => PlannedNode::Surface(SurfaceNode { text: s.text.clone(), kind: s.kind }),
        PlannedNode::Fragment(f) => PlannedNode::Fragment(
            FragmentNode { authority: FragmentAuthority { source: f.authority.source.clone() } },
        ),
    }
}

/// The nodes of a segment.
fn plan_segment(tokens: &[StructureToken], Ghost(n): Ghost<int>) -> (r: Vec<PlannedNode>)
    requires
        cores_below(tokens_view(tokens@), n),
    ensures
        nodes_view(r@) == segment_nodes(tokens_view(tokens@), n),
    decreases n, 2int,
{
    if !count_brackets(tokens) {
        let fragment = reconstruct_segment(tokens);
        let fc = chars_of(fragment.as_str());
        if fc.len() == 0 {
            return Vec::new();
        }
        let mut nodes: Vec<PlannedNode> = Vec::new();
        push_text_token_nodes(&mut nodes, &fc);
        assert(nodes_view(nodes@) =~= text_nodes(fc@));
        return nodes;
    }
    plan_mixed_structure_nodes(tokens, Ghost(n))
}

/// The nodes of the text inside a bracket.
pub fn plan_inner_text_to_segment_nodes(text: &[char]) -> (r: Vec<PlannedNode>)
    ensures
        nodes_view(r@) == inner_nodes(text@),
    decreases text@.len(), 3int,
{
    if text.len() == 0 {
        let mut v: Vec<PlannedNode> = Vec::new();
        v.push(visible_node(String::new()));
        assert(nodes_view(v@) =~= seq![visible(seq![])]);
        return v;
    }
    let ghost n = text@.len() as int;
    let tokens = tokenize_structure(text);
    let ghost ts = tokens_view(tokens@);
    proof {
        lemma_structure_cores(text@);
        lemma_groups_cores(ts, DelimiterKind::Newline, n);
        lemma_groups_nonempty(ts, DelimiterKind::Newline);
    }
    let (lines, newlines) = split_lines(&tokens);
    let ghost lg = groups_split(ts, DelimiterKind::Newline);
    let ghost nl = delimiters_of(ts, DelimiterKind::Newline);
    let mut nodes: Vec<PlannedNode> = Vec::new();
    let mut li: usize = 0;
    assert(lg.take(0) =~= Seq::<Seq<TokenView>>::empty());
    assert(nodes_view(nodes@) =~= seq![]);
    while li < lines.len()
        invariant
            li <= lines@.len(),
            lines@.len() == lg.len(),
            n == text@.len(),
            forall|g: int| 0 <= g < lg.len() ==> cores_below(#[trigger] lg[g], n),
            forall|k: int|
                0 <= k < lines@.len() ==> {
                    &&& groups_view((#[trigger] lines@[k]).segments@) == groups_split(
                        lg[k],
                        DelimiterKind::Separator,
                    )
                    &&& delims_view(lines@[k].separators@) == delimiters_of(
                        lg[k],
                        DelimiterKind::Separator,
                    )
                },
            delims_view(newlines@) == nl,
            nodes_view(nodes@) == lines_nodes(lg.take(li as int), nl, n),
        decreases lines.len() - li,
    {
        assert(lg.take(li as int + 1).drop_last() =~= lg.take(li as int));
        let ghost line = lg[li as int];
        assert(lg.take(li as int + 1).last() == line);
        let ghost segs = groups_split(line, DelimiterKind::Separator);
        let ghost seps = delimiters_of(line, DelimiterKind::Separator);
        proof {
            lemma_groups_cores(line, DelimiterKind::Separator, n);
        }
        let plan = &lines[li];
        let ghost before = nodes_view(nodes@);
        let mut si: usize = 0;
        assert(segs.take(0) =~= Seq::<Seq<TokenView>>::empty());
        assert(before + line_nodes(segs.take(0), seps, n) =~= before);
        while si < plan.segments.len()
            invariant
                si <= plan.segments@.len(),
                n == text@.len(),
                groups_view(plan.segments@) == segs,
                delims_view(plan.separators@) == seps,
                forall|g: int| 0 <= g < segs.len() ==> cores_below(#[trigger] segs[g], n),
                nodes_view(nodes@) == before + line_nodes(segs.take(si as int), seps, n),
            decreases plan.segments.len() - si,
        {
            assert(segs.take(si as int + 1).drop_last() =~= segs.take(si as int));
            assert(segs[si as int] == tokens_view(plan.segments@[si as int]@));
            assert(segs.take(si as int + 1).last() == segs[si as int]);
            let ghost mid = nodes_view(nodes@);
            let seg_nodes = plan_segment(plan.segments[si].as_slice(), Ghost(n));
            let mut j: usize = 0;
            while j < seg_nodes.len()
                invariant
                    j <= seg_nodes@.len(),
                    nodes_view(nodes@) == mid + nodes_view(seg_nodes@).take(j as int),
                decreases seg_nodes.len() - j,
            {
                let ghost iv = nodes_view(seg_nodes@);
                assert(iv.take(j as int + 1) =~= iv.take(j as int).push(seg_nodes@[j as int]@));
                let ghost cur = nodes_view(nodes@);
                nodes.push(clone_node(&seg_nodes[j]));
                assert(nodes_view(nodes@) =~= cur.push(seg_nodes@[j as int]@));
                j += 1;
            }
            assert(nodes_view(seg_nodes@).take(seg_nodes.len() as int) =~= nodes_view(seg_nodes@));
            assert(nodes_view(nodes@) == mid + segment_nodes(segs[si as int], n));
            assert(seps.len() == plan.separators@.len());
            let ghost mid3 = nodes_view(nodes@);
            if si < plan.separators.len() {
                assert(seps[si as int] == plan.separators@[si as int].text@);
                nodes.push(visible_node(plan.separators[si].text.clone()));
                assert(nodes_view(nodes@) =~= mid3 + seq![visible(seps[si as int])]);
            } else {
                assert(nodes_view(nodes@) =~= mid3 + Seq::<NodeView>::empty());
            }
            si += 1;
            assert(nodes_view(nodes@) =~= before + line_nodes(segs.take(si as int), seps, n));
        }
        assert(segs.take(plan.segments.len() as int) =~= segs);
        let ghost mid4 = nodes_view(nodes@);
        assert(nl.len() == newlines@.len());
        if li < newlines.len() {
            assert(nl[li as int] == newlines@[li as int].text@);
            nodes.push(visible_node(newlines[li].text.clone()));
            assert(nodes_view(nodes@) =~= mid4 + seq![visible(nl[li as int])]);
        } else {
            assert(nodes_view(nodes@) =~= mid4 + Seq::<NodeView>::empty());
        }
        li += 1;
        assert(nodes_view(nodes@) =~= lines_nodes(lg.take(li as int), nl, n));
    }
    assert(lg.take(lines.len() as int) =~= lg);
    nodes
}

} // verus!

verus! {

// ---------------------------------------------------------------------------
// Building lines
// ---------------------------------------------------------------------------

pub open spec fn surf_view(s: SurfaceNode) -> (Seq<char>, SurfaceKind) {
    (s.text@, s.kind)
}

pub open spec fn opt_surf_view(s: Option<SurfaceNode>) -> Option<(Seq<char>, SurfaceKind)> {
    match s {
        Some(x) => Some(surf_view(x)),
        None => None,
    }
}

/// A segment's nodes and separator.
pub type SegView = (Seq<NodeView>, Option<(Seq<char>, SurfaceKind)>);

pub open spec fn seg_view(s: PlannedSegment) -> SegView {
    (nodes_view(s.nodes@), opt_surf_view(s.trailing_separator))
}

pub open spec fn segs_view(v: Seq<PlannedSegment>) -> Seq<SegView> {
    v.map_values(|s: PlannedSegment| seg_view(s))
}

pub open spec fn line_view(l: PlannedLine) -> (Seq<SegView>, Option<(Seq<char>, SurfaceKind)>) {
    (segs_view(l.segments@), opt_surf_view(l.trailing_newline))
}

pub open spec fn doc_view(d: PlannedDocument) -> Seq<(Seq<SegView>, Option<(Seq<char>, SurfaceKind)>)> {
    d.lines@.map_values(|l: PlannedLine| line_view(l))
}

/// What a line builder holds: finished segments, the nodes of the segment
/// being built, and whether surface was appended last.
pub struct BuilderView {
    pub segments: Seq<SegView>,
    pub current: Seq<NodeView>,
    pub last_surface: bool,
}

pub open spec fn finish_segment_spec(b: BuilderView, sep: Option<(Seq<char>, SurfaceKind)>) -> BuilderView {
    if b.current.len() == 0 && sep is None {
        b
    } else {
        BuilderView { segments: b.segments.push((b.current, sep)), current: seq![], ..b }
    }
}

pub open spec fn finish_line_spec(b: BuilderView, nl: Option<(Seq<char>, SurfaceKind)>) -> (
    BuilderView,
    (Seq<SegView>, Option<(Seq<char>, SurfaceKind)>),
) {
    let b1 = if b.current.len() > 0 {
        finish_segment_spec(b, None)
    } else {
        b
    };
    (BuilderView { segments: seq![], ..b1 }, (b1.segments, nl))
}

/// The number of horizontal spaces that `s` ends with.
pub open spec fn trailing_hspaces(s: Seq<char>) -> nat
    decreases s.len(),
{
    if s.len() > 0 && horizontal_space(s.last()) {
        1 + trailing_hspaces(s.drop_last())
    } else {
        0
    }
}

/// The number of horizontal spaces that `s` starts with.
pub open spec fn leading_hspaces(s: Seq<char>) -> nat
    decreases s.len(),
{
    if s.len() > 0 && horizontal_space(s[0]) {
        1 + leading_hspaces(s.skip(1))
    } else {
        0
    }
}

pub open spec fn node_text(n: NodeView) -> Seq<char> {
    match n {
        NodeView::Surface(t, _) => t,
        NodeView::Fragment(t) => t,
    }
}

pub open spec fn with_text(n: NodeView, t: Seq<char>) -> NodeView {
    match n {
        NodeView::Surface(_, k) => NodeView::Surface(t, k),
        NodeView::Fragment(_) => NodeView::Fragment(t),
    }
}

/// The trailing spaces of the last node become a surface node of their own.
pub open spec fn absorb_spec(b: BuilderView) -> BuilderView {
    if b.current.len() == 0 {
        b
    } else {
        let last = b.current.last();
        let t = node_text(last);
        let k = trailing_hspaces(t) as int;
        if k == 0 {
            b
        } else {
            BuilderView {
                current: b.current.drop_last().push(with_text(last, t.take(t.len() - k))).push(
                    visible(t.skip(t.len() - k)),
                ),
                ..b
            }
        }
    }
}

pub open spec fn append_surface_spec(b: BuilderView, s: (Seq<char>, SurfaceKind)) -> BuilderView {
    let a = absorb_spec(b);
    BuilderView { current: a.current.push(NodeView::Surface(s.0, s.1)), last_surface: true, ..a }
}

/// The builder after the segments of one line of appended text.
pub open spec fn after_segments(b: BuilderView, segs: Seq<Seq<TokenView>>, seps: Seq<Seq<char>>, n: int) -> BuilderView
    decreases segs.len(),
{
    if segs.len() == 0 {
        b
    } else {
        let b1 = after_segments(b, segs.drop_last(), seps, n);
        let k = segs.len() - 1;
        let b2 = BuilderView { current: b1.current + segment_nodes(segs.last(), n), ..b1 };
        if k < seps.len() {
            finish_segment_spec(b2, Some((seps[k], SurfaceKind::Visible)))
        } else {
            b2
        }
    }
}

/// The builder after the lines of appended text.
pub open spec fn after_lines(b: BuilderView, lines: Seq<Seq<TokenView>>, nls: Seq<Seq<char>>, n: int) -> BuilderView
    decreases lines.len(),
{
    if lines.len() == 0 {
        b
    } else {
        let b1 = after_lines(b, lines.drop_last(), nls, n);
        let k = lines.len() - 1;
        let line = lines.last();
        let b2 = after_segments(
            b1,
            groups_split(line, DelimiterKind::Separator),
            delimiters_of(line, DelimiterKind::Separator),
            n,
        );
        if k < nls.len() {
            finish_line_spec(b2, Some((nls[k], SurfaceKind::Newline))).0
        } else {
            b2
        }
    }
}

/// Appending text: after surface, its leading spaces become surface of
/// their own; then its segments are planned, each separator ending one.
pub open spec fn append_text_spec(b: BuilderView, text: Seq<char>) -> BuilderView {
    let k = leading_hspaces(text) as int;
    let b0 = if b.last_surface && k > 0 {
        BuilderView { current: b.current.push(visible(text.take(k))), last_surface: false, ..b }
    } else {
        BuilderView { last_surface: false, ..b }
    };
    let t = if b.last_surface {
        text.skip(k)
    } else {
        text
    };
    if b.last_surface && t.len() == 0 {
        b0
    } else {
        let ts = structure_tokens(t);
        after_lines(
            b0,
            groups_split(ts, DelimiterKind::Newline),
            delimiters_of(ts, DelimiterKind::Newline),
            t.len() as int,
        )
    }
}


pub open spec fn lines_view(v: Seq<PlannedLine>) -> Seq<(Seq<SegView>, Option<(Seq<char>, SurfaceKind)>)> {
    v.map_values(|l: PlannedLine| line_view(l))
}

pub open spec fn empty_builder() -> BuilderView {
    BuilderView { segments: seq![], current: seq![], last_surface: false }
}

/// The builder and the finished lines after the given raw parts.
pub open spec fn plan_parts(parts: Seq<(RawKind, Seq<char>)>) -> (
    BuilderView,
    Seq<(Seq<SegView>, Option<(Seq<char>, SurfaceKind)>)>,
)
    decreases parts.len(),
{
    if parts.len() == 0 {
        (empty_builder(), seq![])
    } else {
        let (b, lines) = plan_parts(parts.drop_last());
        let p = parts.last();
        match p.0 {
            RawKind::Text => if p.1.len() == 0 {
                (b, lines)
            } else {
                (append_text_spec(b, p.1), lines)
            },
            RawKind::ProtectedAngle => (
                append_surface_spec(b, (p.1, SurfaceKind::ProtectedAngle)),
                lines,
            ),
            RawKind::Newline => {
                let (b2, l) = finish_line_spec(b, Some((p.1, SurfaceKind::Newline)));
                (b2, lines.push(l))
            },
        }
    }
}

/// The plan of a whole text: its raw parts folded into lines, and the last
/// line finished without a line break.
pub open spec fn plan_document_spec(input: Seq<char>) -> Seq<
    (Seq<SegView>, Option<(Seq<char>, SurfaceKind)>),
> {
    let (b, lines) = plan_parts(raw_parts_from(input, 0, 0));
    lines.push(finish_line_spec(b, None).1)
}

struct PlannedLineBuilder {
    segments: Vec<PlannedSegment>,
    current_nodes: Vec<PlannedNode>,
    last_was_surface: bool,
}

impl PlannedLineBuilder {
    spec fn bview(&self) -> BuilderView {
        BuilderView {
            segments: segs_view(self.segments@),
            current: nodes_view(self.current_nodes@),
            last_surface: self.last_was_surface,
        }
    }

    fn new() -> (r: Self)
        ensures
            r.bview() == empty_builder(),
    {
        let r = PlannedLineBuilder { segments: Vec::new(), current_nodes: Vec::new(), last_was_surface: false };
        assert(segs_view(r.segments@) =~= seq![]);
        assert(nodes_view(r.current_nodes@) =~= seq![]);
        r
    }

    /// Moves the horizontal spaces that end the last node into a surface
    /// node of their own.
    fn absorb_trailing_spaces(&mut self)
        ensures
            final(self).bview() == absorb_spec(old(self).bview()),
    {
        let len = self.current_nodes.len();
        if len == 0 {
            return;
        }
        let ghost b = self.bview();
        let ghost cur = self.current_nodes@;
        let last = self.current_nodes.pop().unwrap();
        assert(self.current_nodes@ =~= cur.drop_last());
        assert(b.current.last() == last@);
        let tc = match &last {
            PlannedNode::Surface(s) => chars_of(s.text.as_str()),
            PlannedNode::Fragment(f) => chars_of(f.authority.source.as_str()),
        };
        let ghost t = tc@;
        assert(t == node_text(last@));
        let mut e: usize = tc.len();
        assert(t.take(e as int) =~= t);
        loop
            invariant
                e <= t.len(),
                t == tc@,
                trailing_hspaces(t) == (t.len() - e) + trailing_hspaces(t.take(e as int)),
            ensures
                e <= t.len(),
                trailing_hspaces(t) == t.len() - e,
            decreases e,
        {
            if e == 0 {
                assert(t.take(0) =~= Seq::<char>::empty());
                break;
            }
            if !is_horizontal_space(tc[e - 1]) {
                break;
            }
            assert(t.take(e as int).drop_last() =~= t.take(e - 1));
            e -= 1;
        }
        if e == tc.len() {
            self.current_nodes.push(last);
            assert(self.current_nodes@ =~= cur);
            return;
        }
        let head = slice_string(&tc, 0, e);
        let spaces = slice_string(&tc, e, tc.len());
        assert(t.take(e as int) =~= t.subrange(0, e as int));
        assert(t.skip(e as int) =~= t.subrange(e as int, t.len() as int));
        let node = match last {
            PlannedNode::Surface(s) => PlannedNode::Surface(SurfaceNode { text: head, kind: s.kind }),
            PlannedNode::Fragment(_) => PlannedNode::Fragment(
                FragmentNode { authority: FragmentAuthority { source: head } },
            ),
        };
        assert(node@ == with_text(last@, t.take(e as int)));
        self.current_nodes.push(node);
        self.current_nodes.push(visible_node(spaces));
        assert(nodes_view(self.current_nodes@) =~= b.current.drop_last().push(
            with_text(last@, t.take(e as int)),
        ).push(visible(t.skip(e as int))));
    }

    /// Ends the current segment with the given separator.
    fn finish_segment(&mut self, sep: Option<SurfaceNode>)
        ensures
            final(self).bview() == finish_segment_spec(old(self).bview(), opt_surf_view(sep)),
    {
        if self.current_nodes.len() == 0 && sep.is_none() {
            return;
        }
        let ghost b = self.bview();
        let mut nodes: Vec<PlannedNode> = Vec::new();
        std::mem::swap(&mut nodes, &mut self.current_nodes);
        let seg = PlannedSegment { nodes, trailing_separator: sep };
        assert(seg_view(seg) == (b.current, opt_surf_view(sep)));
        self.segments.push(seg);
        assert(segs_view(self.segments@) =~= b.segments.push((b.current, opt_surf_view(sep))));
        assert(nodes_view(self.current_nodes@) =~= seq![]);
    }

    /// Ends the line with the given line break and hands it out.
    fn finish_line(&mut self, nl: Option<SurfaceNode>) -> (r: PlannedLine)
        ensures
            final(self).bview() == finish_line_spec(old(self).bview(), opt_surf_view(nl)).0,
            line_view(r) == finish_line_spec(old(self).bview(), opt_surf_view(nl)).1,
    {
        if self.current_nodes.len() > 0 {
            self.finish_segment(None);
        }
        let mut segs: Vec<PlannedSegment> = Vec::new();
        std::mem::swap(&mut segs, &mut self.segments);
        assert(segs_view(self.segments@) =~= seq![]);
        PlannedLine { segments: segs, trailing_newline: nl }
    }

    /// Appends a piece of surface text.
    fn append_surface(&mut self, surface: SurfaceNode)
        ensures
            final(self).bview() == append_surface_spec(old(self).bview(), surf_view(surface)),
    {
        self.absorb_trailing_spaces();
        let ghost a = self.bview();
        self.current_nodes.push(PlannedNode::Surface(surface));
        self.last_was_surface = true;
        assert(nodes_view(self.current_nodes@) =~= a.current.push(
            NodeView::Surface(surface.text@, surface.kind),
        ));
    }

    /// Appends the lines of a text.
    fn append_planned_text(&mut self, text: &[char])
        ensures
            ({
                let ts = structure_tokens(text@);
                final(self).bview() == after_lines(
                    old(self).bview(),
                    groups_split(ts, DelimiterKind::Newline),
                    delimiters_of(ts, DelimiterKind::Newline),
                    text@.len() as int,
                )
            }),
    {
        let ghost n = text@.len() as int;
        let ghost b0 = self.bview();
        let tokens = tokenize_structure(text);
        let ghost ts = tokens_view(tokens@);
        proof {
            lemma_structure_cores(text@);
            lemma_groups_cores(ts, DelimiterKind::Newline, n);
        }
        let (lines, newlines) = split_lines(&tokens);
        let ghost lg = groups_split(ts, DelimiterKind::Newline);
        let ghost nl = delimiters_of(ts, DelimiterKind::Newline);
        let mut li: usize = 0;
        assert(lg.take(0) =~= Seq::<Seq<TokenView>>::empty());
        while li < lines.len()
            invariant
                li <= lines@.len(),
                lines@.len() == lg.len(),
                n == text@.len(),
                forall|g: int| 0 <= g < lg.len() ==> cores_below(#[trigger] lg[g], n),
                forall|k: int|
                    0 <= k < lines@.len() ==> {
                        &&& groups_view((#[trigger] lines@[k]).segments@) == groups_split(
                            lg[k],
                            DelimiterKind::Separator,
                        )
                        &&& delims_view(lines@[k].separators@) == delimiters_of(
                            lg[k],
                            DelimiterKind::Separator,
                        )
                    },
                delims_view(newlines@) == nl,
                self.bview() == after_lines(b0, lg.take(li as int), nl, n),
            decreases lines.len() - li,
        {
            assert(lg.take(li as int + 1).drop_last() =~= lg.take(li as int));
            let ghost line = lg[li as int];
            assert(lg.take(li as int + 1).last() == line);
            let ghost segs = groups_split(line, DelimiterKind::Separator);
            let ghost seps = delimiters_of(line, DelimiterKind::Separator);
            proof {
                lemma_groups_cores(line, DelimiterKind::Separator, n);
            }
            let plan = &lines[li];
            let ghost bl = self.bview();
            let mut si: usize = 0;
            assert(segs.take(0) =~= Seq::<Seq<TokenView>>::empty());
            while si < plan.segments.len()
                invariant
                    si <= plan.segments@.len(),
                    n == text@.len(),
                    groups_view(plan.segments@) == segs,
                    delims_view(plan.separators@) == seps,
                    forall|g: int| 0 <= g < segs.len() ==> cores_below(#[trigger] segs[g], n),
                    self.bview() == after_segments(bl, segs.take(si as int), seps, n),
                decreases plan.segments.len() - si,
            {
                assert(segs.take(si as int + 1).drop_last() =~= segs.take(si as int));
                assert(segs[si as int] == tokens_view(plan.segments@[si as int]@));
                assert(segs.take(si as int + 1).last() == segs[si as int]);
                let ghost mid = self.bview();
                let mut seg_nodes = plan_segment(plan.segments[si].as_slice(), Ghost(n));
                let ghost sv = nodes_view(seg_nodes@);
                let ghost cv = self.current_nodes@;
                self.current_nodes.append(&mut seg_nodes);
                assert(nodes_view(self.current_nodes@) =~= nodes_view(cv) + sv);
                assert(seps.len() == plan.separators@.len());
                if si < plan.separators.len() {
                    assert(seps[si as int] == plan.separators@[si as int].text@);
                    self.finish_segment(Some(SurfaceNode::visible(plan.separators[si].text.clone())));
                }
                si += 1;
            }
            assert(segs.take(plan.segments.len() as int) =~= segs);
            assert(nl.len() == newlines@.len());
            if li < newlines.len() {
                assert(nl[li as int] == newlines@[li as int].text@);
                let _ = self.finish_line(Some(SurfaceNode::newline(newlines[li].text.clone())));
            }
            li += 1;
        }
        assert(lg.take(lines.len() as int) =~= lg);
    }

    /// Appends text; after surface, its leading spaces are surface too.
    fn append_text(&mut self, text: &[char])
        ensures
            final(self).bview() == append_text_spec(old(self).bview(), text@),
    {
        let ghost b = self.bview();
        let ghost t = text@;
        let mut k: usize = 0;
        assert(t.skip(0) =~= t);
        loop
            invariant
                k <= t.len(),
                t == text@,
                leading_hspaces(t) == k + leading_hspaces(t.skip(k as int)),
            ensures
                k <= t.len(),
                leading_hspaces(t) == k,
            decreases t.len() - k,
        {
            if k == text.len() {
                assert(t.skip(k as int) =~= Seq::<char>::empty());
                break;
            }
            if !is_horizontal_space(text[k]) {
                break;
            }
            assert(t.skip(k as int).skip(1) =~= t.skip(k as int + 1));
            k += 1;
        }
        if self.last_was_surface {
            self.last_was_surface = false;
            if k > 0 {
                let spaces = slice_string(text, 0, k);
                assert(t.take(k as int) =~= t.subrange(0, k as int));
                let ghost cv = nodes_view(self.current_nodes@);
                self.current_nodes.push(visible_node(spaces));
                assert(nodes_view(self.current_nodes@) =~= cv.push(visible(t.take(k as int))));
            }
            if k == text.len() {
                assert(t.skip(k as int).len() == 0);
                return;
            }
            let rest = chars_of(slice_string(text, k, text.len()).as_str());
            assert(rest@ =~= t.skip(k as int));
            self.append_planned_text(&rest);
        } else {
            self.append_planned_text(text);
        }
    }
}

/// Plans a text: the nodes of each line, split at separators into
/// segments, with protected `<...>` spans and line breaks as surface.
pub fn plan_document(input: &str) -> (r: PlannedDocument)
    ensures
        lines_view(r.lines@) == plan_document_spec(input@),
{
    let chars = chars_of(input);
    let parts = split_protected_angles_and_newlines(&chars);
    let ghost pv = raw_view(parts@);
    let mut lines: Vec<PlannedLine> = Vec::new();
    let mut builder = PlannedLineBuilder::new();
    let mut i: usize = 0;
    assert(pv.take(0) =~= Seq::<(RawKind, Seq<char>)>::empty());
    assert(lines_view(lines@) =~= seq![]);
    while i < parts.len()
        invariant
            i <= parts@.len(),
            pv == raw_view(parts@),
            (builder.bview(), lines_view(lines@)) == plan_parts(pv.take(i as int)),
        decreases parts.len() - i,
    {
        assert(pv.take(i as int + 1).drop_last() =~= pv.take(i as int));
        assert(pv.take(i as int + 1).last() == (parts@[i as int].kind, parts@[i as int].text@));
        let part = &parts[i];
        let ghost lv = lines_view(lines@);
        match part.kind {
            RawKind::Text => {
                if part.text.as_str().unicode_len() > 0 {
                    let tc = chars_of(part.text.as_str());
                    builder.append_text(&tc);
                }
            },
            RawKind::ProtectedAngle => {
                builder.append_surface(SurfaceNode::protected_angle(part.text.clone()));
            },
            RawKind::Newline => {
                let l = builder.finish_line(Some(SurfaceNode::newline(part.text.clone())));
                lines.push(l);
                assert(lines_view(lines@) =~= lv.push(line_view(l)));
            },
        }
        i += 1;
    }
    assert(pv.take(parts.len() as int) =~= pv);
    let ghost lv = lines_view(lines@);
    let l = builder.finish_line(None);
    lines.push(l);
    assert(lines_view(lines@) =~= lv.push(line_view(l)));
    PlannedDocument { lines }
}

} // verus!

verus! {

// ---------------------------------------------------------------------------
// The text a plan holds
// ---------------------------------------------------------------------------

pub open spec fn opt_text(o: Option<(Seq<char>, SurfaceKind)>) -> Seq<char> {
    match o {
        Some((t, _)) => t,
        None => seq![],
    }
}

/// The texts of planned nodes, in order.
pub open spec fn nodes_text(nodes: Seq<NodeView>) -> Seq<char>
    decreases nodes.len(),
{
    if nodes.len() == 0 {
        seq![]
    } else {
        nodes_text(nodes.drop_last()) + node_text(nodes.last())
    }
}

/// The texts of planned segments with their separators, in order.
pub open spec fn segments_text(segs: Seq<SegView>) -> Seq<char>
    decreases segs.len(),
{
    if segs.len() == 0 {
        seq![]
    } else {
        segments_text(segs.drop_last()) + nodes_text(segs.last().0) + opt_text(segs.last().1)
    }
}

/// The text a plan holds: every node, separator and line break, in order.
pub open spec fn plan_text(lines: Seq<(Seq<SegView>, Option<(Seq<char>, SurfaceKind)>)>) -> Seq<char>
    decreases lines.len(),
{
    if lines.len() == 0 {
        seq![]
    } else {
        plan_text(lines.drop_last()) + segments_text(lines.last().0) + opt_text(lines.last().1)
    }
}

proof fn lemma_nodes_text_append(a: Seq<NodeView>, b: Seq<NodeView>)
    ensures
        nodes_text(a + b) == nodes_text(a) + nodes_text(b),
    decreases b.len(),
{
    if b.len() == 0 {
        assert(a + b =~= a);
        assert(nodes_text(a) + nodes_text(b) =~= nodes_text(a));
    } else {
        lemma_nodes_text_append(a, b.drop_last());
        assert((a + b).drop_last() =~= a + b.drop_last());
        assert((a + b).last() == b.last());
        assert(nodes_text(a) + nodes_text(b.drop_last()) + node_text(b.last()) =~= nodes_text(a) + nodes_text(b));
    }
}

proof fn lemma_nodes_text_single(x: NodeView)
    ensures
        nodes_text(seq![x]) == node_text(x),
{
    let v = seq![x];
    assert(v.drop_last() =~= Seq::<NodeView>::empty());
    assert(v.last() == x);
    assert(nodes_text(v.drop_last()) =~= seq![]);
    assert(nodes_text(v) =~= node_text(x));
}

/// Groups joined with the delimiters between them.
pub open spec fn joined_groups(gs: Seq<Seq<TokenView>>, ds: Seq<Seq<char>>) -> Seq<char>
    decreases gs.len(),
{
    if gs.len() == 0 {
        seq![]
    } else {
        let k = gs.len() - 1;
        joined_groups(gs.drop_last(), ds) + tokens_text(gs.last()) + if k < ds.len() {
            ds[k]
        } else {
            seq![]
        }
    }
}

proof fn lemma_joined_ext(gs: Seq<Seq<TokenView>>, ds: Seq<Seq<char>>, ds2: Seq<Seq<char>>)
    requires
        gs.len() <= ds.len(),
        gs.len() <= ds2.len(),
        forall|k: int| 0 <= k < gs.len() ==> #[trigger] ds[k] == ds2[k],
    ensures
        joined_groups(gs, ds) == joined_groups(gs, ds2),
    decreases gs.len(),
{
    if gs.len() > 0 {
        lemma_joined_ext(gs.drop_last(), ds, ds2);
    }
}

/// No token of `ts` is a delimiter of `kind`.
pub open spec fn no_delimiters(ts: Seq<TokenView>, kind: DelimiterKind) -> bool {
    forall|j: int| 0 <= j < ts.len() ==> !is_delimiter_of(#[trigger] ts[j], kind)
}

/// The tokens are their groups joined with the delimiters between them;
/// no group holds a delimiter of the kind split at, nor one of another kind
/// the tokens do not hold.
proof fn lemma_groups_joined(ts: Seq<TokenView>, kind: DelimiterKind, other: DelimiterKind)
    ensures
        tokens_text(ts) == joined_groups(groups_split(ts, kind), delimiters_of(ts, kind)),
        forall|i: int|
            0 <= i < groups_split(ts, kind).len() ==> no_delimiters(#[trigger] groups_split(ts, kind)[i], kind),
        no_delimiters(ts, other) ==> forall|i: int|
            0 <= i < groups_split(ts, kind).len() ==> no_delimiters(#[trigger] groups_split(ts, kind)[i], other),
    decreases ts.len(),
{
    lemma_groups_nonempty(ts, kind);
    if ts.len() == 0 {
        let gs = groups_split(ts, kind);
        assert(gs == seq![Seq::<TokenView>::empty()]);
        assert(gs.drop_last() =~= Seq::<Seq<TokenView>>::empty());
        assert(tokens_text(gs.last()) =~= seq![]);
        assert(delimiters_of(ts, kind) =~= Seq::<Seq<char>>::empty());
        assert(joined_groups(gs.drop_last(), delimiters_of(ts, kind)) =~= seq![]);
        assert(joined_groups(gs, delimiters_of(ts, kind)) =~= seq![]);
        assert(no_delimiters(gs[0], kind));
        assert(no_delimiters(gs[0], other));
    } else {
        let ts0 = ts.drop_last();
        let t = ts.last();
        lemma_groups_joined(ts0, kind, other);
        lemma_groups_nonempty(ts0, kind);
        let g = groups_split(ts0, kind);
        let d = delimiters_of(ts0, kind);
        let gs = groups_split(ts, kind);
        let ds = delimiters_of(ts, kind);
        assert(tokens_text(ts) == tokens_text(ts0) + token_text(t));
        if no_delimiters(ts, other) {
            assert forall|j: int| 0 <= j < ts0.len() implies !is_delimiter_of(#[trigger] ts0[j], other) by {
                assert(ts0[j] == ts[j]);
            }
            assert(!is_delimiter_of(ts[ts.len() - 1], other));
        }
        if is_delimiter_of(t, kind) {
            let x = token_text(t);
            assert(gs == g.push(seq![]));
            assert(ds == d.push(x));
            assert(gs.drop_last() =~= g);
            assert(tokens_text(gs.last()) =~= seq![]);
            lemma_joined_ext(g.drop_last(), d.push(x), d);
            assert(joined_groups(g, ds) == joined_groups(g.drop_last(), ds) + tokens_text(g.last()) + x);
            assert(joined_groups(gs, ds) =~= joined_groups(g, ds));
            assert forall|i: int| 0 <= i < gs.len() implies no_delimiters(#[trigger] gs[i], kind) by {
                if i < g.len() {
                    assert(gs[i] == g[i]);
                } else {
                    assert(gs[i] =~= Seq::<TokenView>::empty());
                }
            }
            if no_delimiters(ts, other) {
                assert forall|i: int| 0 <= i < gs.len() implies no_delimiters(#[trigger] gs[i], other) by {
                    if i < g.len() {
                        assert(gs[i] == g[i]);
                    } else {
                        assert(gs[i] =~= Seq::<TokenView>::empty());
                    }
                }
            }
        } else {
            let last = g.last().push(t);
            assert(gs == g.update(g.len() - 1, last));
            assert(ds == d);
            assert(gs.drop_last() =~= g.drop_last());
            assert(gs.last() == last);
            assert(last.drop_last() =~= g.last());
            assert(tokens_text(last) == tokens_text(g.last()) + token_text(t));
            assert(joined_groups(gs, ds) =~= joined_groups(g, d) + token_text(t));
            assert forall|i: int| 0 <= i < gs.len() implies no_delimiters(#[trigger] gs[i], kind) by {
                if i < g.len() - 1 {
                    assert(gs[i] == g[i]);
                } else {
                    assert(no_delimiters(g[i], kind));
                    assert forall|j: int| 0 <= j < gs[i].len() implies !is_delimiter_of(#[trigger] gs[i][j], kind) by {
                        if j < g[i].len() {
                            assert(gs[i][j] == g[i][j]);
                        }
                    }
                }
            }
            if no_delimiters(ts, other) {
                assert forall|i: int| 0 <= i < gs.len() implies no_delimiters(#[trigger] gs[i], other) by {
                    if i < g.len() - 1 {
                        assert(gs[i] == g[i]);
                    } else {
                        assert(no_delimiters(g[i], other));
                        assert forall|j: int| 0 <= j < gs[i].len() implies !is_delimiter_of(#[trigger] gs[i][j], other) by {
                            if j < g[i].len() {
                                assert(gs[i][j] == g[i][j]);
                            }
                        }
                    }
                }
            }
        }
    }
}

/// Planning a text without brackets keeps its text: its core is not blank,
/// or empty.
pub open spec fn text_keeps(f: Seq<char>) -> bool {
    let c = edge_affixes(f).1;
    c.len() == 0 || trim(c).len() > 0
}

/// Planning the token keeps its text.
pub open spec fn token_keeps(t: TokenView, n: int) -> bool
    decreases n, 0int, 0int,
{
    match t {
        TokenView::Bracket(_, _, _, core, _) => 0 <= core.len() < n && inner_keeps(core),
        TokenView::Text(s) => text_keeps(s),
        TokenView::Delimiter(_, _) => true,
    }
}

pub open spec fn mixed_keeps(ts: Seq<TokenView>, n: int) -> bool
    decreases n, 1int, ts.len(),
{
    ts.len() == 0 || (mixed_keeps(ts.drop_last(), n) && token_keeps(ts.last(), n))
}

/// Planning the segment keeps its text.
pub open spec fn segment_keeps(ts: Seq<TokenView>, n: int) -> bool
    decreases n, 2int, 0int,
{
    if !has_bracket(ts) {
        text_keeps(segment_text(ts))
    } else {
        mixed_keeps(ts, n)
    }
}

pub open spec fn line_keeps(segs: Seq<Seq<TokenView>>, n: int) -> bool
    decreases n, 3int, segs.len(),
{
    segs.len() == 0 || (line_keeps(segs.drop_last(), n) && segment_keeps(segs.last(), n))
}

pub open spec fn lines_keeps(lines: Seq<Seq<TokenView>>, n: int) -> bool
    decreases n, 4int, lines.len(),
{
    lines.len() == 0 || (lines_keeps(lines.drop_last(), n) && line_keeps(
        groups_split(lines.last(), DelimiterKind::Separator),
        n,
    ))
}

/// Planning the text inside a bracket keeps it: tokenising drops nothing
/// and every piece keeps its text.
pub open spec fn inner_keeps(text: Seq<char>) -> bool
    decreases text.len(), 5int, 0int,
{
    text.len() == 0 || (!bracket_scan_drops(text, 0, seq![], 0) && lines_keeps(
        groups_split(structure_tokens(text), DelimiterKind::Newline),
        text.len() as int,
    ))
}

proof fn lemma_text_nodes_text(f: Seq<char>)
    requires
        text_keeps(f),
    ensures
        nodes_text(text_nodes(f)) == f,
{
    let pe = prefix_end_from(f, 0, false);
    lemma_prefix_end(f, 0, false);
    let ss = suffix_start_from(f, f.len() as int, pe, false);
    lemma_suffix_start(f, f.len() as int, pe, false);
    let (p, c, x) = edge_affixes(f);
    let pre: Seq<NodeView> = if p.len() > 0 {
        seq![visible(p)]
    } else {
        seq![]
    };
    let mid: Seq<NodeView> = if trim(c).len() > 0 {
        if has_core_char(c) {
            seq![NodeView::Fragment(c)]
        } else {
            seq![visible(c)]
        }
    } else {
        seq![]
    };
    let post: Seq<NodeView> = if x.len() > 0 {
        seq![visible(x)]
    } else {
        seq![]
    };
    lemma_nodes_text_append(pre + mid, post);
    lemma_nodes_text_append(pre, mid);
    if p.len() > 0 {
        lemma_nodes_text_single(visible(p));
    } else {
        assert(nodes_text(pre) =~= p);
    }
    if trim(c).len() > 0 {
        if has_core_char(c) {
            lemma_nodes_text_single(NodeView::Fragment(c));
        } else {
            lemma_nodes_text_single(visible(c));
        }
    } else {
        assert(nodes_text(mid) =~= c);
    }
    if x.len() > 0 {
        lemma_nodes_text_single(visible(x));
    } else {
        assert(nodes_text(post) =~= x);
    }
    assert(p + c + x =~= f);
}

/// No token is a delimiter of either kind.
pub open spec fn no_delimiter_tokens(ts: Seq<TokenView>) -> bool {
    no_delimiters(ts, DelimiterKind::Separator) && no_delimiters(ts, DelimiterKind::Newline)
}

proof fn lemma_segment_text_plain(ts: Seq<TokenView>)
    requires
        no_delimiter_tokens(ts),
    ensures
        segment_text(ts) == tokens_text(ts),
    decreases ts.len(),
{
    if ts.len() > 0 {
        let t0 = ts.drop_last();
        assert forall|j: int| 0 <= j < t0.len() implies !is_delimiter_of(#[trigger] t0[j], DelimiterKind::Separator)
            && !is_delimiter_of(t0[j], DelimiterKind::Newline) by {
            assert(t0[j] == ts[j]);
        }
        lemma_segment_text_plain(t0);
        assert(!is_delimiter_of(ts[ts.len() - 1], DelimiterKind::Separator));
        assert(!is_delimiter_of(ts[ts.len() - 1], DelimiterKind::Newline));
        assert(!(ts.last() is Delimiter));
    }
}

#[verifier::spinoff_prover]
#[verifier::rlimit(50)]
proof fn lemma_token_text(t: TokenView, n: int)
    requires
        token_keeps(t, n),
        !(t is Delimiter),
    ensures
        nodes_text(token_nodes(t, n)) == token_text(t),
    decreases n, 0int, 0int,
{
    match t {
        TokenView::Bracket(o, c, l, core, r) => {
            lemma_inner_text(core);
            let a = seq![visible(seq![o]), visible(l)];
            let b = seq![visible(r), visible(seq![c])];
            lemma_nodes_text_append(a + inner_nodes(core), b);
            lemma_nodes_text_append(a, inner_nodes(core));
            lemma_nodes_text_single(visible(seq![o]));
            lemma_nodes_text_append(seq![visible(seq![o])], seq![visible(l)]);
            assert(a =~= seq![visible(seq![o])] + seq![visible(l)]);
            lemma_nodes_text_single(visible(l));
            lemma_nodes_text_single(visible(r));
            lemma_nodes_text_single(visible(seq![c]));
            lemma_nodes_text_append(seq![visible(r)], seq![visible(seq![c])]);
            assert(b =~= seq![visible(r)] + seq![visible(seq![c])]);
            assert(nodes_text(token_nodes(t, n)) =~= token_text(t));
        },
        TokenView::Text(s) => {
            lemma_text_nodes_text(s);
        },
        TokenView::Delimiter(_, _) => {},
    }
}

proof fn lemma_mixed_text(ts: Seq<TokenView>, n: int)
    requires
        mixed_keeps(ts, n),
        no_delimiter_tokens(ts),
    ensures
        nodes_text(mixed_nodes(ts, n)) == tokens_text(ts),
    decreases n, 1int, ts.len(),
{
    if ts.len() > 0 {
        let t0 = ts.drop_last();
        assert forall|j: int| 0 <= j < t0.len() implies !is_delimiter_of(#[trigger] t0[j], DelimiterKind::Separator)
            && !is_delimiter_of(t0[j], DelimiterKind::Newline) by {
            assert(t0[j] == ts[j]);
        }
        lemma_mixed_text(t0, n);
        assert(!is_delimiter_of(ts[ts.len() - 1], DelimiterKind::Separator));
        assert(!is_delimiter_of(ts[ts.len() - 1], DelimiterKind::Newline));
        lemma_token_text(ts.last(), n);
        lemma_nodes_text_append(mixed_nodes(t0, n), token_nodes(ts.last(), n));
    }
}

proof fn lemma_segment_nodes_text(ts: Seq<TokenView>, n: int)
    requires
        segment_keeps(ts, n),
        no_delimiter_tokens(ts),
    ensures
        nodes_text(segment_nodes(ts, n)) == tokens_text(ts),
    decreases n, 2int, 0int,
{
    lemma_segment_text_plain(ts);
    if !has_bracket(ts) {
        if segment_text(ts).len() == 0 {
            assert(nodes_text(Seq::<NodeView>::empty()) =~= segment_text(ts));
        } else {
            lemma_text_nodes_text(segment_text(ts));
        }
    } else {
        lemma_mixed_text(ts, n);
    }
}

proof fn lemma_line_nodes_text(segs: Seq<Seq<TokenView>>, seps: Seq<Seq<char>>, n: int)
    requires
        line_keeps(segs, n),
        forall|i: int| 0 <= i < segs.len() ==> no_delimiter_tokens(#[trigger] segs[i]),
    ensures
        nodes_text(line_nodes(segs, seps, n)) == joined_groups(segs, seps),
    decreases n, 3int, segs.len(),
{
    if segs.len() > 0 {
        let s0 = segs.drop_last();
        let k = segs.len() - 1;
        assert forall|i: int| 0 <= i < s0.len() implies no_delimiter_tokens(#[trigger] s0[i]) by {
            assert(s0[i] == segs[i]);
        }
        lemma_line_nodes_text(s0, seps, n);
        assert(no_delimiter_tokens(segs[k]));
        lemma_segment_nodes_text(segs.last(), n);
        let tail: Seq<NodeView> = if k < seps.len() {
            seq![visible(seps[k])]
        } else {
            seq![]
        };
        lemma_nodes_text_append(line_nodes(s0, seps, n) + segment_nodes(segs.last(), n), tail);
        lemma_nodes_text_append(line_nodes(s0, seps, n), segment_nodes(segs.last(), n));
        if k < seps.len() {
            lemma_nodes_text_single(visible(seps[k]));
        } else {
            assert(nodes_text(tail) =~= seq![]);
        }
    }
}

proof fn lemma_lines_nodes_text(lines: Seq<Seq<TokenView>>, nls: Seq<Seq<char>>, n: int)
    requires
        lines_keeps(lines, n),
        forall|i: int| 0 <= i < lines.len() ==> no_delimiters(#[trigger] lines[i], DelimiterKind::Newline),
    ensures
        nodes_text(lines_nodes(lines, nls, n)) == joined_groups(lines, nls),
    decreases n, 4int, lines.len(),
{
    if lines.len() > 0 {
        let l0 = lines.drop_last();
        let k = lines.len() - 1;
        assert forall|i: int| 0 <= i < l0.len() implies no_delimiters(#[trigger] l0[i], DelimiterKind::Newline) by {
            assert(l0[i] == lines[i]);
        }
        lemma_lines_nodes_text(l0, nls, n);
        let line = lines.last();
        assert(no_delimiters(lines[k], DelimiterKind::Newline));
        lemma_groups_joined(line, DelimiterKind::Separator, DelimiterKind::Newline);
        let segs = groups_split(line, DelimiterKind::Separator);
        assert forall|i: int| 0 <= i < segs.len() implies no_delimiter_tokens(#[trigger] segs[i]) by {
            assert(no_delimiters(segs[i], DelimiterKind::Separator));
            assert(no_delimiters(segs[i], DelimiterKind::Newline));
        }
        lemma_line_nodes_text(segs, delimiters_of(line, DelimiterKind::Separator), n);
        let tail: Seq<NodeView> = if k < nls.len() {
            seq![visible(nls[k])]
        } else {
            seq![]
        };
        let ln = line_nodes(segs, delimiters_of(line, DelimiterKind::Separator), n);
        lemma_nodes_text_append(lines_nodes(l0, nls, n) + ln, tail);
        lemma_nodes_text_append(lines_nodes(l0, nls, n), ln);
        if k < nls.len() {
            lemma_nodes_text_single(visible(nls[k]));
        } else {
            assert(nodes_text(tail) =~= seq![]);
        }
    }
}

proof fn lemma_inner_text(text: Seq<char>)
    requires
        inner_keeps(text),
    ensures
        nodes_text(inner_nodes(text)) == text,
    decreases text.len(), 5int, 0int,
{
    if text.len() == 0 {
        lemma_nodes_text_single(visible(seq![]));
        assert(text =~= seq![]);
    } else {
        let ts = structure_tokens(text);
        lemma_structure_tokens_lossless(text);
        lemma_groups_joined(ts, DelimiterKind::Newline, DelimiterKind::Separator);
        lemma_lines_nodes_text(
            groups_split(ts, DelimiterKind::Newline),
            delimiters_of(ts, DelimiterKind::Newline),
            text.len() as int,
        );
    }
}

/// The text a line builder holds: its finished segments, then the nodes
/// of the segment being built.
pub open spec fn builder_text(b: BuilderView) -> Seq<char> {
    segments_text(b.segments) + nodes_text(b.current)
}

proof fn lemma_finish_segment_text(b: BuilderView, sep: Option<(Seq<char>, SurfaceKind)>)
    ensures
        builder_text(finish_segment_spec(b, sep)) == builder_text(b) + opt_text(sep),
        finish_segment_spec(b, sep).current.len() == 0 || sep is None,
        finish_segment_spec(b, sep).last_surface == b.last_surface,
{
    if b.current.len() == 0 && sep is None {
        assert(builder_text(b) + opt_text(sep) =~= builder_text(b));
    } else {
        let segs = b.segments.push((b.current, sep));
        assert(segs.drop_last() =~= b.segments);
        assert(segs.last() == (b.current, sep));
        assert(nodes_text(Seq::<NodeView>::empty()) =~= seq![]);
        assert(builder_text(finish_segment_spec(b, sep)) =~= builder_text(b) + opt_text(sep));
    }
}

proof fn lemma_trailing_hspaces_bound(s: Seq<char>)
    ensures
        trailing_hspaces(s) <= s.len(),
    decreases s.len(),
{
    if s.len() > 0 && horizontal_space(s.last()) {
        lemma_trailing_hspaces_bound(s.drop_last());
    }
}

proof fn lemma_leading_hspaces_bound(s: Seq<char>)
    ensures
        leading_hspaces(s) <= s.len(),
    decreases s.len(),
{
    if s.len() > 0 && horizontal_space(s[0]) {
        lemma_leading_hspaces_bound(s.skip(1));
    }
}

proof fn lemma_absorb_text(b: BuilderView)
    ensures
        builder_text(absorb_spec(b)) == builder_text(b),
        absorb_spec(b).segments == b.segments,
        absorb_spec(b).last_surface == b.last_surface,
{
    if b.current.len() > 0 {
        let last = b.current.last();
        let t = node_text(last);
        let k = trailing_hspaces(t) as int;
        lemma_trailing_hspaces_bound(t);
        if k > 0 {
            let c0 = b.current.drop_last();
            let c1 = c0.push(with_text(last, t.take(t.len() - k)));
            let c2 = c1.push(visible(t.skip(t.len() - k)));
            assert(c2.drop_last() =~= c1);
            assert(c1.drop_last() =~= c0);
            assert(node_text(with_text(last, t.take(t.len() - k))) == t.take(t.len() - k));
            assert(c2.last() == visible(t.skip(t.len() - k)));
            assert(c1.last() == with_text(last, t.take(t.len() - k)));
            assert(nodes_text(c1) == nodes_text(c0) + t.take(t.len() - k));
            assert(nodes_text(c2) == nodes_text(c1) + t.skip(t.len() - k));
            assert(nodes_text(c2) =~= nodes_text(c0) + t.take(t.len() - k) + t.skip(t.len() - k));
            assert(t.take(t.len() - k) + t.skip(t.len() - k) =~= t);
            assert(nodes_text(b.current) == nodes_text(c0) + t);
            assert(nodes_text(c2) =~= nodes_text(b.current));
        }
    }
}

proof fn lemma_append_surface_text(b: BuilderView, sf: (Seq<char>, SurfaceKind))
    ensures
        builder_text(append_surface_spec(b, sf)) == builder_text(b) + sf.0,
{
    lemma_absorb_text(b);
    let a = absorb_spec(b);
    let c = a.current.push(NodeView::Surface(sf.0, sf.1));
    assert(c.drop_last() =~= a.current);
    assert(nodes_text(c) == nodes_text(a.current) + sf.0);
    assert(builder_text(append_surface_spec(b, sf)) =~= builder_text(b) + sf.0);
}

proof fn lemma_after_segments_text(b: BuilderView, segs: Seq<Seq<TokenView>>, seps: Seq<Seq<char>>, n: int)
    ensures
        builder_text(after_segments(b, segs, seps, n)) == builder_text(b) + nodes_text(line_nodes(segs, seps, n)),
    decreases segs.len(),
{
    if segs.len() == 0 {
        assert(builder_text(b) + nodes_text(line_nodes(segs, seps, n)) =~= builder_text(b));
    } else {
        let s0 = segs.drop_last();
        lemma_after_segments_text(b, s0, seps, n);
        let b1 = after_segments(b, s0, seps, n);
        let k = segs.len() - 1;
        let sn = segment_nodes(segs.last(), n);
        let b2 = BuilderView { current: b1.current + sn, ..b1 };
        lemma_nodes_text_append(b1.current, sn);
        assert(builder_text(b2) =~= builder_text(b1) + nodes_text(sn));
        let tail: Seq<NodeView> = if k < seps.len() {
            seq![visible(seps[k])]
        } else {
            seq![]
        };
        lemma_nodes_text_append(line_nodes(s0, seps, n) + sn, tail);
        lemma_nodes_text_append(line_nodes(s0, seps, n), sn);
        if k < seps.len() {
            lemma_finish_segment_text(b2, Some((seps[k], SurfaceKind::Visible)));
            lemma_nodes_text_single(visible(seps[k]));
        } else {
            assert(nodes_text(tail) =~= seq![]);
        }
        assert(builder_text(after_segments(b, segs, seps, n)) =~= builder_text(b) + nodes_text(
            line_nodes(segs, seps, n),
        ));
    }
}

/// No character of `t` is a line break.
pub open spec fn no_line_break(t: Seq<char>) -> bool {
    forall|i: int| 0 <= i < t.len() ==> #[trigger] t[i] != '\r' && t[i] != '\n'
}

proof fn lemma_no_break_delimiters(ts: Seq<TokenView>, t: Seq<char>)
    requires
        tokens_text(ts) == t,
        breaks_hold_break(ts),
        no_line_break(t),
    ensures
        no_delimiters(ts, DelimiterKind::Newline),
{
    assert forall|j: int| 0 <= j < ts.len() implies !is_delimiter_of(#[trigger] ts[j], DelimiterKind::Newline) by {
        if is_delimiter_of(ts[j], DelimiterKind::Newline) {
            let d = token_text(ts[j]);
            assert(ts =~= ts.take(j) + seq![ts[j]] + ts.skip(j + 1));
            lemma_tokens_text_append(ts.take(j) + seq![ts[j]], ts.skip(j + 1));
            lemma_tokens_text_append(ts.take(j), seq![ts[j]]);
            let sv = seq![ts[j]];
            assert(sv.drop_last() =~= Seq::<TokenView>::empty());
            assert(sv.last() == ts[j]);
            assert(tokens_text(sv.drop_last()) =~= seq![]);
            assert(tokens_text(sv) =~= d);
            assert(has_break(d));
            let q = choose|q: int| 0 <= q < d.len() && (#[trigger] d[q] == '\r' || d[q] == '\n');
            let a = tokens_text(ts.take(j)).len() as int;
            assert(t[a + q] == d[q]);
        }
    }
}

proof fn lemma_single_line(ts: Seq<TokenView>)
    requires
        no_delimiters(ts, DelimiterKind::Newline),
    ensures
        groups_split(ts, DelimiterKind::Newline) == seq![ts],
        delimiters_of(ts, DelimiterKind::Newline) == Seq::<Seq<char>>::empty(),
    decreases ts.len(),
{
    if ts.len() == 0 {
        assert(ts =~= Seq::<TokenView>::empty());
        assert(groups_split(ts, DelimiterKind::Newline) =~= seq![ts]);
    } else {
        let t0 = ts.drop_last();
        assert forall|j: int| 0 <= j < t0.len() implies !is_delimiter_of(#[trigger] t0[j], DelimiterKind::Newline) by {
            assert(t0[j] == ts[j]);
        }
        lemma_single_line(t0);
        assert(!is_delimiter_of(ts[ts.len() - 1], DelimiterKind::Newline));
        let g = groups_split(t0, DelimiterKind::Newline);
        assert(g.last() == t0);
        assert(t0.push(ts.last()) =~= ts);
        assert(g.update(g.len() - 1, g.last().push(ts.last())) =~= seq![ts]);
    }
}

/// Appending `text` to a builder keeps it whole: after surface, nothing is
/// left once its leading spaces are taken; otherwise tokenising drops
/// nothing and each segment keeps its text.
pub open spec fn text_part_keeps(after_surface: bool, text: Seq<char>) -> bool {
    let k = leading_hspaces(text) as int;
    let t = if after_surface {
        text.skip(k)
    } else {
        text
    };
    ||| after_surface && t.len() == 0
    ||| !bracket_scan_drops(t, 0, seq![], 0) && line_keeps(
        groups_split(structure_tokens(t), DelimiterKind::Separator),
        t.len() as int,
    )
}

proof fn lemma_append_text_text(b: BuilderView, text: Seq<char>)
    requires
        text.len() > 0,
        no_line_break(text),
        text_part_keeps(b.last_surface, text),
    ensures
        builder_text(append_text_spec(b, text)) == builder_text(b) + text,
{
    let k = leading_hspaces(text) as int;
    lemma_leading_hspaces_bound(text);
    let b0 = if b.last_surface && k > 0 {
        BuilderView { current: b.current.push(visible(text.take(k))), last_surface: false, ..b }
    } else {
        BuilderView { last_surface: false, ..b }
    };
    let pre = if b.last_surface {
        text.take(k)
    } else {
        seq![]
    };
    if b.last_surface && k > 0 {
        assert(b0.current.drop_last() =~= b.current);
        assert(builder_text(b0) =~= builder_text(b) + pre);
    } else {
        assert(builder_text(b0) =~= builder_text(b) + pre);
    }
    let t = if b.last_surface {
        text.skip(k)
    } else {
        text
    };
    assert(pre + t =~= text);
    if b.last_surface && t.len() == 0 {
        assert(t =~= seq![]);
    } else {
        let ts = structure_tokens(t);
        let n = t.len() as int;
        lemma_structure_tokens_lossless(t);
        lemma_structure_breaks(t);
        assert(no_line_break(t)) by {
            assert forall|i: int| 0 <= i < t.len() implies #[trigger] t[i] != '\r' && t[i] != '\n' by {
                assert(t[i] == text[i + pre.len()]);
            }
        }
        lemma_no_break_delimiters(ts, t);
        lemma_single_line(ts);
        let segs = groups_split(ts, DelimiterKind::Separator);
        let seps = delimiters_of(ts, DelimiterKind::Separator);
        let lines = seq![ts];
        assert(lines.drop_last() =~= Seq::<Seq<TokenView>>::empty());
        assert(lines.last() == ts);
        assert(after_lines(b0, lines.drop_last(), Seq::<Seq<char>>::empty(), n) == b0);
        assert(after_lines(b0, lines, Seq::<Seq<char>>::empty(), n) == after_segments(b0, segs, seps, n));
        lemma_after_segments_text(b0, segs, seps, n);
        lemma_groups_joined(ts, DelimiterKind::Separator, DelimiterKind::Newline);
        assert forall|i: int| 0 <= i < segs.len() implies no_delimiter_tokens(#[trigger] segs[i]) by {
            assert(no_delimiters(segs[i], DelimiterKind::Separator));
            assert(no_delimiters(segs[i], DelimiterKind::Newline));
        }
        lemma_line_nodes_text(segs, seps, n);
    }
}

/// Planning the raw parts keeps every text part whole.
pub open spec fn parts_keep(parts: Seq<(RawKind, Seq<char>)>) -> bool
    decreases parts.len(),
{
    if parts.len() == 0 {
        true
    } else {
        &&& parts_keep(parts.drop_last())
        &&& (parts.last().0 == RawKind::Text && parts.last().1.len() > 0) ==> text_part_keeps(
            plan_parts(parts.drop_last()).0.last_surface,
            parts.last().1,
        )
    }
}

/// Planning `text` keeps all of it: no text is left out of the plan.
pub open spec fn plan_keeps(text: Seq<char>) -> bool {
    parts_keep(raw_parts_from(text, 0, 0))
}

proof fn lemma_plan_parts_text(parts: Seq<(RawKind, Seq<char>)>)
    requires
        parts_keep(parts),
        forall|k: int| 0 <= k < parts.len() ==> raw_part_shaped(#[trigger] parts[k]),
    ensures
        plan_text(plan_parts(parts).1) + builder_text(plan_parts(parts).0) == raw_text(parts),
    decreases parts.len(),
{
    if parts.len() == 0 {
        assert(builder_text(empty_builder()) =~= seq![]);
        assert(plan_text(Seq::<(Seq<SegView>, Option<(Seq<char>, SurfaceKind)>)>::empty()) + builder_text(
            empty_builder(),
        ) =~= raw_text(parts));
    } else {
        let p0 = parts.drop_last();
        assert forall|k: int| 0 <= k < p0.len() implies raw_part_shaped(#[trigger] p0[k]) by {
            assert(p0[k] == parts[k]);
        }
        lemma_plan_parts_text(p0);
        let (b, lines) = plan_parts(p0);
        let p = parts.last();
        assert(raw_part_shaped(parts[parts.len() - 1]));
        match p.0 {
            RawKind::Text => {
                if p.1.len() > 0 {
                    assert(no_line_break(p.1));
                    lemma_append_text_text(b, p.1);
                } else {
                    assert(p.1 =~= seq![]);
                }
                assert(plan_text(plan_parts(parts).1) + builder_text(plan_parts(parts).0) =~= raw_text(parts));
            },
            RawKind::ProtectedAngle => {
                lemma_append_surface_text(b, (p.1, SurfaceKind::ProtectedAngle));
                assert(plan_text(plan_parts(parts).1) + builder_text(plan_parts(parts).0) =~= raw_text(parts));
            },
            RawKind::Newline => {
                let nl = Some((p.1, SurfaceKind::Newline));
                let b1 = if b.current.len() > 0 {
                    finish_segment_spec(b, None)
                } else {
                    b
                };
                if b.current.len() > 0 {
                    lemma_finish_segment_text(b, None);
                }
                assert(nodes_text(b1.current) =~= seq![]);
                assert(segments_text(b1.segments) == builder_text(b));
                let (b2, l) = finish_line_spec(b, nl);
                assert(lines.push(l).drop_last() =~= lines);
                assert(plan_text(lines.push(l)) == plan_text(lines) + segments_text(l.0) + opt_text(l.1));
                assert(segments_text(Seq::<SegView>::empty()) =~= seq![]);
                assert(builder_text(b2) =~= seq![]);
                assert(plan_text(plan_parts(parts).1) + builder_text(plan_parts(parts).0) =~= raw_text(parts));
            },
        }
    }
}

/// The plan of a text holds the whole text where planning keeps it.
pub proof fn lemma_plan_text(text: Seq<char>)
    requires
        plan_keeps(text),
    ensures
        plan_text(plan_document_spec(text)) == text,
{
    let parts = raw_parts_from(text, 0, 0);
    lemma_split_parts_shaped(text);
    lemma_raw_parts_lossless(text, 0, 0);
    assert(text.subrange(0, text.len() as int) =~= text);
    lemma_plan_parts_text(parts);
    let (b, lines) = plan_parts(parts);
    let b1 = if b.current.len() > 0 {
        finish_segment_spec(b, None)
    } else {
        b
    };
    if b.current.len() > 0 {
        lemma_finish_segment_text(b, None);
    }
    assert(nodes_text(b1.current) =~= seq![]);
    assert(segments_text(b1.segments) == builder_text(b));
    let l = finish_line_spec(b, None).1;
    assert(lines.push(l).drop_last() =~= lines);
    assert(plan_text(lines.push(l)) == plan_text(lines) + segments_text(l.0) + opt_text(l.1));
    assert(plan_text(lines.push(l)) =~= text);
}

} // verus!
