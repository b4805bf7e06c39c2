//! Rendering of resolved text into display atoms, with optional line
//! wrapping of long model output at a punctuation or space near the centre.

use vstd::prelude::*;

use super::types::{
    opt_surface, rline_view, rlines_view, rnodes_view, rseg_view, RLineView, RNodeView, RSegView,
    ResolvedDocument, ResolvedLine, ResolvedNode, ResolvedSegment, SurfaceKind, SurfaceNode,
    TranslationSettings,
};
use crate::text::{chars_of, push_char};

verus! {

/// A piece of rendered output.
#[derive(Debug, Clone, PartialEq, Eq)]
pub enum RenderAtom {
    Text(String),
    ProtectedAngle(String),
    Newline(String),
}

/// The mathematical value of a [`RenderAtom`].
pub enum AtomView {
    Text(Seq<char>),
    ProtectedAngle(Seq<char>),
    Newline(Seq<char>),
}

impl View for RenderAtom {
    type V = AtomView;

    open spec fn view(&self) -> AtomView {
        match self {
            RenderAtom::Text(t) => AtomView::Text(t@),
            RenderAtom::ProtectedAngle(t) => AtomView::ProtectedAngle(t@),
            RenderAtom::Newline(t) => AtomView::Newline(t@),
        }
    }
}

/// Where a wrapped segment breaks: visible characters before `emit_end`
/// stay on the first line, those from `next_start` on go to the second.
#[derive(Debug, Clone, Copy, PartialEq, Eq)]
pub struct WrapPlan {
    pub emit_end: usize,
    pub next_start: usize,
}

pub open spec fn atoms_view(atoms: Seq<RenderAtom>) -> Seq<AtomView> {
    atoms.map_values(|a: RenderAtom| a@)
}

pub open spec fn atom_chars(a: AtomView) -> Seq<char> {
    match a {
        AtomView::Text(t) => t,
        AtomView::ProtectedAngle(t) => t,
        AtomView::Newline(t) => t,
    }
}

/// The characters of all atoms, concatenated.
pub open spec fn rendered(atoms: Seq<AtomView>) -> Seq<char>
    decreases atoms.len(),
{
    if atoms.len() == 0 {
        Seq::empty()
    } else {
        rendered(atoms.drop_last()) + atom_chars(atoms.last())
    }
}

/// The characters of the text atoms only, concatenated.
pub open spec fn visible_text(atoms: Seq<AtomView>) -> Seq<char>
    decreases atoms.len(),
{
    if atoms.len() == 0 {
        Seq::empty()
    } else {
        visible_text(atoms.drop_last()) + match atoms.last() {
            AtomView::Text(t) => t,
            _ => Seq::empty(),
        }
    }
}

/// Width of the break candidate at `i` (0: no candidate): an ideographic
/// full stop or comma or a fullwidth comma (1), an ASCII period or comma
/// followed by a space (2), or a space before the Thai word "ใน" (3).
pub open spec fn candidate_width(s: Seq<char>, i: int) -> int {
    if !(0 <= i < s.len()) {
        0
    } else if s[i] == '\u{3002}' || s[i] == '\u{3001}' || s[i] == '\u{FF0C}' {
        1
    } else if (s[i] == '.' || s[i] == ',') && i + 1 < s.len() && s[i + 1] == ' ' {
        2
    } else if s[i] == ' ' && i + 2 < s.len() && s[i + 1] == '\u{0E43}' && s[i + 2] == '\u{0E19}' {
        3
    } else {
        0
    }
}

/// Base preference of a candidate character of the given width.
pub open spec fn score_table(ch: char, width: int) -> int {
    if ch == '\u{3002}' && width == 1 {
        20
    } else if (ch == '\u{3001}' || ch == '\u{FF0C}') && width == 1 {
        8
    } else if ch == '.' && width == 2 {
        20
    } else if ch == ',' && width == 2 {
        8
    } else if ch == ' ' && width == 3 {
        20
    } else {
        0
    }
}

pub open spec fn center_dist(len: int, i: int) -> int {
    let c = len / 2;
    if c >= i {
        c - i
    } else {
        i - c
    }
}

pub open spec fn candidate_score(s: Seq<char>, i: int) -> int {
    score_table(s[i], candidate_width(s, i)) - center_dist(s.len() as int, i)
}

/// Candidate `i` is preferred to candidate `j`: a higher score, then a
/// smaller distance from the centre, then the later position.
pub open spec fn better(s: Seq<char>, i: int, j: int) -> bool {
    ||| candidate_score(s, i) > candidate_score(s, j)
    ||| candidate_score(s, i) == candidate_score(s, j) && center_dist(s.len() as int, i)
        < center_dist(s.len() as int, j)
    ||| candidate_score(s, i) == candidate_score(s, j) && center_dist(s.len() as int, i)
        == center_dist(s.len() as int, j) && i > j
}

pub open spec fn is_best_candidate(s: Seq<char>, i: int) -> bool {
    &&& candidate_width(s, i) != 0
    &&& forall|j: int|
        #![trigger candidate_width(s, j)]
        0 <= j < s.len() && j != i && candidate_width(s, j) != 0 ==> !better(s, j, i)
}

/// `c` is the space closest to the centre (the first one on a tie).
pub open spec fn is_center_space(s: Seq<char>, c: int) -> bool {
    &&& 0 <= c < s.len()
    &&& s[c] == ' '
    &&& forall|j: int|
        #![trigger s[j]]
        0 <= j < s.len() && s[j] == ' ' ==> center_dist(s.len() as int, c) < center_dist(
            s.len() as int,
            j,
        ) || (center_dist(s.len() as int, c) == center_dist(s.len() as int, j) && c <= j)
}

/// The break positions that a candidate of the given width gives.
pub open spec fn plan_for(i: int, width: int) -> (int, int) {
    if width == 1 {
        (i + 1, i + 1)
    } else if width == 2 {
        (i + 1, i + 2)
    } else {
        (i, i + 1)
    }
}

/// Where the visible text `s` of one display segment is broken, if at all.
pub open spec fn wrap_plan_spec(s: Seq<char>, enabled: bool, min_len: int, fallback_min: int) -> Option<
    (int, int),
> {
    if !enabled || s.contains('\n') || s.len() < min_len {
        None
    } else if exists|i: int| candidate_width(s, i) != 0 {
        let i = choose|i: int| is_best_candidate(s, i);
        Some(plan_for(i, candidate_width(s, i)))
    } else if s.len() >= fallback_min && exists|c: int| 0 <= c < s.len() && s[c] == ' ' {
        let c = choose|c: int| is_center_space(s, c);
        Some((c, c + 1))
    } else {
        None
    }
}

pub open spec fn plan_view(p: Option<WrapPlan>) -> Option<(int, int)> {
    match p {
        Some(p) => Some((p.emit_end as int, p.next_start as int)),
        None => None,
    }
}

proof fn lemma_best_unique(s: Seq<char>, i: int, j: int)
    requires
        is_best_candidate(s, i),
        is_best_candidate(s, j),
    ensures
        i == j,
{
    if i != j {
        assert(candidate_width(s, j) != 0);
        assert(candidate_width(s, i) != 0);
        assert(0 <= i < s.len() && 0 <= j < s.len());
        assert(!better(s, j, i));
        assert(!better(s, i, j));
    }
}

proof fn lemma_center_unique(s: Seq<char>, c: int, d: int)
    requires
        is_center_space(s, c),
        is_center_space(s, d),
    ensures
        c == d,
{
    assert(s[c] == ' ' && s[d] == ' ');
}

/// The width of the break candidate at `index`, if there is one.
pub fn is_wrap_candidate(chars: &[char], index: usize) -> (r: Option<usize>)
    ensures
        r is None <==> candidate_width(chars@, index as int) == 0,
        r matches Some(w) ==> w == candidate_width(chars@, index as int),
{
    if index >= chars.len() {
        return None;
    }
    let ch = chars[index];
    if ch == '\u{3002}' {
        return Some(1);
    }
    if ch == '\u{3001}' || ch == '\u{FF0C}' {
        return Some(1);
    }
    if (ch == '.' || ch == ',') && chars.len() - index > 1 && chars[index + 1] == ' ' {
        return Some(2);
    }
    if ch == ' ' && chars.len() - index > 2 && chars[index + 1] == '\u{0E43}' && chars[index + 2]
        == '\u{0E19}' {
        return Some(3);
    }
    None
}

/// Base preference of the candidate at `index` of the given width.
pub fn wrap_candidate_score(chars: &[char], index: usize, candidate_width: usize) -> (r: i32)
    requires
        index < chars.len(),
    ensures
        r == score_table(chars@[index as int], candidate_width as int),
{
    let ch = chars[index];
    if ch == '\u{3002}' && candidate_width == 1 {
        20
    } else if (ch == '\u{3001}' || ch == '\u{FF0C}') && candidate_width == 1 {
        8
    } else if ch == '.' && candidate_width == 2 {
        20
    } else if ch == ',' && candidate_width == 2 {
        8
    } else if ch == ' ' && candidate_width == 3 {
        20
    } else {
        0
    }
}

/// The ASCII space closest to the centre of `chars`, the first on a tie.
pub fn find_center_ascii_space(chars: &[char]) -> (r: Option<usize>)
    ensures
        r matches Some(c) ==> is_center_space(chars@, c as int),
        r is None <==> !(exists|c: int| 0 <= c < chars@.len() && chars@[c] == ' '),
{
    let len = chars.len();
    let center = len / 2;
    let mut best: Option<(usize, usize)> = None;
    let mut i: usize = 0;
    while i < len
        invariant
            len == chars@.len(),
            center == len / 2,
            i <= len,
            best is None ==> forall|j: int| 0 <= j < i ==> chars@[j] != ' ',
            best matches Some((d, b)) ==> {
                &&& b < i
                &&& chars@[b as int] == ' '
                &&& d == center_dist(len as int, b as int)
                &&& forall|j: int|
                    #![trigger chars@[j]]
                    0 <= j < i && chars@[j] == ' ' ==> d < center_dist(len as int, j) || (d
                        == center_dist(len as int, j) && b <= j)
            },
        decreases len - i,
    {
        if chars[i] == ' ' {
            let dist = if center >= i {
                center - i
            } else {
                i - center
            };
            match best {
                None => {
                    best = Some((dist, i));
                },
                Some((d, _)) => {
                    if dist < d {
                        best = Some((dist, i));
                    }
                },
            }
        }
        i += 1;
    }
    match best {
        Some((_, b)) => Some(b),
        None => {
            assert forall|c: int| 0 <= c < chars@.len() implies chars@[c] != ' ' by {}
            None
        },
    }
}

/// Chooses where to break the visible text of one display segment.
pub fn find_wrap_plan(
    visible_text: &str,
    enabled: bool,
    min_length: usize,
    space_fallback_min_length: usize,
) -> (r: Option<WrapPlan>)
    ensures
        plan_view(r) == wrap_plan_spec(
            visible_text@,
            enabled,
            min_length as int,
            space_fallback_min_length as int,
        ),
{
    if !enabled {
        return None;
    }
    let chars = chars_of(visible_text);
    let len = chars.len();
    let mut k: usize = 0;
    while k < len
        invariant
            len == chars@.len(),
            chars@ == visible_text@,
            k <= len,
            forall|j: int| 0 <= j < k ==> chars@[j] != '\n',
        decreases len - k,
    {
        if chars[k] == '\n' {
            assert(visible_text@.contains('\n')) by {
                assert(visible_text@[k as int] == '\n');
            }
            return None;
        }
        k += 1;
    }
    assert(!visible_text@.contains('\n'));
    if len < min_length {
        return None;
    }
    let center = len / 2;
    let ghost s = chars@;
    let mut best: Option<(i64, usize, usize, usize)> = None;
    let mut index: usize = 0;
    while index < len
        invariant
            len == s.len(),
            s == chars@,
            center == len / 2,
            index <= len,
            best is None ==> forall|j: int|
                #![trigger candidate_width(s, j)]
                0 <= j < index ==> candidate_width(s, j) == 0,
            best matches Some((sc, d, b, w)) ==> {
                &&& b < index
                &&& w == candidate_width(s, b as int)
                &&& w != 0
                &&& sc == candidate_score(s, b as int)
                &&& d == center_dist(len as int, b as int)
                &&& forall|j: int|
                    #![trigger candidate_width(s, j)]
                    0 <= j < index && j != b && candidate_width(s, j) != 0 ==> !better(
                        s,
                        j,
                        b as int,
                    )
            },
        decreases len - index,
    {
        match is_wrap_candidate(&chars, index) {
            None => {},
            Some(w) => {
                let base = wrap_candidate_score(&chars, index, w) as i64;
                let distance = if center >= index {
                    center - index
                } else {
                    index - center
                };
                assert(distance < 0x8000_0000_0000_0000);
                let score = base - distance as i64;
                match best {
                    None => {
                        best = Some((score, distance, index, w));
                    },
                    Some((bs, bd, bi, _)) => {
                        if score > bs || (score == bs && distance < bd) || (score == bs && distance
                            == bd && index > bi) {
                            best = Some((score, distance, index, w));
                        }
                    },
                }
            },
        }
        index += 1;
    }
    match best {
        Some((_, _, b, w)) => {
            proof {
                assert(candidate_width(s, b as int) != 0);
                assert(is_best_candidate(s, b as int));
                let c = choose|i: int| is_best_candidate(s, i);
                lemma_best_unique(s, b as int, c);
            }
            let plan = if w == 1 {
                WrapPlan { emit_end: b + 1, next_start: b + 1 }
            } else if w == 2 {
                WrapPlan { emit_end: b + 1, next_start: b + 2 }
            } else {
                WrapPlan { emit_end: b, next_start: b + 1 }
            };
            Some(plan)
        },
        None => {
            assert(!(exists|i: int| candidate_width(s, i) != 0)) by {
                assert forall|i: int| candidate_width(s, i) == 0 by {
                    if 0 <= i < len {
                        assert(candidate_width(s, i) == 0);
                    }
                }
            }
            if len >= space_fallback_min_length {
                match find_center_ascii_space(&chars) {
                    Some(c) => {
                        proof {
                            let d = choose|d: int| is_center_space(s, d);
                            assert(exists|d: int| 0 <= d < s.len() && s[d] == ' ') by {
                                assert(s[c as int] == ' ');
                            }
                            lemma_center_unique(s, c as int, d);
                        }
                        Some(WrapPlan { emit_end: c, next_start: c + 1 })
                    },
                    None => None,
                }
            } else {
                None
            }
        },
    }
}


pub open spec fn keep_pos(p: (int, int), pos: int) -> bool {
    pos < p.0 || pos >= p.1
}

/// The characters of `t`, whose first one is at visible position `k`, that
/// the break `p` keeps (those at positions in `[p.0, p.1)` are dropped).
pub open spec fn kept(t: Seq<char>, k: int, p: (int, int)) -> Seq<char>
    decreases t.len(),
{
    if t.len() == 0 {
        Seq::empty()
    } else {
        kept(t.drop_last(), k, p) + if keep_pos(p, k + t.len() - 1) {
            seq![t.last()]
        } else {
            Seq::empty()
        }
    }
}

/// One text atom holding `t`, or none when `t` is empty.
pub open spec fn text_atoms(t: Seq<char>) -> Seq<AtomView> {
    if t.len() == 0 {
        Seq::empty()
    } else {
        seq![AtomView::Text(t)]
    }
}

pub open spec fn break_atom() -> AtomView {
    AtomView::Text(seq!['\n'])
}

/// What the break `p` makes of a text atom `t` starting at visible position `k`.
pub open spec fn wrap_text_atom(t: Seq<char>, k: int, p: (int, int)) -> Seq<AtomView> {
    if k <= p.0 < k + t.len() {
        text_atoms(kept(t.take(p.0 - k), k, p)) + seq![break_atom()] + text_atoms(
            kept(t.skip(p.0 - k), p.0, p),
        )
    } else {
        text_atoms(kept(t, k, p))
    }
}

pub open spec fn wrap_atoms_body(atoms: Seq<AtomView>, p: (int, int)) -> Seq<AtomView>
    decreases atoms.len(),
{
    if atoms.len() == 0 {
        Seq::empty()
    } else {
        let prev = atoms.drop_last();
        wrap_atoms_body(prev, p) + match atoms.last() {
            AtomView::Text(t) => wrap_text_atom(t, visible_text(prev).len() as int, p),
            other => seq![other],
        }
    }
}

/// The atoms of one display segment after the break `plan` is applied.
pub open spec fn insert_plan_spec(atoms: Seq<AtomView>, plan: Option<(int, int)>) -> Seq<
    AtomView,
> {
    match plan {
        None => atoms,
        Some(p) => wrap_atoms_body(atoms, p) + if visible_text(atoms).len() == p.0 {
            seq![break_atom()]
        } else {
            Seq::empty()
        },
    }
}

proof fn lemma_kept_step(t: Seq<char>, j: int, k: int, p: (int, int))
    requires
        0 <= j < t.len(),
    ensures
        kept(t.take(j + 1), k, p) == kept(t.take(j), k, p) + if keep_pos(p, k + j) {
            seq![t[j]]
        } else {
            Seq::empty()
        },
{
    assert(t.take(j + 1).drop_last() =~= t.take(j));
}

proof fn lemma_kept_step_sub(t: Seq<char>, e: int, j: int, k: int, p: (int, int))
    requires
        0 <= e <= j < t.len(),
    ensures
        kept(t.subrange(e, j + 1), k, p) == kept(t.subrange(e, j), k, p) + if keep_pos(
            p,
            k + j - e,
        ) {
            seq![t[j]]
        } else {
            Seq::empty()
        },
{
    assert(t.subrange(e, j + 1).drop_last() =~= t.subrange(e, j));
}

proof fn lemma_views_step(atoms: Seq<RenderAtom>, i: int)
    requires
        0 <= i < atoms.len(),
    ensures
        atoms_view(atoms.take(i + 1)).drop_last() == atoms_view(atoms.take(i)),
        atoms_view(atoms.take(i + 1)).last() == atoms[i]@,
        atoms_view(atoms.take(i + 1)).len() == i + 1,
{
    assert(atoms_view(atoms.take(i + 1)).drop_last() =~= atoms_view(atoms.take(i)));
}

/// Pushes the text atom that `buf` holds, unless it is empty.
fn flush_text(out: &mut Vec<RenderAtom>, buf: String)
    ensures
        atoms_view(final(out)@) == atoms_view(old(out)@) + text_atoms(buf@),
{
    let ghost old_out = out@;
    if !buf.as_str().is_empty() {
        out.push(RenderAtom::Text(buf));
        assert(atoms_view(out@) =~= atoms_view(old_out) + text_atoms(buf@));
    } else {
        assert(atoms_view(out@) =~= atoms_view(old_out) + text_atoms(buf@));
    }
}


proof fn lemma_body_step(a: Seq<AtomView>, i: int, p: (int, int))
    requires
        0 <= i < a.len(),
    ensures
        wrap_atoms_body(a.take(i + 1), p) == wrap_atoms_body(a.take(i), p) + match a[i] {
            AtomView::Text(t) => wrap_text_atom(t, visible_text(a.take(i)).len() as int, p),
            other => seq![other],
        },
        visible_text(a.take(i + 1)) == visible_text(a.take(i)) + match a[i] {
            AtomView::Text(t) => t,
            _ => Seq::empty(),
        },
{
    assert(a.take(i + 1).drop_last() =~= a.take(i));
}

proof fn lemma_visible_prefix(a: Seq<AtomView>, i: int)
    requires
        0 <= i <= a.len(),
    ensures
        visible_text(a.take(i)).len() <= visible_text(a).len(),
    decreases a.len(),
{
    if i < a.len() {
        assert(a.take(i) =~= a.drop_last().take(i));
        lemma_visible_prefix(a.drop_last(), i);
    } else {
        assert(a.take(i) =~= a);
    }
}

/// A string holding one line break.
fn line_break() -> (r: String)
    ensures
        r@ == seq!['\n'],
{
    let mut r = String::new();
    push_char(&mut r, '\n');
    r
}

/// Applies the break `plan` to the text atom `text`, whose first character
/// is at visible position `k`, and returns the position after it.
fn wrap_text_into(out: &mut Vec<RenderAtom>, text: &String, k: usize, plan: WrapPlan) -> (next:
    usize)
    requires
        k + text@.len() <= usize::MAX,
    ensures
        next == k + text@.len(),
        atoms_view(final(out)@) == atoms_view(old(out)@) + wrap_text_atom(
            text@,
            k as int,
            (plan.emit_end as int, plan.next_start as int),
        ),
{
    let cs = chars_of(text.as_str());
    let ghost p = (plan.emit_end as int, plan.next_start as int);
    let ghost t = text@;
    let ghost old_out = atoms_view(out@);
    let mut buf = String::new();
    let mut vi = k;
    let mut j: usize = 0;
    let mut split = false;
    while j < cs.len()
        invariant
            cs@ == t,
            vi == k + j,
            j <= cs.len(),
            k + t.len() <= usize::MAX,
            p == (plan.emit_end as int, plan.next_start as int),
            split <==> (k <= p.0 < k + j),
            !split ==> buf@ == kept(t.take(j as int), k as int, p) && atoms_view(out@) == old_out,
            split ==> buf@ == kept(t.subrange(p.0 - k, j as int), p.0, p) && atoms_view(out@)
                == old_out + text_atoms(kept(t.take(p.0 - k), k as int, p)) + seq![break_atom()],
        decreases cs.len() - j,
    {
        let ch = cs[j];
        if vi == plan.emit_end {
            let done = buf;
            buf = String::new();
            flush_text(out, done);
            let ghost mid = atoms_view(out@);
            out.push(RenderAtom::Text(line_break()));
            assert(atoms_view(out@) =~= mid + seq![break_atom()]);
            split = true;
            assert(buf@ =~= kept(t.subrange(p.0 - k, j as int), p.0, p));
        }
        if vi < plan.emit_end || vi >= plan.next_start {
            push_char(&mut buf, ch);
        }
        proof {
            if split {
                lemma_kept_step_sub(t, p.0 - k, j as int, p.0, p);
            } else {
                lemma_kept_step(t, j as int, k as int, p);
            }
        }
        vi += 1;
        j += 1;
    }
    proof {
        assert(t.take(t.len() as int) =~= t);
        assert(t.subrange(p.0 - k, t.len() as int) =~= t.skip(p.0 - k));
    }
    flush_text(out, buf);
    vi
}

/// Applies a break plan to the atoms of one display segment.
pub fn insert_wrap_plan_into_atoms(atoms: &[RenderAtom], plan: Option<WrapPlan>) -> (r: Vec<
    RenderAtom,
>)
    requires
        visible_text(atoms_view(atoms@)).len() <= usize::MAX,
    ensures
        atoms_view(r@) == insert_plan_spec(atoms_view(atoms@), plan_view(plan)),
{
    let plan = match plan {
        None => {
            let mut out: Vec<RenderAtom> = Vec::new();
            append_atoms(&mut out, atoms);
            assert(atoms_view(out@) =~= atoms_view(atoms@));
            return out;
        },
        Some(plan) => plan,
    };
    let ghost p = (plan.emit_end as int, plan.next_start as int);
    let ghost av = atoms_view(atoms@);
    let mut out: Vec<RenderAtom> = Vec::new();
    let mut vi: usize = 0;
    let mut i: usize = 0;
    proof {
        assert(av.take(0) =~= Seq::<AtomView>::empty());
        assert(atoms_view(out@) =~= Seq::<AtomView>::empty());
    }
    while i < atoms.len()
        invariant
            av == atoms_view(atoms@),
            av.len() == atoms.len(),
            i <= atoms.len(),
            visible_text(av).len() <= usize::MAX,
            p == (plan.emit_end as int, plan.next_start as int),
            vi == visible_text(av.take(i as int)).len(),
            atoms_view(out@) == wrap_atoms_body(av.take(i as int), p),
        decreases atoms.len() - i,
    {
        proof {
            lemma_body_step(av, i as int, p);
            lemma_visible_prefix(av, i as int + 1);
        }
        match &atoms[i] {
            RenderAtom::Text(text) => {
                vi = wrap_text_into(&mut out, text, vi, plan);
            },
            RenderAtom::ProtectedAngle(text) => {
                let ghost before = atoms_view(out@);
                out.push(RenderAtom::ProtectedAngle(text.clone()));
                assert(atoms_view(out@) =~= before + seq![av[i as int]]);
            },
            RenderAtom::Newline(text) => {
                let ghost before = atoms_view(out@);
                out.push(RenderAtom::Newline(text.clone()));
                assert(atoms_view(out@) =~= before + seq![av[i as int]]);
            },
        }
        i += 1;
    }
    proof {
        assert(av.take(atoms.len() as int) =~= av);
    }
    if vi == plan.emit_end {
        let ghost before = atoms_view(out@);
        out.push(RenderAtom::Text(line_break()));
        assert(atoms_view(out@) =~= before + seq![break_atom()]);
    } else {
        assert(atoms_view(out@) =~= atoms_view(out@) + Seq::<AtomView>::empty());
    }
    out
}


/// A copy of `a`.
pub fn clone_atom(a: &RenderAtom) -> (r: RenderAtom)
    ensures
        r@ == a@,
{
    match a {
        RenderAtom::Text(t) => RenderAtom::Text(t.clone()),
        RenderAtom::ProtectedAngle(t) => RenderAtom::ProtectedAngle(t.clone()),
        RenderAtom::Newline(t) => RenderAtom::Newline(t.clone()),
    }
}

/// Appends copies of `atoms` to `out`.
fn append_atoms(out: &mut Vec<RenderAtom>, atoms: &[RenderAtom])
    ensures
        atoms_view(final(out)@) == atoms_view(old(out)@) + atoms_view(atoms@),
{
    let ghost start = atoms_view(out@);
    let mut i: usize = 0;
    while i < atoms.len()
        invariant
            i <= atoms.len(),
            atoms_view(out@) == start + atoms_view(atoms@).take(i as int),
        decreases atoms.len() - i,
    {
        let ghost before = atoms_view(out@);
        out.push(clone_atom(&atoms[i]));
        assert(atoms_view(out@) =~= before + seq![atoms@[i as int]@]);
        assert(atoms_view(atoms@).take(i as int + 1) =~= atoms_view(atoms@).take(i as int) + seq![
            atoms@[i as int]@,
        ]);
        i += 1;
    }
    assert(atoms_view(atoms@).take(atoms.len() as int) =~= atoms_view(atoms@));
}

/// Concatenates all atom strings.
pub fn render_atoms(atoms: &[RenderAtom]) -> (r: String)
    ensures
        r@ == rendered(atoms_view(atoms@)),
{
    let ghost av = atoms_view(atoms@);
    let mut out = String::new();
    let mut i: usize = 0;
    while i < atoms.len()
        invariant
            av == atoms_view(atoms@),
            i <= atoms.len(),
            out@ == rendered(av.take(i as int)),
        decreases atoms.len() - i,
    {
        match &atoms[i] {
            RenderAtom::Text(text) | RenderAtom::ProtectedAngle(text) | RenderAtom::Newline(text) => {
                out.append(text.as_str());
            },
        }
        assert(av.take(i as int + 1).drop_last() =~= av.take(i as int));
        i += 1;
    }
    assert(av.take(atoms.len() as int) =~= av);
    out
}

/// The text-atom characters of `atoms`, which is what wrapping measures.
pub fn visible_text_for_wrap(atoms: &[RenderAtom]) -> (r: String)
    ensures
        r@ == visible_text(atoms_view(atoms@)),
{
    let ghost av = atoms_view(atoms@);
    let mut out = String::new();
    let mut i: usize = 0;
    while i < atoms.len()
        invariant
            av == atoms_view(atoms@),
            i <= atoms.len(),
            out@ == visible_text(av.take(i as int)),
        decreases atoms.len() - i,
    {
        match &atoms[i] {
            RenderAtom::Text(text) => {
                out.append(text.as_str());
            },
            _ => {
                assert(out@ =~= out@ + Seq::<char>::empty());
            },
        }
        assert(av.take(i as int + 1).drop_last() =~= av.take(i as int));
        i += 1;
    }
    assert(av.take(atoms.len() as int) =~= av);
    out
}

pub open spec fn flatten(segs: Seq<Seq<AtomView>>) -> Seq<AtomView>
    decreases segs.len(),
{
    if segs.len() == 0 {
        Seq::empty()
    } else {
        flatten(segs.drop_last()) + segs.last()
    }
}

pub open spec fn segments_view(segs: Seq<Vec<RenderAtom>>) -> Seq<Seq<AtomView>> {
    segs.map_values(|v: Vec<RenderAtom>| atoms_view(v@))
}

pub open spec fn no_newline_atoms(seg: Seq<AtomView>) -> bool {
    forall|j: int| 0 <= j < seg.len() ==> !(#[trigger] seg[j] is Newline)
}

/// A display segment is one line-break atom, or a non-empty run of other atoms.
pub open spec fn valid_segment(seg: Seq<AtomView>) -> bool {
    &&& seg.len() > 0
    &&& seg[0] is Newline ==> seg.len() == 1
    &&& !(seg[0] is Newline) ==> no_newline_atoms(seg)
}

/// `segs` cuts `atoms` at every line-break atom into maximal runs.
pub open spec fn is_display_segmentation(atoms: Seq<AtomView>, segs: Seq<Seq<AtomView>>) -> bool {
    &&& flatten(segs) == atoms
    &&& forall|k: int| 0 <= k < segs.len() ==> valid_segment(#[trigger] segs[k])
    &&& forall|k: int|
        0 <= k < segs.len() - 1 ==> (#[trigger] segs[k])[0] is Newline || segs[k + 1][0] is Newline
}

proof fn lemma_flatten_push(segs: Seq<Seq<AtomView>>, x: Seq<AtomView>)
    ensures
        flatten(segs.push(x)) == flatten(segs) + x,
{
    assert(segs.push(x).drop_last() =~= segs);
}

pub open spec fn segmentation_prefix(
    segs: Seq<Seq<AtomView>>,
    current: Seq<AtomView>,
) -> bool {
    &&& no_newline_atoms(current)
    &&& forall|k: int| 0 <= k < segs.len() ==> valid_segment(#[trigger] segs[k])
    &&& forall|k: int|
        0 <= k < segs.len() - 1 ==> (#[trigger] segs[k])[0] is Newline || segs[k + 1][0] is Newline
    &&& segs.len() > 0 ==> segs.last()[0] is Newline
}

/// Closes the current run, if any, and adds a one-atom line-break segment.
fn close_with_newline(
    segments: &mut Vec<Vec<RenderAtom>>,
    current: Vec<RenderAtom>,
    nl: &String,
) -> (r: Vec<RenderAtom>)
    requires
        segmentation_prefix(segments_view(old(segments)@), atoms_view(current@)),
    ensures
        r@.len() == 0,
        segmentation_prefix(segments_view(final(segments)@), atoms_view(r@)),
        flatten(segments_view(final(segments)@)) == flatten(segments_view(old(segments)@))
            + atoms_view(current@) + seq![AtomView::Newline(nl@)],
{
    let ghost sv0 = segments_view(segments@);
    let ghost cv = atoms_view(current@);
    if current.len() > 0 {
        segments.push(current);
        assert(segments_view(segments@) =~= sv0.push(cv));
        proof {
            lemma_flatten_push(sv0, cv);
        }
    } else {
        assert(cv =~= Seq::<AtomView>::empty());
        assert(flatten(sv0) + cv =~= flatten(sv0));
    }
    let ghost sv1 = segments_view(segments@);
    let mut one: Vec<RenderAtom> = Vec::new();
    one.push(RenderAtom::Newline(nl.clone()));
    assert(atoms_view(one@) =~= seq![AtomView::Newline(nl@)]);
    segments.push(one);
    assert(segments_view(segments@) =~= sv1.push(seq![AtomView::Newline(nl@)]));
    proof {
        lemma_flatten_push(sv1, seq![AtomView::Newline(nl@)]);
    }
    let r: Vec<RenderAtom> = Vec::new();
    assert(atoms_view(r@) =~= Seq::<AtomView>::empty());
    r
}

/// Cuts `atoms` into display segments at line-break atoms.
pub fn split_display_segments(atoms: &[RenderAtom]) -> (r: Vec<Vec<RenderAtom>>)
    ensures
        is_display_segmentation(atoms_view(atoms@), segments_view(r@)),
{
    let ghost av = atoms_view(atoms@);
    let mut segments: Vec<Vec<RenderAtom>> = Vec::new();
    let mut current: Vec<RenderAtom> = Vec::new();
    let mut i: usize = 0;
    proof {
        assert(av.take(0) =~= flatten(segments_view(segments@)) + atoms_view(current@));
    }
    while i < atoms.len()
        invariant
            av == atoms_view(atoms@),
            i <= atoms.len(),
            flatten(segments_view(segments@)) + atoms_view(current@) == av.take(i as int),
            segmentation_prefix(segments_view(segments@), atoms_view(current@)),
        decreases atoms.len() - i,
    {
        assert(av.take(i as int + 1) =~= av.take(i as int) + seq![av[i as int]]);
        match &atoms[i] {
            RenderAtom::Newline(nl) => {
                current = close_with_newline(&mut segments, current, nl);
                assert(atoms_view(current@) =~= Seq::<AtomView>::empty());
                assert(segmentation_prefix(segments_view(segments@), atoms_view(current@)));
            },
            _ => {
                let ghost cv = atoms_view(current@);
                assert(!(av[i as int] is Newline));
                current.push(clone_atom(&atoms[i]));
                assert(atoms_view(current@) =~= cv + seq![av[i as int]]);
                assert(no_newline_atoms(atoms_view(current@))) by {
                    assert forall|j: int| 0 <= j < atoms_view(current@).len() implies !(
                    #[trigger] atoms_view(current@)[j] is Newline) by {
                        if j < cv.len() {
                            assert(atoms_view(current@)[j] == cv[j]);
                        }
                    }
                }
                assert(segmentation_prefix(segments_view(segments@), atoms_view(current@)));
            },
        }
        i += 1;
    }
    let ghost sv0 = segments_view(segments@);
    let ghost cv = atoms_view(current@);
    if current.len() > 0 {
        segments.push(current);
        assert(segments_view(segments@) =~= sv0.push(cv));
        proof {
            lemma_flatten_push(sv0, cv);
        }
    } else {
        assert(cv =~= Seq::<AtomView>::empty());
        assert(flatten(sv0) + cv =~= flatten(sv0));
    }
    assert(av.take(atoms.len() as int) =~= av);
    segments
}

/// What wrapping makes of one display segment.
pub open spec fn segment_wrap_spec(seg: Seq<AtomView>, settings: TranslationSettings) -> Seq<
    AtomView,
> {
    if seg.len() > 0 && seg[0] is Newline {
        seg
    } else {
        insert_plan_spec(
            seg,
            wrap_plan_spec(
                visible_text(seg),
                settings.enable_model_wrap,
                settings.model_wrap_min_chars as int,
                settings.model_wrap_space_fallback_min_chars as int,
            ),
        )
    }
}

pub open spec fn wrapped_segments(segs: Seq<Seq<AtomView>>, settings: TranslationSettings) -> Seq<
    AtomView,
> {
    flatten(segs.map_values(|seg: Seq<AtomView>| segment_wrap_spec(seg, settings)))
}

/// Breaks each long display segment of `atoms` once, where wrapping is on.
pub fn wrap_render_atoms(atoms: Vec<RenderAtom>, settings: TranslationSettings) -> (r: Vec<
    RenderAtom,
>)
    ensures
        !settings.enable_model_wrap ==> atoms_view(r@) == atoms_view(atoms@),
        settings.enable_model_wrap ==> exists|segs: Seq<Seq<AtomView>>|
            is_display_segmentation(atoms_view(atoms@), segs) && atoms_view(r@)
                == wrapped_segments(segs, settings),
{
    if !settings.enable_model_wrap {
        return atoms;
    }
    let segments = split_display_segments(&atoms);
    let ghost segs = segments_view(segments@);
    let ghost mapped = segs.map_values(|seg: Seq<AtomView>| segment_wrap_spec(seg, settings));
    let mut result: Vec<RenderAtom> = Vec::new();
    let mut i: usize = 0;
    proof {
        assert(mapped.take(0) =~= Seq::<Seq<AtomView>>::empty());
        assert(atoms_view(result@) =~= Seq::<AtomView>::empty());
    }
    while i < segments.len()
        invariant
            segs == segments_view(segments@),
            mapped == segs.map_values(|seg: Seq<AtomView>| segment_wrap_spec(seg, settings)),
            settings.enable_model_wrap,
            i <= segments.len(),
            atoms_view(result@) == flatten(mapped.take(i as int)),
        decreases segments.len() - i,
    {
        let segment = &segments[i];
        let ghost sv = segs[i as int];
        assert(sv == atoms_view(segment@));
        if segment.len() > 0 && matches!(segment[0], RenderAtom::Newline(_)) {
            append_atoms(&mut result, segment.as_slice());
        } else {
            let visible = visible_text_for_wrap(segment.as_slice());
            let n = crate::text::char_count(visible.as_str());
            let plan = find_wrap_plan(
                visible.as_str(),
                settings.enable_model_wrap,
                settings.model_wrap_min_chars,
                settings.model_wrap_space_fallback_min_chars,
            );
            let wrapped = insert_wrap_plan_into_atoms(segment.as_slice(), plan);
            append_atoms(&mut result, wrapped.as_slice());
        }
        assert(mapped.take(i as int + 1).drop_last() =~= mapped.take(i as int));
        i += 1;
    }
    assert(mapped.take(segments.len() as int) =~= mapped);
    assert(is_display_segmentation(atoms_view(atoms@), segs));
    assert(atoms_view(result@) == wrapped_segments(segs, settings));
    result
}


// ---------------------------------------------------------------------------
// Rendering a resolved document
// ---------------------------------------------------------------------------

pub open spec fn surface_atom(t: Seq<char>, k: SurfaceKind) -> AtomView {
    match k {
        SurfaceKind::Visible => AtomView::Text(t),
        SurfaceKind::ProtectedAngle => AtomView::ProtectedAngle(t),
        SurfaceKind::Newline => AtomView::Newline(t),
    }
}

pub open spec fn opt_atoms(o: Option<(Seq<char>, SurfaceKind)>) -> Seq<AtomView> {
    match o {
        Some((t, k)) => seq![surface_atom(t, k)],
        None => seq![],
    }
}

/// The atoms of resolved nodes: surface as it is, each non-empty
/// translation as text.
pub open spec fn node_atoms(nodes: Seq<RNodeView>) -> Seq<AtomView>
    decreases nodes.len(),
{
    if nodes.len() == 0 {
        seq![]
    } else {
        node_atoms(nodes.drop_last()) + match nodes.last() {
            RNodeView::Surface(t, k) => seq![surface_atom(t, k)],
            RNodeView::Fragment(_, t) => if t.len() > 0 {
                seq![AtomView::Text(t)]
            } else {
                seq![]
            },
        }
    }
}

pub open spec fn segment_atoms(segs: Seq<RSegView>) -> Seq<AtomView>
    decreases segs.len(),
{
    if segs.len() == 0 {
        seq![]
    } else {
        segment_atoms(segs.drop_last()) + node_atoms(segs.last().0) + opt_atoms(segs.last().1)
    }
}

/// The atoms of a resolved document, line by line.
pub open spec fn document_atoms(lines: Seq<RLineView>) -> Seq<AtomView>
    decreases lines.len(),
{
    if lines.len() == 0 {
        seq![]
    } else {
        document_atoms(lines.drop_last()) + segment_atoms(lines.last().0) + opt_atoms(lines.last().1)
    }
}

/// What a document renders to: its atoms, wrapped where wrapping is on.
pub open spec fn renders_to(lines: Seq<RLineView>, settings: TranslationSettings, out: Seq<char>) -> bool {
    let atoms = document_atoms(lines);
    if settings.enable_model_wrap {
        exists|segs: Seq<Seq<AtomView>>|
            is_display_segmentation(atoms, segs) && out == rendered(wrapped_segments(segs, settings))
    } else {
        out == rendered(atoms)
    }
}

fn surface_to_render_atom(s: &SurfaceNode) -> (r: RenderAtom)
    ensures
        r@ == surface_atom(s.text@, s.kind),
{
    match s.kind {
        SurfaceKind::Visible => RenderAtom::Text(s.text.clone()),
        SurfaceKind::ProtectedAngle => RenderAtom::ProtectedAngle(s.text.clone()),
        SurfaceKind::Newline => RenderAtom::Newline(s.text.clone()),
    }
}

fn push_opt_surface(atoms: &mut Vec<RenderAtom>, s: &Option<SurfaceNode>)
    ensures
        atoms_view(final(atoms)@) == atoms_view(old(atoms)@) + opt_atoms(opt_surface(*s)),
{
    let ghost start = atoms_view(atoms@);
    match s {
        Some(x) => {
            atoms.push(surface_to_render_atom(x));
            assert(atoms_view(atoms@) =~= start + seq![surface_atom(x.text@, x.kind)]);
        },
        None => {
            assert(atoms_view(atoms@) =~= start + Seq::<AtomView>::empty());
        },
    }
}

/// The atoms of resolved nodes.
pub fn build_render_atoms(nodes: &[ResolvedNode]) -> (r: Vec<RenderAtom>)
    ensures
        atoms_view(r@) == node_atoms(rnodes_view(nodes@)),
{
    let ghost nv = rnodes_view(nodes@);
    let mut atoms: Vec<RenderAtom> = Vec::new();
    let mut i: usize = 0;
    assert(nv.take(0) =~= Seq::<RNodeView>::empty());
    assert(atoms_view(atoms@) =~= seq![]);
    while i < nodes.len()
        invariant
            i <= nodes@.len(),
            nv == rnodes_view(nodes@),
            atoms_view(atoms@) == node_atoms(nv.take(i as int)),
        decreases nodes.len() - i,
    {
        assert(nv.take(i as int + 1).drop_last() =~= nv.take(i as int));
        assert(nv.take(i as int + 1).last() == nodes@[i as int]@);
        let ghost start = atoms_view(atoms@);
        match &nodes[i] {
            ResolvedNode::Surface(s) => {
                atoms.push(surface_to_render_atom(s));
                assert(atoms_view(atoms@) =~= start + seq![surface_atom(s.text@, s.kind)]);
            },
            ResolvedNode::Fragment(f) => {
                if f.text.as_str().unicode_len() > 0 {
                    atoms.push(RenderAtom::Text(f.text.clone()));
                    assert(atoms_view(atoms@) =~= start + seq![AtomView::Text(f.text@)]);
                } else {
                    assert(atoms_view(atoms@) =~= start + Seq::<AtomView>::empty());
                }
            },
        }
        i += 1;
    }
    assert(nv.take(nodes.len() as int) =~= nv);
    atoms
}

/// The atoms of a resolved document.
pub fn build_document_render_atoms(document: &ResolvedDocument) -> (r: Vec<RenderAtom>)
    ensures
        atoms_view(r@) == document_atoms(rlines_view(document.lines@)),
{
    let ghost lv = rlines_view(document.lines@);
    let mut atoms: Vec<RenderAtom> = Vec::new();
    let mut li: usize = 0;
    assert(lv.take(0) =~= Seq::<RLineView>::empty());
    assert(atoms_view(atoms@) =~= seq![]);
    while li < document.lines.len()
        invariant
            li <= document.lines@.len(),
            lv == rlines_view(document.lines@),
            atoms_view(atoms@) == document_atoms(lv.take(li as int)),
        decreases document.lines.len() - li,
    {
        assert(lv.take(li as int + 1).drop_last() =~= lv.take(li as int));
        let line = &document.lines[li];
        assert(lv.take(li as int + 1).last() == rline_view(*line));
        let ghost sv = rline_view(*line).0;
        let ghost before = atoms_view(atoms@);
        let mut si: usize = 0;
        assert(sv.take(0) =~= Seq::<RSegView>::empty());
        assert(before + segment_atoms(sv.take(0)) =~= before);
        while si < line.segments.len()
            invariant
                si <= line.segments@.len(),
                sv == rline_view(*line).0,
                atoms_view(atoms@) == before + segment_atoms(sv.take(si as int)),
            decreases line.segments.len() - si,
        {
            assert(sv.take(si as int + 1).drop_last() =~= sv.take(si as int));
            let seg = &line.segments[si];
            assert(sv.take(si as int + 1).last() == rseg_view(*seg));
            let ghost mid = atoms_view(atoms@);
            let mut na = build_render_atoms(seg.nodes.as_slice());
            let ghost nav = atoms_view(na@);
            let ghost pre = atoms@;
            atoms.append(&mut na);
            assert(atoms_view(atoms@) =~= atoms_view(pre) + nav);
            push_opt_surface(&mut atoms, &seg.trailing_separator);
            assert(rseg_view(*seg).0 == rnodes_view(seg.nodes@));
            assert(atoms_view(atoms@) =~= mid + node_atoms(rseg_view(*seg).0) + opt_atoms(rseg_view(*seg).1));
            assert(atoms_view(atoms@) =~= before + segment_atoms(sv.take(si as int + 1)));
            si += 1;
        }
        assert(sv.take(line.segments.len() as int) =~= sv);
        push_opt_surface(&mut atoms, &line.trailing_newline);
        li += 1;
    }
    assert(lv.take(document.lines.len() as int) =~= lv);
    atoms
}

/// Renders a resolved document, wrapping long lines where that is on.
pub fn render_document(document: &ResolvedDocument, settings: TranslationSettings) -> (r: String)
    ensures
        renders_to(rlines_view(document.lines@), settings, r@),
{
    let atoms = build_document_render_atoms(document);
    let wrapped = wrap_render_atoms(atoms, settings);
    render_atoms(wrapped.as_slice())
}

} // verus!
