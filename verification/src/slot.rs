//! Dictionary slot directories: how they are named, recognised and chosen.
//!
//! Paths are held as text in the Windows convention the application runs
//! under: `\` and `/` both separate components, and a component is a maximal
//! run of other characters.

use vstd::prelude::*;
use crate::text::{
    chars_of, chars_equal, push_char, push_chars, slice_string, string_of, to_owned_string, trim,
    trim_chars,
};
use crate::translator::zm::{decimal, push_decimal};
use crate::config::Config;

verus! {

// ---------------------------------------------------------------------------
// Path components
// ---------------------------------------------------------------------------

pub open spec fn is_path_sep(c: char) -> bool {
    c == '\\' || c == '/'
}

/// Start and end offsets of each component of `p`, left to right.
pub open spec fn path_parts(p: Seq<char>) -> Seq<(int, int)>
    decreases p.len(),
{
    if p.len() == 0 {
        seq![]
    } else {
        let q = p.drop_last();
        if is_path_sep(p.last()) {
            path_parts(q)
        } else if q.len() == 0 || is_path_sep(q.last()) {
            path_parts(q).push((q.len() as int, p.len() as int))
        } else {
            let ps = path_parts(q);
            ps.update(ps.len() - 1, (ps.last().0, p.len() as int))
        }
    }
}

/// The component names of `p`, left to right.
pub open spec fn path_names(p: Seq<char>) -> Seq<Seq<char>> {
    path_parts(p).map_values(|r: (int, int)| p.subrange(r.0, r.1))
}

/// The path of the ancestor of `p` whose last component is component `j`.
pub open spec fn ancestor_through(p: Seq<char>, j: int) -> Seq<char> {
    p.take(path_parts(p)[j].1)
}

proof fn lemma_path_parts_bounds(p: Seq<char>)
    ensures
        forall|k: int|
            0 <= k < path_parts(p).len() ==> 0 <= (#[trigger] path_parts(p)[k]).0
                < path_parts(p)[k].1 <= p.len(),
        p.len() > 0 && !is_path_sep(p.last()) ==> path_parts(p).len() > 0
            && path_parts(p).last().1 == p.len(),
    decreases p.len(),
{
    if p.len() > 0 {
        let q = p.drop_last();
        lemma_path_parts_bounds(q);
        let ps = path_parts(q);
        if is_path_sep(p.last()) {
            assert(path_parts(p) == ps);
        } else if q.len() == 0 || is_path_sep(q.last()) {
            let r = ps.push((q.len() as int, p.len() as int));
            assert(path_parts(p) == r);
            assert forall|k: int| 0 <= k < r.len() implies 0 <= (#[trigger] r[k]).0 < r[k].1
                <= p.len() by {
                if k < ps.len() {
                    assert(r[k] == ps[k]);
                }
            }
        } else {
            assert(ps.len() > 0);
            let r = ps.update(ps.len() - 1, (ps.last().0, p.len() as int));
            assert(path_parts(p) == r);
            assert forall|k: int| 0 <= k < r.len() implies 0 <= (#[trigger] r[k]).0 < r[k].1
                <= p.len() by {
                if k < ps.len() - 1 {
                    assert(r[k] == ps[k]);
                } else {
                    assert(ps[ps.len() - 1] == ps.last());
                }
            }
        }
    }
}

pub open spec fn parts_view(v: Seq<(usize, usize)>) -> Seq<(int, int)> {
    v.map_values(|r: (usize, usize)| (r.0 as int, r.1 as int))
}

/// The offsets of the components of `p`.
pub fn path_parts_of(p: &[char]) -> (r: Vec<(usize, usize)>)
    ensures
        parts_view(r@) == path_parts(p@),
{
    let mut r: Vec<(usize, usize)> = Vec::new();
    let mut i: usize = 0;
    while i < p.len()
        invariant
            i <= p.len(),
            parts_view(r@) == path_parts(p@.take(i as int)),
        decreases p.len() - i,
    {
        let ghost q = p@.take(i as int);
        assert(p@.take(i as int + 1).drop_last() =~= q);
        proof {
            lemma_path_parts_bounds(q);
        }
        let c = p[i];
        if c == '\\' || c == '/' {
        } else if i == 0 || p[i - 1] == '\\' || p[i - 1] == '/' {
            r.push((i, i + 1));
            assert(parts_view(r@) =~= path_parts(q).push((i as int, i as int + 1)));
        } else {
            let last = r.len() - 1;
            let start = r[last].0;
            r.set(last, (start, i + 1));
            assert(parts_view(r@) =~= path_parts(q).update(
                path_parts(q).len() - 1,
                (path_parts(q).last().0, i as int + 1),
            ));
        }
        i += 1;
    }
    assert(p@.take(p.len() as int) =~= p@);
    r
}

/// The last component of `p` (`Path::file_name`), if it has any.
pub open spec fn file_name(p: Seq<char>) -> Option<Seq<char>> {
    if path_names(p).len() > 0 {
        Some(path_names(p).last())
    } else {
        None
    }
}

/// The last component of a path.
pub fn file_name_of(path: &str) -> (r: Option<String>)
    ensures
        match r {
            Some(n) => file_name(path@) == Some(n@),
            None => file_name(path@) is None,
        },
{
    let p = chars_of(path);
    let parts = path_parts_of(&p);
    proof {
        lemma_path_parts_bounds(p@);
    }
    if parts.len() == 0 {
        return None;
    }
    let (a, b) = parts[parts.len() - 1];
    assert(parts_view(parts@)[parts@.len() - 1] == path_parts(p@)[path_parts(p@).len() - 1]);
    let n = string_of(&sub_chars(&p, a, b));
    Some(n)
}

/// The characters `p[a..b]`.
fn sub_chars(p: &[char], a: usize, b: usize) -> (r: Vec<char>)
    requires
        a <= b <= p@.len(),
    ensures
        r@ == p@.subrange(a as int, b as int),
{
    let mut r: Vec<char> = Vec::new();
    let mut k = a;
    while k < b
        invariant
            a <= k <= b <= p@.len(),
            r@ == p@.subrange(a as int, k as int),
        decreases b - k,
    {
        r.push(p[k]);
        k += 1;
        assert(r@ =~= p@.subrange(a as int, k as int));
    }
    r
}

/// `base` joined with the relative component `name`.
pub open spec fn path_join(base: Seq<char>, name: Seq<char>) -> Seq<char> {
    if base.len() == 0 {
        name
    } else if is_path_sep(base.last()) {
        base + name
    } else {
        base + seq!['\\'] + name
    }
}

/// `base` joined with `name` (`Path::join` for a relative name).
pub fn join_path(base: &str, name: &str) -> (r: String)
    ensures
        r@ == path_join(base@, name@),
{
    let b = chars_of(base);
    let n = chars_of(name);
    let mut r = string_of(&b);
    if b.len() > 0 && b[b.len() - 1] != '\\' && b[b.len() - 1] != '/' {
        push_char(&mut r, '\\');
    }
    push_chars(&mut r, &n);
    r
}

// ---------------------------------------------------------------------------
// ASCII case folding
// ---------------------------------------------------------------------------

pub open spec fn ascii_fold(c: char) -> int {
    if 'A' <= c <= 'Z' {
        c as int + 32
    } else {
        c as int
    }
}

/// `eq_ignore_ascii_case` on character sequences.
pub open spec fn eq_ignore_ascii_case(a: Seq<char>, b: Seq<char>) -> bool {
    a.len() == b.len() && forall|i: int| 0 <= i < a.len() ==> ascii_fold(a[i]) == ascii_fold(b[i])
}

fn fold_char(c: char) -> (r: u32)
    ensures
        r == ascii_fold(c),
{
    if 'A' <= c && c <= 'Z' {
        (c as u32) + 32
    } else {
        c as u32
    }
}

/// Whether `a` equals `b` up to ASCII case.
pub fn chars_eq_ignore_ascii_case(a: &[char], b: &[char]) -> (r: bool)
    ensures
        r == eq_ignore_ascii_case(a@, b@),
{
    if a.len() != b.len() {
        return false;
    }
    let mut i: usize = 0;
    while i < a.len()
        invariant
            a.len() == b.len(),
            i <= a.len(),
            forall|j: int| 0 <= j < i ==> ascii_fold(a@[j]) == ascii_fold(b@[j]),
        decreases a.len() - i,
    {
        if fold_char(a[i]) != fold_char(b[i]) {
            return false;
        }
        i += 1;
    }
    true
}

// ---------------------------------------------------------------------------
// Slot directory names
// ---------------------------------------------------------------------------

/// Index of the last occurrence of `c` in `s`.
pub open spec fn last_index_of(s: Seq<char>, c: char) -> Option<int>
    decreases s.len(),
{
    if s.len() == 0 {
        None
    } else if s.last() == c {
        Some(s.len() - 1)
    } else {
        last_index_of(s.drop_last(), c)
    }
}

proof fn lemma_last_index_of(s: Seq<char>, c: char)
    ensures
        match last_index_of(s, c) {
            Some(k) => 0 <= k < s.len() && s[k] == c && forall|j: int| k < j < s.len() ==> s[j] != c,
            None => forall|j: int| 0 <= j < s.len() ==> s[j] != c,
        },
    decreases s.len(),
{
    if s.len() > 0 {
        let t = s.drop_last();
        lemma_last_index_of(t, c);
        if s.last() != c {
            assert forall|j: int| 0 <= j < t.len() implies t[j] == s[j] by {}
            assert(s[s.len() - 1] == s.last());
        }
    }
}

pub open spec fn is_ascii_digit(c: char) -> bool {
    '0' <= c <= '9'
}

pub open spec fn all_ascii_digits(s: Seq<char>) -> bool {
    forall|i: int| 0 <= i < s.len() ==> is_ascii_digit(#[trigger] s[i])
}

/// The number that the ASCII digits `s` spell.
pub open spec fn digits_value(s: Seq<char>) -> nat
    decreases s.len(),
{
    if s.len() == 0 {
        0
    } else {
        digits_value(s.drop_last()) * 10 + (s.last() as int - '0' as int) as nat
    }
}

/// `str::parse::<u32>` on a string of ASCII digits.
pub open spec fn parse_u32(s: Seq<char>) -> Option<u32> {
    if s.len() > 0 && all_ascii_digits(s) && digits_value(s) <= u32::MAX {
        Some(digits_value(s) as u32)
    } else {
        None
    }
}

proof fn lemma_digits_value_grows(s: Seq<char>, i: int)
    requires
        0 <= i <= s.len(),
        all_ascii_digits(s),
    ensures
        digits_value(s.take(i)) <= digits_value(s),
    decreases s.len() - i,
{
    if i < s.len() {
        lemma_digits_value_grows(s, i + 1);
        assert(s.take(i + 1).drop_last() =~= s.take(i));
    } else {
        assert(s.take(i) =~= s);
    }
}

/// The value of the ASCII digits `s`, if it fits in `u32`.
fn parse_digits_u32(s: &[char]) -> (r: Option<u32>)
    requires
        s@.len() > 0,
        all_ascii_digits(s@),
    ensures
        r == parse_u32(s@),
{
    let mut acc: u64 = 0;
    let mut i: usize = 0;
    while i < s.len()
        invariant
            i <= s.len(),
            all_ascii_digits(s@),
            acc == digits_value(s@.take(i as int)),
            acc <= u32::MAX,
        decreases s.len() - i,
    {
        assert(s@.take(i as int + 1).drop_last() =~= s@.take(i as int));
        assert(is_ascii_digit(s@[i as int]));
        let d = (s[i] as u64) - ('0' as u64);
        acc = acc * 10 + d;
        i += 1;
        if acc > 0xFFFF_FFFFu64 {
            proof {
                lemma_digits_value_grows(s@, i as int);
            }
            return None;
        }
    }
    assert(s@.take(s.len() as int) =~= s@);
    Some(acc as u32)
}

pub open spec fn is_slot_prefix_char(c: char) -> bool {
    ('0' <= c <= '9') || ('a' <= c <= 'z') || ('A' <= c <= 'Z') || c == '-'
}

/// The number of a slot named `<lang>_<digits>`; with no language, of a
/// slot named `<ascii letters, digits, '-'>_<digits>`.
pub open spec fn current_slot_num(name: Seq<char>, lang: Seq<char>) -> Option<u32> {
    match last_index_of(name, '_') {
        None => None,
        Some(k) => {
            let prefix = name.take(k);
            let suffix = name.skip(k + 1);
            if suffix.len() == 0 || !all_ascii_digits(suffix) {
                None
            } else if lang.len() > 0 && prefix == lang {
                parse_u32(suffix)
            } else if lang.len() == 0 && prefix.len() > 0 && (forall|i: int|
                0 <= i < prefix.len() ==> is_slot_prefix_char(#[trigger] prefix[i])) {
                parse_u32(suffix)
            } else {
                None
            }
        },
    }
}

/// The number of a slot under the current naming, or of a legacy
/// `S_<four digits>` slot when a language is given.
pub open spec fn compatible_slot_num(name: Seq<char>, lang: Seq<char>) -> Option<u32> {
    if current_slot_num(name, lang) is Some {
        current_slot_num(name, lang)
    } else {
        match last_index_of(name, '_') {
            None => None,
            Some(k) => {
                let prefix = name.take(k);
                let suffix = name.skip(k + 1);
                if suffix.len() == 0 || !all_ascii_digits(suffix) {
                    None
                } else if lang.len() > 0 && prefix == seq!['S'] && suffix.len() == 4 {
                    parse_u32(suffix)
                } else {
                    None
                }
            },
        }
    }
}

/// Index of the last `'_'` of `s`.
fn last_underscore(s: &[char]) -> (r: Option<usize>)
    ensures
        r is Some ==> last_index_of(s@, '_') == Some(r->0 as int) && r->0 < s@.len(),
        r is None ==> last_index_of(s@, '_') is None,
{
    let mut i = s.len();
    assert(s@.take(i as int) =~= s@);
    while i > 0
        invariant
            i <= s.len(),
            last_index_of(s@, '_') == last_index_of(s@.take(i as int), '_'),
        decreases i,
    {
        assert(s@.take(i as int).drop_last() =~= s@.take(i as int - 1));
        if s[i - 1] == '_' {
            return Some(i - 1);
        }
        i -= 1;
    }
    None
}

fn all_digits_from(s: &[char], a: usize) -> (r: bool)
    requires
        a <= s@.len(),
    ensures
        r == all_ascii_digits(s@.skip(a as int)),
{
    let mut i = a;
    while i < s.len()
        invariant
            a <= i <= s.len(),
            forall|j: int| a <= j < i ==> is_ascii_digit(s@[j]),
        decreases s.len() - i,
    {
        if !('0' <= s[i] && s[i] <= '9') {
            assert(!is_ascii_digit(s@.skip(a as int)[i - a]));
            return false;
        }
        i += 1;
    }
    assert forall|j: int| 0 <= j < s@.skip(a as int).len() implies is_ascii_digit(
        #[trigger] s@.skip(a as int)[j],
    ) by {
        assert(s@.skip(a as int)[j] == s@[a + j]);
    }
    true
}

fn all_prefix_chars(s: &[char], b: usize) -> (r: bool)
    requires
        b <= s@.len(),
    ensures
        r == (forall|i: int| 0 <= i < s@.take(b as int).len() ==> is_slot_prefix_char(
            #[trigger] s@.take(b as int)[i],
        )),
{
    let mut i: usize = 0;
    while i < b
        invariant
            i <= b <= s@.len(),
            forall|j: int| 0 <= j < i ==> is_slot_prefix_char(s@[j]),
        decreases b - i,
    {
        let c = s[i];
        if !(('0' <= c && c <= '9') || ('a' <= c && c <= 'z') || ('A' <= c && c <= 'Z') || c
            == '-') {
            assert(!is_slot_prefix_char(s@.take(b as int)[i as int]));
            return false;
        }
        i += 1;
    }
    assert forall|j: int| 0 <= j < s@.take(b as int).len() implies is_slot_prefix_char(
        #[trigger] s@.take(b as int)[j],
    ) by {
        assert(s@.take(b as int)[j] == s@[j]);
    }
    true
}

fn prefix_equals(s: &[char], b: usize, lit: &[char]) -> (r: bool)
    requires
        b <= s@.len(),
    ensures
        r == (s@.take(b as int) == lit@),
{
    if b != lit.len() {
        return false;
    }
    let mut i: usize = 0;
    while i < b
        invariant
            b == lit.len(),
            i <= b <= s@.len(),
            forall|j: int| 0 <= j < i ==> s@[j] == lit@[j],
        decreases b - i,
    {
        if s[i] != lit[i] {
            assert(s@.take(b as int)[i as int] != lit@[i as int]);
            return false;
        }
        i += 1;
    }
    assert(s@.take(b as int) =~= lit@);
    true
}

/// The slot number of `name` under the current naming for `lang`.
pub fn current_slot_num_of(name: &[char], lang: &[char]) -> (r: Option<u32>)
    ensures
        r == current_slot_num(name@, lang@),
{
    let ko = last_underscore(name);
    if ko.is_none() {
        return None;
    }
    let k = ko.unwrap();
    assert(k < name.len());
    proof {
        lemma_last_index_of(name@, '_');
    }
    if k + 1 == name.len() || !all_digits_from(name, k + 1) {
        return None;
    }
    let suffix = sub_chars(name, k + 1, name.len());
    assert(suffix@ =~= name@.skip(k + 1));
    if lang.len() > 0 && prefix_equals(name, k, lang) {
        parse_digits_u32(&suffix)
    } else if lang.len() == 0 && k > 0 && all_prefix_chars(name, k) {
        parse_digits_u32(&suffix)
    } else {
        None
    }
}

/// The slot number of `name` under the current or the legacy naming.
pub fn compatible_slot_num_of(name: &[char], lang: &[char]) -> (r: Option<u32>)
    ensures
        r == compatible_slot_num(name@, lang@),
{
    let current = current_slot_num_of(name, lang);
    if current.is_some() {
        return current;
    }
    let ko = last_underscore(name);
    if ko.is_none() {
        return None;
    }
    let k = ko.unwrap();
    assert(k < name.len());
    proof {
        lemma_last_index_of(name@, '_');
    }
    if k + 1 == name.len() || !all_digits_from(name, k + 1) {
        return None;
    }
    let suffix = sub_chars(name, k + 1, name.len());
    assert(suffix@ =~= name@.skip(k + 1));
    let legacy = ['S'];
    assert(legacy@ =~= seq!['S']);
    if lang.len() > 0 && prefix_equals(name, k, &legacy) && suffix.len() == 4 {
        parse_digits_u32(&suffix)
    } else {
        None
    }
}

/// Whether `name` names a dictionary slot for `lang` (current or legacy naming).
pub fn is_slot_dir_name_for_lang(name: &str, lang: &str) -> (r: bool)
    ensures
        r == (compatible_slot_num(name@, lang@) is Some),
{
    let n = chars_of(name);
    let l = chars_of(lang);
    compatible_slot_num_of(&n, &l).is_some()
}

} // verus!

verus! {

// ---------------------------------------------------------------------------
// Slot directories in a path
// ---------------------------------------------------------------------------

pub open spec fn text_dir_name() -> Seq<char> {
    seq!['t', 'e', 'x', 't']
}

pub open spec fn dicts_dir_name() -> Seq<char> {
    seq!['d', 'i', 'c', 't', 's']
}

/// A slot directory: a directory under one named `text` (in any ASCII case)
/// whose own name follows the slot naming.
pub open spec fn is_slot_dir_path(p: Seq<char>) -> bool {
    let names = path_names(p);
    &&& names.len() >= 2
    &&& eq_ignore_ascii_case(names[names.len() - 2], text_dir_name())
    &&& compatible_slot_num(names.last(), seq![]) is Some
}

/// Component `k` of `p`, from the computed offsets.
fn component(cs: &[char], parts: &Vec<(usize, usize)>, k: usize) -> (r: Vec<char>)
    requires
        parts_view(parts@) == path_parts(cs@),
        k < parts@.len(),
    ensures
        r@ == path_names(cs@)[k as int],
{
    proof {
        lemma_path_parts_bounds(cs@);
        assert(path_parts(cs@)[k as int] == parts_view(parts@)[k as int]);
    }
    let (a, b) = parts[k];
    sub_chars(cs, a, b)
}

/// Whether `p` is a slot directory directly under a `text` directory.
pub fn is_slot_dir(p: &str) -> (r: bool)
    ensures
        r == is_slot_dir_path(p@),
{
    let cs = chars_of(p);
    let parts = path_parts_of(&cs);
    let n = parts.len();
    assert(path_names(cs@).len() == n);
    if n < 2 {
        return false;
    }
    let parent = component(&cs, &parts, n - 2);
    let text = ['t', 'e', 'x', 't'];
    assert(text@ =~= text_dir_name());
    if !chars_eq_ignore_ascii_case(&parent, &text) {
        return false;
    }
    let name = component(&cs, &parts, n - 1);
    let no_lang: Vec<char> = Vec::new();
    assert(no_lang@ =~= seq![]);
    compatible_slot_num_of(&name, &no_lang).is_some()
}

/// Component `i` is a slot for `lang` inside `dicts/<lang>/text/`.
pub open spec fn authority_slot_at(names: Seq<Seq<char>>, lang: Seq<char>, i: int) -> bool {
    &&& 3 <= i < names.len()
    &&& compatible_slot_num(names[i], lang) is Some
    &&& eq_ignore_ascii_case(names[i - 1], text_dir_name())
    &&& names[i - 2] == lang
    &&& eq_ignore_ascii_case(names[i - 3], dicts_dir_name())
}

/// Whether the slot path `p` belongs to the target language: some ancestor
/// is a slot of that language under `dicts/<language>/text`.
pub open spec fn slot_matches_target(p: Seq<char>, target: Seq<char>) -> bool {
    let t = trim(target);
    t.len() > 0 && exists|i: int| #[trigger] authority_slot_at(path_names(p), t, i)
}

/// Whether `slot` is a slot of `target_lang` under `dicts/<target_lang>/text`.
pub fn dict_slot_matches_target(slot: &str, target_lang: &str) -> (r: bool)
    ensures
        r == slot_matches_target(slot@, target_lang@),
{
    let tc = chars_of(target_lang);
    let t = trim_chars(&tc);
    if t.len() == 0 {
        return false;
    }
    let cs = chars_of(slot);
    let parts = path_parts_of(&cs);
    let ghost names = path_names(cs@);
    let n = parts.len();
    assert(names.len() == n);
    let text = ['t', 'e', 'x', 't'];
    assert(text@ =~= text_dir_name());
    let dicts = ['d', 'i', 'c', 't', 's'];
    assert(dicts@ =~= dicts_dir_name());
    let mut i: usize = 3;
    while i < n
        invariant
            3 <= i,
            n == names.len(),
            names == path_names(cs@),
            parts_view(parts@) == path_parts(cs@),
            t@ == trim(target_lang@),
            t@.len() > 0,
            cs@ == slot@,
            text@ == text_dir_name(),
            dicts@ == dicts_dir_name(),
            forall|j: int| 3 <= j < i ==> !authority_slot_at(names, t@, j),
        decreases n - i,
    {
        let name = component(&cs, &parts, i);
        let lang_dir = component(&cs, &parts, i - 2);
        if compatible_slot_num_of(&name, &t).is_some() {
            let text_dir = component(&cs, &parts, i - 1);
            let dicts_dir = component(&cs, &parts, i - 3);
            if chars_eq_ignore_ascii_case(&text_dir, &text) && chars_equal(&lang_dir, &t)
                && chars_eq_ignore_ascii_case(&dicts_dir, &dicts) {
                assert(authority_slot_at(names, t@, i as int));
                return true;
            }
        }
        i += 1;
    }
    if n < 3 {
        assert forall|j: int| !authority_slot_at(names, t@, j) by {}
    }
    false
}

/// Whether component name `name` is a slot for `lang`.
pub open spec fn is_slot_name(name: Seq<char>, lang: Seq<char>) -> bool {
    compatible_slot_num(name, lang) is Some
}

/// Index of the first (outermost) component of `names` that is a slot for `lang`.
pub open spec fn first_slot_component(names: Seq<Seq<char>>, lang: Seq<char>) -> Option<int>
    decreases names.len(),
{
    if names.len() == 0 {
        None
    } else {
        match first_slot_component(names.drop_last(), lang) {
            Some(j) => Some(j),
            None => if is_slot_name(names.last(), lang) {
                Some(names.len() - 1)
            } else {
                None
            },
        }
    }
}

proof fn lemma_first_slot_component_extends(names: Seq<Seq<char>>, lang: Seq<char>, m: int)
    requires
        0 <= m <= names.len(),
        first_slot_component(names.take(m), lang) is Some,
    ensures
        first_slot_component(names, lang) == first_slot_component(names.take(m), lang),
    decreases names.len() - m,
{
    if m < names.len() {
        let d = names.drop_last();
        assert(d.take(m) =~= names.take(m));
        lemma_first_slot_component_extends(d, lang, m);
    } else {
        assert(names.take(m) =~= names);
    }
}

/// The outermost ancestor of `p` (itself included) that is a slot for `lang`.
pub open spec fn slot_ancestor(p: Seq<char>, lang: Seq<char>) -> Option<Seq<char>> {
    match first_slot_component(path_names(p), lang) {
        Some(j) => Some(ancestor_through(p, j)),
        None => None,
    }
}

/// The outermost ancestor of `path` that is a slot directory for `lang`.
pub fn find_slot_ancestor(path: &str, lang: &str) -> (r: Option<String>)
    ensures
        match r {
            Some(s) => slot_ancestor(path@, lang@) == Some(s@),
            None => slot_ancestor(path@, lang@) is None,
        },
{
    let cs = chars_of(path);
    let l = chars_of(lang);
    let parts = path_parts_of(&cs);
    let ghost names = path_names(cs@);
    let n = parts.len();
    assert(names.len() == n);
    let mut i: usize = 0;
    while i < n
        invariant
            i <= n,
            n == names.len(),
            names == path_names(cs@),
            parts_view(parts@) == path_parts(cs@),
            first_slot_component(names.take(i as int), l@) is None,
            l@ == lang@,
            cs@ == path@,
        decreases n - i,
    {
        assert(names.take(i as int + 1).drop_last() =~= names.take(i as int));
        assert(names.take(i as int + 1).last() == names[i as int]);
        let name = component(&cs, &parts, i);
        if compatible_slot_num_of(&name, &l).is_some() {
            proof {
                lemma_first_slot_component_extends(names, l@, i as int + 1);
                lemma_path_parts_bounds(cs@);
                assert(path_parts(cs@)[i as int] == parts_view(parts@)[i as int]);
            }
            let end = parts[i].1;
            let s = slice_string(&cs, 0, end);
            assert(s@ =~= cs@.take(end as int));
            return Some(s);
        }
        i += 1;
    }
    assert(names.take(n as int) =~= names);
    None
}

// ---------------------------------------------------------------------------
// Choosing a new slot
// ---------------------------------------------------------------------------

pub open spec fn strings_view(v: Seq<String>) -> Seq<Seq<char>> {
    v.map_values(|s: String| s@)
}

/// The largest current-naming slot number among `names` for `lang`.
pub open spec fn max_current_slot_num(names: Seq<Seq<char>>, lang: Seq<char>) -> Option<u32>
    decreases names.len(),
{
    if names.len() == 0 {
        None
    } else {
        let rest = max_current_slot_num(names.drop_last(), lang);
        let here = current_slot_num(names.last(), lang);
        match (rest, here) {
            (None, x) => x,
            (Some(a), None) => Some(a),
            (Some(a), Some(b)) => Some(if a >= b { a } else { b }),
        }
    }
}

/// The number a new slot gets: one past the largest existing, or 1.
pub open spec fn next_slot_num(names: Seq<Seq<char>>, lang: Seq<char>) -> nat {
    match max_current_slot_num(names, lang) {
        Some(m) => m as nat + 1,
        None => 1,
    }
}

/// `n` with at least three digits (`{:03}`).
pub open spec fn zero_pad3(n: nat) -> Seq<char> {
    if n < 10 {
        seq!['0', '0'] + decimal(n)
    } else if n < 100 {
        seq!['0'] + decimal(n)
    } else {
        decimal(n)
    }
}

/// The directory name `<lang>_<nnn>` of slot `n`.
pub open spec fn slot_dir_name(lang: Seq<char>, n: nat) -> Seq<char> {
    lang + seq!['_'] + zero_pad3(n)
}

/// The largest slot number under the current naming among the directory
/// names `dir_names`.
pub fn max_existing_slot_num(dir_names: &[String], lang: &str) -> (r: Option<u32>)
    ensures
        r == max_current_slot_num(strings_view(dir_names@), lang@),
{
    let l = chars_of(lang);
    let ghost names = strings_view(dir_names@);
    let mut best: Option<u32> = None;
    let mut i: usize = 0;
    while i < dir_names.len()
        invariant
            i <= dir_names.len(),
            names == strings_view(dir_names@),
            l@ == lang@,
            best == max_current_slot_num(names.take(i as int), lang@),
        decreases dir_names.len() - i,
    {
        assert(names.take(i as int + 1).drop_last() =~= names.take(i as int));
        assert(names.take(i as int + 1).last() == dir_names@[i as int]@);
        let name = chars_of(dir_names[i].as_str());
        let here = current_slot_num_of(&name, &l);
        best = match (best, here) {
            (None, x) => x,
            (Some(a), None) => Some(a),
            (Some(a), Some(b)) => Some(if a >= b { a } else { b }),
        };
        i += 1;
    }
    assert(names.take(dir_names.len() as int) =~= names);
    best
}

/// The name `<lang>_<nnn>` of slot `n`.
pub fn format_slot_name(lang: &str, n: u32) -> (r: String)
    ensures
        r@ == slot_dir_name(lang@, n as nat),
{
    let mut r = to_owned_string(lang);
    push_char(&mut r, '_');
    if n < 10 {
        push_char(&mut r, '0');
        push_char(&mut r, '0');
    } else if n < 100 {
        push_char(&mut r, '0');
    }
    push_decimal(&mut r, n as usize);
    assert(r@ =~= slot_dir_name(lang@, n as nat));
    r
}

/// Where a slot for `lang` is found or would be created under `container`,
/// whose subdirectories are named `dir_names`: the outermost slot ancestor
/// of `container` if there is one, else the next free slot number.
pub open spec fn slot_under(container: Seq<char>, lang: Seq<char>, dir_names: Seq<Seq<char>>) -> Seq<
    char,
> {
    match slot_ancestor(container, lang) {
        Some(s) => s,
        None => path_join(container, slot_dir_name(lang, next_slot_num(dir_names, lang))),
    }
}

/// The slot for `lang` at or under `container`, given the names of the
/// directories in `container`; the caller creates the directory.
pub fn find_or_create_slot_under(container: &str, lang: &str, dir_names: &[String]) -> (r: String)
    requires
        slot_ancestor(container@, lang@) is None ==> max_current_slot_num(
            strings_view(dir_names@),
            lang@,
        ) != Some(u32::MAX),
    ensures
        r@ == slot_under(container@, lang@, strings_view(dir_names@)),
{
    match find_slot_ancestor(container, lang) {
        Some(s) => s,
        None => {
            let next: u32 = match max_existing_slot_num(dir_names, lang) {
                Some(m) => m + 1,
                None => 1,
            };
            let name = format_slot_name(lang, next);
            join_path(container, name.as_str())
        },
    }
}

/// `<base>\dicts\<lang>\text`, the directory holding the slots of `lang`.
pub open spec fn lang_text_dir(base: Seq<char>, lang: Seq<char>) -> Seq<char> {
    path_join(path_join(path_join(base, dicts_dir_name()), lang), text_dir_name())
}

/// The directory holding the slots of `lang` under `base_dir`.
pub fn text_dir_for_lang(base_dir: &str, lang: &str) -> (r: String)
    ensures
        r@ == lang_text_dir(base_dir@, lang@),
{
    let dicts = "dicts";
    let text = "text";
    proof {
        reveal_strlit("dicts");
        reveal_strlit("text");
    }
    let a = join_path(base_dir, dicts);
    let b = join_path(a.as_str(), lang);
    join_path(b.as_str(), text)
}

/// A new slot for `tgt_lang` under `base_dir`, numbered after the existing
/// ones (`text_dir_names`, the directories of its `text` directory).
pub fn create_new_slot(tgt_lang: &str, base_dir: &str, text_dir_names: &[String]) -> (r: String)
    requires
        max_current_slot_num(strings_view(text_dir_names@), tgt_lang@) != Some(u32::MAX),
    ensures
        r@ == path_join(
            lang_text_dir(base_dir@, tgt_lang@),
            slot_dir_name(tgt_lang@, next_slot_num(strings_view(text_dir_names@), tgt_lang@)),
        ),
{
    let text_dir = text_dir_for_lang(base_dir, tgt_lang);
    let next: u32 = match max_existing_slot_num(text_dir_names, tgt_lang) {
        Some(m) => m + 1,
        None => 1,
    };
    let name = format_slot_name(tgt_lang, next);
    join_path(text_dir.as_str(), name.as_str())
}

/// The committed slot that is kept: trimmed, non-empty and belonging to the target.
pub open spec fn kept_committed_slot(dict_slot: Option<Seq<char>>, target: Seq<char>) -> Option<
    Seq<char>,
> {
    match dict_slot {
        Some(s) => if trim(s).len() > 0 && slot_matches_target(trim(s), target) {
            Some(trim(s))
        } else {
            None
        },
        None => None,
    }
}

/// The slot a language pair uses: the committed one when it belongs to the
/// target language, else a new slot numbered after `text_dir_names`.
pub fn resolve_lang_pair_dict_slot(
    dict_slot: Option<&str>,
    target_lang: &str,
    base_dir: &str,
    text_dir_names: &[String],
) -> (r: String)
    requires
        kept_committed_slot(
            match dict_slot {
                Some(s) => Some(s@),
                None => None,
            },
            target_lang@,
        ) is None ==> max_current_slot_num(strings_view(text_dir_names@), target_lang@) != Some(
            u32::MAX,
        ),
    ensures
        r@ == match kept_committed_slot(
            match dict_slot {
                Some(s) => Some(s@),
                None => None,
            },
            target_lang@,
        ) {
            Some(s) => s,
            None => path_join(
                lang_text_dir(base_dir@, target_lang@),
                slot_dir_name(
                    target_lang@,
                    next_slot_num(strings_view(text_dir_names@), target_lang@),
                ),
            ),
        },
{
    if let Some(s) = dict_slot {
        let cs = chars_of(s);
        let t = trim_chars(&cs);
        if t.len() > 0 {
            let ts = string_of(&t);
            if dict_slot_matches_target(ts.as_str(), target_lang) {
                return ts;
            }
        }
    }
    create_new_slot(target_lang, base_dir, text_dir_names)
}

} // verus!

verus! {

// ---------------------------------------------------------------------------
// The configured slot and its dictionary files
// ---------------------------------------------------------------------------

/// The slot the configuration names explicitly, if it names a non-empty one.
pub open spec fn explicit_slot(config: Config) -> Option<Seq<char>> {
    match config.dict_slot {
        Some(s) => if s@.len() > 0 {
            Some(s@)
        } else {
            None
        },
        None => None,
    }
}

/// The slot directory of the configuration: the explicit slot, else the
/// slot found or numbered under `<base>\dicts\<tgt_lang>\text`, whose
/// subdirectories are named `text_dir_names`.
pub open spec fn configured_slot_dir(
    config: Config,
    base_dir: Seq<char>,
    text_dir_names: Seq<Seq<char>>,
) -> Seq<char> {
    match explicit_slot(config) {
        Some(s) => s,
        None => slot_under(lang_text_dir(base_dir, config.tgt_lang@), config.tgt_lang@, text_dir_names),
    }
}

/// What the configured slot needs of the existing slot numbers: room for one more.
pub open spec fn slot_dir_resolvable(
    config: Config,
    base_dir: Seq<char>,
    text_dir_names: Seq<Seq<char>>,
) -> bool {
    explicit_slot(config) is None && slot_ancestor(
        lang_text_dir(base_dir, config.tgt_lang@),
        config.tgt_lang@,
    ) is None ==> max_current_slot_num(text_dir_names, config.tgt_lang@) != Some(u32::MAX)
}

/// The slot directory the configuration uses; the caller creates it.
pub fn provision_slot_dir(config: &Config, base_dir: &str, text_dir_names: &[String]) -> (r: String)
    requires
        slot_dir_resolvable(*config, base_dir@, strings_view(text_dir_names@)),
    ensures
        r@ == configured_slot_dir(*config, base_dir@, strings_view(text_dir_names@)),
{
    if let Some(slot) = &config.dict_slot {
        if slot.as_str().unicode_len() > 0 {
            return slot.clone();
        }
    }
    let text_dir = text_dir_for_lang(base_dir, config.tgt_lang.as_str());
    find_or_create_slot_under(text_dir.as_str(), config.tgt_lang.as_str(), text_dir_names)
}

/// The slot directory the configuration uses (`provision_slot_dir`).
pub fn resolve_slot_dir(config: &Config, base_dir: &str, text_dir_names: &[String]) -> (r: String)
    requires
        slot_dir_resolvable(*config, base_dir@, strings_view(text_dir_names@)),
    ensures
        r@ == configured_slot_dir(*config, base_dir@, strings_view(text_dir_names@)),
{
    provision_slot_dir(config, base_dir, text_dir_names)
}

/// `Tenuki.dict.txt` in the configured slot.
pub fn get_exact_dict_path(config: &Config, base_dir: &str, text_dir_names: &[String]) -> (r: String)
    requires
        slot_dir_resolvable(*config, base_dir@, strings_view(text_dir_names@)),
    ensures
        r@ == path_join(
            configured_slot_dir(*config, base_dir@, strings_view(text_dir_names@)),
            "Tenuki.dict.txt"@,
        ),
{
    let slot = resolve_slot_dir(config, base_dir, text_dir_names);
    join_path(slot.as_str(), "Tenuki.dict.txt")
}

/// `Tenuki.regex.txt` in the configured slot.
pub fn get_regex_dict_path(config: &Config, base_dir: &str, text_dir_names: &[String]) -> (r: String)
    requires
        slot_dir_resolvable(*config, base_dir@, strings_view(text_dir_names@)),
    ensures
        r@ == path_join(
            configured_slot_dir(*config, base_dir@, strings_view(text_dir_names@)),
            "Tenuki.regex.txt"@,
        ),
{
    let slot = resolve_slot_dir(config, base_dir, text_dir_names);
    join_path(slot.as_str(), "Tenuki.regex.txt")
}

/// `Tenuki.split.txt` in the configured slot.
pub fn get_split_dict_path(config: &Config, base_dir: &str, text_dir_names: &[String]) -> (r: String)
    requires
        slot_dir_resolvable(*config, base_dir@, strings_view(text_dir_names@)),
    ensures
        r@ == path_join(
            configured_slot_dir(*config, base_dir@, strings_view(text_dir_names@)),
            "Tenuki.split.txt"@,
        ),
{
    let slot = resolve_slot_dir(config, base_dir, text_dir_names);
    join_path(slot.as_str(), "Tenuki.split.txt")
}

/// The exact dictionary of the configured slot.
pub fn get_dict_path(config: &Config, base_dir: &str, text_dir_names: &[String]) -> (r: String)
    requires
        slot_dir_resolvable(*config, base_dir@, strings_view(text_dir_names@)),
    ensures
        r@ == path_join(
            configured_slot_dir(*config, base_dir@, strings_view(text_dir_names@)),
            "Tenuki.dict.txt"@,
        ),
{
    get_exact_dict_path(config, base_dir, text_dir_names)
}

/// `<base>\dicts\dict.bin`, the compiled dictionary.
pub fn get_bin_path(base_dir: &str) -> (r: String)
    ensures
        r@ == path_join(path_join(base_dir@, dicts_dir_name()), "dict.bin"@),
{
    let dicts = "dicts";
    proof {
        reveal_strlit("dicts");
    }
    let d = join_path(base_dir, dicts);
    join_path(d.as_str(), "dict.bin")
}

} // verus!
