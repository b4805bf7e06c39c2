//! Lines of the regex and split rule files.

use vstd::prelude::*;

use crate::normalize::{lowercase, to_lowercase};
use crate::slot::{chars_eq_ignore_ascii_case, eq_ignore_ascii_case, file_name, file_name_of};
use crate::text::{
    chars_of, contains_chars, contains_seq, matches_at, occurs_at, slice_string, string_of, trim,
    trim_chars,
};
use crate::translator::persist::{compile_regex, regex_accepts};
use crate::translator::zm::{decimal, decimal_string};

verus! {

/// The regex rule file is `Tenuki.regex.txt`, in any letter case.
pub open spec fn regex_file_spec(path: Seq<char>) -> bool {
    match file_name(path) {
        Some(n) => eq_ignore_ascii_case(n, "Tenuki.regex.txt"@),
        None => false,
    }
}

pub fn is_tenuki_regex_file(path: &str) -> (r: bool)
    ensures
        r == regex_file_spec(path@),
{
    match file_name_of(path) {
        Some(n) => chars_eq_ignore_ascii_case(&chars_of(n.as_str()), &chars_of("Tenuki.regex.txt")),
        None => false,
    }
}

/// Split rule files are named `tenuki.split*.txt`, in any letter case.
pub open spec fn split_file_spec(path: Seq<char>) -> bool {
    match file_name(path) {
        Some(n) => {
            let l = lowercase(n);
            occurs_at(l, "tenuki.split"@, 0) && l.len() >= 4 && l.skip(l.len() - 4) == ".txt"@
        },
        None => false,
    }
}

pub fn is_tenuki_split_file(path: &str) -> (r: bool)
    ensures
        r == split_file_spec(path@),
{
    proof {
        reveal_strlit(".txt");
    }
    match file_name_of(path) {
        Some(n) => {
            let l = chars_of(to_lowercase(n.as_str()).as_str());
            let starts = matches_at(&l, &chars_of("tenuki.split"), 0);
            let ends = l.len() >= 4 && matches_at(&l, &chars_of(".txt"), l.len() - 4);
            proof {
                if l@.len() >= 4 {
                    assert(occurs_at(l@, ".txt"@, l@.len() - 4) <==> l@.skip(l@.len() - 4) == ".txt"@) by {
                        assert(l@.subrange(l@.len() - 4, l@.len() - 4 + 4) =~= l@.skip(l@.len() - 4));
                    }
                }
            }
            starts && ends
        },
        None => false,
    }
}

/// The first `"` of `s` at or after `from`.
pub open spec fn first_quote_from(s: Seq<char>, from: int) -> Option<int>
    decreases s.len() - from,
{
    if from < 0 || from >= s.len() {
        None
    } else if s[from] == '"' {
        Some(from)
    } else {
        first_quote_from(s, from + 1)
    }
}

proof fn lemma_first_quote_bounds(s: Seq<char>, from: int)
    ensures
        first_quote_from(s, from) matches Some(i) ==> from <= i < s.len() && s[i] == '"',
    decreases s.len() - from,
{
    if 0 <= from < s.len() && s[from] != '"' {
        lemma_first_quote_bounds(s, from + 1);
    }
}

fn find_quote(s: &[char], from: usize) -> (r: Option<usize>)
    requires
        from <= s@.len(),
    ensures
        match r {
            Some(i) => first_quote_from(s@, from as int) == Some(i as int),
            None => first_quote_from(s@, from as int) is None,
        },
{
    let mut i = from;
    while i < s.len()
        invariant
            from <= i <= s@.len(),
            first_quote_from(s@, from as int) == first_quote_from(s@, i as int),
        decreases s.len() - i,
    {
        if s[i] == '"' {
            return Some(i);
        }
        i += 1;
    }
    None
}

/// A rule line `p:"pattern"=replacement` with the prefix `p` given: the
/// pattern up to the first quote after the opening one, and what follows
/// the `=` after it. Without `=` the line is no rule, unless a missing
/// replacement is allowed, when it is empty.
pub open spec fn rule_line(line: Seq<char>, prefix: Seq<char>, optional_replacement: bool) -> Option<
    (Seq<char>, Seq<char>),
> {
    if !occurs_at(line, prefix, 0) {
        None
    } else {
        match first_quote_from(line, prefix.len() as int) {
            None => None,
            Some(q) => {
                let pattern = line.subrange(prefix.len() as int, q);
                let rest = line.skip(q + 1);
                if rest.len() > 0 && rest[0] == '=' {
                    Some((pattern, rest.skip(1)))
                } else if optional_replacement {
                    Some((pattern, seq![]))
                } else {
                    None
                }
            },
        }
    }
}

pub open spec fn pair_view(r: Option<(String, String)>) -> Option<(Seq<char>, Seq<char>)> {
    match r {
        Some((a, b)) => Some((a@, b@)),
        None => None,
    }
}

fn parse_rule_line(line: &str, prefix: &str, optional_replacement: bool) -> (r: Option<(String, String)>)
    ensures
        pair_view(r) == rule_line(line@, prefix@, optional_replacement),
{
    let l = chars_of(line);
    let p = chars_of(prefix);
    if !matches_at(&l, &p, 0) {
        return None;
    }
    let q = match find_quote(&l, p.len()) {
        Some(q) => q,
        None => {
            return None;
        },
    };
    proof {
        lemma_first_quote_bounds(l@, p@.len() as int);
    }
    let pattern = slice_string(&l, p.len(), q);
    assert(q < l@.len() && l@.len() == l.len());
    if q + 1 < l.len() && l[q + 1] == '=' {
        let replacement = slice_string(&l, q + 2, l.len());
        assert(l@.skip(q as int + 1).skip(1) =~= l@.subrange(q as int + 2, l@.len() as int));
        Some((pattern, replacement))
    } else if optional_replacement {
        Some((pattern, String::new()))
    } else {
        None
    }
}

/// A regex rule line: `r:"pattern"=replacement`.
pub fn try_parse_regex_rule(line: &str) -> (r: Option<(String, String)>)
    ensures
        pair_view(r) == rule_line(line@, "r:\""@, false),
{
    parse_rule_line(line, "r:\"", false)
}

/// A split rule line: `s:"pattern"=replacement`, or `s:"pattern"` with an
/// empty replacement.
pub fn try_parse_split_rule(line: &str) -> (r: Option<(String, String)>)
    ensures
        pair_view(r) == rule_line(line@, "s:\""@, true),
{
    parse_rule_line(line, "s:\"", true)
}

/// A compiled split rule.
pub struct SplitRule {
    pub pattern: regex::Regex,
    pub replacement: String,
    pub source_pattern: String,
}

/// The first line of a file without its byte order mark.
pub open spec fn without_bom(line: Seq<char>, first: bool) -> Seq<char> {
    if first && line.len() > 0 && line[0] == '\u{feff}' {
        line.skip(1)
    } else {
        line
    }
}

pub open spec fn warning_prefix(file: Seq<char>, line_number: int) -> Seq<char> {
    "× [SPLIT] "@ + file + ":"@ + decimal(line_number as nat)
}

/// What one line of a split rule file gives: a rule (with a warning
/// first where the replacement holds a fullwidth `$`), a warning, or
/// nothing for a blank or other line.
pub open spec fn split_line_outcome(file: Seq<char>, line_number: int, line: Seq<char>) -> (Option<
    (Seq<char>, Seq<char>),
>, Seq<Seq<char>>) {
    if trim(line).len() == 0 {
        (None, seq![])
    } else {
        match rule_line(line, "s:\""@, true) {
            Some((pattern, replacement)) => {
                let w1: Seq<Seq<char>> = if replacement.contains('\u{ff04}') {
                    seq![warning_prefix(file, line_number) + " fullwidth $ in replacement"@]
                } else {
                    seq![]
                };
                if regex_accepts(pattern) {
                    (Some((pattern, replacement)), w1)
                } else {
                    (None, w1.push(warning_prefix(file, line_number) + " regex error — "@ + pattern))
                }
            },
            None => if line.len() > 0 && line[0] == 's' {
                (None, seq![warning_prefix(file, line_number) + " parse error — "@ + line])
            } else {
                (None, seq![])
            },
        }
    }
}

fn warning_head(file: &str, line_number: usize) -> (r: String)
    ensures
        r@ == warning_prefix(file@, line_number as int),
{
    let mut s = "× [SPLIT] ".to_string();
    s.append(file);
    s.append(":");
    s.append(decimal_string(line_number).as_str());
    s
}

/// Reads one line of a split rule file.
pub fn read_split_line(file: &str, line_number: usize, line: &str) -> (r: (Option<SplitRule>, Vec<String>))
    ensures
        ({
            let (rule, warnings) = split_line_outcome(file@, line_number as int, line@);
            &&& warnings == r.1@.map_values(|w: String| w@)
            &&& match rule {
                Some((p, rep)) => r.0 matches Some(sr) && sr.source_pattern@ == p && sr.replacement@ == rep,
                None => r.0 is None,
            }
        }),
{
    let mut warnings: Vec<String> = Vec::new();
    if trim_chars(&chars_of(line)).len() == 0 {
        assert(warnings@.map_values(|w: String| w@) =~= seq![]);
        return (None, warnings);
    }
    match try_parse_split_rule(line) {
        Some((pattern, replacement)) => {
            let rc = chars_of(replacement.as_str());
            let mut has_fullwidth_dollar = false;
            let mut i: usize = 0;
            while i < rc.len()
                invariant
                    i <= rc@.len(),
                    has_fullwidth_dollar == exists|j: int| 0 <= j < i && rc@[j] == '\u{ff04}',
                decreases rc.len() - i,
            {
                if rc[i] == '\u{ff04}' {
                    has_fullwidth_dollar = true;
                }
                i += 1;
            }
            assert(has_fullwidth_dollar == replacement@.contains('\u{ff04}'));
            if has_fullwidth_dollar {
                let mut w = warning_head(file, line_number);
                w.append(" fullwidth $ in replacement");
                warnings.push(w);
            }
            let ghost w1 = warnings@.map_values(|w: String| w@);
            match compile_regex(pattern.as_str()) {
                Some(re) => {
                    assert(warnings@.map_values(|w: String| w@) =~= w1);
                    (Some(SplitRule { pattern: re, replacement, source_pattern: pattern }), warnings)
                },
                None => {
                    let mut w = warning_head(file, line_number);
                    w.append(" regex error — ");
                    w.append(pattern.as_str());
                    let ghost before = warnings@;
                    warnings.push(w);
                    assert(warnings@.map_values(|w: String| w@) =~= w1.push(w@));
                    (None, warnings)
                },
            }
        },
        None => {
            let lc = chars_of(line);
            if lc.len() > 0 && lc[0] == 's' {
                let mut w = warning_head(file, line_number);
                w.append(" parse error — ");
                w.append(line);
                warnings.push(w);
                assert(warnings@.map_values(|x: String| x@) =~= seq![w@]);
            } else {
                assert(warnings@.map_values(|x: String| x@) =~= seq![]);
            }
            (None, warnings)
        },
    }
}


pub open spec fn split_rules_view(v: Seq<SplitRule>) -> Seq<(Seq<char>, Seq<char>)> {
    v.map_values(|r: SplitRule| (r.source_pattern@, r.replacement@))
}

pub open spec fn texts_view(v: Seq<String>) -> Seq<Seq<char>> {
    v.map_values(|s: String| s@)
}

/// The rules and warnings of the first `n` lines of a split rule file.
/// Lines that could not be read (`None`) are skipped but counted; the
/// first line loses its byte order mark.
pub open spec fn split_file_outcome(file: Seq<char>, lines: Seq<Option<Seq<char>>>, n: int) -> (Seq<
    (Seq<char>, Seq<char>),
>, Seq<Seq<char>>)
    decreases n,
{
    if n <= 0 {
        (Seq::empty(), Seq::empty())
    } else {
        let (rules, warnings) = split_file_outcome(file, lines, n - 1);
        match lines[n - 1] {
            None => (rules, warnings),
            Some(line) => {
                let (rule, ws) = split_line_outcome(file, n, without_bom(line, n == 1));
                (
                    match rule {
                        Some(r) => rules.push(r),
                        None => rules,
                    },
                    warnings + ws,
                )
            },
        }
    }
}

pub open spec fn opt_lines_view(v: Seq<Option<String>>) -> Seq<Option<Seq<char>>> {
    v.map_values(|l: Option<String>| match l {
        Some(s) => Some(s@),
        None => None,
    })
}

fn strip_bom(line: &str, first: bool) -> (r: String)
    ensures
        r@ == without_bom(line@, first),
{
    let cs = chars_of(line);
    if first && cs.len() > 0 && cs[0] == '\u{feff}' {
        slice_string(&cs, 1, cs.len())
    } else {
        line.to_string()
    }
}

/// Reads the lines of one split rule file, named `file`, adding its rules
/// and warnings.
pub fn read_split_lines(file: &str, lines: &Vec<Option<String>>, rules: &mut Vec<SplitRule>, warnings: &mut Vec<String>)
    requires
        lines@.len() < usize::MAX,
    ensures
        split_rules_view(final(rules)@) == split_rules_view(old(rules)@) + split_file_outcome(
            file@,
            opt_lines_view(lines@),
            lines@.len() as int,
        ).0,
        texts_view(final(warnings)@) == texts_view(old(warnings)@) + split_file_outcome(
            file@,
            opt_lines_view(lines@),
            lines@.len() as int,
        ).1,
{
    let ghost lv = opt_lines_view(lines@);
    let ghost r0 = split_rules_view(rules@);
    let ghost w0 = texts_view(warnings@);
    let mut i: usize = 0;
    while i < lines.len()
        invariant
            i <= lines@.len() < usize::MAX,
            lv == opt_lines_view(lines@),
            split_rules_view(rules@) == r0 + split_file_outcome(file@, lv, i as int).0,
            texts_view(warnings@) == w0 + split_file_outcome(file@, lv, i as int).1,
        decreases lines.len() - i,
    {
        match &lines[i] {
            None => {},
            Some(line) => {
                let l = strip_bom(line.as_str(), i == 0);
                let (rule, ws) = read_split_line(file, i + 1, l.as_str());
                let ghost rb = split_rules_view(rules@);
                match rule {
                    Some(r) => {
                        rules.push(r);
                        assert(split_rules_view(rules@) =~= rb.push((rules@.last().source_pattern@, rules@.last().replacement@)));
                    },
                    None => {},
                }
                let ghost wb = texts_view(warnings@);
                let mut k: usize = 0;
                while k < ws.len()
                    invariant
                        k <= ws@.len(),
                        texts_view(warnings@) == wb + texts_view(ws@).take(k as int),
                    decreases ws.len() - k,
                {
                    let ghost before = texts_view(warnings@);
                    let w = ws[k].clone();
                    assert(w@ == ws@[k as int]@);
                    warnings.push(w);
                    assert(texts_view(warnings@) =~= before.push(w@));
                    assert(texts_view(ws@).take(k as int + 1) =~= texts_view(ws@).take(k as int).push(w@));
                    assert(texts_view(warnings@) =~= wb + texts_view(ws@).take(k as int + 1));
                    k += 1;
                }
                assert(texts_view(ws@).take(ws@.len() as int) =~= texts_view(ws@));
                assert(ws@.map_values(|w: String| w@) =~= texts_view(ws@));
            },
        }
        i += 1;
    }
}

/// The byte length of a rule's pattern, by which rules are ordered.
pub open spec fn pattern_len(r: SplitRule) -> nat {
    vstd::utf8::encode_utf8(r.source_pattern@).len()
}

/// `s` with `x` placed after every rule whose pattern is at least as long:
/// the stable insertion of `x` by descending pattern length.
pub open spec fn insert_by_len(s: Seq<SplitRule>, x: SplitRule) -> Seq<SplitRule>
    decreases s.len(),
{
    if s.len() == 0 {
        seq![x]
    } else if pattern_len(s.last()) >= pattern_len(x) {
        s.push(x)
    } else {
        insert_by_len(s.drop_last(), x).push(s.last())
    }
}

/// The rules stably sorted by descending pattern length.
pub open spec fn sort_by_len(s: Seq<SplitRule>) -> Seq<SplitRule>
    decreases s.len(),
{
    if s.len() == 0 {
        s
    } else {
        insert_by_len(sort_by_len(s.drop_last()), s.last())
    }
}

proof fn lemma_insert_by_len_at(s: Seq<SplitRule>, x: SplitRule, p: int)
    requires
        0 <= p <= s.len(),
        forall|k: int| p <= k < s.len() ==> pattern_len(#[trigger] s[k]) < pattern_len(x),
        p == 0 || pattern_len(s[p - 1]) >= pattern_len(x),
    ensures
        insert_by_len(s, x) == s.insert(p, x),
    decreases s.len(),
{
    if s.len() == 0 {
        assert(s.insert(p, x) =~= seq![x]);
    } else if p == s.len() {
        assert(s.insert(p, x) =~= s.push(x));
    } else {
        lemma_insert_by_len_at(s.drop_last(), x, p);
        assert(s.insert(p, x) =~= s.drop_last().insert(p, x).push(s.last()));
    }
}

fn rule_len(r: &SplitRule) -> (n: usize)
    ensures
        n == pattern_len(*r),
{
    r.source_pattern.as_str().as_bytes().len()
}

/// Orders the rules longest pattern first, keeping the reading order among
/// patterns of one length.
pub fn sort_split_rules(rules: Vec<SplitRule>) -> (r: Vec<SplitRule>)
    ensures
        r@ == sort_by_len(rules@),
        forall|a: int, b: int| 0 <= a < b < r@.len() ==> pattern_len(r@[a]) >= pattern_len(r@[b]),
        r@.to_multiset() == rules@.to_multiset(),
{
    let ghost orig = rules@;
    assert(orig.len() == rules.len());
    let mut input = rules;
    let mut sorted: Vec<SplitRule> = Vec::new();
    let mut m: usize = 0;
    assert(sorted@ =~= orig.take(0));
    while input.len() > 0
        invariant
            m + input@.len() == orig.len(),
            orig.len() <= usize::MAX,
            input@ == orig.skip(m as int),
            sorted@ == sort_by_len(orig.take(m as int)),
            forall|a: int, b: int|
                0 <= a < b < sorted@.len() ==> pattern_len(sorted@[a]) >= pattern_len(sorted@[b]),
            sorted@.to_multiset() == orig.take(m as int).to_multiset(),
        decreases input.len(),
    {
        let x = input.remove(0);
        assert(x == orig[m as int]);
        let n = rule_len(&x);
        let mut p: usize = sorted.len();
        while p > 0 && rule_len(&sorted[p - 1]) < n
            invariant
                p <= sorted@.len(),
                n == pattern_len(x),
                forall|q: int| p <= q < sorted@.len() ==> pattern_len(#[trigger] sorted@[q]) < n,
            decreases p,
        {
            p -= 1;
        }
        proof {
            lemma_insert_by_len_at(sorted@, x, p as int);
            assert(orig.take(m as int + 1).drop_last() =~= orig.take(m as int));
            assert(orig.take(m as int + 1).last() == x);
            vstd::seq_lib::to_multiset_insert(sorted@, p as int, x);
            assert(orig.take(m as int + 1) =~= orig.take(m as int).push(x));
            vstd::seq_lib::to_multiset_build(orig.take(m as int), x);
        }
        sorted.insert(p, x);
        assert(input@ =~= orig.skip(m as int + 1));
        m += 1;
    }
    assert(orig.take(m as int) =~= orig);
    sorted
}
} // verus!
