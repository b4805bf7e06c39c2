//! Compiling the regex rules of a dictionary: one rule per pattern (the
//! last entry wins), in the order the entries were read.

use vstd::prelude::*;

use rustc_hash::FxHashMap;

use crate::slot::{file_name, file_name_of};
use crate::translator::persist::{compile_regex, regex_accepts};
use crate::translator::restore::{index_map_contents, index_map_get, index_map_insert, index_map_new};
use crate::translator::zm::{decimal, decimal_string};

verus! {

/// Where an entry was read: the file and its line.
#[derive(Debug, Clone)]
pub struct EntryOrigin {
    pub path: String,
    pub line_number: usize,
}

/// A regex rule as read from a rule file, with its place in reading order.
#[derive(Debug, Clone)]
pub struct RawRegexEntry {
    pub pattern: String,
    pub replacement: String,
    pub origin: EntryOrigin,
    pub order: u64,
}

/// A compiled regex rule.
pub struct RegexRule {
    pub pattern: regex::Regex,
    pub replacement: String,
    pub source_pattern: String,
}

/// What compiling the rules of a dictionary counts and reports.
#[derive(Debug, Clone, Default)]
pub struct DictBuildReport {
    pub duplicate_regex_dropped: usize,
    pub accepted_regex: usize,
    pub warnings: Vec<String>,
}

/// An earlier entry has the pattern of entry `i`.
pub open spec fn repeats_earlier(raw: Seq<RawRegexEntry>, i: int) -> bool {
    exists|j: int| 0 <= j < i && (#[trigger] raw[j]).pattern@ == raw[i].pattern@
}

/// No later entry has the pattern of entry `i`.
pub open spec fn last_of_pattern(raw: Seq<RawRegexEntry>, i: int) -> bool {
    forall|j: int| i < j < raw.len() ==> (#[trigger] raw[j]).pattern@ != raw[i].pattern@
}

/// How many entries repeat an earlier pattern.
pub open spec fn duplicate_count(raw: Seq<RawRegexEntry>, n: int) -> nat
    decreases n,
{
    if n <= 0 {
        0
    } else {
        duplicate_count(raw, n - 1) + if repeats_earlier(raw, n - 1) {
            1nat
        } else {
            0nat
        }
    }
}

/// The entries kept, one per pattern (the last), by position.
pub open spec fn kept_entries(raw: Seq<RawRegexEntry>, n: int) -> Seq<int>
    decreases n,
{
    if n <= 0 {
        Seq::empty()
    } else if last_of_pattern(raw, n - 1) {
        kept_entries(raw, n - 1).push(n - 1)
    } else {
        kept_entries(raw, n - 1)
    }
}

/// `s` with `x` placed before the first entry of a later order: the
/// stable insertion of `x` by order.
pub open spec fn insert_by_order(raw: Seq<RawRegexEntry>, s: Seq<int>, x: int) -> Seq<int>
    decreases s.len(),
{
    if s.len() == 0 {
        seq![x]
    } else if raw[s.last()].order <= raw[x].order {
        s.push(x)
    } else {
        insert_by_order(raw, s.drop_last(), x).push(s.last())
    }
}

/// The positions of `s` stably sorted by their entries' order.
pub open spec fn sort_by_order(raw: Seq<RawRegexEntry>, s: Seq<int>) -> Seq<int>
    decreases s.len(),
{
    if s.len() == 0 {
        s
    } else {
        insert_by_order(raw, sort_by_order(raw, s.drop_last()), s.last())
    }
}

/// The entries compiled, in order.
pub open spec fn compile_order(raw: Seq<RawRegexEntry>) -> Seq<int> {
    sort_by_order(raw, kept_entries(raw, raw.len() as int))
}

/// The warning for a pattern that does not compile.
pub open spec fn regex_warning(e: RawRegexEntry) -> Seq<char> {
    "× [REGEX] "@ + (match file_name(e.origin.path@) {
        Some(n) => n,
        None => "?"@,
    }) + ":"@ + decimal(e.origin.line_number as nat) + " regex error — "@ + e.pattern@
}

/// The rules (pattern and replacement) and warnings from compiling the
/// entries at the positions `ord`, in that order.
pub open spec fn compile_outcome(raw: Seq<RawRegexEntry>, ord: Seq<int>) -> (Seq<(Seq<char>, Seq<char>)>, Seq<Seq<char>>)
    decreases ord.len(),
{
    if ord.len() == 0 {
        (Seq::empty(), Seq::empty())
    } else {
        let (rules, warnings) = compile_outcome(raw, ord.drop_last());
        let e = raw[ord.last()];
        if regex_accepts(e.pattern@) {
            (rules.push((e.pattern@, e.replacement@)), warnings)
        } else {
            (rules, warnings.push(regex_warning(e)))
        }
    }
}

pub open spec fn rules_view(v: Seq<RegexRule>) -> Seq<(Seq<char>, Seq<char>)> {
    v.map_values(|r: RegexRule| (r.source_pattern@, r.replacement@))
}

pub open spec fn strings_view(v: Seq<String>) -> Seq<Seq<char>> {
    v.map_values(|s: String| s@)
}

/// `m` maps each pattern of the first `i` entries to the position of its
/// last entry among them.
pub open spec fn last_positions(m: Map<Seq<char>, usize>, raw: Seq<RawRegexEntry>, i: int) -> bool {
    &&& forall|j: int| 0 <= j < i ==> m.contains_key((#[trigger] raw[j]).pattern@)
    &&& forall|p: Seq<char>|
        #[trigger] m.contains_key(p) ==> m[p] < i && raw[m[p] as int].pattern@ == p && forall|j: int|
            m[p] < j < i ==> (#[trigger] raw[j]).pattern@ != p
}

proof fn lemma_insert_len(raw: Seq<RawRegexEntry>, s: Seq<int>, x: int)
    ensures
        insert_by_order(raw, s, x).len() == s.len() + 1,
    decreases s.len(),
{
    if s.len() > 0 && raw[s.last()].order > raw[x].order {
        lemma_insert_len(raw, s.drop_last(), x);
    }
}

/// Inserting into the first `p` entries when the entry at `p` comes after.
proof fn lemma_insert_at(raw: Seq<RawRegexEntry>, s: Seq<int>, x: int, p: int)
    requires
        0 <= p <= s.len(),
        p == s.len() || raw[s[p]].order > raw[x].order,
        forall|k: int| p < k < s.len() ==> raw[#[trigger] s[k]].order > raw[x].order,
        p == 0 || raw[s[p - 1]].order <= raw[x].order,
    ensures
        insert_by_order(raw, s, x) == s.insert(p, x),
    decreases s.len(),
{
    if s.len() == 0 {
        assert(s.insert(p, x) =~= seq![x]);
    } else if p == s.len() {
        assert(s.insert(p, x) =~= s.push(x));
    } else {
        lemma_insert_at(raw, s.drop_last(), x, p);
        assert(s.insert(p, x) =~= s.drop_last().insert(p, x).push(s.last()));
    }
}

fn entry_warning(e: &RawRegexEntry) -> (r: String)
    ensures
        r@ == regex_warning(*e),
{
    let mut w = "× [REGEX] ".to_string();
    match file_name_of(e.origin.path.as_str()) {
        Some(n) => w.append(n.as_str()),
        None => w.append("?"),
    }
    w.append(":");
    w.append(decimal_string(e.origin.line_number).as_str());
    w.append(" regex error — ");
    w.append(e.pattern.as_str());
    w
}

/// Compiles the regex entries: of entries with one pattern only the last
/// is kept, and each dropped one is counted; the kept ones are compiled
/// in order, those that do not compile reported as warnings.
pub fn compile_regex_entries(raw: &Vec<RawRegexEntry>, report: &mut DictBuildReport) -> (r: Vec<RegexRule>)
    requires
        old(report).duplicate_regex_dropped + raw@.len() <= usize::MAX,
    ensures
        final(report).duplicate_regex_dropped == old(report).duplicate_regex_dropped + duplicate_count(
            raw@,
            raw@.len() as int,
        ),
        rules_view(r@) == compile_outcome(raw@, compile_order(raw@)).0,
        strings_view(final(report).warnings@) == strings_view(old(report).warnings@) + compile_outcome(
            raw@,
            compile_order(raw@),
        ).1,
        final(report).accepted_regex == r@.len(),
{
    let n = raw.len();
    let mut by_pattern: FxHashMap<String, usize> = index_map_new();
    let mut i: usize = 0;
    let ghost start = report.duplicate_regex_dropped;
    assert(start == old(report).duplicate_regex_dropped);
    while i < n
        invariant
            i <= n == raw@.len(),
            start + n <= usize::MAX,
            report.duplicate_regex_dropped == start + duplicate_count(raw@, i as int),
            duplicate_count(raw@, i as int) <= i,
            last_positions(index_map_contents(by_pattern), raw@, i as int),
            strings_view(report.warnings@) == strings_view(old(report).warnings@),
        decreases n - i,
    {
        let seen = index_map_get(&by_pattern, raw[i].pattern.as_str()).is_some();
        if seen {
            report.duplicate_regex_dropped += 1;
        }
        assert(seen == repeats_earlier(raw@, i as int));
        index_map_insert(&mut by_pattern, raw[i].pattern.clone(), i);
        i += 1;
    }
    // The kept entries, by position.
    let mut kept: Vec<usize> = Vec::new();
    let mut k: usize = 0;
    while k < n
        invariant
            k <= n == raw@.len(),
            kept@.map_values(|x: usize| x as int) == kept_entries(raw@, k as int),
            forall|j: int| 0 <= j < kept@.len() ==> (#[trigger] kept@[j]) < k,
            last_positions(index_map_contents(by_pattern), raw@, n as int),
        decreases n - k,
    {
        let last = index_map_get(&by_pattern, raw[k].pattern.as_str());
        let ghost p = raw@[k as int].pattern@;
        assert(index_map_contents(by_pattern).contains_key(p));
        let is_last = match last {
            Some(v) => v == k,
            None => false,
        };
        assert(is_last == last_of_pattern(raw@, k as int)) by {
            let v = index_map_contents(by_pattern)[p];
            if v != k {
                if v < k {
                    assert(raw@[k as int].pattern@ == p);
                } else {
                    assert(raw@[v as int].pattern@ == p);
                }
            }
        }
        if is_last {
            kept.push(k);
        }
        assert(kept@.map_values(|x: usize| x as int) =~= kept_entries(raw@, k as int + 1));
        k += 1;
    }
    // Sorting the kept entries by order, stably.
    let ghost kv = kept_entries(raw@, n as int);
    let mut sorted: Vec<usize> = Vec::new();
    let mut m: usize = 0;
    while m < kept.len()
        invariant
            m <= kept@.len(),
            kept@.map_values(|x: usize| x as int) == kv,
            forall|j: int| 0 <= j < kept@.len() ==> (#[trigger] kept@[j]) < raw@.len(),
            sorted@.map_values(|x: usize| x as int) == sort_by_order(raw@, kv.take(m as int)),
            forall|j: int| 0 <= j < sorted@.len() ==> (#[trigger] sorted@[j]) < raw@.len(),
            forall|a: int, b: int|
                0 <= a < b < sorted@.len() ==> raw@[sorted@[a] as int].order <= raw@[sorted@[b] as int].order,
        decreases kept.len() - m,
    {
        let x = kept[m];
        let mut p: usize = sorted.len();
        while p > 0 && raw[sorted[p - 1]].order > raw[x].order
            invariant
                p <= sorted@.len(),
                x < raw@.len(),
                forall|j: int| 0 <= j < sorted@.len() ==> (#[trigger] sorted@[j]) < raw@.len(),
                forall|q: int| p <= q < sorted@.len() ==> raw@[(#[trigger] sorted@[q]) as int].order > raw@[x as int].order,
            decreases p,
        {
            p -= 1;
        }
        let ghost sv = sorted@.map_values(|y: usize| y as int);
        proof {
            lemma_insert_at(raw@, sv, x as int, p as int);
            assert(kv.take(m as int + 1).drop_last() =~= kv.take(m as int));
            assert(kv.take(m as int + 1).last() == x as int);
        }
        sorted.insert(p, x);
        assert(sorted@.map_values(|y: usize| y as int) =~= sv.insert(p as int, x as int));
        m += 1;
    }
    assert(kv.take(kept@.len() as int) =~= kv);
    // Compiling in that order.
    let ghost ord = compile_order(raw@);
    let ghost w0 = strings_view(report.warnings@);
    let mut rules: Vec<RegexRule> = Vec::new();
    let mut t: usize = 0;
    while t < sorted.len()
        invariant
            t <= sorted@.len(),
            sorted@.map_values(|x: usize| x as int) == ord,
            forall|j: int| 0 <= j < sorted@.len() ==> (#[trigger] sorted@[j]) < raw@.len(),
            rules_view(rules@) == compile_outcome(raw@, ord.take(t as int)).0,
            strings_view(report.warnings@) == w0 + compile_outcome(raw@, ord.take(t as int)).1,
            rules@.len() <= t,
            report.duplicate_regex_dropped == old(report).duplicate_regex_dropped + duplicate_count(
                raw@,
                raw@.len() as int,
            ),
        decreases sorted.len() - t,
    {
        let e = &raw[sorted[t]];
        assert(ord.take(t as int + 1).drop_last() =~= ord.take(t as int));
        assert(ord.take(t as int + 1).last() == sorted@[t as int] as int);
        match compile_regex(e.pattern.as_str()) {
            Some(re) => {
                let ghost before = rules_view(rules@);
                rules.push(RegexRule { pattern: re, replacement: e.replacement.clone(), source_pattern: e.pattern.clone() });
                assert(rules_view(rules@) =~= before.push((e.pattern@, e.replacement@)));
            },
            None => {
                let w = entry_warning(e);
                let ghost before = strings_view(report.warnings@);
                report.warnings.push(w);
                assert(strings_view(report.warnings@) =~= before.push(w@));
            },
        }
        t += 1;
    }
    assert(ord.take(sorted@.len() as int) =~= ord);
    report.accepted_regex = rules.len();
    rules
}


/// The orders of the entries at `s` do not decrease.
pub open spec fn orders_ascend(raw: Seq<RawRegexEntry>, s: Seq<int>) -> bool {
    forall|a: int, b: int| 0 <= a < b < s.len() ==> raw[s[a]].order <= raw[s[b]].order
}

proof fn lemma_insert_by_order(raw: Seq<RawRegexEntry>, s: Seq<int>, x: int)
    requires
        orders_ascend(raw, s),
    ensures
        orders_ascend(raw, insert_by_order(raw, s, x)),
        insert_by_order(raw, s, x).to_multiset() == s.to_multiset().insert(x),
        forall|i: int|
            0 <= i < insert_by_order(raw, s, x).len() ==> (#[trigger] insert_by_order(raw, s, x)[i]
                == x || s.contains(insert_by_order(raw, s, x)[i])),
        insert_by_order(raw, s, x).len() == s.len() + 1,
    decreases s.len(),
{
    broadcast use vstd::multiset::group_multiset_axioms;

    if s.len() == 0 {
        assert(seq![x] =~= s.push(x));
        vstd::seq_lib::to_multiset_build(s, x);
    } else if raw[s.last()].order <= raw[x].order {
        vstd::seq_lib::to_multiset_build(s, x);
        assert forall|i: int| 0 <= i < s.push(x).len() implies (#[trigger] s.push(x)[i] == x
            || s.contains(s.push(x)[i])) by {
            if i < s.len() {
                assert(s.push(x)[i] == s[i]);
            }
        }
    } else {
        let d = s.drop_last();
        assert(orders_ascend(raw, d));
        lemma_insert_by_order(raw, d, x);
        let r1 = insert_by_order(raw, d, x);
        let r = r1.push(s.last());
        assert(insert_by_order(raw, s, x) == r);
        vstd::seq_lib::to_multiset_build(r1, s.last());
        vstd::seq_lib::to_multiset_build(d, s.last());
        assert(d.push(s.last()) =~= s);
        assert(r.to_multiset() =~= s.to_multiset().insert(x));
        assert forall|i: int| 0 <= i < r.len() implies (#[trigger] r[i] == x || s.contains(r[i])) by {
            if i < r1.len() {
                assert(r[i] == r1[i]);
                if r1[i] != x {
                    let k = choose|k: int| 0 <= k < d.len() && d[k] == r1[i];
                    assert(s[k] == d[k]);
                }
            } else {
                assert(s[s.len() - 1] == r[i]);
            }
        }
        assert forall|a: int, b: int| 0 <= a < b < r.len() implies raw[r[a]].order <= raw[r[b]].order by {
            if b == r.len() - 1 {
                assert(r[b] == s.last());
                assert(r[a] == r1[a]);
                if r1[a] == x {
                } else {
                    let k = choose|k: int| 0 <= k < d.len() && d[k] == r1[a];
                    assert(s[k] == d[k]);
                }
            } else {
                assert(r[a] == r1[a] && r[b] == r1[b]);
            }
        }
    }
}

proof fn lemma_sort_by_order(raw: Seq<RawRegexEntry>, s: Seq<int>)
    ensures
        orders_ascend(raw, sort_by_order(raw, s)),
        sort_by_order(raw, s).to_multiset() == s.to_multiset(),
    decreases s.len(),
{
    broadcast use vstd::multiset::group_multiset_axioms;

    if s.len() == 0 {
    } else {
        lemma_sort_by_order(raw, s.drop_last());
        lemma_insert_by_order(raw, sort_by_order(raw, s.drop_last()), s.last());
        vstd::seq_lib::to_multiset_build(s.drop_last(), s.last());
        assert(s.drop_last().push(s.last()) =~= s);
    }
}

proof fn lemma_kept_entries(raw: Seq<RawRegexEntry>, n: int)
    requires
        0 <= n <= raw.len(),
    ensures
        forall|a: int|
            0 <= a < kept_entries(raw, n).len() ==> 0 <= #[trigger] kept_entries(raw, n)[a] < n
                && last_of_pattern(raw, kept_entries(raw, n)[a]),
        forall|a: int, b: int|
            0 <= a < b < kept_entries(raw, n).len() ==> kept_entries(raw, n)[a] < kept_entries(
                raw,
                n,
            )[b],
        forall|j: int| 0 <= j < n && last_of_pattern(raw, j) ==> kept_entries(raw, n).contains(j),
    decreases n,
{
    if n > 0 {
        lemma_kept_entries(raw, n - 1);
        let k = kept_entries(raw, n - 1);
        if last_of_pattern(raw, n - 1) {
            assert(kept_entries(raw, n) == k.push(n - 1));
            assert forall|j: int| 0 <= j < n && last_of_pattern(raw, j) implies kept_entries(
                raw,
                n,
            ).contains(j) by {
                if j == n - 1 {
                    assert(k.push(n - 1)[k.len() as int] == j);
                } else {
                    let a = choose|a: int| 0 <= a < k.len() && k[a] == j;
                    assert(k.push(n - 1)[a] == j);
                }
            }
        }
    }
}

proof fn lemma_ord_members(raw: Seq<RawRegexEntry>)
    ensures
        forall|a: int|
            0 <= a < compile_order(raw).len() ==> 0 <= #[trigger] compile_order(raw)[a] < raw.len()
                && last_of_pattern(raw, compile_order(raw)[a]),
{
    let n = raw.len() as int;
    let kept = kept_entries(raw, n);
    let ord = compile_order(raw);
    lemma_kept_entries(raw, n);
    lemma_sort_by_order(raw, kept);
    assert forall|a: int| 0 <= a < ord.len() implies 0 <= #[trigger] ord[a] < raw.len()
        && last_of_pattern(raw, ord[a]) by {
        vstd::seq_lib::to_multiset_contains(ord, ord[a]);
        vstd::seq_lib::to_multiset_contains(kept, ord[a]);
        let k = choose|k: int| 0 <= k < kept.len() && kept[k] == ord[a];
    }
}

proof fn lemma_ord_covers(raw: Seq<RawRegexEntry>)
    ensures
        forall|j: int|
            #![trigger raw[j]]
            0 <= j < raw.len() ==> exists|a: int|
                0 <= a < compile_order(raw).len() && raw[#[trigger] compile_order(raw)[a]].pattern@
                    == raw[j].pattern@,
{
    let n = raw.len() as int;
    let kept = kept_entries(raw, n);
    let ord = compile_order(raw);
    lemma_kept_entries(raw, n);
    lemma_sort_by_order(raw, kept);
    assert forall|j: int| #![trigger raw[j]] 0 <= j < raw.len() implies exists|a: int|
        0 <= a < ord.len() && raw[#[trigger] ord[a]].pattern@ == raw[j].pattern@ by {
        let l = lemma_last_of_pattern_exists(raw, j);
        assert(kept.contains(l));
        vstd::seq_lib::to_multiset_contains(kept, l);
        vstd::seq_lib::to_multiset_contains(ord, l);
        let a = choose|a: int| 0 <= a < ord.len() && ord[a] == l;
        assert(raw[ord[a]].pattern@ == raw[j].pattern@);
    }
}

proof fn lemma_ord_distinct(raw: Seq<RawRegexEntry>)
    ensures
        compile_order(raw).no_duplicates(),
{
    let n = raw.len() as int;
    let kept = kept_entries(raw, n);
    let ord = compile_order(raw);
    lemma_kept_entries(raw, n);
    lemma_sort_by_order(raw, kept);
    assert(kept.no_duplicates()) by {
        assert forall|x: int, y: int|
            0 <= x < kept.len() && 0 <= y < kept.len() && x != y implies kept[x] != kept[y] by {
            if x < y {
                assert(kept[x] < kept[y]);
            } else {
                assert(kept[y] < kept[x]);
            }
        }
    }
    kept.lemma_multiset_has_no_duplicates();
    ord.lemma_multiset_has_no_duplicates_conv();
}

/// Compiling keeps one entry per pattern, the last one read with it,
/// drops none of the patterns, and compiles the kept entries in reading
/// order.
pub proof fn lemma_compile_order(raw: Seq<RawRegexEntry>)
    ensures
        forall|a: int|
            0 <= a < compile_order(raw).len() ==> 0 <= #[trigger] compile_order(raw)[a] < raw.len()
                && last_of_pattern(raw, compile_order(raw)[a]),
        forall|j: int|
            #![trigger raw[j]]
            0 <= j < raw.len() ==> exists|a: int|
                0 <= a < compile_order(raw).len() && raw[#[trigger] compile_order(raw)[a]].pattern@
                    == raw[j].pattern@,
        forall|a: int, b: int|
            0 <= a < b < compile_order(raw).len() ==> raw[#[trigger] compile_order(raw)[a]].pattern@
                != raw[#[trigger] compile_order(raw)[b]].pattern@,
        orders_ascend(raw, compile_order(raw)),
{
    let ord = compile_order(raw);
    lemma_ord_members(raw);
    lemma_ord_covers(raw);
    lemma_ord_distinct(raw);
    lemma_sort_by_order(raw, kept_entries(raw, raw.len() as int));
    assert forall|a: int, b: int| 0 <= a < b < ord.len() implies raw[#[trigger] ord[a]].pattern@
        != raw[#[trigger] ord[b]].pattern@ by {
        assert(ord[a] != ord[b]);
        assert(last_of_pattern(raw, ord[a]) && last_of_pattern(raw, ord[b]));
        if ord[a] < ord[b] {
            assert(raw[ord[b]].pattern@ != raw[ord[a]].pattern@);
        } else {
            assert(raw[ord[a]].pattern@ != raw[ord[b]].pattern@);
        }
    }
}

/// An entry's pattern is last read at some entry at or after it.
proof fn lemma_last_of_pattern_exists(raw: Seq<RawRegexEntry>, j: int) -> (l: int)
    requires
        0 <= j < raw.len(),
    ensures
        j <= l < raw.len(),
        raw[l].pattern@ == raw[j].pattern@,
        last_of_pattern(raw, l),
    decreases raw.len() - j,
{
    if last_of_pattern(raw, j) {
        j
    } else {
        let m = choose|m: int| j < m < raw.len() && (#[trigger] raw[m]).pattern@ == raw[j].pattern@;
        lemma_last_of_pattern_exists(raw, m)
    }
}

} // verus!
