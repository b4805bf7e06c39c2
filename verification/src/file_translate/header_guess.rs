//! Whether the first record of a delimited table looks like a header row:
//! header-like words, distinct names, and more text and fewer numbers than
//! the record after it.

use vstd::prelude::*;

use crate::normalize::{lowercase, to_lowercase};
use crate::text::{chars_of, chars_equal, count_char, count_occurrences, string_of, trim, trim_chars};
use crate::file_translate::types::{rows_view, strs_view};

verus! {

/// CJK ideographs (with extension A), kana and Hangul syllables.
pub open spec fn cjk_char(c: char) -> bool {
    let u = c as u32;
    ||| 0x4E00 <= u <= 0x9FFF
    ||| 0x3400 <= u <= 0x4DBF
    ||| 0x3040 <= u <= 0x30FF
    ||| 0xAC00 <= u <= 0xD7AF
}

pub fn is_cjk(ch: char) -> (r: bool)
    ensures
        r == cjk_char(ch),
{
    let u = ch as u32;
    (0x4E00 <= u && u <= 0x9FFF) || (0x3400 <= u && u <= 0x4DBF) || (0x3040 <= u && u <= 0x30FF)
        || (0xAC00 <= u && u <= 0xD7AF)
}

pub open spec fn ascii_alpha(c: char) -> bool {
    ('a' <= c && c <= 'z') || ('A' <= c && c <= 'Z')
}

/// The cell holds an ASCII letter or a CJK character.
pub open spec fn textish(s: Seq<char>) -> bool {
    exists|i: int| 0 <= i < s.len() && (ascii_alpha(#[trigger] s[i]) || cjk_char(s[i]))
}

pub fn is_textish(cell: &str) -> (r: bool)
    ensures
        r == textish(cell@),
{
    let cs = chars_of(cell);
    let mut i: usize = 0;
    while i < cs.len()
        invariant
            i <= cs@.len(),
            cs@ == cell@,
            forall|j: int| 0 <= j < i ==> !(ascii_alpha(#[trigger] cs@[j]) || cjk_char(cs@[j])),
        decreases cs.len() - i,
    {
        let c = cs[i];
        if ('a' <= c && c <= 'z') || ('A' <= c && c <= 'Z') || is_cjk(c) {
            return true;
        }
        i += 1;
    }
    false
}

pub open spec fn digit(c: char) -> bool {
    '0' <= c && c <= '9'
}

pub open spec fn ascii_lower(c: char) -> char {
    if 'A' <= c && c <= 'Z' {
        ((c as u32) + 32) as char
    } else {
        c
    }
}

/// `s` without a leading `+` or `-`.
pub open spec fn unsigned_part(s: Seq<char>) -> Seq<char> {
    if s.len() > 0 && (s[0] == '+' || s[0] == '-') {
        s.skip(1)
    } else {
        s
    }
}

/// Digits with at most one `.` among them, and at least one digit.
pub open spec fn mantissa_ok(m: Seq<char>) -> bool {
    &&& forall|i: int| 0 <= i < m.len() ==> digit(#[trigger] m[i]) || m[i] == '.'
    &&& count_char(m, '.') <= 1
    &&& m.len() > count_char(m, '.')
}

/// A sign, then at least one digit.
pub open spec fn exponent_ok(x: Seq<char>) -> bool {
    let d = unsigned_part(x);
    d.len() > 0 && forall|i: int| 0 <= i < d.len() ==> digit(#[trigger] d[i])
}

/// The position of the first `e` in `t` from `i`, or its length.
pub open spec fn first_e(t: Seq<char>, i: int) -> int
    decreases t.len() - i,
{
    if i >= t.len() {
        t.len() as int
    } else if t[i] == 'e' {
        i
    } else {
        first_e(t, i + 1)
    }
}

/// A decimal number: a mantissa, then optionally `e` and an exponent.
pub open spec fn number_ok(t: Seq<char>) -> bool {
    let k = first_e(t, 0);
    mantissa_ok(t.take(k)) && (k == t.len() || exponent_ok(t.skip(k + 1)))
}

/// The strings that `f64`'s `FromStr` accepts, by the grammar its
/// documentation gives: an optional sign, then `inf`, `infinity`, `nan`
/// or a decimal number, letters in either case.
pub open spec fn float_syntax(s: Seq<char>) -> bool {
    let t = unsigned_part(s).map_values(|c: char| ascii_lower(c));
    t == "inf"@ || t == "infinity"@ || t == "nan"@ || number_ok(t)
}

fn lower_ascii_char(c: char) -> (r: char)
    ensures
        r == ascii_lower(c),
{
    if 'A' <= c && c <= 'Z' {
        ((c as u32) + 32) as u8 as char
    } else {
        c
    }
}

/// Whether every character of `cs` from `a` to `b` is a digit.
fn all_digits(cs: &[char], a: usize, b: usize) -> (r: bool)
    requires
        a <= b <= cs@.len(),
    ensures
        r == forall|i: int| a <= i < b ==> digit(#[trigger] cs@[i]),
{
    let mut i = a;
    while i < b
        invariant
            a <= i <= b <= cs@.len(),
            forall|j: int| a <= j < i ==> digit(#[trigger] cs@[j]),
        decreases b - i,
    {
        if !('0' <= cs[i] && cs[i] <= '9') {
            return false;
        }
        i += 1;
    }
    true
}

fn mantissa_check(m: &[char]) -> (r: bool)
    ensures
        r == mantissa_ok(m@),
{
    let mut i: usize = 0;
    while i < m.len()
        invariant
            i <= m@.len(),
            forall|j: int| 0 <= j < i ==> digit(#[trigger] m@[j]) || m@[j] == '.',
        decreases m.len() - i,
    {
        if !(('0' <= m[i] && m[i] <= '9') || m[i] == '.') {
            return false;
        }
        i += 1;
    }
    let dots = count_occurrences(m, '.');
    dots <= 1 && m.len() > dots
}

fn exponent_check(x: &[char]) -> (r: bool)
    ensures
        r == exponent_ok(x@),
{
    let start: usize = if x.len() > 0 && (x[0] == '+' || x[0] == '-') {
        1
    } else {
        0
    };
    let ghost d = unsigned_part(x@);
    assert(d =~= x@.skip(start as int));
    if start >= x.len() {
        return false;
    }
    let r = all_digits(x, start, x.len());
    assert(r == forall|i: int| 0 <= i < d.len() ==> digit(#[trigger] d[i])) by {
        if r {
            assert forall|i: int| 0 <= i < d.len() implies digit(#[trigger] d[i]) by {
                assert(d[i] == x@[start + i]);
            }
        } else {
            let j = choose|j: int| start <= j < x@.len() && !digit(#[trigger] x@[j]);
            assert(d[j - start] == x@[j]);
        }
    }
    r
}

/// Whether `s` is a number that `f64` parses.
pub fn float_syntax_check(s: &[char]) -> (r: bool)
    ensures
        r == float_syntax(s@),
{
    let start: usize = if s.len() > 0 && (s[0] == '+' || s[0] == '-') {
        1
    } else {
        0
    };
    let ghost u = unsigned_part(s@);
    assert(u =~= s@.skip(start as int));
    let mut t: Vec<char> = Vec::new();
    let mut i = start;
    while i < s.len()
        invariant
            start <= i <= s@.len(),
            u == s@.skip(start as int),
            t@ == u.take(i - start).map_values(|c: char| ascii_lower(c)),
        decreases s.len() - i,
    {
        let c = lower_ascii_char(s[i]);
        t.push(c);
        i += 1;
        assert(t@ =~= u.take(i - start).map_values(|c: char| ascii_lower(c)));
    }
    assert(u.take(u.len() as int) =~= u);
    let ghost tv = u.map_values(|c: char| ascii_lower(c));
    assert(t@ == tv);
    if chars_equal(&t, &chars_of("inf")) || chars_equal(&t, &chars_of("infinity")) || chars_equal(
        &t,
        &chars_of("nan"),
    ) {
        return true;
    }
    let mut k: usize = 0;
    while k < t.len() && t[k] != 'e'
        invariant
            k <= t@.len(),
            first_e(t@, 0) == first_e(t@, k as int),
        decreases t.len() - k,
    {
        k += 1;
    }
    assert(first_e(t@, 0) == k);
    let (m, rest) = t.as_slice().split_at(k);
    if !mantissa_check(m) {
        return false;
    }
    if k == t.len() {
        return true;
    }
    let (_, x) = rest.split_at(1);
    assert(x@ =~= t@.skip(k as int + 1));
    exponent_check(x)
}

/// The cell, trimmed, is a number that `f64` parses.
pub open spec fn numericish(s: Seq<char>) -> bool {
    trim(s).len() > 0 && float_syntax(trim(s))
}

pub fn is_numericish(cell: &str) -> (r: bool)
    ensures
        r == numericish(cell@),
{
    let t = trim_chars(&chars_of(cell));
    t.len() > 0 && float_syntax_check(&t)
}

pub open spec fn token_sep(c: char) -> bool {
    c == ' ' || c == '_' || c == '-'
}

/// `s` without spaces, underscores and hyphens.
pub open spec fn without_seps(s: Seq<char>) -> Seq<char>
    decreases s.len(),
{
    if s.len() == 0 {
        s
    } else if token_sep(s.last()) {
        without_seps(s.drop_last())
    } else {
        without_seps(s.drop_last()).push(s.last())
    }
}

/// A cell as a header word: trimmed, lower-cased, without spaces,
/// underscores and hyphens.
pub open spec fn token_key(cell: Seq<char>) -> Seq<char> {
    without_seps(lowercase(trim(cell)))
}

pub fn normalize_token(cell: &str) -> (r: String)
    ensures
        r@ == token_key(cell@),
{
    let t = string_of(&trim_chars(&chars_of(cell)));
    let lower = chars_of(to_lowercase(t.as_str()).as_str());
    let mut out: Vec<char> = Vec::new();
    let mut i: usize = 0;
    while i < lower.len()
        invariant
            i <= lower@.len(),
            out@ == without_seps(lower@.take(i as int)),
        decreases lower.len() - i,
    {
        assert(lower@.take(i as int + 1).drop_last() =~= lower@.take(i as int));
        let c = lower[i];
        if !(c == ' ' || c == '_' || c == '-') {
            out.push(c);
        }
        i += 1;
    }
    assert(lower@.take(lower@.len() as int) =~= lower@);
    string_of(&out)
}

/// The words that mark a header cell.
pub open spec fn header_words() -> Seq<Seq<char>> {
    seq![
        "id"@,
        "key"@,
        "name"@,
        "desc"@,
        "describe"@,
        "type"@,
        "num"@,
        "tips"@,
        "english"@,
        "francais"@,
        "tc"@,
        "郛門捷"@,
        "蠎丞捷"@,
        "蜷榊ｭ・"@,
        "蜷咲ｧｰ"@,
        "謠剰ｿｰ"@,
        "蜀・ｮｹ"@,
        "邀ｻ蛻ｫ"@,
        "鬚懆牡"@,
        "迚ｹ謨・"@,
    ]
}

pub open spec fn header_token(cell: Seq<char>) -> bool {
    header_words().contains(token_key(cell))
}

pub fn looks_like_header_token(cell: &str) -> (r: bool)
    ensures
        r == header_token(cell@),
{
    let words: [&str; 20] = [
        "id",
        "key",
        "name",
        "desc",
        "describe",
        "type",
        "num",
        "tips",
        "english",
        "francais",
        "tc",
        "郛門捷",
        "蠎丞捷",
        "蜷榊ｭ・",
        "蜷咲ｧｰ",
        "謠剰ｿｰ",
        "蜀・ｮｹ",
        "邀ｻ蛻ｫ",
        "鬚懆牡",
        "迚ｹ謨・",
    ];
    let ghost ws = seq![
        words[0]@,
        words[1]@,
        words[2]@,
        words[3]@,
        words[4]@,
        words[5]@,
        words[6]@,
        words[7]@,
        words[8]@,
        words[9]@,
        words[10]@,
        words[11]@,
        words[12]@,
        words[13]@,
        words[14]@,
        words[15]@,
        words[16]@,
        words[17]@,
        words[18]@,
        words[19]@,
    ];
    assert(ws =~= header_words());
    let key = normalize_token(cell);
    let mut i: usize = 0;
    while i < 20
        invariant
            i <= 20,
            ws == header_words(),
            key@ == token_key(cell@),
            forall|j: int| 0 <= j < 20 ==> ws[j] == words@[j]@,
            forall|j: int| 0 <= j < i ==> ws[j] != key@,
        decreases 20 - i,
    {
        if crate::text::str_equal(key.as_str(), words[i]) {
            assert(ws[i as int] == key@);
            assert(header_words().contains(key@));
            return true;
        }
        i += 1;
    }
    assert(!ws.contains(key@));
    false
}

/// How many cells pass the test.
pub open spec fn count_cells(cells: Seq<Seq<char>>, p: spec_fn(Seq<char>) -> bool) -> nat
    decreases cells.len(),
{
    if cells.len() == 0 {
        0
    } else {
        count_cells(cells.drop_last(), p) + if p(cells.last()) {
            1nat
        } else {
            0nat
        }
    }
}

/// The words the header guess recognises: the English ones id, key, name,
/// desc, describe, type, num, tips, english, francais and tc, and the CJK
/// words of the same list.
pub open spec fn listed_header_word(k: Seq<char>) -> bool {
    ||| k == "id"@
    ||| k == "key"@
    ||| k == "name"@
    ||| k == "desc"@
    ||| k == "describe"@
    ||| k == "type"@
    ||| k == "num"@
    ||| k == "tips"@
    ||| k == "english"@
    ||| k == "francais"@
    ||| k == "tc"@
    ||| k == "郛門捷"@
    ||| k == "蠎丞捷"@
    ||| k == "蜷榊ｭ・"@
    ||| k == "蜷咲ｧｰ"@
    ||| k == "謠剰ｿｰ"@
    ||| k == "蜀・ｮｹ"@
    ||| k == "邀ｻ蛻ｫ"@
    ||| k == "鬚懆牡"@
    ||| k == "迚ｹ謨・"@
}

/// A cell reads as a header word exactly when its key (trimmed,
/// lower-cased, without spaces, underscores and hyphens) is one of the
/// listed words.
pub proof fn lemma_header_token_words(cell: Seq<char>)
    ensures
        header_token(cell) <==> listed_header_word(token_key(cell)),
{
    let k = token_key(cell);
    let ws = header_words();
    if listed_header_word(k) {
        if k == "id"@ {
            assert(ws[0] == k);
        }
        if k == "key"@ {
            assert(ws[1] == k);
        }
        if k == "name"@ {
            assert(ws[2] == k);
        }
        if k == "desc"@ {
            assert(ws[3] == k);
        }
        if k == "describe"@ {
            assert(ws[4] == k);
        }
        if k == "type"@ {
            assert(ws[5] == k);
        }
        if k == "num"@ {
            assert(ws[6] == k);
        }
        if k == "tips"@ {
            assert(ws[7] == k);
        }
        if k == "english"@ {
            assert(ws[8] == k);
        }
        if k == "francais"@ {
            assert(ws[9] == k);
        }
        if k == "tc"@ {
            assert(ws[10] == k);
        }
        if k == "郛門捷"@ {
            assert(ws[11] == k);
        }
        if k == "蠎丞捷"@ {
            assert(ws[12] == k);
        }
        if k == "蜷榊ｭ・"@ {
            assert(ws[13] == k);
        }
        if k == "蜷咲ｧｰ"@ {
            assert(ws[14] == k);
        }
        if k == "謠剰ｿｰ"@ {
            assert(ws[15] == k);
        }
        if k == "蜀・ｮｹ"@ {
            assert(ws[16] == k);
        }
        if k == "邀ｻ蛻ｫ"@ {
            assert(ws[17] == k);
        }
        if k == "鬚懆牡"@ {
            assert(ws[18] == k);
        }
        if k == "迚ｹ謨・"@ {
            assert(ws[19] == k);
        }
    }
    if ws.contains(k) {
        let i = choose|i: int| 0 <= i < ws.len() && ws[i] == k;
        assert(listed_header_word(ws[i]));
    }
}

/// How many cells pass is positive once one cell passes.
proof fn lemma_count_cells_positive(cells: Seq<Seq<char>>, p: spec_fn(Seq<char>) -> bool, i: int)
    requires
        0 <= i < cells.len(),
        p(cells[i]),
    ensures
        count_cells(cells, p) > 0,
    decreases cells.len(),
{
    if i < cells.len() - 1 {
        lemma_count_cells_positive(cells.drop_last(), p, i);
    }
}

/// A first record holding a listed header word makes a header row: in a
/// table of two records or more whose first record has two cells or more,
/// one cell of the first record that reads as id, key, name or another
/// listed word is enough, whatever the other cells and records hold.
pub proof fn lemma_header_word_row_is_header(records: Seq<Seq<Seq<char>>>, i: int)
    requires
        records.len() >= 2,
        records[0].len() >= 2,
        0 <= i < records[0].len(),
        listed_header_word(token_key(records[0][i])),
    ensures
        header_guess(records),
{
    lemma_header_token_words(records[0][i]);
    lemma_count_cells_positive(records[0], cell_test(CellTest::HeaderWord), i);
}

/// How many cells pass is zero when none passes.
proof fn lemma_count_cells_zero(cells: Seq<Seq<char>>, p: spec_fn(Seq<char>) -> bool)
    requires
        forall|i: int| 0 <= i < cells.len() ==> !p(#[trigger] cells[i]),
    ensures
        count_cells(cells, p) == 0,
    decreases cells.len(),
{
    if cells.len() > 0 {
        lemma_count_cells_zero(cells.drop_last(), p);
    }
}

/// Without a listed header word, the first of two records or more (with
/// two cells or more) is a header row exactly when its non-blank names are
/// distinct and it holds as many text cells as the second record and fewer
/// number cells: one of the two signs alone is not enough.
pub proof fn lemma_header_guess_without_word(records: Seq<Seq<Seq<char>>>)
    requires
        records.len() >= 2,
        records[0].len() >= 2,
        forall|i: int|
            0 <= i < records[0].len() ==> !listed_header_word(token_key(#[trigger] records[0][i])),
    ensures
        header_guess(records) <==> (distinct_keys(records[0]) && count_cells(
            records[0],
            cell_test(CellTest::Textish),
        ) >= count_cells(records[1], cell_test(CellTest::Textish)) && count_cells(
            records[0],
            cell_test(CellTest::Numericish),
        ) < count_cells(records[1], cell_test(CellTest::Numericish))),
{
    assert forall|i: int| 0 <= i < records[0].len() implies !cell_test(CellTest::HeaderWord)(
        #[trigger] records[0][i],
    ) by {
        lemma_header_token_words(records[0][i]);
    }
    lemma_count_cells_zero(records[0], cell_test(CellTest::HeaderWord));
}

/// The non-blank cells have distinct header words.
pub open spec fn distinct_keys(cells: Seq<Seq<char>>) -> bool {
    forall|i: int, j: int|
        0 <= i < j < cells.len() && trim(cells[i]).len() > 0 && trim(cells[j]).len() > 0
            ==> token_key(#[trigger] cells[i]) != token_key(#[trigger] cells[j])
}

/// The header guess for the records: with two records of which the first
/// has two cells or more, it scores two for a header word, one for
/// distinct names, and one for as much text and fewer numbers than the
/// second record; a score of two or more is a header.
pub open spec fn header_guess(records: Seq<Seq<Seq<char>>>) -> bool {
    if records.len() < 2 || records[0].len() < 2 {
        false
    } else {
        let first = records[0];
        let second = records[1];
        let score = (if count_cells(first, cell_test(CellTest::HeaderWord)) > 0 {
            2int
        } else {
            0int
        }) + (if distinct_keys(first) {
            1int
        } else {
            0int
        }) + (if count_cells(first, cell_test(CellTest::Textish)) >= count_cells(
            second,
            cell_test(CellTest::Textish),
        ) && count_cells(first, cell_test(CellTest::Numericish)) < count_cells(
            second,
            cell_test(CellTest::Numericish),
        ) {
            1int
        } else {
            0int
        });
        score >= 2
    }
}

/// The kinds of cell that the header guess counts.
#[derive(Debug, Clone, Copy, PartialEq, Eq)]
pub enum CellTest {
    HeaderWord,
    Textish,
    Numericish,
}

pub open spec fn cell_test(t: CellTest) -> spec_fn(Seq<char>) -> bool {
    match t {
        CellTest::HeaderWord => |c: Seq<char>| header_token(c),
        CellTest::Textish => |c: Seq<char>| textish(c),
        CellTest::Numericish => |c: Seq<char>| numericish(c),
    }
}

fn count_passing(cells: &Vec<String>, t: CellTest) -> (n: usize)
    ensures
        n == count_cells(strs_view(cells@), cell_test(t)),
{
    let ghost cv = strs_view(cells@);
    let mut n: usize = 0;
    let mut i: usize = 0;
    while i < cells.len()
        invariant
            i <= cells@.len(),
            cv == strs_view(cells@),
            n == count_cells(cv.take(i as int), cell_test(t)),
            n <= i,
        decreases cells.len() - i,
    {
        assert(cv.take(i as int + 1).drop_last() =~= cv.take(i as int));
        assert(cv.take(i as int + 1).last() == cells@[i as int]@);
        let pass = match t {
            CellTest::HeaderWord => looks_like_header_token(cells[i].as_str()),
            CellTest::Textish => is_textish(cells[i].as_str()),
            CellTest::Numericish => is_numericish(cells[i].as_str()),
        };
        if pass {
            n += 1;
        }
        i += 1;
    }
    assert(cv.take(cells@.len() as int) =~= cv);
    n
}

fn keys_distinct(cells: &Vec<String>) -> (r: bool)
    ensures
        r == distinct_keys(strs_view(cells@)),
{
    let ghost cv = strs_view(cells@);
    let mut keys: Vec<String> = Vec::new();
    let mut blank: Vec<bool> = Vec::new();
    let mut i: usize = 0;
    while i < cells.len()
        invariant
            i <= cells@.len(),
            cv == strs_view(cells@),
            keys@.len() == i,
            blank@.len() == i,
            forall|j: int| 0 <= j < i ==> (#[trigger] keys@[j])@ == token_key(cv[j]),
            forall|j: int| 0 <= j < i ==> (#[trigger] blank@[j]) == (trim(cv[j]).len() == 0),
        decreases cells.len() - i,
    {
        keys.push(normalize_token(cells[i].as_str()));
        blank.push(trim_chars(&chars_of(cells[i].as_str())).len() == 0);
        i += 1;
    }
    let mut a: usize = 0;
    while a < cells.len()
        invariant
            a <= cells@.len(),
            cv == strs_view(cells@),
            keys@.len() == cells@.len(),
            blank@.len() == cells@.len(),
            forall|j: int| 0 <= j < cells@.len() ==> (#[trigger] keys@[j])@ == token_key(cv[j]),
            forall|j: int| 0 <= j < cells@.len() ==> (#[trigger] blank@[j]) == (trim(cv[j]).len() == 0),
            forall|x: int, y: int|
                0 <= x < a && x < y < cv.len() && trim(cv[x]).len() > 0 && trim(cv[y]).len() > 0
                    ==> token_key(#[trigger] cv[x]) != token_key(#[trigger] cv[y]),
        decreases cells.len() - a,
    {
        let mut b: usize = a + 1;
        while b < cells.len()
            invariant
                a < cells@.len(),
                a + 1 <= b <= cells@.len(),
                cv == strs_view(cells@),
                keys@.len() == cells@.len(),
                blank@.len() == cells@.len(),
                forall|j: int| 0 <= j < cells@.len() ==> (#[trigger] keys@[j])@ == token_key(cv[j]),
                forall|j: int| 0 <= j < cells@.len() ==> (#[trigger] blank@[j]) == (trim(cv[j]).len() == 0),
                forall|y: int|
                    a < y < b && trim(cv[a as int]).len() > 0 && trim(cv[y]).len() > 0 ==> token_key(
                        cv[a as int],
                    ) != token_key(#[trigger] cv[y]),
            decreases cells.len() - b,
        {
            if !blank[a] && !blank[b] && crate::text::str_equal(keys[a].as_str(), keys[b].as_str()) {
                assert(token_key(cv[a as int]) == token_key(cv[b as int]));
                return false;
            }
            b += 1;
        }
        a += 1;
    }
    true
}

/// Whether the first record looks like a header row.
pub fn infer_header_row(records: &Vec<Vec<String>>) -> (r: bool)
    ensures
        r == header_guess(rows_view(records@)),
{
    let ghost rv = rows_view(records@);
    if records.len() < 2 || records[0].len() < 2 {
        return false;
    }
    let first = &records[0];
    let second = &records[1];
    assert(rv[0] == strs_view(first@));
    assert(rv[1] == strs_view(second@));
    let first_text = count_passing(first, CellTest::Textish);
    let second_text = count_passing(second, CellTest::Textish);
    let first_numeric = count_passing(first, CellTest::Numericish);
    let second_numeric = count_passing(second, CellTest::Numericish);
    let header_words_found = count_passing(first, CellTest::HeaderWord);
    let unique = keys_distinct(first);
    let mut score: usize = 0;
    if header_words_found > 0 {
        score += 2;
    }
    if unique {
        score += 1;
    }
    if first_text >= second_text && first_numeric < second_numeric {
        score += 1;
    }
    score >= 2
}

} // verus!
