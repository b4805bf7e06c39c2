//! String normalization for dictionary keys (`normalize_key`) and for
//! displayed translations (`normalize_display`).

use vstd::prelude::*;

use crate::text::{chars_of, push_char};

verus! {

/// The lower-case form of a string, as `str::to_lowercase` computes it
/// (Unicode case mapping, which may change the length).
pub uninterp spec fn lowercase(s: Seq<char>) -> Seq<char>;

/// Lower-cases a string (std `str::to_lowercase`); its result is named
/// by `lowercase` and depends on the characters of `s` alone.
#[verifier::external_body]
pub(crate) fn to_lowercase(s: &str) -> (r: String)
    ensures
        r@ == lowercase(s@),
{
    s.to_lowercase()
}

/// Key folding of one character: fullwidth ASCII forms (U+FF01..U+FF5E:
/// letters, digits and symbols) become their ASCII counterparts.
pub open spec fn key_char(c: char) -> char {
    if 0xFF01 <= c as u32 <= 0xFF5E {
        ((c as u32 - 0xFEE0) as u8) as char
    } else {
        c
    }
}

/// Display folding of one character: fullwidth colon, plus, minus and
/// the minus sign become ASCII.
pub open spec fn display_char(c: char) -> char {
    if c == '\u{FF1A}' {
        ':'
    } else if c == '\u{FF0B}' {
        '+'
    } else if c == '\u{FF0D}' || c == '\u{2212}' {
        '-'
    } else {
        c
    }
}

pub open spec fn display_text(s: Seq<char>) -> Seq<char> {
    s.map_values(|c: char| display_char(c))
}

pub open spec fn key_folded(s: Seq<char>) -> Seq<char> {
    s.map_values(|c: char| key_char(c))
}

fn fold_key_char(c: char) -> (r: char)
    ensures
        r == key_char(c),
{
    let u = c as u32;
    if 0xFF01 <= u && u <= 0xFF5E {
        ((u - 0xFEE0) as u8) as char
    } else {
        c
    }
}

/// Folds a character for display.
pub fn fold_display_char(c: char) -> (r: char)
    ensures
        r == display_char(c),
{
    if c == '\u{FF1A}' {
        ':'
    } else if c == '\u{FF0B}' {
        '+'
    } else if c == '\u{FF0D}' || c == '\u{2212}' {
        '-'
    } else {
        c
    }
}

/// Dictionary key form: fullwidth ASCII folded to ASCII, then lower-cased.
pub fn normalize_key(key: &str) -> (r: String)
    ensures
        r@ == lowercase(key_folded(key@)),
{
    let cs = chars_of(key);
    let mut folded = String::new();
    let mut i: usize = 0;
    while i < cs.len()
        invariant
            cs@ == key@,
            i <= cs.len(),
            folded@ == key_folded(cs@.take(i as int)),
        decreases cs.len() - i,
    {
        push_char(&mut folded, fold_key_char(cs[i]));
        i += 1;
        assert(folded@ =~= key_folded(cs@.take(i as int)));
    }
    assert(cs@.take(cs.len() as int) =~= cs@);
    to_lowercase(folded.as_str())
}

/// Display form: fullwidth colon, plus and minus (and U+2212) as ASCII.
pub fn normalize_display(text: &str) -> (r: String)
    ensures
        r@ == display_text(text@),
{
    let cs = chars_of(text);
    let mut out = String::new();
    let mut i: usize = 0;
    while i < cs.len()
        invariant
            cs@ == text@,
            i <= cs.len(),
            out@ == display_text(cs@.take(i as int)),
        decreases cs.len() - i,
    {
        push_char(&mut out, fold_display_char(cs[i]));
        i += 1;
        assert(out@ =~= display_text(cs@.take(i as int)));
    }
    assert(cs@.take(cs.len() as int) =~= cs@);
    out
}

} // verus!
