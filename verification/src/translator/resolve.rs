//! Resolving a planned text: each fragment is looked up in the dictionary,
//! split by a split rule, or sent to the model.

use vstd::prelude::*;

use crate::dictionary::split::SplitResult;
use crate::text::{chars_of, contains_chars, contains_seq, replace_all, replace_str, slice_string, string_of};
use crate::text::{trim, trim_chars};
use crate::translator::client::LlmClient;
use crate::translator::helpers::{clean_model_output, cleaned_output};
use crate::translator::lang::{fallback_prefix, fallback_prompt};
use crate::translator::persist::{build_zm_persist_entry, zm_persist_rule};
use crate::translator::restore::{checked_restore_zm_number_tokens, restored_text};
use crate::translator::plan::{line_view, lines_view, seg_view, SegView};
use crate::translator::types::{
    clone_opt_surface, clone_surface, entries_view, opt_surface, rline_view, rlines_view,
    rnodes_view, rseg_view, EntryView, FragmentAuthority, NodeView, PlannedDocument, PlannedNode,
    RLineView, RNodeView, RSegView, ResolvedDocument, ResolvedFragmentNode, ResolvedLine,
    ResolvedNode, ResolvedSegment, SurfaceKind,
    absorb_view, dict_hit_result, empty_result, model_failure_result, model_success_result, NewTranslationEntry, PersistEntry,
    PersistView, ResultView, TranslationResult, TranslationSettings,
};
use crate::translator::zm::{
    new_token_set, token_set_contains, token_set_contents, token_set_insert,
    build_zm_number_mapping, decimal, decimal_string, replacements_view, zm_mapping_spec,
    ZmNumberMapping, ZmReplacementView,
};

verus! {

// ---------------------------------------------------------------------------
// Byte offsets into UTF-8 text
// ---------------------------------------------------------------------------

/// The number of bytes of `c` in UTF-8.
pub open spec fn char_utf8_width(c: char) -> int {
    let u = c as u32;
    if u <= 0x7F {
        1
    } else if u <= 0x7FF {
        2
    } else if u <= 0xFFFF {
        3
    } else {
        4
    }
}

/// The number of bytes of `s` in UTF-8.
pub open spec fn utf8_len(s: Seq<char>) -> int
    decreases s.len(),
{
    if s.len() == 0 {
        0
    } else {
        utf8_len(s.drop_last()) + char_utf8_width(s.last())
    }
}

/// Byte offset `b` of `s` falls just before character `i`.
pub open spec fn at_byte(s: Seq<char>, b: int, i: int) -> bool {
    0 <= i <= s.len() && utf8_len(s.take(i)) == b
}

proof fn lemma_utf8_len_increasing(s: Seq<char>, i: int, j: int)
    requires
        0 <= i < j <= s.len(),
    ensures
        utf8_len(s.take(i)) < utf8_len(s.take(j)),
    decreases j - i,
{
    assert(s.take(j).drop_last() =~= s.take(j - 1));
    if i < j - 1 {
        lemma_utf8_len_increasing(s, i, j - 1);
    }
}

/// A byte offset falls before at most one character.
pub proof fn lemma_at_byte_unique(s: Seq<char>, b: int, i: int, j: int)
    requires
        at_byte(s, b, i),
        at_byte(s, b, j),
    ensures
        i == j,
{
    if i < j {
        lemma_utf8_len_increasing(s, i, j);
    } else if j < i {
        lemma_utf8_len_increasing(s, j, i);
    }
}

fn char_utf8_width_of(c: char) -> (r: usize)
    ensures
        r == char_utf8_width(c),
{
    let u = c as u32;
    if u <= 0x7F {
        1
    } else if u <= 0x7FF {
        2
    } else if u <= 0xFFFF {
        3
    } else {
        4
    }
}

/// The character before which byte offset `b` of `s` falls, if it falls
/// between characters.
pub fn char_index_at_byte(s: &[char], b: usize) -> (r: Option<usize>)
    ensures
        r matches Some(i) ==> at_byte(s@, b as int, i as int),
        r is None ==> forall|i: int| !at_byte(s@, b as int, i),
{
    let mut i: usize = 0;
    let mut acc: usize = 0;
    assert(s@.take(0) =~= Seq::<char>::empty());
    while i < s.len() && acc < b
        invariant
            i <= s@.len(),
            acc == utf8_len(s@.take(i as int)),
            acc <= b,
            forall|j: int| 0 <= j < i ==> utf8_len(s@.take(j)) < b,
        decreases s.len() - i,
    {
        let w = char_utf8_width_of(s[i]);
        assert(s@.take(i as int + 1).drop_last() =~= s@.take(i as int));
        if w > b - acc {
            proof {
                assert forall|j: int| !at_byte(s@, b as int, j) by {
                    if 0 <= j <= s@.len() && j > i {
                        if j > i + 1 {
                            lemma_utf8_len_increasing(s@, i as int + 1, j);
                        }
                    }
                }
            }
            return None;
        }
        acc = acc + w;
        i = i + 1;
    }
    if acc == b {
        Some(i)
    } else {
        proof {
            assert forall|j: int| !at_byte(s@, b as int, j) by {
                if 0 <= j <= s@.len() && j > i {
                    lemma_utf8_len_increasing(s@, i as int, j);
                }
            }
        }
        None
    }
}

// ---------------------------------------------------------------------------
// A split in character positions
// ---------------------------------------------------------------------------

/// A split rule's match in character positions.
#[derive(Debug, Clone, PartialEq, Eq)]
pub struct CharSplit {
    pub start: usize,
    pub end: usize,
    pub groups: Vec<Option<(usize, usize)>>,
}

pub open spec fn group_at_bytes(s: Seq<char>, g: Option<(usize, usize)>, c: Option<(usize, usize)>) -> bool {
    match (g, c) {
        (None, None) => true,
        (Some((a, b)), Some((x, y))) => at_byte(s, a as int, x as int) && at_byte(s, b as int, y as int),
        _ => false,
    }
}

/// `cs` gives the character positions of the byte offsets of `sr`.
pub open spec fn split_positions(s: Seq<char>, sr: SplitResult, cs: CharSplit) -> bool {
    &&& at_byte(s, sr.full_match_start as int, cs.start as int)
    &&& at_byte(s, sr.full_match_end as int, cs.end as int)
    &&& cs.groups@.len() == sr.inner_groups@.len()
    &&& forall|k: int|
        0 <= k < cs.groups@.len() ==> group_at_bytes(s, sr.inner_groups@[k], #[trigger] cs.groups@[k])
}

/// A split that can be taken apart: each group runs forwards, and each
/// piece translated on its own is shorter than the text.
pub open spec fn split_usable(n: int, cs: CharSplit) -> bool {
    &&& cs.start < n
    &&& cs.end > 0
    &&& forall|k: int|
        0 <= k < cs.groups@.len() ==> match #[trigger] cs.groups@[k] {
            Some((a, b)) => a <= b && (b - a < n || a == b),
            None => true,
        }
}

/// The split of `s` at the byte offsets of `sr`, when every offset falls
/// between characters and the split can be taken apart.
pub fn char_split_of(s: &[char], sr: &SplitResult) -> (r: Option<CharSplit>)
    ensures
        r matches Some(cs) ==> split_positions(s@, *sr, cs) && split_usable(s@.len() as int, cs),
        r is None ==> forall|cs: CharSplit|
            !(split_positions(s@, *sr, cs) && split_usable(s@.len() as int, cs)),
{
    let n = s.len();
    let start = match char_index_at_byte(s, sr.full_match_start) {
        Some(i) => i,
        None => {
            return None;
        },
    };
    let end = match char_index_at_byte(s, sr.full_match_end) {
        Some(i) => i,
        None => {
            return None;
        },
    };
    if !(start < n && end > 0) {
        proof {
            assert forall|cs: CharSplit|
                !(split_positions(s@, *sr, cs) && split_usable(s@.len() as int, cs)) by {
                if split_positions(s@, *sr, cs) {
                    lemma_at_byte_unique(s@, sr.full_match_start as int, start as int, cs.start as int);
                    lemma_at_byte_unique(s@, sr.full_match_end as int, end as int, cs.end as int);
                }
            }
        }
        return None;
    }
    let mut groups: Vec<Option<(usize, usize)>> = Vec::new();
    let mut k: usize = 0;
    while k < sr.inner_groups.len()
        invariant
            k <= sr.inner_groups@.len(),
            n == s@.len(),
            groups@.len() == k,
            forall|j: int|
                0 <= j < k ==> group_at_bytes(s@, sr.inner_groups@[j], #[trigger] groups@[j]),
            forall|j: int|
                0 <= j < k ==> match #[trigger] groups@[j] {
                    Some((a, b)) => a <= b && (b - a < n || a == b),
                    None => true,
                },
        decreases sr.inner_groups.len() - k,
    {
        match sr.inner_groups[k] {
            None => {
                groups.push(None);
            },
            Some((gs, ge)) => {
                let a = match char_index_at_byte(s, gs) {
                    Some(i) => i,
                    None => {
                        proof {
                            assert forall|cs: CharSplit|
                                !(split_positions(s@, *sr, cs) && split_usable(s@.len() as int, cs)) by {
                                if split_positions(s@, *sr, cs) {
                                    assert(group_at_bytes(s@, sr.inner_groups@[k as int], cs.groups@[k as int]));
                                }
                            }
                        }
                        return None;
                    },
                };
                let b = match char_index_at_byte(s, ge) {
                    Some(i) => i,
                    None => {
                        proof {
                            assert forall|cs: CharSplit|
                                !(split_positions(s@, *sr, cs) && split_usable(s@.len() as int, cs)) by {
                                if split_positions(s@, *sr, cs) {
                                    assert(group_at_bytes(s@, sr.inner_groups@[k as int], cs.groups@[k as int]));
                                }
                            }
                        }
                        return None;
                    },
                };
                if !(a <= b && (b - a < n || a == b)) {
                    proof {
                        assert forall|cs: CharSplit|
                            !(split_positions(s@, *sr, cs) && split_usable(s@.len() as int, cs)) by {
                            if split_positions(s@, *sr, cs) && split_usable(s@.len() as int, cs) {
                                assert(group_at_bytes(s@, sr.inner_groups@[k as int], cs.groups@[k as int]));
                                let c = cs.groups@[k as int];
                                lemma_at_byte_unique(s@, gs as int, a as int, c.unwrap().0 as int);
                                lemma_at_byte_unique(s@, ge as int, b as int, c.unwrap().1 as int);
                            }
                        }
                    }
                    return None;
                }
                groups.push(Some((a, b)));
            },
        }
        k += 1;
    }
    let cs = CharSplit { start, end, groups };
    assert(split_positions(s@, *sr, cs));
    Some(cs)
}


pub open spec fn groups_in(n: int, groups: Seq<Option<(usize, usize)>>) -> bool {
    forall|k: int|
        0 <= k < groups.len() ==> match #[trigger] groups[k] {
            Some((a, b)) => a <= b <= n,
            None => true,
        }
}

/// The separator pieces before each group, and where the last group ended.
pub open spec fn sep_fold(s: Seq<char>, groups: Seq<Option<(usize, usize)>>, start: int) -> (Seq<char>, int)
    decreases groups.len(),
{
    if groups.len() == 0 {
        (seq![], start)
    } else {
        let (acc, prev) = sep_fold(s, groups.drop_last(), start);
        match groups.last() {
            Some((a, b)) => (
                if a > prev {
                    acc + s.subrange(prev, a as int)
                } else {
                    acc
                },
                b as int,
            ),
            None => (acc, prev),
        }
    }
}

/// The text of the match outside its groups.
pub open spec fn separator_raw(s: Seq<char>, cs: CharSplit) -> Seq<char> {
    let (acc, prev) = sep_fold(s, cs.groups@, cs.start as int);
    if prev < cs.end {
        acc + s.subrange(prev, cs.end as int)
    } else {
        acc
    }
}

proof fn lemma_sep_fold_bound(s: Seq<char>, groups: Seq<Option<(usize, usize)>>, start: int)
    requires
        0 <= start <= s.len(),
        groups_in(s.len() as int, groups),
    ensures
        0 <= sep_fold(s, groups, start).1 <= s.len(),
    decreases groups.len(),
{
    if groups.len() > 0 {
        lemma_sep_fold_bound(s, groups.drop_last(), start);
        assert(groups.last() == groups[groups.len() - 1]);
    }
}

/// The text of the match outside its groups.
pub fn separator_text_raw(s: &[char], cs: &CharSplit) -> (r: String)
    requires
        cs.start <= s@.len(),
        cs.end <= s@.len(),
        groups_in(s@.len() as int, cs.groups@),
    ensures
        r@ == separator_raw(s@, *cs),
{
    let ghost gv = cs.groups@;
    let mut out = String::new();
    let mut prev: usize = cs.start;
    let mut k: usize = 0;
    assert(gv.take(0) =~= Seq::<Option<(usize, usize)>>::empty());
    while k < cs.groups.len()
        invariant
            k <= gv.len(),
            gv == cs.groups@,
            cs.start <= s@.len(),
            groups_in(s@.len() as int, gv),
            (out@, prev as int) == sep_fold(s@, gv.take(k as int), cs.start as int),
            prev <= s@.len(),
        decreases cs.groups.len() - k,
    {
        assert(gv.take(k as int + 1).drop_last() =~= gv.take(k as int));
        assert(gv.take(k as int + 1).last() == gv[k as int]);
        match cs.groups[k] {
            Some((a, b)) => {
                assert(groups_in(s@.len() as int, gv));
                assert(a <= b <= s@.len()) by {
                    assert(match gv[k as int] {
                        Some((a, b)) => a <= b <= s@.len(),
                        None => true,
                    });
                }
                if a > prev {
                    let piece = slice_string(s, prev, a);
                    out.append(piece.as_str());
                }
                prev = b;
            },
            None => {},
        }
        k += 1;
    }
    assert(gv.take(cs.groups.len() as int) =~= gv);
    if prev < cs.end {
        let piece = slice_string(s, prev, cs.end);
        out.append(piece.as_str());
    }
    out
}

/// The `$S1`, `$S2`, ... placeholders of the first `k` groups replaced.
pub open spec fn replace_groups(t: Seq<char>, inners: Seq<Seq<char>>, k: int) -> Seq<char>
    decreases k,
{
    if k <= 0 {
        t
    } else {
        replace_all(replace_groups(t, inners, k - 1), "$S"@ + decimal((k) as nat), inners[k - 1])
    }
}

/// The replacement template filled in: `$L` with the left part, `$S1`,
/// `$S2`, ... with the groups, `$S` with the separator, `$R` with the
/// right part, in that order.
pub open spec fn combine_spec(
    template: Seq<char>,
    left: Seq<char>,
    inners: Seq<Seq<char>>,
    sep: Seq<char>,
    right: Seq<char>,
) -> Seq<char> {
    let t1 = replace_all(template, "$L"@, left);
    let t2 = replace_groups(t1, inners, inners.len() as int);
    let t3 = replace_all(t2, "$S"@, sep);
    replace_all(t3, "$R"@, right)
}

pub open spec fn strings_view(v: Seq<String>) -> Seq<Seq<char>> {
    v.map_values(|x: String| x@)
}

/// Fills in a split rule's replacement template.
pub fn combine_split_text(template: &str, left: &str, inners: &[String], sep: &str, right: &str) -> (r: String)
    ensures
        r@ == combine_spec(template@, left@, strings_view(inners@), sep@, right@),
{
    proof {
        reveal_strlit("$L");
        reveal_strlit("$S");
        reveal_strlit("$R");
    }
    let ghost iv = strings_view(inners@);
    let mut t = replace_str(template, "$L", left);
    let ghost t1 = t@;
    let mut i: usize = 0;
    while i < inners.len()
        invariant
            i <= inners@.len(),
            iv == strings_view(inners@),
            t@ == replace_groups(t1, iv, i as int),
        decreases inners.len() - i,
    {
        let mut placeholder = "$S".to_string();
        let num = decimal_string(i + 1);
        placeholder.append(num.as_str());
        assert(placeholder@.len() > 0);
        t = replace_str(t.as_str(), placeholder.as_str(), inners[i].as_str());
        i += 1;
    }
    let t3 = replace_str(t.as_str(), "$S", sep);
    replace_str(t3.as_str(), "$R", right)
}


// ---------------------------------------------------------------------------
// Echoed prompts
// ---------------------------------------------------------------------------

/// How many headings of the prompt a model may echo back.
pub const ECHO_BACK_MARKER_COUNT: usize = 275;

/// The prompt headings, in the languages of the prompt, that show a model
/// reply echoing its prompt instead of translating.
pub open spec fn echo_back_marker(i: usize) -> Seq<char> {
    match i {
        0 => "[Background Information]"@,
        1 => "[Source Text]"@,
        2 => "[Original Text]"@,
        3 => "[Translation]"@,
        4 => "[Translated]"@,
        5 => "［Background Information］"@,
        6 => "［Source Text］"@,
        7 => "［Original Text］"@,
        8 => "［Translation］"@,
        9 => "【Background Information】"@,
        10 => "【Source Text】"@,
        11 => "【Original Text】"@,
        12 => "[背景信息]"@,
        13 => "[待翻译文本]"@,
        14 => "[原文]"@,
        15 => "[翻译]"@,
        16 => "[译文]"@,
        17 => "［背景信息］"@,
        18 => "［待翻译文本］"@,
        19 => "［原文］"@,
        20 => "［翻译］"@,
        21 => "［译文］"@,
        22 => "【背景信息】"@,
        23 => "【待翻译文本】"@,
        24 => "【原文】"@,
        25 => "【翻译】"@,
        26 => "【译文】"@,
        27 => "【翻译结果】"@,
        28 => "[背景資訊]"@,
        29 => "[待翻譯文本]"@,
        30 => "[譯文]"@,
        31 => "［背景資訊］"@,
        32 => "［待翻譯文本］"@,
        33 => "【背景資訊】"@,
        34 => "【待翻譯文本】"@,
        35 => "【譯文】"@,
        36 => "[背景情報]"@,
        37 => "[原文]"@,
        38 => "[翻訳]"@,
        39 => "[翻訳結果]"@,
        40 => "［背景情報］"@,
        41 => "［原文］"@,
        42 => "［翻訳］"@,
        43 => "［翻訳結果］"@,
        44 => "【背景情報】"@,
        45 => "【原文】"@,
        46 => "【翻訳】"@,
        47 => "[배경 정보]"@,
        48 => "[원문]"@,
        49 => "[번역]"@,
        50 => "[번역 결과]"@,
        51 => "［배경 정보］"@,
        52 => "［원문］"@,
        53 => "［번역］"@,
        54 => "【배경 정보】"@,
        55 => "【원문】"@,
        56 => "【번역】"@,
        57 => "[Informations contextuelles]"@,
        58 => "[Texte source]"@,
        59 => "[Texte original]"@,
        60 => "[Traduction]"@,
        61 => "［Informations contextuelles］"@,
        62 => "［Texte source］"@,
        63 => "［Texte original］"@,
        64 => "［Traduction］"@,
        65 => "[Hintergrundinformationen]"@,
        66 => "[Quelltext]"@,
        67 => "[Originaltext]"@,
        68 => "[Übersetzung]"@,
        69 => "［Hintergrundinformationen］"@,
        70 => "［Quelltext］"@,
        71 => "［Originaltext］"@,
        72 => "［Übersetzung］"@,
        73 => "[Información de contexto]"@,
        74 => "[Texto fuente]"@,
        75 => "[Texto original]"@,
        76 => "[Traducción]"@,
        77 => "［Información de contexto］"@,
        78 => "［Texto fuente］"@,
        79 => "［Texto original］"@,
        80 => "［Traducción］"@,
        81 => "[Informações de contexto]"@,
        82 => "[Texto fonte]"@,
        83 => "[Texto original]"@,
        84 => "[Tradução]"@,
        85 => "［Informações de contexto］"@,
        86 => "［Texto fonte］"@,
        87 => "［Texto original］"@,
        88 => "［Tradução］"@,
        89 => "[Исходная информация]"@,
        90 => "[Исходный текст]"@,
        91 => "[Перевод]"@,
        92 => "［Исходная информация］"@,
        93 => "［Исходный текст］"@,
        94 => "［Перевод］"@,
        95 => "[معلومات أساسية]"@,
        96 => "[النص الأصلي]"@,
        97 => "[النص المصدر]"@,
        98 => "[الترجمة]"@,
        99 => "［معلومات أساسية］"@,
        100 => "［النص الأصلي］"@,
        101 => "［الترجمة］"@,
        102 => "[ข้อมูลพื้นหลัง]"@,
        103 => "[ข้อความต้นฉบับ]"@,
        104 => "[คำแปล]"@,
        105 => "［ข้อมูลพื้นหลัง］"@,
        106 => "［ข้อความต้นฉบับ］"@,
        107 => "［คำแปล］"@,
        108 => "[Thông tin cơ bản]"@,
        109 => "[Văn bản gốc]"@,
        110 => "[Văn bản nguồn]"@,
        111 => "[Bản dịch]"@,
        112 => "［Thông tin cơ bản］"@,
        113 => "［Văn bản gốc］"@,
        114 => "［Bản dịch］"@,
        115 => "[Arka Plan Bilgisi]"@,
        116 => "[Kaynak Metin]"@,
        117 => "[Orijinal Metin]"@,
        118 => "[Çeviri]"@,
        119 => "［Arka Plan Bilgisi］"@,
        120 => "［Kaynak Metin］"@,
        121 => "［Orijinal Metin］"@,
        122 => "［Çeviri］"@,
        123 => "[Informazioni di base]"@,
        124 => "[Testo originale]"@,
        125 => "[Testo sorgente]"@,
        126 => "[Traduzione]"@,
        127 => "［Informazioni di base］"@,
        128 => "［Testo originale］"@,
        129 => "［Traduzione］"@,
        130 => "[Maklumat Latar Belakang]"@,
        131 => "[Teks Sumber]"@,
        132 => "[Teks Asal]"@,
        133 => "[Terjemahan]"@,
        134 => "［Maklumat Latar Belakang］"@,
        135 => "［Teks Sumber］"@,
        136 => "［Terjemahan］"@,
        137 => "[Informasi Latar Belakang]"@,
        138 => "[Teks Sumber]"@,
        139 => "[Teks Asli]"@,
        140 => "[Terjemahan]"@,
        141 => "［Informasi Latar Belakang］"@,
        142 => "［Teks Sumber］"@,
        143 => "［Terjemahan］"@,
        144 => "[Impormasyon sa Background]"@,
        145 => "[Orihinal na Teksto]"@,
        146 => "[Pagsasalin]"@,
        147 => "［Impormasyon sa Background］"@,
        148 => "［Orihinal na Teksto］"@,
        149 => "［Pagsasalin］"@,
        150 => "[पृष्ठभूमि जानकारी]"@,
        151 => "[मूल पाठ]"@,
        152 => "[अनुवाद]"@,
        153 => "［पृष्ठभूमि जानकारी］"@,
        154 => "［मूल पाठ］"@,
        155 => "［अनुवाद］"@,
        156 => "[Informacje ogólne]"@,
        157 => "[Tekst źródłowy]"@,
        158 => "[Tekst oryginalny]"@,
        159 => "[Tłumaczenie]"@,
        160 => "［Informacje ogólne］"@,
        161 => "［Tekst źródłowy］"@,
        162 => "［Tłumaczenie］"@,
        163 => "[Základní informace]"@,
        164 => "[Zdrojový text]"@,
        165 => "[Původní text]"@,
        166 => "[Překlad]"@,
        167 => "［Základní informace］"@,
        168 => "［Zdrojový text］"@,
        169 => "［Překlad］"@,
        170 => "[Achtergrondinformatie]"@,
        171 => "[Brontekst]"@,
        172 => "[Originele tekst]"@,
        173 => "[Vertaling]"@,
        174 => "［Achtergrondinformatie］"@,
        175 => "［Brontekst］"@,
        176 => "［Vertaling］"@,
        177 => "[ព័ត៌មានផ្ទៃខាងក្រោយ]"@,
        178 => "[អត្ថបទដើម]"@,
        179 => "[ការបកប្រែ]"@,
        180 => "［ព័ត៌មានផ្ទៃខាងក្រោយ］"@,
        181 => "［អត្ថបទដើម］"@,
        182 => "［ការបកប្រែ］"@,
        183 => "[နောက်ခံအချက်အလက်]"@,
        184 => "[မူရင်းစာသား]"@,
        185 => "[ဘာသာပြန်]"@,
        186 => "［နောက်ခံအချက်အလက်］"@,
        187 => "［မူရင်းစာသား］"@,
        188 => "［ဘာသာပြန်］"@,
        189 => "[اطلاعات پس‌زمینه]"@,
        190 => "[متن اصلی]"@,
        191 => "[ترجمه]"@,
        192 => "［اطلاعات پس‌زمینه］"@,
        193 => "［متن اصلی］"@,
        194 => "［ترجمه］"@,
        195 => "[પૃષ્ઠભૂમિ માહિતી]"@,
        196 => "[મૂળ લખાણ]"@,
        197 => "[અનુવાદ]"@,
        198 => "［પૃષ્ઠભૂમિ માહિતી］"@,
        199 => "［મૂળ લખાણ］"@,
        200 => "［અનુવાદ］"@,
        201 => "[پس منظر کی معلومات]"@,
        202 => "[اصل متن]"@,
        203 => "[ترجمہ]"@,
        204 => "［پس منظر کی معلومات］"@,
        205 => "［اصل متن］"@,
        206 => "［ترجمہ］"@,
        207 => "[నేపథ్య సమాచారం]"@,
        208 => "[మూల పాఠం]"@,
        209 => "[అనువాదం]"@,
        210 => "［నేపథ్య సమాచారం］"@,
        211 => "［మూల పాఠం］"@,
        212 => "［అనువాదం］"@,
        213 => "[पार्श्वभूमी माहिती]"@,
        214 => "[मूळ मजकूर]"@,
        215 => "[अनुवाद]"@,
        216 => "［पार्श्वभूमी माहिती］"@,
        217 => "［मूळ मजकूर］"@,
        218 => "［अनुवाद］"@,
        219 => "[מידע רקע]"@,
        220 => "[טקסט מקורי]"@,
        221 => "[תרגום]"@,
        222 => "［מידע רקע］"@,
        223 => "［טקסט מקורי］"@,
        224 => "［תרגום］"@,
        225 => "[পটভূমির তথ্য]"@,
        226 => "[মূল পাঠ্য]"@,
        227 => "[অনুবাদ]"@,
        228 => "［পটভূমির তথ্য］"@,
        229 => "［মূল পাঠ্য］"@,
        230 => "［অনুবাদ］"@,
        231 => "[பின்னணி தகவல்]"@,
        232 => "[மூல உரை]"@,
        233 => "[மொழிபெயர்ப்பு]"@,
        234 => "［பின்னணி தகவல்］"@,
        235 => "［மூல உரை］"@,
        236 => "［மொழிபெயர்ப்பு］"@,
        237 => "[Основна інформація]"@,
        238 => "[Вихідний текст]"@,
        239 => "[Переклад]"@,
        240 => "［Основна інформація］"@,
        241 => "［Вихідний текст］"@,
        242 => "［Переклад］"@,
        243 => "[རྒྱབ་ལྗོངས་གནས་ཚུལ]"@,
        244 => "[མ་ཡིག]"@,
        245 => "[འགྱུར་ཡིག]"@,
        246 => "［རྒྱབ་ལྗོངས་གནས་ཚུལ］"@,
        247 => "［མ་ཡིག］"@,
        248 => "［འགྱུར་ཡིག］"@,
        249 => "[Фондық ақпарат]"@,
        250 => "[Бастапқы мәтін]"@,
        251 => "[Аударма]"@,
        252 => "［Фондық ақпарат］"@,
        253 => "［Бастапқы мәтін］"@,
        254 => "［Аударма］"@,
        255 => "[Суурь мэдээлэл]"@,
        256 => "[Эх текст]"@,
        257 => "[Орчуулга]"@,
        258 => "［Суурь мэдээлэл］"@,
        259 => "［Эх текст］"@,
        260 => "［Орчуулга］"@,
        261 => "[ئارقا كۆرۈنۈش ئۇچۇرى]"@,
        262 => "[ئەسلى تېكىست]"@,
        263 => "[تەرجىمە]"@,
        264 => "［ئارقا كۆرۈنۈش ئۇچۇرى］"@,
        265 => "［ئەسلى تېكىست］"@,
        266 => "［تەرجىمە］"@,
        267 => "[背景資訊]"@,
        268 => "[原文]"@,
        269 => "[翻譯]"@,
        270 => "［背景資訊］"@,
        271 => "［原文］"@,
        272 => "【背景資訊】"@,
        273 => "【原文】"@,
        _ => "【翻譯】"@,
    }
}

fn echo_back_marker_str(i: usize) -> (r: &'static str)
    requires
        i < ECHO_BACK_MARKER_COUNT,
    ensures
        r@ == echo_back_marker(i),
{
    match i {
        0 => "[Background Information]",
        1 => "[Source Text]",
        2 => "[Original Text]",
        3 => "[Translation]",
        4 => "[Translated]",
        5 => "［Background Information］",
        6 => "［Source Text］",
        7 => "［Original Text］",
        8 => "［Translation］",
        9 => "【Background Information】",
        10 => "【Source Text】",
        11 => "【Original Text】",
        12 => "[背景信息]",
        13 => "[待翻译文本]",
        14 => "[原文]",
        15 => "[翻译]",
        16 => "[译文]",
        17 => "［背景信息］",
        18 => "［待翻译文本］",
        19 => "［原文］",
        20 => "［翻译］",
        21 => "［译文］",
        22 => "【背景信息】",
        23 => "【待翻译文本】",
        24 => "【原文】",
        25 => "【翻译】",
        26 => "【译文】",
        27 => "【翻译结果】",
        28 => "[背景資訊]",
        29 => "[待翻譯文本]",
        30 => "[譯文]",
        31 => "［背景資訊］",
        32 => "［待翻譯文本］",
        33 => "【背景資訊】",
        34 => "【待翻譯文本】",
        35 => "【譯文】",
        36 => "[背景情報]",
        37 => "[原文]",
        38 => "[翻訳]",
        39 => "[翻訳結果]",
        40 => "［背景情報］",
        41 => "［原文］",
        42 => "［翻訳］",
        43 => "［翻訳結果］",
        44 => "【背景情報】",
        45 => "【原文】",
        46 => "【翻訳】",
        47 => "[배경 정보]",
        48 => "[원문]",
        49 => "[번역]",
        50 => "[번역 결과]",
        51 => "［배경 정보］",
        52 => "［원문］",
        53 => "［번역］",
        54 => "【배경 정보】",
        55 => "【원문】",
        56 => "【번역】",
        57 => "[Informations contextuelles]",
        58 => "[Texte source]",
        59 => "[Texte original]",
        60 => "[Traduction]",
        61 => "［Informations contextuelles］",
        62 => "［Texte source］",
        63 => "［Texte original］",
        64 => "［Traduction］",
        65 => "[Hintergrundinformationen]",
        66 => "[Quelltext]",
        67 => "[Originaltext]",
        68 => "[Übersetzung]",
        69 => "［Hintergrundinformationen］",
        70 => "［Quelltext］",
        71 => "［Originaltext］",
        72 => "［Übersetzung］",
        73 => "[Información de contexto]",
        74 => "[Texto fuente]",
        75 => "[Texto original]",
        76 => "[Traducción]",
        77 => "［Información de contexto］",
        78 => "［Texto fuente］",
        79 => "［Texto original］",
        80 => "［Traducción］",
        81 => "[Informações de contexto]",
        82 => "[Texto fonte]",
        83 => "[Texto original]",
        84 => "[Tradução]",
        85 => "［Informações de contexto］",
        86 => "［Texto fonte］",
        87 => "［Texto original］",
        88 => "［Tradução］",
        89 => "[Исходная информация]",
        90 => "[Исходный текст]",
        91 => "[Перевод]",
        92 => "［Исходная информация］",
        93 => "［Исходный текст］",
        94 => "［Перевод］",
        95 => "[معلومات أساسية]",
        96 => "[النص الأصلي]",
        97 => "[النص المصدر]",
        98 => "[الترجمة]",
        99 => "［معلومات أساسية］",
        100 => "［النص الأصلي］",
        101 => "［الترجمة］",
        102 => "[ข้อมูลพื้นหลัง]",
        103 => "[ข้อความต้นฉบับ]",
        104 => "[คำแปล]",
        105 => "［ข้อมูลพื้นหลัง］",
        106 => "［ข้อความต้นฉบับ］",
        107 => "［คำแปล］",
        108 => "[Thông tin cơ bản]",
        109 => "[Văn bản gốc]",
        110 => "[Văn bản nguồn]",
        111 => "[Bản dịch]",
        112 => "［Thông tin cơ bản］",
        113 => "［Văn bản gốc］",
        114 => "［Bản dịch］",
        115 => "[Arka Plan Bilgisi]",
        116 => "[Kaynak Metin]",
        117 => "[Orijinal Metin]",
        118 => "[Çeviri]",
        119 => "［Arka Plan Bilgisi］",
        120 => "［Kaynak Metin］",
        121 => "［Orijinal Metin］",
        122 => "［Çeviri］",
        123 => "[Informazioni di base]",
        124 => "[Testo originale]",
        125 => "[Testo sorgente]",
        126 => "[Traduzione]",
        127 => "［Informazioni di base］",
        128 => "［Testo originale］",
        129 => "［Traduzione］",
        130 => "[Maklumat Latar Belakang]",
        131 => "[Teks Sumber]",
        132 => "[Teks Asal]",
        133 => "[Terjemahan]",
        134 => "［Maklumat Latar Belakang］",
        135 => "［Teks Sumber］",
        136 => "［Terjemahan］",
        137 => "[Informasi Latar Belakang]",
        138 => "[Teks Sumber]",
        139 => "[Teks Asli]",
        140 => "[Terjemahan]",
        141 => "［Informasi Latar Belakang］",
        142 => "［Teks Sumber］",
        143 => "［Terjemahan］",
        144 => "[Impormasyon sa Background]",
        145 => "[Orihinal na Teksto]",
        146 => "[Pagsasalin]",
        147 => "［Impormasyon sa Background］",
        148 => "［Orihinal na Teksto］",
        149 => "［Pagsasalin］",
        150 => "[पृष्ठभूमि जानकारी]",
        151 => "[मूल पाठ]",
        152 => "[अनुवाद]",
        153 => "［पृष्ठभूमि जानकारी］",
        154 => "［मूल पाठ］",
        155 => "［अनुवाद］",
        156 => "[Informacje ogólne]",
        157 => "[Tekst źródłowy]",
        158 => "[Tekst oryginalny]",
        159 => "[Tłumaczenie]",
        160 => "［Informacje ogólne］",
        161 => "［Tekst źródłowy］",
        162 => "［Tłumaczenie］",
        163 => "[Základní informace]",
        164 => "[Zdrojový text]",
        165 => "[Původní text]",
        166 => "[Překlad]",
        167 => "［Základní informace］",
        168 => "［Zdrojový text］",
        169 => "［Překlad］",
        170 => "[Achtergrondinformatie]",
        171 => "[Brontekst]",
        172 => "[Originele tekst]",
        173 => "[Vertaling]",
        174 => "［Achtergrondinformatie］",
        175 => "［Brontekst］",
        176 => "［Vertaling］",
        177 => "[ព័ត៌មានផ្ទៃខាងក្រោយ]",
        178 => "[អត្ថបទដើម]",
        179 => "[ការបកប្រែ]",
        180 => "［ព័ត៌មានផ្ទៃខាងក្រោយ］",
        181 => "［អត្ថបទដើម］",
        182 => "［ការបកប្រែ］",
        183 => "[နောက်ခံအချက်အလက်]",
        184 => "[မူရင်းစာသား]",
        185 => "[ဘာသာပြန်]",
        186 => "［နောက်ခံအချက်အလက်］",
        187 => "［မူရင်းစာသား］",
        188 => "［ဘာသာပြန်］",
        189 => "[اطلاعات پس‌زمینه]",
        190 => "[متن اصلی]",
        191 => "[ترجمه]",
        192 => "［اطلاعات پس‌زمینه］",
        193 => "［متن اصلی］",
        194 => "［ترجمه］",
        195 => "[પૃષ્ઠભૂમિ માહિતી]",
        196 => "[મૂળ લખાણ]",
        197 => "[અનુવાદ]",
        198 => "［પૃષ્ઠભૂમિ માહિતી］",
        199 => "［મૂળ લખાણ］",
        200 => "［અનુવાદ］",
        201 => "[پس منظر کی معلومات]",
        202 => "[اصل متن]",
        203 => "[ترجمہ]",
        204 => "［پس منظر کی معلومات］",
        205 => "［اصل متن］",
        206 => "［ترجمہ］",
        207 => "[నేపథ్య సమాచారం]",
        208 => "[మూల పాఠం]",
        209 => "[అనువాదం]",
        210 => "［నేపథ్య సమాచారం］",
        211 => "［మూల పాఠం］",
        212 => "［అనువాదం］",
        213 => "[पार्श्वभूमी माहिती]",
        214 => "[मूळ मजकूर]",
        215 => "[अनुवाद]",
        216 => "［पार्श्वभूमी माहिती］",
        217 => "［मूळ मजकूर］",
        218 => "［अनुवाद］",
        219 => "[מידע רקע]",
        220 => "[טקסט מקורי]",
        221 => "[תרגום]",
        222 => "［מידע רקע］",
        223 => "［טקסט מקורי］",
        224 => "［תרגום］",
        225 => "[পটভূমির তথ্য]",
        226 => "[মূল পাঠ্য]",
        227 => "[অনুবাদ]",
        228 => "［পটভূমির তথ্য］",
        229 => "［মূল পাঠ্য］",
        230 => "［অনুবাদ］",
        231 => "[பின்னணி தகவல்]",
        232 => "[மூல உரை]",
        233 => "[மொழிபெயர்ப்பு]",
        234 => "［பின்னணி தகவல்］",
        235 => "［மூல உரை］",
        236 => "［மொழிபெயர்ப்பு］",
        237 => "[Основна інформація]",
        238 => "[Вихідний текст]",
        239 => "[Переклад]",
        240 => "［Основна інформація］",
        241 => "［Вихідний текст］",
        242 => "［Переклад］",
        243 => "[རྒྱབ་ལྗོངས་གནས་ཚུལ]",
        244 => "[མ་ཡིག]",
        245 => "[འགྱུར་ཡིག]",
        246 => "［རྒྱབ་ལྗོངས་གནས་ཚུལ］",
        247 => "［མ་ཡིག］",
        248 => "［འགྱུར་ཡིག］",
        249 => "[Фондық ақпарат]",
        250 => "[Бастапқы мәтін]",
        251 => "[Аударма]",
        252 => "［Фондық ақпарат］",
        253 => "［Бастапқы мәтін］",
        254 => "［Аударма］",
        255 => "[Суурь мэдээлэл]",
        256 => "[Эх текст]",
        257 => "[Орчуулга]",
        258 => "［Суурь мэдээлэл］",
        259 => "［Эх текст］",
        260 => "［Орчуулга］",
        261 => "[ئارقا كۆرۈنۈش ئۇچۇرى]",
        262 => "[ئەسلى تېكىست]",
        263 => "[تەرجىمە]",
        264 => "［ئارقا كۆرۈنۈش ئۇچۇرى］",
        265 => "［ئەسلى تېكىست］",
        266 => "［تەرجىمە］",
        267 => "[背景資訊]",
        268 => "[原文]",
        269 => "[翻譯]",
        270 => "［背景資訊］",
        271 => "［原文］",
        272 => "【背景資訊】",
        273 => "【原文】",
        _ => "【翻譯】",
    }
}

/// A reply echoes the prompt: it holds one of its headings.
pub open spec fn echoes_prompt(text: Seq<char>) -> bool {
    exists|i: usize| i < ECHO_BACK_MARKER_COUNT && contains_seq(text, #[trigger] echo_back_marker(i))
}

/// Whether a reply holds one of the prompt's headings.
pub fn has_echo_back(text: &str) -> (r: bool)
    ensures
        r == echoes_prompt(text@),
{
    let t = chars_of(text);
    let mut i: usize = 0;
    while i < ECHO_BACK_MARKER_COUNT
        invariant
            i <= ECHO_BACK_MARKER_COUNT,
            t@ == text@,
            forall|j: usize| j < i ==> !contains_seq(text@, #[trigger] echo_back_marker(j)),
        decreases ECHO_BACK_MARKER_COUNT - i,
    {
        let m = chars_of(echo_back_marker_str(i));
        if contains_chars(&t, &m) {
            assert(contains_seq(text@, echo_back_marker(i)));
            return true;
        }
        i += 1;
    }
    false
}


// ---------------------------------------------------------------------------
// Model calls
// ---------------------------------------------------------------------------

#[verifier::external_type_specification]
#[verifier::external_body]
pub struct ExInstant(std::time::Instant);

/// `Instant::now`. Nothing is claimed of the time it returns.
#[verifier::external_body]
fn clock_start() -> std::time::Instant {
    std::time::Instant::now()
}

/// `Instant::elapsed`, in microseconds. Nothing is claimed of the value.
#[verifier::external_body]
fn elapsed_micros(start: &std::time::Instant) -> u128 {
    start.elapsed().as_micros()
}

pub open spec fn mapping_view(m: Option<ZmNumberMapping>) -> Option<(Seq<char>, Seq<ZmReplacementView>)> {
    match m {
        Some(x) => Some((x.sent_text@, replacements_view(x.replacements@))),
        None => None,
    }
}

pub open spec fn opt_string_view(o: Option<String>) -> Option<Seq<char>> {
    match o {
        Some(x) => Some(x@),
        None => None,
    }
}

/// The text the model is sent for `text`: its number markers replaced by
/// transport numbers where it has any.
pub open spec fn model_input_of(text: Seq<char>) -> Seq<char> {
    match zm_mapping_spec(text) {
        Some((sent, _)) => sent,
        None => text,
    }
}

/// What a model call for `text` comes to, given the text it was sent, the
/// mapping of its markers and the model's reply: on failure the text sent;
/// otherwise the cleaned reply with its markers restored, and, where that
/// is not blank, an entry to store (exact, or a regular expression over
/// the markers).
pub open spec fn model_outcome(
    text: Seq<char>,
    mapping: Option<(Seq<char>, Seq<ZmReplacementView>)>,
    model_input: Seq<char>,
    reply: Option<Seq<char>>,
    tgt_lang: Seq<char>,
    cleanup: bool,
    elapsed: u128,
) -> ResultView {
    match reply {
        None => model_failure_result(model_input),
        Some(raw) => {
            let cleaned = cleaned_output(model_input, raw, tgt_lang, cleanup);
            let restored: Option<Seq<char>> = match mapping {
                Some((_, rv)) => restored_text(cleaned, rv),
                None => Some(cleaned),
            };
            let translated = match restored {
                Some(t) => t,
                None => cleaned,
            };
            let base = model_success_result(translated, text, model_input, elapsed);
            let value = trim(translated);
            if value.len() == 0 {
                base
            } else {
                let persist: Option<PersistView> = match mapping {
                    Some((_, rv)) => if restored is None {
                        None
                    } else {
                        match zm_persist_rule(text, rv, cleaned, translated) {
                            Some((p, r)) => Some(PersistView::Regex(p, r)),
                            None => None,
                        }
                    },
                    None => Some(PersistView::Exact(text, value)),
                };
                match persist {
                    Some(p) => ResultView { entries: seq![(text, value, p)], ..base },
                    None => base,
                }
            }
        },
    }
}

/// Turns a model reply for `text` into a result: cleans it, restores the
/// number markers and builds the entry to store.
pub fn model_call_result(
    text: &str,
    mapping: &Option<ZmNumberMapping>,
    model_input: &str,
    reply: Option<String>,
    tgt_lang: &str,
    settings: TranslationSettings,
    elapsed: u128,
) -> (r: TranslationResult)
    ensures
        r@ == model_outcome(
            text@,
            mapping_view(*mapping),
            model_input@,
            opt_string_view(reply),
            tgt_lang@,
            settings.enable_model_symbol_cleanup,
            elapsed,
        ),
{
    match reply {
        None => TranslationResult::from_model_call_failure(model_input),
        Some(raw) => {
            let cleaned = clean_model_output(
                model_input,
                raw.as_str(),
                tgt_lang,
                settings.enable_model_symbol_cleanup,
            );
            let (translated, restored_ok) = match mapping {
                Some(m) => match checked_restore_zm_number_tokens(cleaned.as_str(), m) {
                    Some(t) => (t, true),
                    None => (cleaned.clone(), false),
                },
                None => (cleaned.clone(), true),
            };
            let mut result = TranslationResult::from_model_call_success(
                translated.clone(),
                text,
                model_input,
                elapsed,
            );
            let value = string_of(&trim_chars(&chars_of(translated.as_str())));
            if value.as_str().unicode_len() == 0 {
                return result;
            }
            let persist: Option<PersistEntry> = match mapping {
                Some(m) => if restored_ok {
                    build_zm_persist_entry(text, m, cleaned.as_str(), translated.as_str())
                } else {
                    None
                },
                None => Some(PersistEntry::Exact { key: text.to_string(), value: value.clone() }),
            };
            match persist {
                Some(p) => {
                    let ghost before = result@;
                    result.new_entries.push(
                        NewTranslationEntry { source: text.to_string(), translated: value, persist: p },
                    );
                    assert(result@.entries =~= before.entries.push((text@, value@, p@)));
                },
                None => {},
            }
            result
        },
    }
}

/// The reply a model call settles on: the first answer, unless it echoes
/// the prompt's headings, in which case the answer to the same input sent
/// with the plain prompt for the target language.
pub open spec fn model_exchange<C: LlmClient + ?Sized>(
    client: &C,
    input: Seq<char>,
    prefix: Seq<char>,
    tgt_lang: Seq<char>,
    first: Option<Seq<char>>,
    reply: Option<Seq<char>>,
) -> bool {
    &&& client.answers(input, prefix, first)
    &&& if first is Some && echoes_prompt(first->0) {
        client.answers(input, fallback_prompt(tgt_lang), reply)
    } else {
        reply == first
    }
}

/// Sends a text to the model, once more with the plain prompt where the
/// reply echoed the prompt, and turns the reply into a result.
pub fn translate_model_only<C: LlmClient + ?Sized>(
    text: &str,
    prefix: &str,
    tgt_lang: &str,
    llm_client: &C,
    settings: TranslationSettings,
) -> (r: TranslationResult)
    requires
        3 * text@.len() + 3 <= usize::MAX,
    ensures
        trim(text@).len() == 0 ==> r@ == empty_result(text@),
        trim(text@).len() > 0 ==> model_answer(llm_client, prefix@, tgt_lang@, settings, text@, r@),
{
    if trim_chars(&chars_of(text)).len() == 0 {
        return TranslationResult::empty(text.to_string());
    }
    let mapping = build_zm_number_mapping(text);
    let model_input: String = match &mapping {
        Some(m) => m.sent_text.clone(),
        None => text.to_string(),
    };
    assert(mapping_view(mapping) == zm_mapping_spec(text@));
    assert(model_input@ == model_input_of(text@));
    let start = clock_start();
    let mut reply = llm_client.translate_sync(model_input.as_str(), prefix);
    let ghost first = opt_string_view(reply);
    let echoed = match &reply {
        Some(raw) => has_echo_back(raw.as_str()),
        None => false,
    };
    if echoed {
        let plain = fallback_prefix(tgt_lang);
        reply = llm_client.translate_sync(model_input.as_str(), plain.as_str());
    }
    assert(model_exchange(llm_client, model_input_of(text@), prefix@, tgt_lang@, first, opt_string_view(reply)));
    let elapsed = elapsed_micros(&start);
    let r = model_call_result(text, &mapping, model_input.as_str(), reply, tgt_lang, settings, elapsed);
    r
}


// ---------------------------------------------------------------------------
// Fragments
// ---------------------------------------------------------------------------

/// The dictionary gives `value` for `key`.
pub open spec fn lookup_hit<F>(lookup: F, key: Seq<char>, value: Seq<char>) -> bool where
    F: Fn(&str) -> Option<String>,
{
    exists|k: &str, h: String| k@ == key && h@ == value && #[trigger] call_ensures(lookup, (k,), Some(h))
}

/// The dictionary has nothing for `key`.
pub open spec fn lookup_miss<F>(lookup: F, key: Seq<char>) -> bool where F: Fn(&str) -> Option<String> {
    exists|k: &str| k@ == key && #[trigger] call_ensures(lookup, (k,), None)
}

/// The split rules give `found` for `key`.
pub open spec fn split_found<S>(lookup_split: S, key: Seq<char>, found: Option<SplitResult>) -> bool where
    S: Fn(&str) -> Option<SplitResult>,
{
    exists|k: &str| k@ == key && #[trigger] call_ensures(lookup_split, (k,), found)
}

/// The groups of a split that matched, in order.
pub open spec fn present_groups(groups: Seq<Option<(usize, usize)>>) -> Seq<(usize, usize)>
    decreases groups.len(),
{
    if groups.len() == 0 {
        seq![]
    } else {
        match groups.last() {
            Some(g) => present_groups(groups.drop_last()).push(g),
            None => present_groups(groups.drop_last()),
        }
    }
}

/// A split that takes nothing apart: no group matched and the match is the
/// whole text.
pub open spec fn split_trivial(n: int, cs: CharSplit) -> bool {
    present_groups(cs.groups@).len() == 0 && cs.start == 0 && cs.end == n
}

/// `acc` with each of `rs` absorbed in turn.
pub open spec fn absorb_all(acc: ResultView, rs: Seq<ResultView>) -> ResultView
    decreases rs.len(),
{
    if rs.len() == 0 {
        acc
    } else {
        absorb_all(absorb_view(acc, rs[0]), rs.drop_first())
    }
}

pub open spec fn result_texts(rs: Seq<ResultView>) -> Seq<Seq<char>> {
    rs.map_values(|r: ResultView| r.text)
}

/// The answer of the model for `text`: the exchange with the client for
/// its model input, and what the reply comes to.
pub open spec fn model_answer<C: LlmClient + ?Sized>(
    client: &C,
    prefix: Seq<char>,
    tgt_lang: Seq<char>,
    settings: TranslationSettings,
    text: Seq<char>,
    r: ResultView,
) -> bool {
    exists|first: Option<Seq<char>>, reply: Option<Seq<char>>, elapsed: u128|
        #[trigger] model_exchange(client, model_input_of(text), prefix, tgt_lang, first, reply)
            && r == #[trigger] model_outcome(
            text,
            zm_mapping_spec(text),
            model_input_of(text),
            reply,
            tgt_lang,
            settings.enable_model_symbol_cleanup,
            elapsed,
        )
}

/// The separator of a split as it is written out: empty, or looked up in
/// the dictionary and kept as it is where the dictionary has nothing.
pub open spec fn separator_outcome<F>(lookup: F, raw: Seq<char>, sep: Seq<char>) -> bool where
    F: Fn(&str) -> Option<String>,
{
    if raw.len() == 0 {
        sep == Seq::<char>::empty()
    } else {
        lookup_hit(lookup, raw, sep) || (lookup_miss(lookup, raw) && sep == raw)
    }
}

/// The translation of the matched group `g` of `f`: empty for an empty
/// group, else that of the group's text as a fragment of its own.
pub open spec fn group_ok<F, S, C: LlmClient + ?Sized>(
    lookup: F,
    lookup_split: S,
    client: &C,
    prefix: Seq<char>,
    tgt_lang: Seq<char>,
    settings: TranslationSettings,
    f: Seq<char>,
    g: (usize, usize),
    r: ResultView,
) -> bool where F: Fn(&str) -> Option<String>, S: Fn(&str) -> Option<SplitResult>
    decreases f.len(), 0int,
{
    if g.0 == g.1 {
        r == empty_result(Seq::<char>::empty())
    } else {
        g.0 < g.1 <= f.len() && g.1 - g.0 < f.len() && fragment_ok(
            lookup, lookup_split, client, prefix, tgt_lang, settings, f.subrange(g.0 as int, g.1 as int), r)
    }
}

pub open spec fn results_view(v: Seq<TranslationResult>) -> Seq<ResultView> {
    v.map_values(|x: TranslationResult| x@)
}

/// The translation of `f` through the split `cs` of rule result `sr`: the
/// left part, each matched group and the right part translated as
/// fragments of their own, the separator looked up, and the template
/// filled in with their texts; the parts' entries, counts and logs follow
/// in that order.
pub open spec fn split_answer<F, S, C: LlmClient + ?Sized>(
    lookup: F,
    lookup_split: S,
    client: &C,
    prefix: Seq<char>,
    tgt_lang: Seq<char>,
    settings: TranslationSettings,
    f: Seq<char>,
    r: ResultView,
    sr: SplitResult,
    cs: CharSplit,
    left: ResultView,
    inners: Seq<ResultView>,
    sep: Seq<char>,
    right: ResultView,
) -> bool where F: Fn(&str) -> Option<String>, S: Fn(&str) -> Option<SplitResult>
    decreases f.len(), 1int,
{
    let n = f.len() as int;
    let groups = present_groups(cs.groups@);
    &&& split_found(lookup_split, f, Some(sr))
    &&& split_positions(f, sr, cs)
    &&& split_usable(n, cs)
    &&& !split_trivial(n, cs)
    &&& if cs.start == 0 {
        left == empty_result(Seq::<char>::empty())
    } else {
        cs.start < n && fragment_ok(
            lookup, lookup_split, client, prefix, tgt_lang, settings, f.take(cs.start as int), left)
    }
    &&& inners.len() == groups.len()
    &&& forall|k: int|
        0 <= k < inners.len() ==> group_ok(
            lookup, lookup_split, client, prefix, tgt_lang, settings, f, groups[k], #[trigger] inners[k])
    &&& separator_outcome(lookup, separator_raw(f, cs), sep)
    &&& if cs.end == n {
        right == empty_result(Seq::<char>::empty())
    } else {
        0 < cs.end < n && fragment_ok(
            lookup, lookup_split, client, prefix, tgt_lang, settings, f.skip(cs.end as int), right)
    }
    &&& r == absorb_view(
        absorb_all(
            absorb_view(
                empty_result(combine_spec(sr.replacement@, left.text, result_texts(inners), sep, right.text)),
                left,
            ),
            inners,
        ),
        right,
    )
}

/// Names the parts of a split answer: left, groups, separator, right.
pub open spec fn split_parts(left: ResultView, inners: Seq<ResultView>, sep: Seq<char>, right: ResultView) -> bool {
    true
}

/// The split rules leave `f` to the model: no rule, no split that can be
/// taken apart, or a split that takes nothing apart.
pub open spec fn split_declined<S>(lookup_split: S, f: Seq<char>) -> bool where
    S: Fn(&str) -> Option<SplitResult>,
{
    ||| split_found(lookup_split, f, None)
    ||| exists|sr: SplitResult| #[trigger] split_found(lookup_split, f, Some(sr)) && {
        ||| forall|cs: CharSplit| !(split_positions(f, sr, cs) && split_usable(f.len() as int, cs))
        ||| exists|cs: CharSplit|
            split_positions(f, sr, cs) && split_usable(f.len() as int, cs) && #[trigger] split_trivial(
                f.len() as int,
                cs,
            )
    }
}

/// What translating fragment `f` comes to: a blank fragment stays as it
/// is; a dictionary hit is final; where the dictionary has nothing, a
/// split rule that takes the fragment apart gives its pieces' translations
/// put together, and otherwise the model answers.
pub open spec fn fragment_ok<F, S, C: LlmClient + ?Sized>(
    lookup: F,
    lookup_split: S,
    client: &C,
    prefix: Seq<char>,
    tgt_lang: Seq<char>,
    settings: TranslationSettings,
    f: Seq<char>,
    r: ResultView,
) -> bool where F: Fn(&str) -> Option<String>, S: Fn(&str) -> Option<SplitResult>
    decreases f.len(), 2int,
{
    if trim(f).len() == 0 {
        r == empty_result(f)
    } else {
        ||| exists|h: Seq<char>, e: u128|
            #![trigger lookup_hit(lookup, f, h), dict_hit_result(h, f, e)]
            lookup_hit(lookup, f, h) && r == dict_hit_result(h, f, e)
        ||| lookup_miss(lookup, f) && split_declined(lookup_split, f) && model_answer(
            client,
            prefix,
            tgt_lang,
            settings,
            f,
            r,
        )
        ||| lookup_miss(lookup, f) && exists|
            sr: SplitResult,
            cs: CharSplit,
            left: ResultView,
            inners: Seq<ResultView>,
            sep: Seq<char>,
            right: ResultView,
        |
            #![trigger split_found(lookup_split, f, Some(sr)), split_usable(f.len() as int, cs), split_parts(left, inners, sep, right)]
            split_answer(
                lookup, lookup_split, client, prefix, tgt_lang, settings, f, r, sr, cs, left, inners, sep, right,
            )
    }
}

/// A split answer for a fragment the dictionary has nothing for is what
/// translating it comes to.
proof fn lemma_split_answer_ok<F, S, C: LlmClient + ?Sized>(
    lookup: F,
    lookup_split: S,
    client: &C,
    prefix: Seq<char>,
    tgt_lang: Seq<char>,
    settings: TranslationSettings,
    f: Seq<char>,
    r: ResultView,
    sr: SplitResult,
    cs: CharSplit,
    left: ResultView,
    inners: Seq<ResultView>,
    sep: Seq<char>,
    right: ResultView,
) where F: Fn(&str) -> Option<String>, S: Fn(&str) -> Option<SplitResult>
    requires
        trim(f).len() > 0,
        lookup_miss(lookup, f),
        split_answer(lookup, lookup_split, client, prefix, tgt_lang, settings, f, r, sr, cs, left, inners, sep, right),
    ensures
        fragment_ok(lookup, lookup_split, client, prefix, tgt_lang, settings, f, r),
{
    assert(split_parts(left, inners, sep, right));
    assert(split_found(lookup_split, f, Some(sr)));
    assert(split_usable(f.len() as int, cs));
}

/// Fills in the template with the texts of the parts, then takes in the
/// parts' entries, counts and logs in order.
fn assemble_split(
    template: &str,
    left: TranslationResult,
    inners: Vec<TranslationResult>,
    sep: &str,
    right: TranslationResult,
) -> (r: TranslationResult)
    ensures
        r@ == absorb_view(
            absorb_all(
                absorb_view(
                    empty_result(
                        combine_spec(template@, left@.text, result_texts(results_view(inners@)), sep@, right@.text),
                    ),
                    left@,
                ),
                results_view(inners@),
            ),
            right@,
        ),
{
    let ghost ins = results_view(inners@);
    let mut inners = inners;
    let mut texts: Vec<String> = Vec::new();
    let mut j: usize = 0;
    while j < inners.len()
        invariant
            j <= inners@.len(),
            texts@.len() == j,
            ins == results_view(inners@),
            forall|q: int| 0 <= q < j ==> (#[trigger] texts@[q])@ == ins[q].text,
        decreases inners.len() - j,
    {
        texts.push(inners[j].text.clone());
        j += 1;
    }
    assert(strings_view(texts@) =~= result_texts(ins));
    let combined = combine_split_text(template, left.text.as_str(), texts.as_slice(), sep, right.text.as_str());
    let mut result = TranslationResult::empty(combined);
    result.absorb(left);
    let ghost target = absorb_all(result@, ins);
    while inners.len() > 0
        invariant
            absorb_all(result@, results_view(inners@)) == target,
        decreases inners.len(),
    {
        let ghost rem = results_view(inners@);
        let inner = inners.remove(0);
        assert(results_view(inners@) =~= rem.drop_first());
        assert(rem[0] == inner@);
        result.absorb(inner);
    }
    assert(results_view(inners@) =~= Seq::<ResultView>::empty());
    result.absorb(right);
    result
}

/// Translates the matched groups of the split `cs` of `fragment`, in
/// order: an empty group to an empty result, any other as a fragment of
/// its own.
fn translate_groups<F, S, C: LlmClient + ?Sized>(
    fragment: &str,
    fc: &Vec<char>,
    cs: &CharSplit,
    lookup: &F,
    lookup_split: &S,
    prefix: &str,
    tgt_lang: &str,
    llm_client: &C,
    settings: TranslationSettings,
) -> (r: Vec<TranslationResult>) where F: Fn(&str) -> Option<String>, S: Fn(&str) -> Option<SplitResult>
    requires
        forall|k: &str| #[trigger] call_requires(*lookup, (k,)),
        forall|k: &str| #[trigger] call_requires(*lookup_split, (k,)),
        3 * fragment@.len() + 3 <= usize::MAX,
        fc@ == fragment@,
        groups_in(fc@.len() as int, cs.groups@),
        split_usable(fc@.len() as int, *cs),
    ensures
        r@.len() == present_groups(cs.groups@).len(),
        forall|j: int|
            0 <= j < r@.len() ==> group_ok(
                *lookup, *lookup_split, llm_client, prefix@, tgt_lang@, settings, fragment@,
                present_groups(cs.groups@)[j], #[trigger] r@[j]@),
    decreases fragment@.len(), 0int,
{
    let ghost gv = cs.groups@;
    let n = fc.len();
    let mut out: Vec<TranslationResult> = Vec::new();
    let mut k: usize = 0;
    assert(gv.take(0) =~= Seq::<Option<(usize, usize)>>::empty());
    while k < cs.groups.len()
        invariant
            k <= gv.len(),
            gv == cs.groups@,
            n == fc@.len(),
            fc@ == fragment@,
            3 * fragment@.len() + 3 <= usize::MAX,
            groups_in(n as int, gv),
            split_usable(n as int, *cs),
            forall|q: &str| #[trigger] call_requires(*lookup, (q,)),
            forall|q: &str| #[trigger] call_requires(*lookup_split, (q,)),
            out@.len() == present_groups(gv.take(k as int)).len(),
            forall|j: int|
                0 <= j < out@.len() ==> group_ok(
                    *lookup, *lookup_split, llm_client, prefix@, tgt_lang@, settings, fragment@,
                    present_groups(gv.take(k as int))[j], #[trigger] out@[j]@),
        decreases gv.len() - k,
    {
        let ghost before = present_groups(gv.take(k as int));
        let ghost old_out = out@;
        assert(gv.take(k as int + 1).drop_last() =~= gv.take(k as int));
        assert(gv.take(k as int + 1).last() == gv[k as int]);
        assert(match gv[k as int] {
            Some((a, b)) => a <= b <= n && (b - a < n || a == b),
            None => true,
        });
        match cs.groups[k] {
            Some((a, b)) => {
                let res = if a == b {
                    TranslationResult::empty(String::new())
                } else {
                    let piece = slice_string(fc, a, b);
                    translate_fragment(piece.as_str(), lookup, lookup_split, prefix, tgt_lang, llm_client, settings)
                };
                assert(group_ok(*lookup, *lookup_split, llm_client, prefix@, tgt_lang@, settings, fragment@, (a, b), res@));
                out.push(res);
                proof {
                    let after = present_groups(gv.take(k as int + 1));
                    assert(after == before.push((a, b)));
                    assert forall|j: int| 0 <= j < out@.len() implies group_ok(
                        *lookup, *lookup_split, llm_client, prefix@, tgt_lang@, settings, fragment@,
                        after[j], #[trigger] out@[j]@) by {
                        if j < out@.len() - 1 {
                            assert(after[j] == before[j]);
                            assert(out@[j] == old_out[j]);
                        }
                    }
                }
            },
            None => {
                assert(present_groups(gv.take(k as int + 1)) == before);
            },
        }
        k += 1;
    }
    assert(gv.take(gv.len() as int) =~= gv);
    out
}

/// Translates a fragment: a dictionary hit is final; else a split rule
/// divides it into pieces translated on their own; else it goes to the
/// model.
pub fn translate_fragment<F, S, C: LlmClient + ?Sized>(
    fragment: &str,
    lookup: &F,
    lookup_split: &S,
    prefix: &str,
    tgt_lang: &str,
    llm_client: &C,
    settings: TranslationSettings,
) -> (r: TranslationResult) where F: Fn(&str) -> Option<String>, S: Fn(&str) -> Option<SplitResult>
    requires
        forall|k: &str| #[trigger] call_requires(*lookup, (k,)),
        forall|k: &str| #[trigger] call_requires(*lookup_split, (k,)),
        3 * fragment@.len() + 3 <= usize::MAX,
    ensures
        fragment_ok(*lookup, *lookup_split, llm_client, prefix@, tgt_lang@, settings, fragment@, r@),
    decreases fragment@.len(), 1int,
{
    let fc = chars_of(fragment);
    if trim_chars(&fc).len() == 0 {
        return TranslationResult::empty(fragment.to_string());
    }
    let start = clock_start();
    let hit = lookup(fragment);
    match hit {
        Some(h) => {
            let elapsed = elapsed_micros(&start);
            let ghost hv = h;
            let r = TranslationResult::from_dict_hit(h, fragment, elapsed);
            assert(call_ensures(*lookup, (fragment,), Some(hv)));
            assert(lookup_hit(*lookup, fragment@, hv@));
            return r;
        },
        None => {},
    }
    assert(lookup_miss(*lookup, fragment@));
    let split = lookup_split(fragment);
    let ghost split_v = split;
    assert(split_found(*lookup_split, fragment@, split_v));
    if let Some(sr) = split {
        assert(split_found(*lookup_split, fragment@, Some(sr)));
        if let Some(cs) = char_split_of(&fc, &sr) {
            let n = fc.len();
            assert(groups_in(n as int, cs.groups@)) by {
                assert forall|k: int| 0 <= k < cs.groups@.len() implies match #[trigger] cs.groups@[k] {
                    Some((a, b)) => a <= b <= n,
                    None => true,
                } by {
                    assert(group_at_bytes(fc@, sr.inner_groups@[k], cs.groups@[k]));
                    assert(match cs.groups@[k] {
                        Some((a, b)) => a <= b && (b - a < n || a == b),
                        None => true,
                    });
                }
            }
            let sep_raw = separator_text_raw(&fc, &cs);
            let inner_results = translate_groups(
                fragment, &fc, &cs, lookup, lookup_split, prefix, tgt_lang, llm_client, settings,
            );
            if inner_results.len() == 0 && cs.start == 0 && cs.end == n {
                assert(split_trivial(n as int, cs));
                assert(split_declined(*lookup_split, fragment@));
                return translate_model_only(fragment, prefix, tgt_lang, llm_client, settings);
            }
            let left_result = if cs.start == 0 {
                TranslationResult::empty(String::new())
            } else {
                let piece = slice_string(&fc, 0, cs.start);
                assert(piece@ == fragment@.take(cs.start as int));
                translate_fragment(piece.as_str(), lookup, lookup_split, prefix, tgt_lang, llm_client, settings)
            };
            let separator_text: String = if sep_raw.as_str().unicode_len() == 0 {
                String::new()
            } else {
                let key = sep_raw.as_str();
                let looked = lookup(key);
                match looked {
                    Some(h) => {
                        let ghost hv = h;
                        assert(call_ensures(*lookup, (key,), Some(hv)));
                        assert(lookup_hit(*lookup, sep_raw@, hv@));
                        h
                    },
                    None => {
                        assert(lookup_miss(*lookup, sep_raw@));
                        sep_raw.clone()
                    },
                }
            };
            assert(separator_outcome(*lookup, separator_raw(fragment@, cs), separator_text@));
            let right_result = if cs.end == n {
                TranslationResult::empty(String::new())
            } else {
                let piece = slice_string(&fc, cs.end, n);
                assert(piece@ == fragment@.skip(cs.end as int));
                translate_fragment(piece.as_str(), lookup, lookup_split, prefix, tgt_lang, llm_client, settings)
            };
            let ghost lv = left_result@;
            let ghost rv = right_result@;
            let ghost ins = results_view(inner_results@);
            assert forall|j: int| 0 <= j < ins.len() implies group_ok(
                *lookup, *lookup_split, llm_client, prefix@, tgt_lang@, settings, fragment@,
                present_groups(cs.groups@)[j], #[trigger] ins[j]) by {
                assert(ins[j] == inner_results@[j]@);
            }
            let result = assemble_split(
                sr.replacement.as_str(),
                left_result,
                inner_results,
                separator_text.as_str(),
                right_result,
            );
            assert(split_answer(
                *lookup, *lookup_split, llm_client, prefix@, tgt_lang@, settings, fragment@, result@,
                sr, cs, lv, ins, separator_text@, rv,
            ));
            proof {
                lemma_split_answer_ok(
                    *lookup, *lookup_split, llm_client, prefix@, tgt_lang@, settings, fragment@, result@,
                    sr, cs, lv, ins, separator_text@, rv,
                );
            }
            return result;
        }
    }
    assert(split_declined(*lookup_split, fragment@));
    translate_model_only(fragment, prefix, tgt_lang, llm_client, settings)
}


// ---------------------------------------------------------------------------
// Documents
// ---------------------------------------------------------------------------

/// The text a fragment node may get: the translation of its source as a
/// fragment, or the source as it is where it is too long to translate.
pub open spec fn fragment_text<F, S, C: LlmClient + ?Sized>(
    lookup: F,
    lookup_split: S,
    client: &C,
    prefix: Seq<char>,
    tgt_lang: Seq<char>,
    settings: TranslationSettings,
    source: Seq<char>,
    text: Seq<char>,
) -> bool where F: Fn(&str) -> Option<String>, S: Fn(&str) -> Option<SplitResult> {
    if 3 * source.len() + 3 <= usize::MAX {
        exists|r: ResultView|
            #[trigger] fragment_ok(lookup, lookup_split, client, prefix, tgt_lang, settings, source, r) && r.text
                == text
    } else {
        text == source
    }
}

/// `fragment_text` as a relation from source to text.
pub open spec fn fragment_texts<F, S, C: LlmClient + ?Sized>(
    lookup: F,
    lookup_split: S,
    client: &C,
    prefix: Seq<char>,
    tgt_lang: Seq<char>,
    settings: TranslationSettings,
) -> spec_fn(Seq<char>, Seq<char>) -> bool where
    F: Fn(&str) -> Option<String>,
    S: Fn(&str) -> Option<SplitResult>,
{
    |source: Seq<char>, text: Seq<char>|
        fragment_text(lookup, lookup_split, client, prefix, tgt_lang, settings, source, text)
}

/// A resolved node keeps the planned node: surface as it is, a fragment
/// under the same source with a text that `tr` allows for it.
pub open spec fn node_resolves(tr: spec_fn(Seq<char>, Seq<char>) -> bool, p: NodeView, r: RNodeView) -> bool {
    match (p, r) {
        (NodeView::Surface(t, k), RNodeView::Surface(t2, k2)) => t == t2 && k == k2,
        (NodeView::Fragment(src), RNodeView::Fragment(src2, text)) => src == src2 && tr(src, text),
        _ => false,
    }
}

pub open spec fn segment_resolves(tr: spec_fn(Seq<char>, Seq<char>) -> bool, p: SegView, r: RSegView) -> bool {
    &&& p.1 == r.1
    &&& p.0.len() == r.0.len()
    &&& forall|k: int| 0 <= k < p.0.len() ==> node_resolves(tr, #[trigger] p.0[k], r.0[k])
}

pub open spec fn line_resolves(
    tr: spec_fn(Seq<char>, Seq<char>) -> bool,
    p: (Seq<SegView>, Option<(Seq<char>, SurfaceKind)>),
    r: RLineView,
) -> bool {
    &&& p.1 == r.1
    &&& p.0.len() == r.0.len()
    &&& forall|k: int| 0 <= k < p.0.len() ==> segment_resolves(tr, #[trigger] p.0[k], r.0[k])
}

/// A resolved document has the shape of its plan, with a text that `tr`
/// allows for each fragment.
pub open spec fn document_resolves(
    tr: spec_fn(Seq<char>, Seq<char>) -> bool,
    p: Seq<(Seq<SegView>, Option<(Seq<char>, SurfaceKind)>)>,
    r: Seq<RLineView>,
) -> bool {
    &&& p.len() == r.len()
    &&& forall|k: int| 0 <= k < p.len() ==> line_resolves(tr, #[trigger] p[k], r[k])
}

/// The fragments of resolved nodes, in order: source and text.
pub open spec fn node_fragments(nodes: Seq<RNodeView>) -> Seq<(Seq<char>, Seq<char>)>
    decreases nodes.len(),
{
    if nodes.len() == 0 {
        seq![]
    } else {
        node_fragments(nodes.drop_last()) + match nodes.last() {
            RNodeView::Fragment(src, text) => seq![(src, text)],
            RNodeView::Surface(_, _) => seq![],
        }
    }
}

pub open spec fn segment_fragments(segs: Seq<RSegView>) -> Seq<(Seq<char>, Seq<char>)>
    decreases segs.len(),
{
    if segs.len() == 0 {
        seq![]
    } else {
        segment_fragments(segs.drop_last()) + node_fragments(segs.last().0)
    }
}

/// The fragments of a resolved document, in order: source and text.
pub open spec fn document_fragments(lines: Seq<RLineView>) -> Seq<(Seq<char>, Seq<char>)>
    decreases lines.len(),
{
    if lines.len() == 0 {
        seq![]
    } else {
        document_fragments(lines.drop_last()) + segment_fragments(lines.last().0)
    }
}

/// `r` is what translating the fragment `source` came to: its translation
/// as a fragment, or the source kept where it is too long to translate.
pub open spec fn fragment_result<F, S, C: LlmClient + ?Sized>(
    lookup: F,
    lookup_split: S,
    client: &C,
    prefix: Seq<char>,
    tgt_lang: Seq<char>,
    settings: TranslationSettings,
    source: Seq<char>,
    r: ResultView,
) -> bool where F: Fn(&str) -> Option<String>, S: Fn(&str) -> Option<SplitResult> {
    if 3 * source.len() + 3 <= usize::MAX {
        fragment_ok(lookup, lookup_split, client, prefix, tgt_lang, settings, source, r)
    } else {
        r == empty_result(source)
    }
}

/// `rs` are the results of the fragments `frags`, one each, in order, each
/// with the fragment's text.
pub open spec fn fragment_results<F, S, C: LlmClient + ?Sized>(
    lookup: F,
    lookup_split: S,
    client: &C,
    prefix: Seq<char>,
    tgt_lang: Seq<char>,
    settings: TranslationSettings,
    frags: Seq<(Seq<char>, Seq<char>)>,
    rs: Seq<ResultView>,
) -> bool where F: Fn(&str) -> Option<String>, S: Fn(&str) -> Option<SplitResult> {
    &&& rs.len() == frags.len()
    &&& forall|i: int|
        0 <= i < rs.len() ==> (#[trigger] rs[i]).text == frags[i].1 && fragment_result(
            lookup, lookup_split, client, prefix, tgt_lang, settings, frags[i].0, rs[i])
}

proof fn lemma_absorb_all_push(acc: ResultView, rs: Seq<ResultView>, x: ResultView)
    ensures
        absorb_all(acc, rs.push(x)) == absorb_view(absorb_all(acc, rs), x),
    decreases rs.len(),
{
    if rs.len() == 0 {
        assert(rs.push(x).drop_first() =~= Seq::<ResultView>::empty());
        assert(rs.push(x)[0] == x);
        assert(absorb_all(absorb_view(acc, x), Seq::<ResultView>::empty()) == absorb_view(acc, x));
    } else {
        assert(rs.push(x).drop_first() =~= rs.drop_first().push(x));
        assert(rs.push(x)[0] == rs[0]);
        lemma_absorb_all_push(absorb_view(acc, rs[0]), rs.drop_first(), x);
    }
}

proof fn lemma_fragment_results_push<F, S, C: LlmClient + ?Sized>(
    lookup: F,
    lookup_split: S,
    client: &C,
    prefix: Seq<char>,
    tgt_lang: Seq<char>,
    settings: TranslationSettings,
    frags: Seq<(Seq<char>, Seq<char>)>,
    rs: Seq<ResultView>,
    f: (Seq<char>, Seq<char>),
    x: ResultView,
) where F: Fn(&str) -> Option<String>, S: Fn(&str) -> Option<SplitResult>
    requires
        fragment_results(lookup, lookup_split, client, prefix, tgt_lang, settings, frags, rs),
        x.text == f.1,
        fragment_result(lookup, lookup_split, client, prefix, tgt_lang, settings, f.0, x),
    ensures
        fragment_results(lookup, lookup_split, client, prefix, tgt_lang, settings, frags.push(f), rs.push(x)),
{
    let frags2 = frags.push(f);
    let rs2 = rs.push(x);
    assert forall|i: int| 0 <= i < rs2.len() implies (#[trigger] rs2[i]).text == frags2[i].1 && fragment_result(
        lookup, lookup_split, client, prefix, tgt_lang, settings, frags2[i].0, rs2[i]) by {
        if i < rs.len() {
            assert(rs2[i] == rs[i] && frags2[i] == frags[i]);
        }
    }
}

/// Translates the fragments of a planned document; surface is kept. The
/// results of the fragments are gathered in order.
pub fn resolve_document<F, S, C: LlmClient + ?Sized>(
    document: &PlannedDocument,
    lookup: &F,
    lookup_split: &S,
    prefix: &str,
    tgt_lang: &str,
    llm_client: &C,
    settings: TranslationSettings,
) -> (r: (ResolvedDocument, TranslationResult)) where
    F: Fn(&str) -> Option<String>,
    S: Fn(&str) -> Option<SplitResult>,

    requires
        forall|k: &str| #[trigger] call_requires(*lookup, (k,)),
        forall|k: &str| #[trigger] call_requires(*lookup_split, (k,)),
    ensures
        document_resolves(
            fragment_texts(*lookup, *lookup_split, llm_client, prefix@, tgt_lang@, settings),
            lines_view(document.lines@),
            rlines_view(r.0.lines@),
        ),
        exists|rs: Seq<ResultView>|
            #[trigger] fragment_results(
                *lookup, *lookup_split, llm_client, prefix@, tgt_lang@, settings,
                document_fragments(rlines_view(r.0.lines@)), rs,
            ) && r.1@ == absorb_all(empty_result(Seq::<char>::empty()), rs),
{
    let ghost pv = lines_view(document.lines@);
    let ghost tr = fragment_texts(*lookup, *lookup_split, llm_client, prefix@, tgt_lang@, settings);
    let ghost e0 = empty_result(Seq::<char>::empty());
    let ghost mut rs: Seq<ResultView> = seq![];
    let mut lines: Vec<ResolvedLine> = Vec::new();
    let mut accumulated = TranslationResult::empty(String::new());
    let mut li: usize = 0;
    assert(rlines_view(lines@) =~= Seq::<RLineView>::empty());
    while li < document.lines.len()
        invariant
            li <= document.lines@.len(),
            pv == lines_view(document.lines@),
            tr == fragment_texts(*lookup, *lookup_split, llm_client, prefix@, tgt_lang@, settings),
            e0 == empty_result(Seq::<char>::empty()),
            lines@.len() == li,
            forall|q: int| 0 <= q < li ==> line_resolves(tr, #[trigger] pv[q], rline_view(lines@[q])),
            fragment_results(
                *lookup, *lookup_split, llm_client, prefix@, tgt_lang@, settings,
                document_fragments(rlines_view(lines@)), rs,
            ),
            accumulated@ == absorb_all(e0, rs),
            forall|q: &str| #[trigger] call_requires(*lookup, (q,)),
            forall|q: &str| #[trigger] call_requires(*lookup_split, (q,)),
        decreases document.lines.len() - li,
    {
        let line = &document.lines[li];
        let ghost pl = line_view(*line);
        assert(pv[li as int] == pl);
        let mut segments: Vec<ResolvedSegment> = Vec::new();
        let mut si: usize = 0;
        assert(segments@.map_values(|x: ResolvedSegment| rseg_view(x)) =~= Seq::<RSegView>::empty());
        assert(document_fragments(rlines_view(lines@)) + segment_fragments(
            segments@.map_values(|x: ResolvedSegment| rseg_view(x)),
        ) =~= document_fragments(rlines_view(lines@)));
        while si < line.segments.len()
            invariant
                si <= line.segments@.len(),
                pl == line_view(*line),
                tr == fragment_texts(*lookup, *lookup_split, llm_client, prefix@, tgt_lang@, settings),
                e0 == empty_result(Seq::<char>::empty()),
                segments@.len() == si,
                forall|q: int| 0 <= q < si ==> segment_resolves(tr, #[trigger] pl.0[q], rseg_view(segments@[q])),
                fragment_results(
                    *lookup, *lookup_split, llm_client, prefix@, tgt_lang@, settings,
                    document_fragments(rlines_view(lines@)) + segment_fragments(
                        segments@.map_values(|x: ResolvedSegment| rseg_view(x)),
                    ),
                    rs,
                ),
                accumulated@ == absorb_all(e0, rs),
                forall|q: &str| #[trigger] call_requires(*lookup, (q,)),
                forall|q: &str| #[trigger] call_requires(*lookup_split, (q,)),
            decreases line.segments.len() - si,
        {
            let segment = &line.segments[si];
            let ghost ps = seg_view(*segment);
            assert(pl.0[si as int] == ps);
            let ghost before = document_fragments(rlines_view(lines@)) + segment_fragments(
                segments@.map_values(|x: ResolvedSegment| rseg_view(x)),
            );
            let mut nodes: Vec<ResolvedNode> = Vec::new();
            let mut ni: usize = 0;
            assert(rnodes_view(nodes@) =~= Seq::<RNodeView>::empty());
            assert(before + node_fragments(rnodes_view(nodes@)) =~= before);
            while ni < segment.nodes.len()
                invariant
                    ni <= segment.nodes@.len(),
                    ps == seg_view(*segment),
                    tr == fragment_texts(*lookup, *lookup_split, llm_client, prefix@, tgt_lang@, settings),
                    e0 == empty_result(Seq::<char>::empty()),
                    nodes@.len() == ni,
                    forall|q: int| 0 <= q < ni ==> node_resolves(tr, #[trigger] ps.0[q], nodes@[q]@),
                    fragment_results(
                        *lookup, *lookup_split, llm_client, prefix@, tgt_lang@, settings,
                        before + node_fragments(rnodes_view(nodes@)),
                        rs,
                    ),
                    accumulated@ == absorb_all(e0, rs),
                    forall|q: &str| #[trigger] call_requires(*lookup, (q,)),
                    forall|q: &str| #[trigger] call_requires(*lookup_split, (q,)),
                decreases segment.nodes.len() - ni,
            {
                assert(ps.0[ni as int] == segment.nodes@[ni as int]@);
                let ghost old_nodes = rnodes_view(nodes@);
                match &segment.nodes[ni] {
                    PlannedNode::Surface(surface) => {
                        nodes.push(ResolvedNode::Surface(clone_surface(surface)));
                        proof {
                            let nv = rnodes_view(nodes@);
                            assert(nv.drop_last() =~= old_nodes);
                            assert(node_fragments(nv) =~= node_fragments(old_nodes));
                        }
                    },
                    PlannedNode::Fragment(fragment) => {
                        let source = fragment.authority.source.as_str();
                        let child = if source.unicode_len() <= (usize::MAX - 3) / 3 {
                            let c = translate_fragment(
                                source, lookup, lookup_split, prefix, tgt_lang, llm_client, settings,
                            );
                            assert(fragment_text(
                                *lookup, *lookup_split, llm_client, prefix@, tgt_lang@, settings, source@, c@.text,
                            ));
                            c
                        } else {
                            TranslationResult::empty(source.to_string())
                        };
                        assert(tr(source@, child@.text));
                        assert(fragment_result(
                            *lookup, *lookup_split, llm_client, prefix@, tgt_lang@, settings, source@, child@,
                        ));
                        let node = ResolvedFragmentNode {
                            authority: FragmentAuthority { source: fragment.authority.source.clone() },
                            text: child.text.clone(),
                        };
                        nodes.push(ResolvedNode::Fragment(node));
                        proof {
                            let nv = rnodes_view(nodes@);
                            assert(nv.drop_last() =~= old_nodes);
                            assert(nv.last() == RNodeView::Fragment(source@, child@.text));
                            assert(node_fragments(nv) =~= node_fragments(old_nodes).push((source@, child@.text)));
                            lemma_fragment_results_push(
                                *lookup, *lookup_split, llm_client, prefix@, tgt_lang@, settings,
                                before + node_fragments(old_nodes), rs, (source@, child@.text), child@,
                            );
                            assert(before + node_fragments(nv) =~= (before + node_fragments(old_nodes)).push(
                                (source@, child@.text),
                            ));
                            lemma_absorb_all_push(e0, rs, child@);
                            rs = rs.push(child@);
                        }
                        accumulated.absorb(child);
                    },
                }
                ni += 1;
            }
            let rs_seg = ResolvedSegment { nodes, trailing_separator: clone_opt_surface(&segment.trailing_separator) };
            assert(segment_resolves(tr, ps, rseg_view(rs_seg)));
            let ghost old_segs = segments@.map_values(|x: ResolvedSegment| rseg_view(x));
            segments.push(rs_seg);
            proof {
                let sv = segments@.map_values(|x: ResolvedSegment| rseg_view(x));
                assert(sv.drop_last() =~= old_segs);
                assert(sv.last() == rseg_view(rs_seg));
                assert(document_fragments(rlines_view(lines@)) + segment_fragments(sv) =~= before + node_fragments(
                    rnodes_view(rs_seg.nodes@),
                ));
            }
            si += 1;
        }
        let rl = ResolvedLine { segments, trailing_newline: clone_opt_surface(&line.trailing_newline) };
        assert(line_resolves(tr, pl, rline_view(rl)));
        let ghost old_lines = rlines_view(lines@);
        lines.push(rl);
        proof {
            let lv = rlines_view(lines@);
            assert(lv.drop_last() =~= old_lines);
            assert(lv.last() == rline_view(rl));
            assert(document_fragments(lv) =~= document_fragments(old_lines) + segment_fragments(
                rl.segments@.map_values(|x: ResolvedSegment| rseg_view(x)),
            ));
        }
        li += 1;
    }
    let doc = ResolvedDocument { lines };
    assert(fragment_results(
        *lookup, *lookup_split, llm_client, prefix@, tgt_lang@, settings,
        document_fragments(rlines_view(doc.lines@)), rs,
    ));
    assert(accumulated@ == absorb_all(empty_result(Seq::<char>::empty()), rs));
    (doc, accumulated)
}

// ---------------------------------------------------------------------------
// New entries
// ---------------------------------------------------------------------------

pub open spec fn has_source(s: Seq<EntryView>, k: Seq<char>) -> bool {
    exists|i: int| 0 <= i < s.len() && (#[trigger] s[i]).0 == k
}

/// The entries with the first of each source kept, in order.
pub open spec fn dedupe_spec(s: Seq<EntryView>) -> Seq<EntryView>
    decreases s.len(),
{
    if s.len() == 0 {
        seq![]
    } else {
        let d = dedupe_spec(s.drop_last());
        if has_source(s.drop_last(), s.last().0) {
            d
        } else {
            d.push(s.last())
        }
    }
}

pub open spec fn sources_distinct(s: Seq<EntryView>) -> bool {
    forall|i: int, j: int| 0 <= i < j < s.len() ==> (#[trigger] s[i]).0 != (#[trigger] s[j]).0
}

/// Deduplication keeps exactly one entry for each source, the first.
pub proof fn lemma_dedupe(s: Seq<EntryView>)
    ensures
        sources_distinct(dedupe_spec(s)),
        forall|k: Seq<char>| has_source(dedupe_spec(s), k) <==> has_source(s, k),
    decreases s.len(),
{
    if s.len() > 0 {
        let p = s.drop_last();
        lemma_dedupe(p);
        let d = dedupe_spec(p);
        assert forall|k: Seq<char>| has_source(p, k) implies has_source(s, k) by {
            let i = choose|i: int| 0 <= i < p.len() && (#[trigger] p[i]).0 == k;
            assert(s[i] == p[i]);
        }
        assert(s[s.len() - 1] == s.last());
        assert forall|k: Seq<char>| has_source(s, k) implies (has_source(p, k) || k == s.last().0) by {
            let i = choose|i: int| 0 <= i < s.len() && (#[trigger] s[i]).0 == k;
            if i < s.len() - 1 {
                assert(p[i] == s[i]);
            }
        }
        if !has_source(p, s.last().0) {
            let d2 = d.push(s.last());
            assert(d2[d.len() as int] == s.last());
            assert forall|k: Seq<char>| has_source(d2, k) <==> has_source(s, k) by {
                if has_source(d2, k) {
                    let i = choose|i: int| 0 <= i < d2.len() && (#[trigger] d2[i]).0 == k;
                    if i < d.len() {
                        assert(d[i] == d2[i]);
                    }
                }
                if has_source(d, k) {
                    let i = choose|i: int| 0 <= i < d.len() && (#[trigger] d[i]).0 == k;
                    assert(d2[i] == d[i]);
                }
            }
            assert forall|i: int, j: int| 0 <= i < j < d2.len() implies (#[trigger] d2[i]).0 != (#[trigger] d2[j]).0 by {
                if j == d.len() {
                    assert(d2[i] == d[i]);
                    if d[i].0 == s.last().0 {
                        assert(has_source(d, s.last().0));
                    }
                } else {
                    assert(d2[i] == d[i] && d2[j] == d[j]);
                }
            }
        }
    }
}

/// Keeps the first entry of each source, in order.
pub fn dedupe_entries(entries: Vec<NewTranslationEntry>) -> (r: Vec<NewTranslationEntry>)
    ensures
        entries_view(r@) == dedupe_spec(entries_view(entries@)),
        sources_distinct(entries_view(r@)),
{
    let ghost ev = entries_view(entries@);
    let mut seen = new_token_set();
    let mut out: Vec<NewTranslationEntry> = Vec::new();
    let mut i: usize = 0;
    assert(ev.take(0) =~= Seq::<EntryView>::empty());
    assert(entries_view(out@) =~= seq![]);
    assert(token_set_contents(seen) =~= Set::new(|k: Seq<char>| has_source(ev.take(0), k)));
    let n = entries.len();
    while i < n
        invariant
            i <= n,
            n == ev.len(),
            entries@.len() == n,
            ev == entries_view(entries@),
            entries_view(out@) == dedupe_spec(ev.take(i as int)),
            token_set_contents(seen) == Set::new(|k: Seq<char>| has_source(ev.take(i as int), k)),
        decreases n - i,
    {
        let e = &entries[i];
        let ghost p = ev.take(i as int);
        assert(ev.take(i as int + 1).drop_last() =~= p);
        assert(ev.take(i as int + 1).last() == e@);
        let present = token_set_contains(&seen, e.source.as_str());
        assert(present == has_source(p, e.source@));
        let ghost before = entries_view(out@);
        if !present {
            out.push(crate::translator::types::clone_entry(e));
            assert(entries_view(out@) =~= before.push(e@));
            token_set_insert(&mut seen, e.source.clone());
        }
        proof {
            let q = ev.take(i as int + 1);
            assert forall|k: Seq<char>| has_source(q, k) <==> (has_source(p, k) || k == e.source@) by {
                if has_source(q, k) {
                    let j = choose|j: int| 0 <= j < q.len() && (#[trigger] q[j]).0 == k;
                    if j < p.len() {
                        assert(p[j] == q[j]);
                    }
                }
                if has_source(p, k) {
                    let j = choose|j: int| 0 <= j < p.len() && (#[trigger] p[j]).0 == k;
                    assert(q[j] == p[j]);
                }
                if k == e.source@ {
                    assert(q[i as int] == e@);
                }
            }
            assert(token_set_contents(seen) =~= Set::new(|k: Seq<char>| has_source(q, k)));
        }
        i += 1;
    }
    assert(ev.take(n as int) =~= ev);
    proof {
        lemma_dedupe(ev);
    }
    out
}

} // verus!

verus! {

/// A dictionary that gives every key back as its own translation.
pub open spec fn identity_lookup<F>(lookup: F) -> bool where F: Fn(&str) -> Option<String> {
    forall|k: &str, o: Option<String>| #[trigger] call_ensures(lookup, (k,), o) ==> (o matches Some(h) && h@ == k@)
}

/// With a dictionary that gives every key back, a fragment translates to
/// itself: a dictionary hit, or a blank fragment kept, with no entry and no
/// model call.
pub proof fn lemma_identity_lookup_fragment<F, S, C: LlmClient + ?Sized>(
    lookup: F,
    lookup_split: S,
    client: &C,
    prefix: Seq<char>,
    tgt_lang: Seq<char>,
    settings: TranslationSettings,
    f: Seq<char>,
    r: ResultView,
) where F: Fn(&str) -> Option<String>, S: Fn(&str) -> Option<SplitResult>
    requires
        identity_lookup(lookup),
        fragment_ok(lookup, lookup_split, client, prefix, tgt_lang, settings, f, r),
    ensures
        r.text == f,
        r.entries.len() == 0,
        r.model_calls == 0,
{
    if trim(f).len() > 0 {
        if lookup_miss(lookup, f) {
            let k = choose|k: &str| k@ == f && #[trigger] call_ensures(lookup, (k,), None);
            assert(call_ensures(lookup, (k,), None::<String>));
        }
        let (h, e) = choose|h: Seq<char>, e: u128|
            #![trigger lookup_hit(lookup, f, h), dict_hit_result(h, f, e)]
            lookup_hit(lookup, f, h) && r == dict_hit_result(h, f, e);
        let (k, hs) = choose|k: &str, hs: String|
            k@ == f && hs@ == h && #[trigger] call_ensures(lookup, (k,), Some(hs));
        assert(call_ensures(lookup, (k,), Some(hs)));
    }
}

/// With a dictionary that gives every key back, every fragment of a
/// resolved document keeps its source as its text.
pub proof fn lemma_identity_lookup_texts<F, S, C: LlmClient + ?Sized>(
    lookup: F,
    lookup_split: S,
    client: &C,
    prefix: Seq<char>,
    tgt_lang: Seq<char>,
    settings: TranslationSettings,
    source: Seq<char>,
    text: Seq<char>,
) where F: Fn(&str) -> Option<String>, S: Fn(&str) -> Option<SplitResult>
    requires
        identity_lookup(lookup),
        fragment_texts(lookup, lookup_split, client, prefix, tgt_lang, settings)(source, text),
    ensures
        text == source,
{
    if 3 * source.len() + 3 <= usize::MAX {
        let r = choose|r: ResultView|
            #[trigger] fragment_ok(lookup, lookup_split, client, prefix, tgt_lang, settings, source, r) && r.text
                == text;
        lemma_identity_lookup_fragment(lookup, lookup_split, client, prefix, tgt_lang, settings, source, r);
    }
}

} // verus!
