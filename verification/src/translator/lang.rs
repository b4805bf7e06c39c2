//! Prompt prefixes that tell the model which language to translate into.

use vstd::prelude::*;

use crate::text::{chars_of, replace_all, replace_str, str_equal, to_owned_string, trim, trim_chars};

verus! {

/// The English name of a preset target language code, or empty.
pub open spec fn preset_lang_name(code: Seq<char>) -> Seq<char> {
    if code == "zh-CN"@ {
        "Simplified Chinese"@
    } else if code == "zh-TW"@ {
        "Traditional Chinese"@
    } else if code == "en"@ {
        "English"@
    } else if code == "ja"@ {
        "Japanese"@
    } else if code == "ko"@ {
        "Korean"@
    } else if code == "ar"@ {
        "Arabic"@
    } else {
        ""@
    }
}

/// The English name of a preset target language code, or "".
pub fn lang_name_en(code: &str) -> (r: &'static str)
    ensures
        r@ == preset_lang_name(code@),
{
    if str_equal(code, "zh-CN") {
        "Simplified Chinese"
    } else if str_equal(code, "zh-TW") {
        "Traditional Chinese"
    } else if str_equal(code, "en") {
        "English"
    } else if str_equal(code, "ja") {
        "Japanese"
    } else if str_equal(code, "ko") {
        "Korean"
    } else if str_equal(code, "ar") {
        "Arabic"
    } else {
        ""
    }
}

/// Each preset code is called by its own English name, whatever custom
/// name comes with it: zh-CN is Simplified Chinese, zh-TW Traditional
/// Chinese, en English, ja Japanese, ko Korean and ar Arabic.
pub proof fn lemma_preset_names(custom_name: Seq<char>)
    ensures
        lang_name("zh-CN"@, custom_name) == "Simplified Chinese"@,
        lang_name("zh-TW"@, custom_name) == "Traditional Chinese"@,
        lang_name("en"@, custom_name) == "English"@,
        lang_name("ja"@, custom_name) == "Japanese"@,
        lang_name("ko"@, custom_name) == "Korean"@,
        lang_name("ar"@, custom_name) == "Arabic"@,
{
    reveal_strlit("Simplified Chinese");
    reveal_strlit("Traditional Chinese");
    reveal_strlit("English");
    reveal_strlit("Japanese");
    reveal_strlit("Korean");
    reveal_strlit("Arabic");
    reveal_strlit("zh-CN");
    reveal_strlit("zh-TW");
    reveal_strlit("en");
    reveal_strlit("ja");
    reveal_strlit("ko");
    reveal_strlit("ar");
    assert("zh-TW"@[3] != "zh-CN"@[3]);
    assert("ja"@[0] != "en"@[0]);
    assert("ko"@[0] != "en"@[0] && "ko"@[0] != "ja"@[0]);
    assert("ar"@[0] != "en"@[0] && "ar"@[0] != "ja"@[0] && "ar"@[0] != "ko"@[0]);
}

/// No two target codes share a preset name: a code with a preset name is
/// the only code called by it.
pub proof fn lemma_preset_names_distinct(a: Seq<char>, b: Seq<char>)
    requires
        a != b,
        preset_lang_name(a).len() > 0,
    ensures
        preset_lang_name(a) != preset_lang_name(b),
{
    reveal_strlit("Simplified Chinese");
    reveal_strlit("Traditional Chinese");
    reveal_strlit("English");
    reveal_strlit("Japanese");
    reveal_strlit("Korean");
    reveal_strlit("Arabic");
    reveal_strlit("");
    assert("Simplified Chinese"@[0] != "Traditional Chinese"@[0]);
    assert("Korean"@[0] != "Arabic"@[0]);
}

/// The target language's name: the preset name, else the custom name
/// unless blank, else the code itself.
pub open spec fn lang_name(code: Seq<char>, custom_name: Seq<char>) -> Seq<char> {
    if preset_lang_name(code).len() > 0 {
        preset_lang_name(code)
    } else if trim(custom_name).len() > 0 {
        custom_name
    } else {
        code
    }
}

/// The name to use for the target language in a prompt.
pub fn resolve_lang_name(code: &str, custom_name: &str) -> (r: String)
    ensures
        r@ == lang_name(code@, custom_name@),
{
    let preset = lang_name_en(code);
    if !preset.is_empty() {
        to_owned_string(preset)
    } else {
        let custom = chars_of(custom_name);
        if trim_chars(&custom).len() > 0 {
            to_owned_string(custom_name)
        } else {
            to_owned_string(code)
        }
    }
}

/// The prompt used when no template is configured.
pub open spec fn fallback_prompt(tgt_lang: Seq<char>) -> Seq<char> {
    "Translate the following text into "@ + lang_name(tgt_lang, ""@)
        + ". Note that you should only output the translated result without any additional explanation:\n\n{source_text}"@
}

/// The prompt used when no template is configured.
pub fn fallback_prefix(tgt_lang: &str) -> (r: String)
    ensures
        r@ == fallback_prompt(tgt_lang@),
{
    let target = resolve_lang_name(tgt_lang, "");
    let mut out = to_owned_string("Translate the following text into ");
    out.append(target.as_str());
    out.append(
        ". Note that you should only output the translated result without any additional explanation:\n\n{source_text}",
    );
    out
}

/// The template with its language and background placeholders filled in.
pub open spec fn lang_prefix(
    tgt_lang: Seq<char>,
    custom_name: Seq<char>,
    prompt_template: Seq<char>,
    background_text: Seq<char>,
) -> Seq<char> {
    let target = lang_name(tgt_lang, custom_name);
    replace_all(
        replace_all(
            replace_all(
                replace_all(
                    replace_all(prompt_template, "{target}"@, target),
                    "{target_lang}"@,
                    target,
                ),
                "{language}"@,
                target,
            ),
            "{lang}"@,
            target,
        ),
        "{background_text}"@,
        background_text,
    )
}

/// Fills the prompt template: `{target}`, `{target_lang}`, `{language}`
/// and `{lang}` become the target language's name, and
/// `{background_text}` the background text.
pub fn build_lang_prefix(
    _src_lang: &str,
    tgt_lang: &str,
    custom_name: &str,
    prompt_template: &str,
    background_text: &str,
) -> (r: String)
    ensures
        r@ == lang_prefix(tgt_lang@, custom_name@, prompt_template@, background_text@),
{
    proof {
        reveal_strlit("{target}");
        reveal_strlit("{target_lang}");
        reveal_strlit("{language}");
        reveal_strlit("{lang}");
        reveal_strlit("{background_text}");
    }
    let target = resolve_lang_name(tgt_lang, custom_name);
    let a = replace_str(prompt_template, "{target}", target.as_str());
    let b = replace_str(a.as_str(), "{target_lang}", target.as_str());
    let c = replace_str(b.as_str(), "{language}", target.as_str());
    let d = replace_str(c.as_str(), "{lang}", target.as_str());
    replace_str(d.as_str(), "{background_text}", background_text)
}

} // verus!
