//! Runtime configuration and translation profiles, and the rules that
//! normalise them after loading.

use std::collections::HashMap;
use vstd::prelude::*;
use crate::text::{
    chars_equal, chars_of, is_ws, lemma_trim_no_ws, str_equal, string_of, to_owned_string, trim,
    trim_chars,
};

verus! {

// ---------------------------------------------------------------------------
// ASCII helpers
// ---------------------------------------------------------------------------

pub open spec fn ascii_lower(c: char) -> char {
    if 'A' <= c <= 'Z' {
        ((c as u32) + 32) as char
    } else {
        c
    }
}

/// `str::to_ascii_lowercase` on characters.
pub open spec fn ascii_lowercase(s: Seq<char>) -> Seq<char> {
    s.map_values(|c: char| ascii_lower(c))
}

pub open spec fn is_ascii_alnum(c: char) -> bool {
    ('0' <= c <= '9') || ('a' <= c <= 'z') || ('A' <= c <= 'Z')
}

fn lower_char(c: char) -> (r: char)
    ensures
        r == ascii_lower(c),
{
    if 'A' <= c && c <= 'Z' {
        let b: u8 = (c as u8) + 32;
        b as char
    } else {
        c
    }
}

/// The ASCII lowercase of `s`.
pub fn ascii_lowercase_chars(s: &[char]) -> (r: Vec<char>)
    ensures
        r@ == ascii_lowercase(s@),
{
    let mut r: Vec<char> = Vec::new();
    let mut i: usize = 0;
    while i < s.len()
        invariant
            i <= s.len(),
            r@ == ascii_lowercase(s@.take(i as int)),
        decreases s.len() - i,
    {
        r.push(lower_char(s[i]));
        i += 1;
        assert(r@ =~= ascii_lowercase(s@.take(i as int)));
    }
    assert(s@.take(s.len() as int) =~= s@);
    r
}

// ---------------------------------------------------------------------------
// Names and modes
// ---------------------------------------------------------------------------

/// The target languages offered as presets.
pub open spec fn is_preset_lang(code: Seq<char>) -> bool {
    code == "ja"@ || code == "en"@ || code == "zh-CN"@ || code == "zh-TW"@ || code == "ko"@
}

/// Whether `code` is one of the preset target languages.
pub fn is_target_language_preset(code: &str) -> (r: bool)
    ensures
        r == is_preset_lang(code@),
{
    let c = chars_of(code);
    chars_equal(&c, &chars_of("ja")) || chars_equal(&c, &chars_of("en")) || chars_equal(
        &c,
        &chars_of("zh-CN"),
    ) || chars_equal(&c, &chars_of("zh-TW")) || chars_equal(&c, &chars_of("ko"))
}

/// The mode a mode value stands for: `normal` (also spelled `passthrough`)
/// or `game` (also spelled `structural`, and the default).
pub open spec fn normalized_mode(value: Seq<char>) -> Seq<char> {
    let v = ascii_lowercase(trim(value));
    if v == "normal"@ || v == "passthrough"@ {
        "normal"@
    } else {
        "game"@
    }
}

/// Maps a mode value, legacy names included, to `normal` or `game`.
pub fn normalize_mode_value(value: &str) -> (r: String)
    ensures
        r@ == normalized_mode(value@),
{
    let cs = chars_of(value);
    let t = trim_chars(&cs);
    let v = ascii_lowercase_chars(&t);
    if chars_equal(&v, &chars_of("normal")) || chars_equal(&v, &chars_of("passthrough")) {
        to_owned_string("normal")
    } else {
        to_owned_string("game")
    }
}

pub open spec fn normalized_ui_lang(value: Seq<char>) -> Seq<char> {
    let v = trim(value);
    if v == "en"@ || v == "ja"@ || v == "zh-CN"@ {
        v
    } else {
        "en"@
    }
}

/// The interface language: `en`, `ja` or `zh-CN`, else `en`.
pub fn normalize_ui_lang(value: &str) -> (r: String)
    ensures
        r@ == normalized_ui_lang(value@),
{
    let cs = chars_of(value);
    let v = trim_chars(&cs);
    if chars_equal(&v, &chars_of("en")) || chars_equal(&v, &chars_of("ja")) || chars_equal(
        &v,
        &chars_of("zh-CN"),
    ) {
        string_of(&v)
    } else {
        to_owned_string("en")
    }
}

pub open spec fn is_profile_name_char(c: char) -> bool {
    is_ascii_alnum(c) || c == '_'
}

/// The characters of `s` that may stand in a profile file name.
pub open spec fn profile_name_chars(s: Seq<char>) -> Seq<char>
    decreases s.len(),
{
    if s.len() == 0 {
        seq![]
    } else if is_profile_name_char(s.last()) {
        profile_name_chars(s.drop_last()).push(s.last())
    } else {
        profile_name_chars(s.drop_last())
    }
}

pub open spec fn sanitized_profile_name(name: Seq<char>) -> Seq<char> {
    if name.len() == 0 || profile_name_chars(name).len() == 0 {
        "game"@
    } else {
        profile_name_chars(name)
    }
}

/// Keeps the ASCII letters, digits and `_` of a profile name; `game` when none remain.
pub fn sanitize_profile_name(name: &str) -> (r: String)
    ensures
        r@ == sanitized_profile_name(name@),
{
    let cs = chars_of(name);
    let mut kept: Vec<char> = Vec::new();
    let mut i: usize = 0;
    while i < cs.len()
        invariant
            i <= cs.len(),
            kept@ == profile_name_chars(cs@.take(i as int)),
        decreases cs.len() - i,
    {
        assert(cs@.take(i as int + 1).drop_last() =~= cs@.take(i as int));
        let c = cs[i];
        if ('0' <= c && c <= '9') || ('a' <= c && c <= 'z') || ('A' <= c && c <= 'Z') || c
            == '_' {
            kept.push(c);
        }
        i += 1;
    }
    assert(cs@.take(cs.len() as int) =~= cs@);
    if kept.len() == 0 {
        to_owned_string("game")
    } else {
        string_of(&kept)
    }
}

pub open spec fn normalized_profile_name(value: Seq<char>) -> Seq<char> {
    let t = trim(value);
    let lower = ascii_lowercase(t);
    if t.len() == 0 {
        "game"@
    } else if lower == "unity_ja"@ || lower == "rpgmaker_ja"@ || lower == "default"@ {
        "game"@
    } else if lower == "game"@ || lower == "normal"@ {
        lower
    } else {
        sanitized_profile_name(t)
    }
}

/// The profile a profile name refers to: legacy names map to `game`.
pub fn normalize_profile_name(value: &str) -> (r: String)
    ensures
        r@ == normalized_profile_name(value@),
{
    let cs = chars_of(value);
    let t = trim_chars(&cs);
    if t.len() == 0 {
        return to_owned_string("game");
    }
    let lower = ascii_lowercase_chars(&t);
    if chars_equal(&lower, &chars_of("unity_ja")) || chars_equal(&lower, &chars_of("rpgmaker_ja"))
        || chars_equal(&lower, &chars_of("default")) {
        to_owned_string("game")
    } else if chars_equal(&lower, &chars_of("game")) || chars_equal(&lower, &chars_of("normal")) {
        string_of(&lower)
    } else {
        let ts = string_of(&t);
        sanitize_profile_name(ts.as_str())
    }
}

pub open spec fn default_prompt() -> Seq<char> {
    "Translate the following segment into {target}, without additional explanation."@
}

/// The prompt used when a profile gives none.
pub fn default_prompt_template() -> (r: String)
    ensures
        r@ == default_prompt(),
{
    to_owned_string("Translate the following segment into {target}, without additional explanation.")
}

// ---------------------------------------------------------------------------
// Option groups
// ---------------------------------------------------------------------------

/// Which parts of game text are protected from the model.
#[derive(Debug, Clone, Copy, PartialEq, Eq)]
pub struct GameTextOptions {
    pub protect_tags: bool,
    pub protect_brackets: bool,
    pub protect_escaped_sequences: bool,
    pub protect_placeholders: bool,
    pub split_symbolic_segments: bool,
}

impl Default for GameTextOptions {
    /// Everything protected.
    fn default() -> (r: Self)
        ensures
            r.protect_tags && r.protect_brackets && r.protect_escaped_sequences
                && r.protect_placeholders && r.split_symbolic_segments,
    {
        Self {
            protect_tags: true,
            protect_brackets: true,
            protect_escaped_sequences: true,
            protect_placeholders: true,
            split_symbolic_segments: true,
        }
    }
}

/// The game-text options as a profile stores them.
#[derive(Debug, Clone, Copy, PartialEq, Eq)]
pub struct ProfileGameTextOptions {
    pub protect_tags: bool,
    pub protect_brackets: bool,
    pub protect_escaped_sequences: bool,
    pub protect_placeholders: bool,
    pub split_symbolic_segments: bool,
}

impl Default for ProfileGameTextOptions {
    /// Nothing protected.
    fn default() -> (r: Self)
        ensures
            !r.protect_tags && !r.protect_brackets && !r.protect_escaped_sequences
                && !r.protect_placeholders && !r.split_symbolic_segments,
    {
        Self {
            protect_tags: false,
            protect_brackets: false,
            protect_escaped_sequences: false,
            protect_placeholders: false,
            split_symbolic_segments: false,
        }
    }
}

impl From<GameTextOptions> for ProfileGameTextOptions {
    fn from(value: GameTextOptions) -> (r: Self) {
        Self {
            protect_tags: value.protect_tags,
            protect_brackets: value.protect_brackets,
            protect_escaped_sequences: value.protect_escaped_sequences,
            protect_placeholders: value.protect_placeholders,
            split_symbolic_segments: value.split_symbolic_segments,
        }
    }
}

impl vstd::std_specs::convert::FromSpecImpl<GameTextOptions> for ProfileGameTextOptions {
    open spec fn obeys_from_spec() -> bool {
        true
    }

    open spec fn from_spec(value: GameTextOptions) -> Self {
        Self {
            protect_tags: value.protect_tags,
            protect_brackets: value.protect_brackets,
            protect_escaped_sequences: value.protect_escaped_sequences,
            protect_placeholders: value.protect_placeholders,
            split_symbolic_segments: value.split_symbolic_segments,
        }
    }
}

impl From<ProfileGameTextOptions> for GameTextOptions {
    fn from(value: ProfileGameTextOptions) -> (r: Self) {
        Self {
            protect_tags: value.protect_tags,
            protect_brackets: value.protect_brackets,
            protect_escaped_sequences: value.protect_escaped_sequences,
            protect_placeholders: value.protect_placeholders,
            split_symbolic_segments: value.split_symbolic_segments,
        }
    }
}

impl vstd::std_specs::convert::FromSpecImpl<ProfileGameTextOptions> for GameTextOptions {
    open spec fn obeys_from_spec() -> bool {
        true
    }

    open spec fn from_spec(value: ProfileGameTextOptions) -> Self {
        Self {
            protect_tags: value.protect_tags,
            protect_brackets: value.protect_brackets,
            protect_escaped_sequences: value.protect_escaped_sequences,
            protect_placeholders: value.protect_placeholders,
            split_symbolic_segments: value.split_symbolic_segments,
        }
    }
}

/// How model output is post-processed, as a profile stores it.
#[derive(Debug, Clone, Copy, PartialEq, Eq)]
pub struct ProfileModelProcessingOptions {
    pub enable_model_wrap: bool,
    pub model_wrap_min_chars: usize,
    pub model_wrap_space_fallback_min_chars: usize,
    pub enable_model_symbol_cleanup: bool,
}

impl Default for ProfileModelProcessingOptions {
    fn default() -> (r: Self)
        ensures
            !r.enable_model_wrap,
            r.model_wrap_min_chars == 80,
            r.model_wrap_space_fallback_min_chars == 100,
            !r.enable_model_symbol_cleanup,
    {
        Self {
            enable_model_wrap: false,
            model_wrap_min_chars: 80,
            model_wrap_space_fallback_min_chars: 100,
            enable_model_symbol_cleanup: false,
        }
    }
}

} // verus!

verus! {

// ---------------------------------------------------------------------------
// Translation profiles
// ---------------------------------------------------------------------------

/// A named set of translation settings, stored as its own file.
#[derive(Debug, Clone)]
pub struct TranslationProfile {
    pub version: u32,
    pub mode: String,
    pub prompt_template: String,
    pub game_text: ProfileGameTextOptions,
    pub model_processing: ProfileModelProcessingOptions,
}

/// The model processing every built-in profile starts from.
pub open spec fn is_default_model_processing(m: ProfileModelProcessingOptions) -> bool {
    &&& m.enable_model_wrap
    &&& m.model_wrap_min_chars == 80
    &&& m.model_wrap_space_fallback_min_chars == 100
    &&& m.enable_model_symbol_cleanup
}

pub open spec fn protects_everything(g: ProfileGameTextOptions) -> bool {
    g.protect_tags && g.protect_brackets && g.protect_escaped_sequences && g.protect_placeholders
        && g.split_symbolic_segments
}

pub open spec fn protects_nothing(g: ProfileGameTextOptions) -> bool {
    !g.protect_tags && !g.protect_brackets && !g.protect_escaped_sequences
        && !g.protect_placeholders && !g.split_symbolic_segments
}

fn default_model_processing() -> (r: ProfileModelProcessingOptions)
    ensures
        is_default_model_processing(r),
{
    ProfileModelProcessingOptions {
        enable_model_wrap: true,
        model_wrap_min_chars: 80,
        model_wrap_space_fallback_min_chars: 100,
        enable_model_symbol_cleanup: true,
    }
}

impl TranslationProfile {
    /// The `game` profile: every protection on, wrapping and cleanup on.
    pub fn game_default() -> (r: Self)
        ensures
            r.version == 1,
            r.mode@ == "game"@,
            r.prompt_template@ == default_prompt(),
            protects_everything(r.game_text),
            is_default_model_processing(r.model_processing),
    {
        Self {
            version: 1,
            mode: to_owned_string("game"),
            prompt_template: default_prompt_template(),
            game_text: ProfileGameTextOptions {
                protect_tags: true,
                protect_brackets: true,
                protect_escaped_sequences: true,
                protect_placeholders: true,
                split_symbolic_segments: true,
            },
            model_processing: default_model_processing(),
        }
    }

    /// The `normal` profile: no protections, wrapping and cleanup on.
    pub fn normal_default() -> (r: Self)
        ensures
            r.version == 1,
            r.mode@ == "normal"@,
            r.prompt_template@ == default_prompt(),
            protects_nothing(r.game_text),
            is_default_model_processing(r.model_processing),
    {
        Self {
            version: 1,
            mode: to_owned_string("normal"),
            prompt_template: default_prompt_template(),
            game_text: ProfileGameTextOptions::default(),
            model_processing: default_model_processing(),
        }
    }

    /// The built-in profile for `name`: `normal` for the normal profile,
    /// `game` for every other name.
    pub fn default_for_name(name: &str) -> (r: Self)
        ensures
            r.version == 1,
            r.mode@ == (if normalized_profile_name(name@) == "normal"@ {
                "normal"@
            } else {
                "game"@
            }),
            r.prompt_template@ == default_prompt(),
            normalized_profile_name(name@) == "normal"@ ==> protects_nothing(r.game_text),
            normalized_profile_name(name@) != "normal"@ ==> protects_everything(r.game_text),
            is_default_model_processing(r.model_processing),
    {
        let n = normalize_profile_name(name);
        if str_equal(n.as_str(), "normal") {
            Self::normal_default()
        } else {
            Self::game_default()
        }
    }

    /// Brings a loaded profile to its canonical form: the mode by its
    /// current name, a prompt when it is blank, and consistent wrap widths.
    pub fn normalize(&mut self)
        ensures
            final(self).version == old(self).version,
            final(self).mode@ == normalized_mode(old(self).mode@),
            final(self).prompt_template@ == (if trim(old(self).prompt_template@).len() == 0 {
                default_prompt()
            } else {
                old(self).prompt_template@
            }),
            final(self).game_text == old(self).game_text,
            final(self).model_processing.enable_model_wrap
                == old(self).model_processing.enable_model_wrap,
            final(self).model_processing.enable_model_symbol_cleanup
                == old(self).model_processing.enable_model_symbol_cleanup,
            final(self).model_processing.model_wrap_min_chars == (if old(
                self,
            ).model_processing.model_wrap_min_chars == 0 {
                80
            } else {
                old(self).model_processing.model_wrap_min_chars
            }),
            final(self).model_processing.model_wrap_space_fallback_min_chars == (if old(
                self,
            ).model_processing.model_wrap_space_fallback_min_chars
                < final(self).model_processing.model_wrap_min_chars {
                100
            } else {
                old(self).model_processing.model_wrap_space_fallback_min_chars
            }),
    {
        self.mode = normalize_mode_value(self.mode.as_str());
        let pc = chars_of(self.prompt_template.as_str());
        let pt = trim_chars(&pc);
        if pt.len() == 0 {
            self.prompt_template = default_prompt_template();
        }
        if self.model_processing.model_wrap_min_chars == 0 {
            self.model_processing.model_wrap_min_chars = 80;
        }
        if self.model_processing.model_wrap_space_fallback_min_chars
            < self.model_processing.model_wrap_min_chars {
            self.model_processing.model_wrap_space_fallback_min_chars = 100;
        }
    }
}

impl Default for TranslationProfile {
    fn default() -> (r: Self)
        ensures
            r.version == 1,
            r.mode@ == "game"@,
            r.prompt_template@ == default_prompt(),
            protects_everything(r.game_text),
            is_default_model_processing(r.model_processing),
    {
        Self::game_default()
    }
}

// ---------------------------------------------------------------------------
// List mode settings
// ---------------------------------------------------------------------------

/// Settings of the list translation mode; paths are held as text.
#[derive(Debug, Clone, PartialEq, Eq)]
pub struct ListConfig {
    pub input_root: String,
    pub output_path: String,
    pub request_timeout: u64,
    pub chunk_size: usize,
}

impl Default for ListConfig {
    fn default() -> (r: Self)
        ensures
            r.input_root@.len() == 0,
            r.output_path@.len() == 0,
            r.request_timeout == 60,
            r.chunk_size == 0,
    {
        Self { input_root: String::new(), output_path: String::new(), request_timeout: 60, chunk_size: 0 }
    }
}

impl ListConfig {
    /// Whether these are the default settings.
    pub fn is_default(&self) -> (r: bool)
        ensures
            r == (self.input_root@.len() == 0 && self.output_path@.len() == 0
                && self.request_timeout == 60 && self.chunk_size == 0),
    {
        self.input_root.as_str().unicode_len() == 0 && self.output_path.as_str().unicode_len() == 0
            && self.request_timeout == 60 && self.chunk_size == 0
    }

    /// Items per request: the configured size, or the number of parallel
    /// slots but at least 4 when none is configured.
    pub fn effective_chunk_size(&self, parallel_slots: usize) -> (r: usize)
        ensures
            r == (if self.chunk_size == 0 {
                if parallel_slots >= 4 {
                    parallel_slots
                } else {
                    4
                }
            } else {
                self.chunk_size
            }),
    {
        if self.chunk_size == 0 {
            if parallel_slots >= 4 {
                parallel_slots
            } else {
                4
            }
        } else {
            self.chunk_size
        }
    }

    /// The request timeout in seconds, 60 when none is configured.
    pub fn effective_timeout_secs(&self) -> (r: u64)
        ensures
            r == (if self.request_timeout == 0 {
                60
            } else {
                self.request_timeout
            }),
    {
        if self.request_timeout == 0 {
            60
        } else {
            self.request_timeout
        }
    }
}

} // verus!

verus! {

// ---------------------------------------------------------------------------
// The runtime configuration
// ---------------------------------------------------------------------------

/// Why a configuration was refused.
#[derive(Debug, Clone, Copy, PartialEq, Eq)]
pub enum ConfigError {
    /// `server_port` is 0.
    ZeroServerPort,
    /// `profile` is blank.
    EmptyProfile,
}

impl ConfigError {
    /// The message shown for this error.
    pub fn message(&self) -> (r: String)
        ensures
            r@ == (match self {
                ConfigError::ZeroServerPort => "server_port must not be 0"@,
                ConfigError::EmptyProfile => "profile must not be empty"@,
            }),
    {
        match self {
            ConfigError::ZeroServerPort => to_owned_string("server_port must not be 0"),
            ConfigError::EmptyProfile => to_owned_string("profile must not be empty"),
        }
    }
}

/// The application configuration.
#[derive(Debug, Clone)]
pub struct Config {
    pub src_lang: String,
    pub tgt_lang: String,
    pub dict_slot: Option<String>,
    pub mode: String,
    pub game_text: GameTextOptions,
    pub enable_model_wrap: bool,
    pub wrap_override: Option<bool>,
    pub model_wrap_min_chars: u32,
    pub model_wrap_space_fallback_min_chars: u32,
    pub enable_model_symbol_cleanup: bool,
    pub prompt_template: String,
    pub server_host: String,
    pub server_port: u16,
    pub ui_lang: String,
    pub custom_lang_name: String,
    pub profile: String,
    pub language_models: HashMap<String, String>,
    pub list: ListConfig,
}

pub open spec fn opt_view(o: Option<String>) -> Option<Seq<char>> {
    match o {
        Some(s) => Some(s@),
        None => None,
    }
}

/// `value`, or `fallback` when `value` is blank.
pub open spec fn or_when_blank(value: Seq<char>, fallback: Seq<char>) -> Seq<char> {
    if trim(value).len() == 0 {
        fallback
    } else {
        value
    }
}

fn is_blank(s: &str) -> (r: bool)
    ensures
        r == (trim(s@).len() == 0),
{
    let cs = chars_of(s);
    trim_chars(&cs).len() == 0
}

proof fn lemma_profile_name_chars(s: Seq<char>)
    ensures
        forall|i: int|
            0 <= i < profile_name_chars(s).len() ==> is_profile_name_char(
                #[trigger] profile_name_chars(s)[i],
            ),
    decreases s.len(),
{
    if s.len() > 0 {
        let d = profile_name_chars(s.drop_last());
        lemma_profile_name_chars(s.drop_last());
        if is_profile_name_char(s.last()) {
            assert forall|i: int| 0 <= i < d.push(s.last()).len() implies is_profile_name_char(
                #[trigger] d.push(s.last())[i],
            ) by {
                if i < d.len() {
                    assert(d.push(s.last())[i] == d[i]);
                }
            }
        }
    }
}

/// A normalised profile name is never blank.
pub proof fn lemma_normalized_profile_name_not_blank(value: Seq<char>)
    ensures
        trim(normalized_profile_name(value)).len() > 0,
{
    reveal_strlit("game");
    reveal_strlit("normal");
    let n = normalized_profile_name(value);
    lemma_profile_name_chars(trim(value));
    assert forall|i: int| 0 <= i < n.len() implies !is_ws(#[trigger] n[i]) by {
        let c = n[i];
        assert(is_profile_name_char(c) || c == 'g' || c == 'a' || c == 'm' || c == 'e' || c
            == 'n' || c == 'o' || c == 'r' || c == 'l');
    }
    lemma_trim_no_ws(n);
}

impl Config {
    /// A copy of this configuration.
    pub fn duplicate(&self) -> (r: Config)
        ensures
            r.src_lang == self.src_lang,
            r.tgt_lang == self.tgt_lang,
            r.dict_slot == self.dict_slot,
            r.mode == self.mode,
            r.game_text == self.game_text,
            r.enable_model_wrap == self.enable_model_wrap,
            r.wrap_override == self.wrap_override,
            r.model_wrap_min_chars == self.model_wrap_min_chars,
            r.model_wrap_space_fallback_min_chars == self.model_wrap_space_fallback_min_chars,
            r.enable_model_symbol_cleanup == self.enable_model_symbol_cleanup,
            r.prompt_template == self.prompt_template,
            r.server_host == self.server_host,
            r.server_port == self.server_port,
            r.ui_lang == self.ui_lang,
            r.custom_lang_name == self.custom_lang_name,
            r.profile == self.profile,
            r.language_models@ == self.language_models@,
            r.list == self.list,
    {
        Config {
            src_lang: self.src_lang.clone(),
            tgt_lang: self.tgt_lang.clone(),
            dict_slot: match &self.dict_slot {
                Some(s) => Some(s.clone()),
                None => None,
            },
            mode: self.mode.clone(),
            game_text: self.game_text,
            enable_model_wrap: self.enable_model_wrap,
            wrap_override: self.wrap_override,
            model_wrap_min_chars: self.model_wrap_min_chars,
            model_wrap_space_fallback_min_chars: self.model_wrap_space_fallback_min_chars,
            enable_model_symbol_cleanup: self.enable_model_symbol_cleanup,
            prompt_template: self.prompt_template.clone(),
            server_host: self.server_host.clone(),
            server_port: self.server_port,
            ui_lang: self.ui_lang.clone(),
            custom_lang_name: self.custom_lang_name.clone(),
            profile: self.profile.clone(),
            language_models: self.language_models.clone(),
            list: ListConfig {
                input_root: self.list.input_root.clone(),
                output_path: self.list.output_path.clone(),
                request_timeout: self.list.request_timeout,
                chunk_size: self.list.chunk_size,
            },
        }
    }

    /// The default configuration, with the `game` profile's settings.
    pub fn new() -> (r: Self)
        ensures
            r.src_lang@ == "en"@,
            r.tgt_lang@ == "en"@,
            r.dict_slot is None,
            r.mode@ == "game"@,
            r.game_text.protect_tags && r.game_text.protect_brackets
                && r.game_text.protect_escaped_sequences && r.game_text.protect_placeholders
                && r.game_text.split_symbolic_segments,
            r.enable_model_wrap,
            r.wrap_override is None,
            r.model_wrap_min_chars == 80,
            r.model_wrap_space_fallback_min_chars == 100,
            r.enable_model_symbol_cleanup,
            r.prompt_template@ == default_prompt(),
            r.server_host@ == "127.0.0.1"@,
            r.server_port == 14371,
            r.ui_lang@ == "en"@,
            r.custom_lang_name@.len() == 0,
            r.profile@ == "game"@,
            r.language_models@ == Map::<String, String>::empty(),
            r.list.input_root@.len() == 0,
            r.list.output_path@.len() == 0,
            r.list.request_timeout == 60,
            r.list.chunk_size == 0,
    {
        let profile = TranslationProfile::game_default();
        Self {
            src_lang: to_owned_string("en"),
            tgt_lang: to_owned_string("en"),
            dict_slot: None,
            mode: profile.mode,
            game_text: GameTextOptions::from(profile.game_text),
            enable_model_wrap: profile.model_processing.enable_model_wrap,
            wrap_override: None,
            model_wrap_min_chars: 80,
            model_wrap_space_fallback_min_chars: 100,
            enable_model_symbol_cleanup: profile.model_processing.enable_model_symbol_cleanup,
            prompt_template: profile.prompt_template,
            server_host: to_owned_string("127.0.0.1"),
            server_port: 14371,
            ui_lang: to_owned_string("en"),
            custom_lang_name: String::new(),
            profile: to_owned_string("game"),
            language_models: HashMap::new(),
            list: ListConfig::default(),
        }
    }

    /// Brings a loaded configuration to its canonical form: legacy names,
    /// blank values and out-of-range numbers get their defaults.
    pub fn normalize(&mut self)
        ensures
            final(self).profile@ == normalized_profile_name(old(self).profile@),
            final(self).mode@ == normalized_mode(old(self).mode@),
            final(self).src_lang@ == or_when_blank(old(self).src_lang@, "en"@),
            final(self).tgt_lang@ == or_when_blank(old(self).tgt_lang@, "en"@),
            final(self).server_host@ == or_when_blank(old(self).server_host@, "127.0.0.1"@),
            final(self).server_port == (if old(self).server_port == 0 {
                14371
            } else {
                old(self).server_port
            }),
            final(self).ui_lang@ == normalized_ui_lang(old(self).ui_lang@),
            opt_view(final(self).dict_slot) == (match opt_view(old(self).dict_slot) {
                Some(s) => if trim(s).len() == 0 {
                    None
                } else {
                    Some(s)
                },
                None => None,
            }),
            final(self).custom_lang_name@ == (if is_preset_lang(final(self).tgt_lang@) {
                seq![]
            } else {
                old(self).custom_lang_name@
            }),
            final(self).model_wrap_min_chars == (if old(self).model_wrap_min_chars == 0 {
                80
            } else {
                old(self).model_wrap_min_chars
            }),
            final(self).model_wrap_space_fallback_min_chars == (if old(
                self,
            ).model_wrap_space_fallback_min_chars < final(self).model_wrap_min_chars {
                100
            } else {
                old(self).model_wrap_space_fallback_min_chars
            }),
            final(self).game_text == old(self).game_text,
            final(self).enable_model_wrap == old(self).enable_model_wrap,
            final(self).wrap_override == old(self).wrap_override,
            final(self).enable_model_symbol_cleanup == old(self).enable_model_symbol_cleanup,
            final(self).prompt_template == old(self).prompt_template,
            final(self).language_models == old(self).language_models,
            final(self).list == old(self).list,
    {
        self.profile = normalize_profile_name(self.profile.as_str());
        self.mode = normalize_mode_value(self.mode.as_str());
        if is_blank(self.src_lang.as_str()) {
            self.src_lang = to_owned_string("en");
        }
        if is_blank(self.tgt_lang.as_str()) {
            self.tgt_lang = to_owned_string("en");
        }
        if is_blank(self.server_host.as_str()) {
            self.server_host = to_owned_string("127.0.0.1");
        }
        if self.server_port == 0 {
            self.server_port = 14371;
        }
        self.ui_lang = normalize_ui_lang(self.ui_lang.as_str());
        let blank_slot = match &self.dict_slot {
            Some(s) => is_blank(s.as_str()),
            None => false,
        };
        if blank_slot {
            self.dict_slot = None;
        }
        if is_target_language_preset(self.tgt_lang.as_str()) {
            self.custom_lang_name = String::new();
        }
        if self.model_wrap_min_chars == 0 {
            self.model_wrap_min_chars = 80;
        }
        if self.model_wrap_space_fallback_min_chars < self.model_wrap_min_chars {
            self.model_wrap_space_fallback_min_chars = 100;
        }
    }

    /// Whether model output is wrapped: the override when there is one.
    pub fn effective_model_wrap(&self) -> (r: bool)
        ensures
            r == match self.wrap_override {
                Some(w) => w,
                None => self.enable_model_wrap,
            },
    {
        match self.wrap_override {
            Some(w) => w,
            None => self.enable_model_wrap,
        }
    }

    /// Refuses a configuration whose port is 0 or whose profile is blank.
    pub fn validate(&self) -> (r: Result<(), ConfigError>)
        ensures
            self.server_port == 0 ==> r == Err::<(), ConfigError>(ConfigError::ZeroServerPort),
            self.server_port != 0 && trim(self.profile@).len() == 0 ==> r == Err::<
                (),
                ConfigError,
            >(ConfigError::EmptyProfile),
            self.server_port != 0 && trim(self.profile@).len() != 0 ==> r is Ok,
    {
        if self.server_port == 0 {
            return Err(ConfigError::ZeroServerPort);
        }
        if is_blank(self.profile.as_str()) {
            return Err(ConfigError::EmptyProfile);
        }
        Ok(())
    }
}

/// The runtime game-text options of a profile's.
pub open spec fn game_text_of(g: ProfileGameTextOptions) -> GameTextOptions {
    GameTextOptions {
        protect_tags: g.protect_tags,
        protect_brackets: g.protect_brackets,
        protect_escaped_sequences: g.protect_escaped_sequences,
        protect_placeholders: g.protect_placeholders,
        split_symbolic_segments: g.split_symbolic_segments,
    }
}

/// Copies a profile's settings into the configuration.
pub fn apply_translation_profile(config: &mut Config, profile: &TranslationProfile)
    ensures
        final(config).mode@ == profile.mode@,
        final(config).prompt_template@ == profile.prompt_template@,
        final(config).game_text == game_text_of(profile.game_text),
        final(config).enable_model_wrap == profile.model_processing.enable_model_wrap,
        final(config).model_wrap_min_chars
            == profile.model_processing.model_wrap_min_chars as u32,
        final(config).model_wrap_space_fallback_min_chars
            == profile.model_processing.model_wrap_space_fallback_min_chars as u32,
        final(config).enable_model_symbol_cleanup
            == profile.model_processing.enable_model_symbol_cleanup,
        final(config).src_lang == old(config).src_lang,
        final(config).tgt_lang == old(config).tgt_lang,
        final(config).dict_slot == old(config).dict_slot,
        final(config).wrap_override == old(config).wrap_override,
        final(config).server_host == old(config).server_host,
        final(config).server_port == old(config).server_port,
        final(config).ui_lang == old(config).ui_lang,
        final(config).custom_lang_name == old(config).custom_lang_name,
        final(config).profile == old(config).profile,
        final(config).language_models == old(config).language_models,
        final(config).list == old(config).list,
{
    config.mode = profile.mode.clone();
    config.prompt_template = profile.prompt_template.clone();
    config.game_text = GameTextOptions::from(profile.game_text);
    config.enable_model_wrap = profile.model_processing.enable_model_wrap;
    config.model_wrap_min_chars = profile.model_processing.model_wrap_min_chars as u32;
    config.model_wrap_space_fallback_min_chars =
        profile.model_processing.model_wrap_space_fallback_min_chars as u32;
    config.enable_model_symbol_cleanup = profile.model_processing.enable_model_symbol_cleanup;
}

/// The runtime overlay of the target language: no wrap override.
pub fn apply_target_language_policy(config: &mut Config)
    ensures
        *final(config) == (Config { wrap_override: None, ..*old(config) }),
{
    config.wrap_override = None;
}

} // verus!

verus! {

/// A loaded configuration, normalised, with its profile and the target
/// language overlay applied, and validated.
pub fn settle_loaded_config(config: Config, profile: &TranslationProfile) -> (r: Result<
    Config,
    ConfigError,
>)
    ensures
        match r {
            Ok(c) => {
                &&& c.profile@ == normalized_profile_name(config.profile@)
                &&& c.mode@ == profile.mode@
                &&& c.prompt_template@ == profile.prompt_template@
                &&& c.game_text == game_text_of(profile.game_text)
                &&& c.enable_model_wrap == profile.model_processing.enable_model_wrap
                &&& c.model_wrap_min_chars == profile.model_processing.model_wrap_min_chars as u32
                &&& c.model_wrap_space_fallback_min_chars
                    == profile.model_processing.model_wrap_space_fallback_min_chars as u32
                &&& c.enable_model_symbol_cleanup
                    == profile.model_processing.enable_model_symbol_cleanup
                &&& c.wrap_override is None
                &&& c.src_lang@ == or_when_blank(config.src_lang@, "en"@)
                &&& c.tgt_lang@ == or_when_blank(config.tgt_lang@, "en"@)
                &&& c.server_host@ == or_when_blank(config.server_host@, "127.0.0.1"@)
                &&& c.server_port == (if config.server_port == 0 {
                    14371
                } else {
                    config.server_port
                })
                &&& c.ui_lang@ == normalized_ui_lang(config.ui_lang@)
                &&& trim(c.profile@).len() != 0
            },
            Err(_) => false,
        },
{
    let mut c = config;
    c.normalize();
    proof {
        lemma_normalized_profile_name_not_blank(config.profile@);
    }
    apply_translation_profile(&mut c, profile);
    apply_target_language_policy(&mut c);
    match c.validate() {
        Ok(()) => Ok(c),
        Err(e) => Err(e),
    }
}

/// The configuration as it is saved: normalised, and refused when invalid.
pub fn config_for_save(config: &Config) -> (r: Result<Config, ConfigError>)
    ensures
        r is Ok,
        match r {
            Ok(c) => {
                &&& c.profile@ == normalized_profile_name(config.profile@)
                &&& c.mode@ == normalized_mode(config.mode@)
                &&& c.src_lang@ == or_when_blank(config.src_lang@, "en"@)
                &&& c.tgt_lang@ == or_when_blank(config.tgt_lang@, "en"@)
                &&& c.server_port == (if config.server_port == 0 {
                    14371
                } else {
                    config.server_port
                })
                &&& c.ui_lang@ == normalized_ui_lang(config.ui_lang@)
            },
            Err(_) => false,
        },
{
    let mut c = config.duplicate();
    c.normalize();
    proof {
        lemma_normalized_profile_name_not_blank(config.profile@);
    }
    match c.validate() {
        Ok(()) => Ok(c),
        Err(e) => Err(e),
    }
}

} // verus!
