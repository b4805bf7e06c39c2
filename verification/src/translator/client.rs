//! The model client interface and the message it sends.

use vstd::prelude::*;

use crate::text::{chars_of, contains_chars, contains_seq, replace_all, replace_chars, string_of, trim, trim_chars};

verus! {

/// A translation backend: returns the model's reply to `prefix` applied
/// to `text`, or `None` when the call fails.
pub trait LlmClient {
    /// `reply` is an answer this client may give to `text` sent with
    /// `prefix` (`None` for a failed call). A client that states nothing
    /// of its replies may give any.
    open spec fn answers(&self, text: Seq<char>, prefix: Seq<char>, reply: Option<Seq<char>>) -> bool {
        true
    }

    fn translate_sync(&self, text: &str, prefix: &str) -> (r: Option<String>)
        ensures
            self.answers(
                text@,
                prefix@,
                match r {
                    Some(s) => Some(s@),
                    None => None,
                },
            ),
    ;
}

/// The user message sent to the model.
pub open spec fn translation_message(prefix: Seq<char>, text: Seq<char>) -> Seq<char> {
    if contains_seq(prefix, "{source_text}"@) {
        replace_all(prefix, "{source_text}"@, trim(text))
    } else {
        trim(prefix) + "\n\n"@ + trim(text)
    }
}

/// The prompt with the text in place of `{source_text}`, or after a blank
/// line when the prompt has no such placeholder.
pub fn build_translation_message(prefix: &str, text: &str) -> (r: String)
    ensures
        r@ == translation_message(prefix@, text@),
{
    proof {
        reveal_strlit("{source_text}");
    }
    let p = chars_of(prefix);
    let placeholder = chars_of("{source_text}");
    let t = chars_of(text);
    let trimmed_text = trim_chars(&t);
    if contains_chars(&p, &placeholder) {
        replace_chars(&p, &placeholder, &trimmed_text)
    } else {
        let mut out = string_of(&trim_chars(&p));
        out.append("\n\n");
        out.append(string_of(&trimmed_text).as_str());
        out
    }
}

} // verus!
