use std::sync::Mutex;

use tenuki::translator::client::LlmClient;
use tenuki::translator::lang::fallback_prefix;
use tenuki::translator::resolve::translate_model_only;
use tenuki::translator::types::TranslationSettings;

/// Answers from a list and records each text and prompt it was sent.
struct RecordingClient {
    sent: Mutex<Vec<(String, String)>>,
    replies: Mutex<Vec<Option<String>>>,
}

impl RecordingClient {
    fn new(replies: Vec<Option<&str>>) -> Self {
        RecordingClient {
            sent: Mutex::new(Vec::new()),
            replies: Mutex::new(replies.into_iter().map(|r| r.map(|s| s.to_string())).collect()),
        }
    }
}

impl LlmClient for RecordingClient {
    fn translate_sync(&self, text: &str, prefix: &str) -> Option<String> {
        self.sent.lock().unwrap().push((text.to_string(), prefix.to_string()));
        let mut replies = self.replies.lock().unwrap();
        if replies.is_empty() {
            None
        } else {
            replies.remove(0)
        }
    }
}

fn settings() -> TranslationSettings {
    TranslationSettings {
        enable_model_wrap: false,
        model_wrap_min_chars: 80,
        model_wrap_space_fallback_min_chars: 100,
        enable_model_symbol_cleanup: true,
    }
}

#[test]
fn model_gets_the_text_with_the_prompt() {
    let client = RecordingClient::new(vec![Some("Hello")]);
    let r = translate_model_only("こんにちは", "my prompt {source_text}", "en", &client, settings());
    assert_eq!(r.text, "Hello");
    assert_eq!(*client.sent.lock().unwrap(), vec![("こんにちは".to_string(), "my prompt {source_text}".to_string())]);
    assert_eq!(r.stats.model_calls, 1);
}

#[test]
fn an_echoed_prompt_is_asked_again_with_the_plain_prompt() {
    let client = RecordingClient::new(vec![Some("[原文] こんにちは"), Some("Hello")]);
    let r = translate_model_only("こんにちは", "my prompt {source_text}", "en", &client, settings());
    assert_eq!(r.text, "Hello");
    let sent = client.sent.lock().unwrap().clone();
    assert_eq!(sent.len(), 2);
    assert_eq!(sent[1], ("こんにちは".to_string(), fallback_prefix("en")));
}

#[test]
fn markers_travel_as_transport_numbers() {
    let client = RecordingClient::new(vec![None]);
    let r = translate_model_only("攻撃ZMAZ上昇", "p", "en", &client, settings());
    assert_eq!(client.sent.lock().unwrap()[0].0, "攻撃2上昇");
    assert!(r.new_entries.is_empty());
    assert_eq!(r.stats.model_calls, 1);
}
