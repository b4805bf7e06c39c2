use tenuki::manager::server_started_message;
use tenuki::server::current_prefix;
use tenuki::translator::lang::{build_lang_prefix, fallback_prefix};

#[test]
fn started_message_names_the_address_in_the_interface_language() {
    assert_eq!(
        server_started_message("en", "0.0.0.0", 14371),
        "Translation server started (http://0.0.0.0:14371) - accessible from network"
    );
    assert_eq!(
        server_started_message("en", "127.0.0.1", 14371),
        "Translation server started (http://127.0.0.1:14371)"
    );
    assert_eq!(
        server_started_message("ja", "127.0.0.1", 8080),
        "翻訳サーバーを起動しました (http://127.0.0.1:8080)"
    );
    assert_eq!(
        server_started_message("ja", "0.0.0.0", 0),
        "翻訳サーバーを起動しました (http://0.0.0.0:0) - ネットワークからアクセス可能"
    );
}

#[test]
fn prefix_without_background_is_the_plain_prompt() {
    assert_eq!(current_prefix("ja", "en", "", "{target} {background_text}", "  \n"), fallback_prefix("en"));
    assert_eq!(
        current_prefix("ja", "en", "", "{target}|{background_text}", "A game about cats"),
        build_lang_prefix("ja", "en", "", "{target}|{background_text}", "A game about cats")
    );
    assert!(current_prefix("ja", "en", "", "{target}|{background_text}", "A game about cats").contains("cats"));
}
