use tenuki::dictionary::rules::{
    is_tenuki_regex_file, is_tenuki_split_file, read_split_line, try_parse_regex_rule,
    try_parse_split_rule,
};
use tenuki::manager::{restart_action, restart_all_ops, stop_all_ops, LifecycleOp, RestartAction, RestartScope};
use tenuki::slot::file_name_of;

#[test]
fn regex_rule_lines_need_pattern_and_replacement() {
    assert_eq!(
        try_parse_regex_rule(r#"r:"^体力(\d+)$"=HP $1"#),
        Some((r"^体力(\d+)$".to_string(), "HP $1".to_string()))
    );
    assert_eq!(try_parse_regex_rule(r#"r:"abc""#), None);
    assert_eq!(try_parse_regex_rule(r#"s:"abc"=x"#), None);
    assert_eq!(try_parse_regex_rule(r#"r:"abc"#), None);
}

#[test]
fn split_rule_lines_allow_missing_replacement() {
    assert_eq!(
        try_parse_split_rule(r#"s:"对你的$"=$Lがあなたに"#),
        Some(("对你的$".to_string(), "$Lがあなたに".to_string()))
    );
    assert_eq!(try_parse_split_rule(r#"s:"x""#), Some(("x".to_string(), String::new())));
    assert_eq!(try_parse_split_rule("x=y"), None);
}

#[test]
fn rule_files_are_recognised_by_name() {
    assert!(is_tenuki_regex_file(r"C:\dicts\ja\TENUKI.REGEX.TXT"));
    assert!(!is_tenuki_regex_file(r"C:\dicts\ja\tenuki.regex.txt.bak"));
    assert!(is_tenuki_split_file(r"C:\dicts\Tenuki.Split.extra.txt"));
    assert!(!is_tenuki_split_file(r"C:\dicts\tenuki.splitter.csv"));
    assert_eq!(file_name_of(r"C:\a\b.txt"), Some("b.txt".to_string()));
    assert_eq!(file_name_of(r"\\"), None);
}

#[test]
fn split_lines_report_their_problems() {
    let (rule, warnings) = read_split_line("Tenuki.split.txt", 3, r#"s:"(a"=b"#);
    assert!(rule.is_none());
    assert_eq!(warnings, vec!["× [SPLIT] Tenuki.split.txt:3 regex error — (a".to_string()]);

    let (rule, warnings) = read_split_line("f.txt", 1, r#"s:"a"=＄L"#);
    assert_eq!(rule.map(|r| r.source_pattern), Some("a".to_string()));
    assert_eq!(warnings, vec!["× [SPLIT] f.txt:1 fullwidth $ in replacement".to_string()]);

    let (rule, warnings) = read_split_line("f.txt", 2, "s broken");
    assert!(rule.is_none());
    assert_eq!(warnings, vec!["× [SPLIT] f.txt:2 parse error — s broken".to_string()]);

    let (rule, warnings) = read_split_line("f.txt", 4, "   ");
    assert!(rule.is_none() && warnings.is_empty());
}

#[test]
fn translator_restart_escalates_when_engine_is_down() {
    assert_eq!(restart_action(RestartScope::TranslatorOnly, true), RestartAction::RestartTranslator);
    assert_eq!(restart_action(RestartScope::TranslatorOnly, false), RestartAction::StartAll);
    assert_eq!(restart_action(RestartScope::Full, true), RestartAction::StopThenStart);
    assert_eq!(stop_all_ops(), vec![LifecycleOp::Stop, LifecycleOp::SleepMs(500)]);
    assert_eq!(restart_all_ops().len(), 3);
}

use tenuki::dictionary::regex_rules::{compile_regex_entries, DictBuildReport, EntryOrigin, RawRegexEntry};
use tenuki::dictionary::rules::{read_split_lines, sort_split_rules};

fn raw(pattern: &str, replacement: &str, line: usize, order: u64) -> RawRegexEntry {
    RawRegexEntry {
        pattern: pattern.to_string(),
        replacement: replacement.to_string(),
        origin: EntryOrigin { path: r"C:\dicts\Tenuki.regex.txt".to_string(), line_number: line },
        order,
    }
}

#[test]
fn regex_entries_keep_the_last_of_each_pattern_in_reading_order() {
    let entries = vec![
        raw("^a$", "first", 1, 0),
        raw("^b$", "bee", 2, 1),
        raw("^a$", "second", 3, 2),
        raw("(", "broken", 4, 3),
        raw("^c$", "sea", 5, 4),
    ];
    let mut report = DictBuildReport::default();
    let rules = compile_regex_entries(&entries, &mut report);
    let got: Vec<(String, String)> =
        rules.iter().map(|r| (r.source_pattern.clone(), r.replacement.clone())).collect();
    assert_eq!(
        got,
        vec![
            ("^b$".to_string(), "bee".to_string()),
            ("^a$".to_string(), "second".to_string()),
            ("^c$".to_string(), "sea".to_string()),
        ]
    );
    assert_eq!(report.duplicate_regex_dropped, 1);
    assert_eq!(report.accepted_regex, 3);
    assert_eq!(report.warnings, vec!["× [REGEX] Tenuki.regex.txt:4 regex error — (".to_string()]);
    assert!(rules[1].pattern.is_match("a"));
}

#[test]
fn regex_entries_follow_their_order_not_their_position() {
    let entries = vec![raw("x", "late", 1, 9), raw("y", "early", 2, 3)];
    let mut report = DictBuildReport::default();
    let rules = compile_regex_entries(&entries, &mut report);
    assert_eq!(rules[0].source_pattern, "y");
    assert_eq!(rules[1].source_pattern, "x");
    assert_eq!(report.duplicate_regex_dropped, 0);
}

#[test]
fn split_file_lines_give_rules_and_warnings() {
    let lines = vec![
        Some("\u{feff}s:\"(\\d+)G\"=$1 gold".to_string()),
        None,
        Some("   ".to_string()),
        Some("s:\"(\"=x".to_string()),
        Some("s:broken".to_string()),
        Some("s:\"HP(\\d+)\"=＄1".to_string()),
        Some("# comment".to_string()),
    ];
    let mut rules = Vec::new();
    let mut warnings = Vec::new();
    read_split_lines("Tenuki.split.txt", &lines, &mut rules, &mut warnings);
    let got: Vec<&str> = rules.iter().map(|r| r.source_pattern.as_str()).collect();
    assert_eq!(got, vec!["(\\d+)G", "HP(\\d+)"]);
    assert_eq!(rules[0].replacement, "$1 gold");
    assert_eq!(
        warnings,
        vec![
            "× [SPLIT] Tenuki.split.txt:4 regex error — (".to_string(),
            "× [SPLIT] Tenuki.split.txt:5 parse error — s:broken".to_string(),
            "× [SPLIT] Tenuki.split.txt:6 fullwidth $ in replacement".to_string(),
        ]
    );
    let sorted = sort_split_rules(rules);
    let got: Vec<&str> = sorted.iter().map(|r| r.source_pattern.as_str()).collect();
    assert_eq!(got, vec!["HP(\\d+)", "(\\d+)G"]);
}

#[test]
fn split_rules_sort_longest_first_and_stably() {
    let lines: Vec<Option<String>> = ["s:\"ab\"", "s:\"abcd\"", "s:\"cd\"", "s:\"efgh\"", "s:\"あ\""]
        .iter()
        .map(|l| Some(l.to_string()))
        .collect();
    let mut rules = Vec::new();
    let mut warnings = Vec::new();
    read_split_lines("f", &lines, &mut rules, &mut warnings);
    assert!(warnings.is_empty());
    let sorted = sort_split_rules(rules);
    let got: Vec<&str> = sorted.iter().map(|r| r.source_pattern.as_str()).collect();
    // "あ" is three bytes long.
    assert_eq!(got, vec!["abcd", "efgh", "あ", "ab", "cd"]);
}
