use shorter::cli::{classify, is_json_file, str_eq_ignore_ascii, Verb};
use shorter::order::{str_eq, str_lex_lt};

#[test]
fn classify_help_variants() {
    assert_eq!(classify("help"), Verb::Help);
    assert_eq!(classify("HELP"), Verb::Help);
    assert_eq!(classify("-h"), Verb::Help);
    assert_eq!(classify("-H"), Verb::Help);
    assert_eq!(classify("--help"), Verb::Help);
    assert_eq!(classify("--Help"), Verb::Help);
}

#[test]
fn classify_config_and_run() {
    assert_eq!(classify("config"), Verb::Config);
    assert_eq!(classify("CONFIG"), Verb::Config);
    assert_eq!(classify("Config"), Verb::Config);
    assert_eq!(classify("deploy"), Verb::Run);
    assert_eq!(classify("helping"), Verb::Run);
    assert_eq!(classify(""), Verb::Run);
}

#[test]
fn ascii_case_insensitive_equality() {
    assert!(str_eq_ignore_ascii("JSON", "json"));
    assert!(str_eq_ignore_ascii("jSoN", "Json"));
    assert!(!str_eq_ignore_ascii("json", "jsonx"));
    assert!(!str_eq_ignore_ascii("jsn", "json"));
}

#[test]
fn json_extension_is_recognised() {
    assert!(is_json_file("commands.json"));
    assert!(is_json_file("dir/sub/commands.JSON"));
    assert!(is_json_file("a.b.json"));
    assert!(!is_json_file("commands.txt"));
    assert!(!is_json_file("commands"));
    assert!(!is_json_file(".json"));
    assert!(!is_json_file("dir/.json"));
    assert!(!is_json_file("file."));
    assert!(!is_json_file("dir.json/file"));
}

#[test]
fn lexicographic_order_on_names() {
    assert!(str_lex_lt("a", "b"));
    assert!(str_lex_lt("a", "ab"));
    assert!(!str_lex_lt("ab", "a"));
    assert!(!str_lex_lt("a", "a"));
    assert!(str_lex_lt("10", "9"));
    assert!(str_lex_lt("A", "a"));
    assert!(str_eq("same", "same"));
    assert!(!str_eq("same", "Same"));
}
