use richls::ignore::{is_hidden, normalize_pattern, wildcard_match, IgnoreRules};

#[test]
fn matches_simple_wildcards() {
    assert!(wildcard_match("*.log", "debug.log"));
    assert!(wildcard_match("target", "target"));
    assert!(!wildcard_match("*.log", "README.md"));
}

#[test]
fn normalizes_slash_patterns_for_top_level_listing() {
    assert_eq!(normalize_pattern(".vscode/*"), Some(".vscode".to_string()));
    assert_eq!(normalize_pattern("**/*.rs.bk"), Some("*.rs.bk".to_string()));
}

#[test]
fn wildcards_match_whole_names() {
    assert!(wildcard_match("a*b*c", "axbyc"));
    assert!(!wildcard_match("a*b*c", "xabcx"));
    assert!(!wildcard_match("a*b*c", "xaybzcw"));
    assert!(!wildcard_match("a*b*c", "cba"));
    assert!(!wildcard_match("a*a", "a"));
    assert!(wildcard_match("a*a", "aa"));
    assert!(!wildcard_match("ab*ba", "aba"));
    assert!(wildcard_match("ab*ba", "abba"));
    assert!(wildcard_match("*.min.*", "x.min.js"));
    assert!(wildcard_match("*a*", "banana"));
    assert!(wildcard_match("**", ""));
    assert!(wildcard_match("*", "anything"));
    assert!(wildcard_match("*", ""));
    assert!(!wildcard_match("a*a*a", "aa"));
    assert!(wildcard_match("a*a*a", "aaa"));
    assert!(!wildcard_match("target", "targets"));
    assert!(!wildcard_match("*.log", "debug.log.gz"));
}

#[test]
fn ignored_exactly_when_a_line_gives_a_matching_rule() {
    let rules = IgnoreRules::load(&vec!["# *.md\n!*.txt\n\n*.o\n".to_string(), "cache/\n".to_string()]);
    assert!(rules.ignores("main.o", false));
    assert!(!rules.ignores("README.md", false));
    assert!(!rules.ignores("notes.txt", false));
    assert!(rules.ignores("cache", true));
    assert!(!rules.ignores("cache", false));
}

#[test]
fn normalizes_other_patterns() {
    assert_eq!(normalize_pattern("/build/"), Some("build".to_string()));
    assert_eq!(normalize_pattern("*/foo"), None);
    assert_eq!(normalize_pattern("**/x/y"), Some("x/y".to_string()));
    assert_eq!(normalize_pattern("docs/api/index.html"), Some("docs".to_string()));
    assert_eq!(normalize_pattern("///"), Some(String::new()));
}

#[test]
fn loads_rules_from_file_contents() {
    let gitignore = "# comment\n\n  target/  \r\n*.log\n!keep.log\n/node_modules\n".to_string();
    let dockerignore = ".vscode/*\n**/*.rs.bk".to_string();
    let rules = IgnoreRules::load(&vec![gitignore, dockerignore]);
    assert!(rules.ignores("target", true));
    assert!(!rules.ignores("target", false));
    assert!(rules.ignores("debug.log", false));
    assert!(rules.ignores("keep.log", false));
    assert!(rules.ignores("node_modules", false));
    assert!(rules.ignores(".vscode", true));
    assert!(rules.ignores("main.rs.bk", false));
    assert!(!rules.ignores("README.md", false));
    assert!(!IgnoreRules::empty().ignores("anything", true));
}

#[test]
fn loads_rules_incrementally() {
    let mut rules = IgnoreRules::empty();
    rules.load_file("*.tmp");
    assert!(rules.ignores("a.tmp", false));
    rules.load_file("/\n#x\n");
    assert!(!rules.ignores("b", false));
}

#[test]
fn hidden_names_start_with_a_dot() {
    assert!(is_hidden(".hidden"));
    assert!(is_hidden("."));
    assert!(!is_hidden("visible.txt"));
    assert!(!is_hidden(""));
}
