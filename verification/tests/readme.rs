use richls::readme::{readme_tagline, truncate};

#[test]
fn uses_the_first_heading_or_line() {
    assert_eq!(
        readme_tagline("# Fixture documentation\n"),
        Some("README: Fixture documentation".to_string())
    );
    assert_eq!(
        readme_tagline("\n\n  plain first line  \nsecond"),
        Some("README: plain first line".to_string())
    );
}

#[test]
fn skips_code_blocks_blank_lines_and_bare_hashes() {
    let content = "```\nnot this\n```\n\n###\n##   Real tagline ##\n";
    assert_eq!(readme_tagline(content), Some("README: Real tagline ##".to_string()));
    assert_eq!(readme_tagline("```rust\nfn main() {}\n"), None);
    assert_eq!(readme_tagline(""), None);
    assert_eq!(readme_tagline("#\n  \n"), None);
}

#[test]
fn handles_crlf_line_endings() {
    assert_eq!(readme_tagline("\r\n# Title\r\n"), Some("README: Title".to_string()));
}

#[test]
fn truncates_long_taglines_to_eighty_characters() {
    let long = "x".repeat(81);
    let expected = format!("README: {}...", "x".repeat(80));
    assert_eq!(readme_tagline(&long), Some(expected));
    let exact = "y".repeat(80);
    assert_eq!(readme_tagline(&exact), Some(format!("README: {exact}")));
    let chars: Vec<char> = "日本語テキスト".chars().collect();
    assert_eq!(truncate(&chars, 3), vec!['日', '本', '語', '.', '.', '.']);
    assert_eq!(truncate(&chars, 7), chars);
}
