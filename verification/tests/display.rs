use richls::cli::{Config, SortKey};
use richls::display::{format_entries, format_entry, format_long_entry, new_mark};
use richls::entry::EntryInfo;

fn entry(is_new: bool) -> EntryInfo {
    EntryInfo {
        name: "report.pdf".to_string(),
        display_name: "report.pdf".to_string(),
        mode: "-rw-r--r--".to_string(),
        links: 1,
        owner: "rin".to_string(),
        group: "staff".to_string(),
        size: 1536,
        size_human: "1.5KB".to_string(),
        mtime: 0,
        mtime_text: "2026-07-06 12:00".to_string(),
        is_new,
        is_regular_file: true,
        info: None,
    }
}

fn config(long: bool) -> Config {
    Config {
        path: ".".to_string(),
        long,
        all: false,
        respect_ignore: false,
        sort_key: SortKey::Name,
        completions: false,
        clean_suggest: false,
        humanize: false,
        tagline: false,
        pdf_title: false,
        new_mark: false,
    }
}

#[test]
fn long_format_uses_human_readable_fields_and_new_marker() {
    let output = format_long_entry(&entry(true));

    assert!(output.starts_with("new "));
    assert!(output.contains("-rw-r--r--"));
    assert!(output.contains("1.5KB"));
    assert!(output.contains("2026-07-06 12:00"));
    assert!(!output.contains("🆕"));
}

#[test]
fn new_marker_matches_documented_text() {
    assert_eq!(new_mark(true), "new");
    assert_eq!(new_mark(false), "");
}

#[test]
fn formats_short_and_long_lines() {
    let entry = entry(false);

    assert_eq!(format_entry(&entry, false), "report.pdf");
    assert!(format_entry(&entry, true).contains("-rw-r--r--"));
}

#[test]
fn long_line_has_exact_columns() {
    let mut e = entry(true);
    e.info = Some("PDF: Generic Malware Unpacking".to_string());
    assert_eq!(
        format_long_entry(&e),
        "new  -rw-r--r--  1 rin      staff       1.5KB 2026-07-06 12:00 report.pdf               PDF: Generic Malware Unpacking"
    );
    let plain = entry(false);
    assert_eq!(
        format_long_entry(&plain),
        "     -rw-r--r--  1 rin      staff       1.5KB 2026-07-06 12:00 report.pdf               "
    );
}

#[test]
fn formats_one_line_per_entry() {
    let mut second = entry(false);
    second.display_name = "docs/".to_string();
    let entries = vec![entry(false), second];
    assert_eq!(format_entries(&entries, &config(false)), vec!["report.pdf", "docs/"]);
    let long = format_entries(&entries, &config(true));
    assert_eq!(long.len(), 2);
    assert!(long[1].contains("docs/"));
    assert!(long[0].starts_with("     -rw-r--r--"));
}
