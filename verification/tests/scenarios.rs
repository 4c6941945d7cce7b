//! Whole-listing scenarios, run on entries built in memory.
use richls::clean_suggest::{
    collect_clean_suggestions, format_clean_suggestions, is_backup_like_lowercase,
    is_copy_like_lowercase, is_temporary_lowercase,
};
use richls::cli::{Config, SortKey};
use richls::display::format_entries;
use richls::entry::{display_name, EntryInfo};
use richls::ignore::IgnoreRules;
use richls::listing::should_include;
use richls::metadata::{
    format_system_time, human_size, mode_string, unix_timestamp, FileKind, LocalTime,
};
use richls::pdf::{find_pdf_metadata_title, pdf_display_label};
use richls::readme::readme_tagline;

const NANOS_PER_DAY: i128 = 24 * 60 * 60 * 1_000_000_000;

fn now_nanos() -> i128 {
    std::time::SystemTime::now()
        .duration_since(std::time::UNIX_EPOCH)
        .unwrap()
        .as_nanos() as i128
}

fn file(name: &str, size: u64, mtime: i128, is_regular_file: bool) -> EntryInfo {
    EntryInfo {
        name: name.to_string(),
        display_name: display_name(name, !is_regular_file),
        mode: "-rw-r--r--".to_string(),
        links: 1,
        owner: "rin".to_string(),
        group: "staff".to_string(),
        size,
        size_human: human_size(size),
        mtime,
        mtime_text: "2026-07-01 00:00".to_string(),
        is_new: false,
        is_regular_file,
        info: None,
    }
}

fn config(long: bool, all: bool) -> Config {
    Config {
        path: ".".to_string(),
        long,
        all,
        respect_ignore: false,
        sort_key: SortKey::Name,
        completions: false,
        clean_suggest: false,
        humanize: false,
        tagline: false,
        pdf_title: false,
        new_mark: false,
    }
}

fn clean_output(entries: &[EntryInfo]) -> String {
    format_clean_suggestions(&collect_clean_suggestions(entries))
}

fn output_line<'a>(stdout: &'a str, name: &str) -> &'a str {
    stdout
        .lines()
        .find(|line| line.contains(name))
        .unwrap_or_else(|| panic!("output should contain {name}"))
}

#[test]
fn hidden_files_require_all_option() {
    let rules = IgnoreRules::empty();
    let names = ["visible.txt", ".hidden"];
    let shown: Vec<&str> = names
        .iter()
        .copied()
        .filter(|n| should_include(&config(false, false), &rules, n, false))
        .collect();
    assert_eq!(shown, vec!["visible.txt"]);
    let all: Vec<&str> = names
        .iter()
        .copied()
        .filter(|n| should_include(&config(false, true), &rules, n, false))
        .collect();
    assert_eq!(all, vec!["visible.txt", ".hidden"]);
}

#[test]
fn long_listing_contains_metadata_human_size_and_readable_time() {
    let mut entry = file("sample.bin", 2048, 0, true);
    entry.mode = mode_string(0o644, FileKind::Other);
    entry.mtime_text = format_system_time(Some(LocalTime {
        year: 2024,
        month: 7,
        day: 1,
        hour: 0,
        minute: 0,
    }));
    let lines = format_entries(&[entry], &config(true, false));
    let line = &lines[0];
    assert!(line.contains("-rw-r--r--"));
    assert!(line.contains(" 1 "));
    assert!(line.contains("2.0KB"));
    assert!(line.contains("2024-"));
    assert!(line.contains("sample.bin"));
    assert!(!line.contains("1719792000"));
}

#[test]
fn long_listing_displays_directory_readme_tagline() {
    let mut docs = file("docs", 4096, 0, false);
    docs.info = readme_tagline("# Fixture documentation\n");
    let lines = format_entries(&[docs], &config(true, false));
    assert!(lines[0].contains("docs/"));
    assert!(lines[0].contains("README: Fixture documentation"));
}

#[test]
fn pdf_title_is_displayed_when_available() {
    let title = find_pdf_metadata_title(b"%PDF-1.4\n<< /Title (Fixture PDF Title) >>");
    let mut entry = file("titled.pdf", 10, 0, true);
    entry.info = pdf_display_label(title.as_deref());
    let lines = format_entries(&[entry], &config(true, false));
    assert!(lines[0].contains("PDF: Fixture PDF Title"));
    assert!(!lines[0].contains("[pdf]"));
}

#[test]
fn missing_pdf_title_leaves_info_column_empty() {
    let title = find_pdf_metadata_title(b"%PDF-1.4\n<< /Author (rin) >>");
    let mut entry = file("untitled.pdf", 10, 0, true);
    entry.info = pdf_display_label(title.as_deref());
    let lines = format_entries(&[entry], &config(true, false));
    assert!(lines[0].contains("untitled.pdf"));
    assert!(!lines[0].contains("PDF:"));
    assert!(!lines[0].contains("[pdf]"));
}

#[test]
fn clean_suggest_lists_copy_like_names_without_empty_reason() {
    let now = now_nanos();
    let names = [
        "report_copy.pdf",
        "資料_コピー.pdf",
        "資料のコピー.pdf",
        "資料 のコピー.pdf",
        "report (1).pdf",
        "image (2).png",
        "data(10).csv",
    ];
    let mut entries: Vec<EntryInfo> = names.iter().map(|n| file(n, 4, now, true)).collect();
    entries.push(file("normal.txt", 4, now, true));
    entries.push(file("directory_copy", 4096, now, false));

    let stdout = clean_output(&entries);
    assert!(stdout.contains("Clean suggestions:"));
    assert!(!stdout.contains("normal.txt"));
    assert!(!stdout.contains("directory_copy"));
    for name in names {
        let line = output_line(&stdout, name);
        assert!(line.contains("copied file name"));
        assert!(!line.contains("empty file"));
    }
}

#[test]
fn clean_suggest_lists_macos_decomposed_copy_name_for_path_argument() {
    let name = "資料 のコヒ\u{309a}ー.pdf";
    let stdout = clean_output(&[file(name, 4, now_nanos(), true)]);
    let line = output_line(&stdout, name);
    assert!(line.contains("copied file name"));
    assert!(!line.contains("empty file"));
}

#[test]
fn clean_suggest_lists_backup_and_temporary_names_without_empty_reason() {
    let now = now_nanos();
    let backups = ["main_old.rs", "report_backup.pdf", "data.bak"];
    let temporaries = ["temp.tmp", "memo.swp", "note.txt~"];
    let entries: Vec<EntryInfo> = backups
        .iter()
        .chain(temporaries.iter())
        .map(|n| file(n, 4, now, true))
        .collect();
    let stdout = clean_output(&entries);
    for name in backups {
        let line = output_line(&stdout, name);
        assert!(line.contains("backup-like file name"));
        assert!(!line.contains("empty file"));
    }
    for name in temporaries {
        let line = output_line(&stdout, name);
        assert!(line.contains("temporary file"));
        assert!(!line.contains("empty file"));
    }
}

#[test]
fn clean_suggest_lists_empty_files_separately() {
    let now = now_nanos();
    let stdout = clean_output(&[file("empty.txt", 0, now, true), file("normal.txt", 4, now, true)]);
    let line = output_line(&stdout, "empty.txt");
    assert!(line.contains("empty file"));
    assert!(!line.contains("copied file name"));
    assert!(!line.contains("backup-like file name"));
    assert!(!line.contains("temporary file"));
    assert!(!stdout.contains("normal.txt"));
}

#[test]
fn clean_suggest_lists_old_files() {
    let old = now_nanos() - 181 * NANOS_PER_DAY;
    let stdout = clean_output(&[file("archive.txt", 4, old, true)]);
    let line = output_line(&stdout, "archive.txt");
    assert!(line.contains("not modified for 180+ days"));
    assert!(!line.contains("empty file"));
}

#[test]
fn clean_suggest_lists_multiple_reasons_without_empty_reason() {
    let old = now_nanos() - 181 * NANOS_PER_DAY;
    let stdout = clean_output(&[file("report_copy_old.pdf", 4, old, true)]);
    let line = output_line(&stdout, "report_copy_old.pdf");
    assert!(line.contains("copied file name, backup-like file name"));
    assert!(line.contains("not modified for 180+ days"));
    assert!(!line.contains("empty file"));
}

#[test]
fn lowercase_name_checks() {
    assert!(is_copy_like_lowercase("a copy"));
    assert!(!is_copy_like_lowercase("a COPY"));
    assert!(is_copy_like_lowercase("x(12)"));
    assert!(is_backup_like_lowercase("x.bak"));
    assert!(!is_backup_like_lowercase("x.BAK"));
    assert!(is_temporary_lowercase("x~"));
    assert!(!is_temporary_lowercase("x.TMP"));
}

#[test]
fn formats_times_for_humans() {
    let formatted = format_system_time(Some(LocalTime {
        year: 1970,
        month: 1,
        day: 1,
        hour: 0,
        minute: 0,
    }));

    assert_eq!(formatted.len(), 16);
    assert_eq!(&formatted[4..5], "-");
    assert_eq!(&formatted[7..8], "-");
    assert_eq!(&formatted[10..11], " ");
    assert_eq!(&formatted[13..14], ":");
}

#[test]
fn rejects_times_before_the_unix_epoch() {
    // one second before the epoch: no calendar time, so the column shows `-`
    let before_epoch: i128 = -1_000_000_000;
    assert_eq!(unix_timestamp(before_epoch), None);
    assert_eq!(format_system_time(None), "-");
}
