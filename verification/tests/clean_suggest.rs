use richls::clean_suggest::{
    clean_suggestion_reasons, collect_clean_suggestions, collect_clean_suggestions_with_now,
    format_clean_suggestions, is_old_file, CleanSuggestion,
};
use richls::entry::EntryInfo;

const NANOS_PER_DAY: i128 = 24 * 60 * 60 * 1_000_000_000;

const COPIED_REASON: &str = "copied file name";
const BACKUP_REASON: &str = "backup-like file name";
const EMPTY_REASON: &str = "empty file";
const OLD_REASON: &str = "not modified for 180+ days";
const TEMPORARY_REASON: &str = "temporary file";

fn entry(name: &str, size: u64, mtime: i128, is_regular_file: bool) -> EntryInfo {
    EntryInfo {
        name: name.to_string(),
        display_name: name.to_string(),
        mode: "-rw-r--r--".to_string(),
        links: 1,
        owner: "rin".to_string(),
        group: "staff".to_string(),
        size,
        size_human: format!("{size}B"),
        mtime,
        mtime_text: "2026-07-01 00:00".to_string(),
        is_new: false,
        is_regular_file,
        info: None,
    }
}

fn now() -> i128 {
    365 * NANOS_PER_DAY
}

fn recent_time() -> i128 {
    now() - 30 * NANOS_PER_DAY
}

fn old_time() -> i128 {
    now() - 181 * NANOS_PER_DAY
}

fn reasons_for_name(name: &str) -> Vec<String> {
    let entry = entry(name, 1, recent_time(), true);
    clean_suggestion_reasons(&entry, now())
}

#[test]
fn detects_english_copy_names() {
    assert_eq!(reasons_for_name("report_copy.pdf"), vec![COPIED_REASON.to_string()]);
}

#[test]
fn detects_japanese_copy_names() {
    assert_eq!(reasons_for_name("資料_コピー.pdf"), vec![COPIED_REASON.to_string()]);
}

#[test]
fn detects_macos_copy_names() {
    assert_eq!(reasons_for_name("資料 のコピー.pdf"), vec![COPIED_REASON.to_string()]);
}

#[test]
fn detects_windows_copy_names() {
    for name in ["report (1).pdf", "image (2).png", "data(10).csv"] {
        assert_eq!(reasons_for_name(name), vec![COPIED_REASON.to_string()]);
    }
}

#[test]
fn detects_backup_like_names() {
    for name in ["main_old.rs", "report_backup.pdf", "data.bak"] {
        assert_eq!(reasons_for_name(name), vec![BACKUP_REASON.to_string()]);
    }
}

#[test]
fn detects_temporary_file_names() {
    for name in ["temp.tmp", "memo.swp", "note.txt~"] {
        assert_eq!(reasons_for_name(name), vec![TEMPORARY_REASON.to_string()]);
    }
}

#[test]
fn ignores_normal_file_names() {
    assert!(reasons_for_name("report.txt").is_empty());
}

#[test]
fn detects_names_case_insensitively() {
    assert_eq!(
        reasons_for_name("COPY_OLD.SWP"),
        vec![
            COPIED_REASON.to_string(),
            BACKUP_REASON.to_string(),
            TEMPORARY_REASON.to_string(),
        ]
    );
}

#[test]
fn ignores_out_of_scope_version_words() {
    for name in ["final2.txt", "latest.txt", "修正.txt", "最終.txt"] {
        assert!(reasons_for_name(name).is_empty());
    }
}

#[test]
fn returns_multiple_reasons_for_multiple_matches() {
    let entry = entry("report_copy_old.pdf", 1, old_time(), true);

    assert_eq!(
        clean_suggestion_reasons(&entry, now()),
        vec![
            COPIED_REASON.to_string(),
            BACKUP_REASON.to_string(),
            OLD_REASON.to_string(),
        ]
    );
}

#[test]
fn detects_empty_files() {
    let entry = entry("empty.txt", 0, recent_time(), true);
    assert_eq!(clean_suggestion_reasons(&entry, now()), vec![EMPTY_REASON.to_string()]);
}

#[test]
fn detects_old_files() {
    let entry = entry("archive.txt", 1, old_time(), true);
    assert_eq!(clean_suggestion_reasons(&entry, now()), vec![OLD_REASON.to_string()]);
}

#[test]
fn ignores_non_regular_files() {
    let entries = vec![entry("report_copy.pdf", 1, recent_time(), false)];

    assert!(collect_clean_suggestions_with_now(&entries, now()).is_empty());
}

#[test]
fn detects_decomposed_macos_copy_names() {
    assert_eq!(
        reasons_for_name("資料 のコヒ\u{309a}ー.pdf"),
        vec![COPIED_REASON.to_string()]
    );
}

#[test]
fn copy_numbers_need_digits_and_a_closing_parenthesis() {
    for name in ["report ().pdf", "report (1.pdf", "report (a).pdf", "report (1 ).pdf"] {
        assert!(reasons_for_name(name).is_empty(), "{name}");
    }
    assert_eq!(reasons_for_name("x(2)(y"), vec![COPIED_REASON.to_string()]);
}

#[test]
fn old_threshold_is_exactly_180_days() {
    let n = now();
    assert!(is_old_file(n - 180 * NANOS_PER_DAY, n));
    assert!(!is_old_file(n - 180 * NANOS_PER_DAY + 1, n));
    assert!(!is_old_file(n + NANOS_PER_DAY, n));
    assert!(!is_old_file(i128::MAX, i128::MIN));
    assert!(is_old_file(i128::MIN, i128::MAX));
}

#[test]
fn collects_only_entries_with_reasons_in_order() {
    let entries = vec![
        entry("b_copy.txt", 5, recent_time(), true),
        entry("normal.txt", 5, recent_time(), true),
        entry("directory_copy", 5, recent_time(), false),
        entry("a.tmp", 0, old_time(), true),
    ];
    let suggestions = collect_clean_suggestions_with_now(&entries, now());
    assert_eq!(suggestions.len(), 2);
    assert_eq!(suggestions[0].name, "b_copy.txt");
    assert_eq!(suggestions[0].reasons, vec![COPIED_REASON.to_string()]);
    assert_eq!(suggestions[1].name, "a.tmp");
    assert_eq!(
        suggestions[1].reasons,
        vec![
            EMPTY_REASON.to_string(),
            OLD_REASON.to_string(),
            TEMPORARY_REASON.to_string()
        ]
    );
    assert_eq!(suggestions[1].size_human, "0B");
    assert_eq!(suggestions[1].mtime_text, "2026-07-01 00:00");
}

#[test]
fn collects_with_the_current_clock() {
    let entries = vec![entry("x_copy.txt", 3, 0, true), entry("plain.txt", 3, i128::MAX, true)];
    let suggestions = collect_clean_suggestions(&entries);
    assert_eq!(suggestions.len(), 1);
    assert_eq!(
        suggestions[0].reasons,
        vec![COPIED_REASON.to_string(), OLD_REASON.to_string()]
    );
}

#[test]
fn formats_suggestion_lines() {
    let suggestion = CleanSuggestion {
        name: "report_copy_old.pdf".to_string(),
        size_human: "4B".to_string(),
        mtime_text: "2026-07-01 00:00".to_string(),
        reasons: vec![COPIED_REASON.to_string(), BACKUP_REASON.to_string()],
    };
    let text = format_clean_suggestions(&[suggestion]);
    assert_eq!(
        text,
        "Clean suggestions:\n  report_copy_old.pdf            4B 2026-07-01 00:00 copied file name, backup-like file name"
    );
    assert_eq!(format_clean_suggestions(&[]), "Clean suggestions:");
}
