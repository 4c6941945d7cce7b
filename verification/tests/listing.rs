use richls::cli::{Config, SortKey};
use richls::entry::{display_name, is_new, rich_info_source, RichInfoSource};
use richls::ignore::IgnoreRules;
use richls::listing::{listing_plan, load_ignore_rules, should_include, ListingPlan};

fn config(all: bool, respect_ignore: bool) -> Config {
    Config {
        path: ".".to_string(),
        long: false,
        all,
        respect_ignore,
        sort_key: SortKey::Name,
        completions: false,
        clean_suggest: false,
        humanize: false,
        tagline: false,
        pdf_title: false,
        new_mark: false,
    }
}

#[test]
fn hidden_files_require_the_all_option() {
    let rules = IgnoreRules::empty();
    assert!(!should_include(&config(false, false), &rules, ".hidden", false));
    assert!(should_include(&config(true, false), &rules, ".hidden", false));
    assert!(should_include(&config(false, false), &rules, "visible.txt", false));
}

#[test]
fn ignore_rules_apply_only_when_respected() {
    let files = vec!["*.log\nbuild/\n".to_string()];
    let respected = config(false, true);
    let rules = load_ignore_rules(&respected, &files);
    assert!(!should_include(&respected, &rules, "debug.log", false));
    assert!(!should_include(&respected, &rules, "build", true));
    assert!(should_include(&respected, &rules, "build", false));
    assert!(should_include(&respected, &rules, "main.rs", false));
    let ignored_off = config(false, false);
    let none = load_ignore_rules(&ignored_off, &files);
    assert!(should_include(&ignored_off, &none, "debug.log", false));
}

#[test]
fn plans_listings_by_path_kind() {
    assert_eq!(listing_plan(true, false, false), ListingPlan::Itself);
    assert_eq!(listing_plan(false, true, true), ListingPlan::Itself);
    assert_eq!(listing_plan(false, false, true), ListingPlan::Children);
    assert_eq!(listing_plan(false, false, false), ListingPlan::Nothing);
}

#[test]
fn directories_get_a_trailing_slash() {
    assert_eq!(display_name("docs", true), "docs/");
    assert_eq!(display_name("main.rs", false), "main.rs");
}

#[test]
fn new_entries_are_at_most_a_day_old() {
    let day: i128 = 86_400_000_000_000;
    assert!(is_new(Some(1_000), 1_000));
    assert!(is_new(Some(0), day));
    assert!(!is_new(Some(0), day + 1));
    assert!(!is_new(Some(10), 5));
    assert!(!is_new(None, 5));
    assert!(is_new(Some(i128::MIN), i128::MIN + 1));
}

#[test]
fn chooses_rich_information_by_kind() {
    assert_eq!(rich_info_source(true, "docs.pdf"), RichInfoSource::Readme);
    assert_eq!(rich_info_source(false, "paper.PDF"), RichInfoSource::PdfTitle);
    assert_eq!(rich_info_source(false, "notes.txt"), RichInfoSource::Nothing);
}

#[test]
fn compatibility_options_enable_long_format() {
    for option in 0..4 {
        let mut c = config(false, false);
        match option {
            0 => c.humanize = true,
            1 => c.tagline = true,
            2 => c.pdf_title = true,
            _ => c.new_mark = true,
        }
        assert!(c.long_enabled());
        assert!(c.normalized().long);
    }
    let plain = config(false, false);
    assert!(!plain.long_enabled());
    assert!(!plain.normalized().long);
}
