use richls::cli::SortKey;
use richls::entry::EntryInfo;
use richls::sort::sort_entries;

fn entry(name: &str, size: u64, mtime: i128) -> EntryInfo {
    EntryInfo {
        name: name.to_string(),
        display_name: name.to_string(),
        mode: "-rw-r--r--".to_string(),
        links: 1,
        owner: "rin".to_string(),
        group: "staff".to_string(),
        size,
        size_human: format!("{size}B"),
        mtime,
        mtime_text: "2026-07-01 00:00".to_string(),
        is_new: false,
        is_regular_file: true,
        info: None,
    }
}

fn names(entries: &[EntryInfo]) -> Vec<&str> {
    entries.iter().map(|e| e.name.as_str()).collect()
}

#[test]
fn sorts_names_case_insensitively() {
    let mut entries = vec![entry("b.txt", 1, 0), entry("A.txt", 1, 0), entry("c.txt", 1, 0)];
    sort_entries(&mut entries, SortKey::Name);
    assert_eq!(names(&entries), vec!["A.txt", "b.txt", "c.txt"]);
}

#[test]
fn sorts_sizes_largest_first_with_name_ties() {
    let mut entries = vec![
        entry("small", 1, 0),
        entry("b_big", 100, 0),
        entry("a_big", 100, 0),
        entry("mid", 50, 0),
    ];
    sort_entries(&mut entries, SortKey::Size);
    assert_eq!(names(&entries), vec!["a_big", "b_big", "mid", "small"]);
}

#[test]
fn sorts_times_newest_first_with_name_ties() {
    let mut entries = vec![
        entry("old", 1, -5),
        entry("z_new", 1, 10),
        entry("a_new", 1, 10),
        entry("middle", 1, 3),
    ];
    sort_entries(&mut entries, SortKey::Mtime);
    assert_eq!(names(&entries), vec!["a_new", "z_new", "middle", "old"]);
}

#[test]
fn keeps_names_that_differ_only_in_case_in_input_order() {
    let mut entries = vec![entry("readme", 1, 0), entry("README", 2, 0), entry("ReadMe", 3, 0)];
    sort_entries(&mut entries, SortKey::Name);
    assert_eq!(names(&entries), vec!["readme", "README", "ReadMe"]);
    let mut sizes_equal = vec![entry("x", 5, 0), entry("X", 5, 0)];
    sort_entries(&mut sizes_equal, SortKey::Size);
    assert_eq!(names(&sizes_equal), vec!["x", "X"]);
}

#[test]
fn sorting_a_sorted_listing_changes_nothing() {
    let mut entries = vec![entry("d", 3, 1), entry("c", 4, 2), entry("a", 4, 2), entry("e", 1, 9)];
    for key in [SortKey::Name, SortKey::Size, SortKey::Mtime] {
        sort_entries(&mut entries, key);
        let once = names(&entries).iter().map(|s| s.to_string()).collect::<Vec<_>>();
        sort_entries(&mut entries, key);
        assert_eq!(names(&entries), once);
    }
}

#[test]
fn sorts_by_code_point_after_lowercasing() {
    let mut entries = vec![
        entry("éclair", 1, 0),
        entry("Zebra", 1, 0),
        entry("apple", 1, 0),
        entry("_under", 1, 0),
        entry("", 1, 0),
    ];
    sort_entries(&mut entries, SortKey::Name);
    assert_eq!(names(&entries), vec!["", "_under", "apple", "Zebra", "éclair"]);
}

#[test]
fn sorts_empty_and_single_listings() {
    let mut none: Vec<EntryInfo> = Vec::new();
    sort_entries(&mut none, SortKey::Size);
    assert!(none.is_empty());
    let mut one = vec![entry("only", 1, 1)];
    sort_entries(&mut one, SortKey::Mtime);
    assert_eq!(names(&one), vec!["only"]);
}

#[test]
fn sorts_large_listings_stably() {
    let mut entries: Vec<EntryInfo> = (0..20_000u64)
        .map(|i| entry(&format!("f{:05}", (i * 7919) % 20_000), i % 13, (i % 5) as i128))
        .collect();
    sort_entries(&mut entries, SortKey::Size);
    for pair in entries.windows(2) {
        let (a, b) = (&pair[0], &pair[1]);
        assert!(a.size > b.size || (a.size == b.size && a.name <= b.name));
    }
    sort_entries(&mut entries, SortKey::Name);
    for pair in entries.windows(2) {
        assert!(pair[0].name < pair[1].name);
    }
}
