use richls::metadata::{
    format_system_time, human_size, mode_string, name_or_id, unix_timestamp, FileKind,
    LocalTime,
};

#[test]
fn humanizes_sizes() {
    assert_eq!(human_size(0), "0B");
    assert_eq!(human_size(999), "999B");
    assert_eq!(human_size(1023), "1023B");
    assert_eq!(human_size(1024), "1.0KB");
    assert_eq!(human_size(1536), "1.5KB");
    assert_eq!(human_size(1_288_490_188), "1.2GB");
}

/// The floating-point computation that `human_size` is specified to agree with.
fn float_human_size(size: u64) -> String {
    let units = ["B", "KB", "MB", "GB", "TB", "PB"];
    let mut value = size as f64;
    let mut unit = 0;
    while value >= 1024.0 && unit < units.len() - 1 {
        value /= 1024.0;
        unit += 1;
    }
    if unit == 0 {
        format!("{size}B")
    } else {
        format!("{value:.1}{}", units[unit])
    }
}

#[test]
fn human_sizes_agree_with_floating_point_formatting() {
    let mut sizes: Vec<u64> = vec![
        1280,
        1792,
        2048,
        1_048_575,
        1_048_576,
        1_100_000,
        (1 << 53) - 1,
        1 << 53,
        (1 << 53) + 1,
        (1 << 53) + 3,
        u64::MAX,
        u64::MAX - 1024,
        (1 << 60) + (1 << 7),
        1 << 63,
        16 * (1 << 50),
    ];
    let mut x: u64 = 1;
    for _ in 0..400 {
        x = x.wrapping_mul(6364136223846793005).wrapping_add(1442695040888963407);
        sizes.push(x >> (x % 64));
        sizes.push(x);
    }
    for k in 0..64 {
        sizes.push(1u64 << k);
        sizes.push((1u64 << k).wrapping_sub(1));
        sizes.push(((1u64 << k) / 4).wrapping_mul(5));
    }
    for size in sizes {
        assert_eq!(human_size(size), float_human_size(size), "size {size}");
    }
}

#[test]
fn human_size_rounds_ties_to_even() {
    assert_eq!(human_size(1280), "1.2KB");
    assert_eq!(human_size(1792), "1.8KB");
    assert_eq!(human_size(1_048_575), "1024.0KB");
    assert_eq!(human_size(u64::MAX), "16384.0PB");
}

#[test]
fn mode_strings_show_kind_and_permissions() {
    assert_eq!(mode_string(0o644, FileKind::Other), "-rw-r--r--");
    assert_eq!(mode_string(0o755, FileKind::Directory), "drwxr-xr-x");
    assert_eq!(mode_string(0o777, FileKind::Symlink), "lrwxrwxrwx");
    assert_eq!(mode_string(0o100_600, FileKind::Other), "-rw-------");
    assert_eq!(mode_string(0o001, FileKind::Fifo), "p--------x");
    assert_eq!(mode_string(0o040, FileKind::Socket), "s---r-----");
    assert_eq!(mode_string(0o000, FileKind::CharDevice), "c---------");
    assert_eq!(mode_string(0o4777, FileKind::BlockDevice), "brwxrwxrwx");
}

#[test]
fn formats_local_times() {
    let t = LocalTime { year: 2024, month: 7, day: 1, hour: 9, minute: 5 };
    let formatted = format_system_time(Some(t));
    assert_eq!(formatted, "2024-07-01 09:05");
    assert_eq!(formatted.len(), 16);
    assert_eq!(&formatted[4..5], "-");
    assert_eq!(&formatted[7..8], "-");
    assert_eq!(&formatted[10..11], " ");
    assert_eq!(&formatted[13..14], ":");
    assert_eq!(format_system_time(None), "-");
    let small = LocalTime { year: 7, month: 12, day: 31, hour: 23, minute: 59 };
    assert_eq!(format_system_time(Some(small)), "0007-12-31 23:59");
}

#[test]
fn owner_names_fall_back_to_ids() {
    assert_eq!(name_or_id(Some("rin".to_string()), 501), "rin");
    assert_eq!(name_or_id(None, 501), "501");
    assert_eq!(name_or_id(None, 0), "0");
}

#[test]
fn places_only_times_from_the_epoch_on_in_the_calendar() {
    assert_eq!(unix_timestamp(-1), None);
    assert_eq!(unix_timestamp(-86_400_000_000_000), None);
    assert_eq!(unix_timestamp(0), Some(0));
    assert_eq!(unix_timestamp(999_999_999), Some(0));
    assert_eq!(unix_timestamp(1_700_000_000_123_456_789), Some(1_700_000_000));
}
