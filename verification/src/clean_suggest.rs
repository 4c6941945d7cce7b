//! Suggestions of files that may be worth cleaning up. Nothing is deleted: the
//! suggestions are only listed.
use vstd::prelude::*;

use crate::entry::EntryInfo;
use crate::text::{
    chars_of, contains_chars, ends_with_chars, extend_chars, join, join_strings, pad_left,
    pad_left_chars, pad_right, pad_right_chars, seq_contains, seq_ends_with, spec_to_lowercase,
    string_from_chars, to_lowercase,
};

verus! {

/// A regular file that may be worth cleaning up, with the reasons why.
#[derive(Debug, Clone, PartialEq, Eq)]
pub struct CleanSuggestion {
    pub name: String,
    pub size_human: String,
    pub mtime_text: String,
    pub reasons: Vec<String>,
}

/// Files not modified for this long are suggested: 180 days, in nanoseconds.
pub const OLD_FILE_NANOS: i128 = 15_552_000_000_000_000;

// ---------------------------------------------------------------------------
// Specification
// ---------------------------------------------------------------------------

pub open spec fn copied_reason() -> Seq<char> {
    "copied file name"@
}

pub open spec fn backup_reason() -> Seq<char> {
    "backup-like file name"@
}

pub open spec fn empty_reason() -> Seq<char> {
    "empty file"@
}

pub open spec fn old_reason() -> Seq<char> {
    "not modified for 180+ days"@
}

pub open spec fn temporary_reason() -> Seq<char> {
    "temporary file"@
}

/// `s[start]` opens a parenthesised run of one or more ASCII digits: `(1)`, `(10)`.
pub open spec fn copy_number_at(s: Seq<char>, start: int) -> bool {
    &&& 0 <= start < s.len()
    &&& s[start] == '('
    &&& exists|end: int|
        start + 1 < end < s.len() && s[end] == ')' && forall|k: int|
            start < k < end ==> '0' <= #[trigger] s[k] <= '9'
}

/// A Windows-style copy number such as `(1)` occurs in `s`.
pub open spec fn has_copy_number(s: Seq<char>) -> bool {
    exists|start: int| copy_number_at(s, start)
}

/// The (lower-cased) name looks like a copy: `copy`, `コピー` (which `のコピー` contains)
/// in its composed form or in the decomposed form that macOS file names use, or a
/// copy number.
pub open spec fn copy_like(lower: Seq<char>) -> bool {
    ||| seq_contains(lower, "copy"@)
    ||| seq_contains(lower, "コピー"@)
    ||| seq_contains(lower, "コヒ\u{309a}ー"@)
    ||| has_copy_number(lower)
}

/// The (lower-cased) name looks like an old version or a backup.
pub open spec fn backup_like(lower: Seq<char>) -> bool {
    seq_contains(lower, "old"@) || seq_contains(lower, "backup"@) || seq_contains(lower, "bak"@)
}

/// The (lower-cased) name looks like a temporary file.
pub open spec fn temporary_like(lower: Seq<char>) -> bool {
    seq_ends_with(lower, ".tmp"@) || seq_ends_with(lower, ".swp"@) || seq_ends_with(lower, "~"@)
}

/// The file was last modified at least 180 days before `now`.
pub open spec fn old_at(mtime: i128, now: i128) -> bool {
    now - mtime >= OLD_FILE_NANOS
}

/// `reason` when `detected`, else nothing.
pub open spec fn reason_if(detected: bool, reason: Seq<char>) -> Seq<Seq<char>> {
    if detected {
        seq![reason]
    } else {
        Seq::empty()
    }
}

/// The reasons to suggest removing an entry at time `now`, in a fixed order; none
/// for anything but a regular file.
pub open spec fn suggestion_reasons(entry: EntryInfo, now: i128) -> Seq<Seq<char>> {
    let lower = spec_to_lowercase(entry.name@);
    if !entry.is_regular_file {
        Seq::empty()
    } else {
        reason_if(copy_like(lower), copied_reason()) + reason_if(backup_like(lower), backup_reason())
            + reason_if(entry.size == 0, empty_reason()) + reason_if(
            old_at(entry.mtime, now),
            old_reason(),
        ) + reason_if(temporary_like(lower), temporary_reason())
    }
}

/// What a suggestion shows: name, size, modification time and reasons.
pub open spec fn suggestion_view(s: CleanSuggestion) -> (Seq<char>, Seq<char>, Seq<char>, Seq<
    Seq<char>,
>) {
    (s.name@, s.size_human@, s.mtime_text@, s.reasons.deep_view())
}

/// The suggestion for an entry, if it has reasons.
pub open spec fn suggestion_for(entry: EntryInfo, now: i128) -> Option<
    (Seq<char>, Seq<char>, Seq<char>, Seq<Seq<char>>),
> {
    let reasons = suggestion_reasons(entry, now);
    if reasons.len() > 0 {
        Some((entry.name@, entry.size_human@, entry.mtime_text@, reasons))
    } else {
        None
    }
}

/// The suggestions for a sequence of entries, in order.
pub open spec fn suggestions_for(entries: Seq<EntryInfo>, now: i128) -> Seq<
    (Seq<char>, Seq<char>, Seq<char>, Seq<Seq<char>>),
>
    decreases entries.len(),
{
    if entries.len() == 0 {
        Seq::empty()
    } else {
        let init = suggestions_for(entries.drop_last(), now);
        match suggestion_for(entries.last(), now) {
            Some(s) => init.push(s),
            None => init,
        }
    }
}

/// One line of the suggestion list: name, size, time and the reasons joined by commas.
pub open spec fn suggestion_line(s: (Seq<char>, Seq<char>, Seq<char>, Seq<Seq<char>>)) -> Seq<
    char,
> {
    seq![' ', ' '] + pad_right(s.0, 24) + seq![' '] + pad_left(s.1, 8) + seq![' '] + pad_right(
        s.2,
        16,
    ) + seq![' '] + join(s.3, seq![',', ' '])
}

/// The heading and one line per suggestion, joined by newlines.
pub open spec fn suggestions_text(ss: Seq<(Seq<char>, Seq<char>, Seq<char>, Seq<Seq<char>>)>) -> Seq<
    char,
> {
    join(seq!["Clean suggestions:"@] + ss.map_values(|s| suggestion_line(s)), seq!['\n'])
}

// ---------------------------------------------------------------------------
// Laws
// ---------------------------------------------------------------------------

/// Every suggestion stands for a regular file of the listing and gives at least one
/// reason; directories and other entries are never suggested.
pub proof fn law_suggestions_are_regular_files_with_reasons(entries: Seq<EntryInfo>, now: i128)
    ensures
        forall|k: int|
            0 <= k < suggestions_for(entries, now).len() ==> {
                let s = #[trigger] suggestions_for(entries, now)[k];
                &&& s.3.len() > 0
                &&& exists|i: int|
                    0 <= i < entries.len() && #[trigger] entries[i].is_regular_file && s == (
                        entries[i].name@,
                        entries[i].size_human@,
                        entries[i].mtime_text@,
                        suggestion_reasons(entries[i], now),
                    )
            },
    decreases entries.len(),
{
    if entries.len() > 0 {
        let init = entries.drop_last();
        law_suggestions_are_regular_files_with_reasons(init, now);
        let out = suggestions_for(entries, now);
        assert forall|k: int| 0 <= k < out.len() implies {
            let s = #[trigger] out[k];
            &&& s.3.len() > 0
            &&& exists|i: int|
                0 <= i < entries.len() && #[trigger] entries[i].is_regular_file && s == (
                    entries[i].name@,
                    entries[i].size_human@,
                    entries[i].mtime_text@,
                    suggestion_reasons(entries[i], now),
                )
        } by {
            let prev = suggestions_for(init, now);
            if k < prev.len() {
                assert(out[k] == prev[k]);
                let i = choose|i: int|
                    0 <= i < init.len() && #[trigger] init[i].is_regular_file && prev[k] == (
                        init[i].name@,
                        init[i].size_human@,
                        init[i].mtime_text@,
                        suggestion_reasons(init[i], now),
                    );
                assert(entries[i] == init[i]);
            } else {
                let last = entries.len() - 1;
                assert(entries[last] == entries.last());
                assert(entries[last].is_regular_file);
            }
        }
    }
}

/// A regular file is suggested as empty exactly when its size is 0.
pub proof fn law_empty_reason_exactly_for_empty_files(entry: EntryInfo, now: i128)
    requires
        entry.is_regular_file,
    ensures
        suggestion_reasons(entry, now).contains(empty_reason()) <==> entry.size == 0,
{
    reveal_strlit("copied file name");
    reveal_strlit("backup-like file name");
    reveal_strlit("empty file");
    reveal_strlit("not modified for 180+ days");
    reveal_strlit("temporary file");
    let lower = spec_to_lowercase(entry.name@);
    let r = suggestion_reasons(entry, now);
    let a = reason_if(copy_like(lower), copied_reason());
    let b = reason_if(backup_like(lower), backup_reason());
    let c = reason_if(entry.size == 0, empty_reason());
    let d = reason_if(old_at(entry.mtime, now), old_reason());
    let e = reason_if(temporary_like(lower), temporary_reason());
    assert(r == a + b + c + d + e);
    if entry.size == 0 {
        assert(r[(a.len() + b.len()) as int] == empty_reason());
    } else {
        assert forall|k: int| 0 <= k < r.len() implies r[k] != empty_reason() by {
            assert(r[k].len() != empty_reason().len());
        }
    }
}

/// For a regular file, each reason is given exactly when the file calls for it: a
/// copied name when the lower-cased name holds `copy`, `コピー` (composed, or
/// decomposed as macOS writes it) or a copy number such as `(1)`; a backup-like name
/// when it holds `old`, `backup` or `bak` anywhere; an empty file when its size is 0;
/// an old file when it was last modified 180 days or more before `now`; a temporary
/// file when the name ends in `.tmp`, `.swp` or `~`.
pub proof fn law_reasons_follow_name_size_and_age(entry: EntryInfo, now: i128)
    requires
        entry.is_regular_file,
    ensures
        ({
            let r = suggestion_reasons(entry, now);
            let lower = spec_to_lowercase(entry.name@);
            &&& r.contains(copied_reason()) <==> (seq_contains(lower, seq!['c', 'o', 'p', 'y'])
                || seq_contains(lower, seq!['コ', 'ピ', 'ー']) || seq_contains(
                lower,
                seq!['コ', 'ヒ', '\u{309a}', 'ー'],
            ) || has_copy_number(lower))
            &&& r.contains(backup_reason()) <==> (seq_contains(lower, seq!['o', 'l', 'd'])
                || seq_contains(lower, seq!['b', 'a', 'c', 'k', 'u', 'p']) || seq_contains(
                lower,
                seq!['b', 'a', 'k'],
            ))
            &&& r.contains(empty_reason()) <==> entry.size == 0
            &&& r.contains(old_reason()) <==> now - entry.mtime >= 180 * 24 * 60 * 60
                * 1_000_000_000
            &&& r.contains(temporary_reason()) <==> (seq_ends_with(lower, seq!['.', 't', 'm', 'p'])
                || seq_ends_with(lower, seq!['.', 's', 'w', 'p']) || seq_ends_with(lower, seq!['~']))
        }),
{
    reveal_strlit("copied file name");
    reveal_strlit("backup-like file name");
    reveal_strlit("empty file");
    reveal_strlit("not modified for 180+ days");
    reveal_strlit("temporary file");
    reveal_strlit("copy");
    reveal_strlit("コピー");
    reveal_strlit("コヒ\u{309a}ー");
    reveal_strlit("old");
    reveal_strlit("backup");
    reveal_strlit("bak");
    reveal_strlit(".tmp");
    reveal_strlit(".swp");
    reveal_strlit("~");
    let lower = spec_to_lowercase(entry.name@);
    let r = suggestion_reasons(entry, now);
    let a = reason_if(copy_like(lower), copied_reason());
    let b = reason_if(backup_like(lower), backup_reason());
    let c = reason_if(entry.size == 0, empty_reason());
    let d = reason_if(old_at(entry.mtime, now), old_reason());
    let e = reason_if(temporary_like(lower), temporary_reason());
    assert(r == a + b + c + d + e);
    assert("copy"@ == seq!['c', 'o', 'p', 'y']);
    assert("コピー"@ == seq!['コ', 'ピ', 'ー']);
    assert("コヒ\u{309a}ー"@ == seq!['コ', 'ヒ', '\u{309a}', 'ー']);
    assert("old"@ == seq!['o', 'l', 'd']);
    assert("backup"@ == seq!['b', 'a', 'c', 'k', 'u', 'p']);
    assert("bak"@ == seq!['b', 'a', 'k']);
    assert(".tmp"@ == seq!['.', 't', 'm', 'p']);
    assert(".swp"@ == seq!['.', 's', 'w', 'p']);
    assert("~"@ == seq!['~']);
    // the five reasons differ in length, so each is found only where it was added
    assert forall|k: int| 0 <= k < r.len() implies {
        ||| (r[k] == copied_reason() && copy_like(lower))
        ||| (r[k] == backup_reason() && backup_like(lower))
        ||| (r[k] == empty_reason() && entry.size == 0)
        ||| (r[k] == old_reason() && old_at(entry.mtime, now))
        ||| (r[k] == temporary_reason() && temporary_like(lower))
    } by {}
    if copy_like(lower) {
        assert(r[0] == copied_reason());
    }
    if backup_like(lower) {
        assert(r[a.len() as int] == backup_reason());
    }
    if entry.size == 0 {
        assert(r[(a.len() + b.len()) as int] == empty_reason());
    }
    if old_at(entry.mtime, now) {
        assert(r[(a.len() + b.len() + c.len()) as int] == old_reason());
    }
    if temporary_like(lower) {
        assert(r[(a.len() + b.len() + c.len() + d.len()) as int] == temporary_reason());
    }
    assert(copied_reason().len() == 16 && backup_reason().len() == 21 && empty_reason().len() == 10
        && old_reason().len() == 26 && temporary_reason().len() == 14);
}

// ---------------------------------------------------------------------------
// Name checks
// ---------------------------------------------------------------------------

/// `has_closing_copy_number`: the `(` at `start` opens a copy number.
fn has_closing_copy_number(s: &[char], start: usize) -> (b: bool)
    requires
        start < s@.len(),
        s@[start as int] == '(',
    ensures
        b == copy_number_at(s@, start as int),
{
    let n = s.len();
    let mut end = start + 1;
    while end < n && '0' <= s[end] && s[end] <= '9'
        invariant
            start < end <= n == s@.len(),
            forall|k: int| start < k < end ==> '0' <= #[trigger] s@[k] <= '9',
        decreases n - end,
    {
        end += 1;
    }
    if end > start + 1 && end < n && s[end] == ')' {
        assert(start + 1 < end < s@.len() && s@[end as int] == ')');
        return true;
    }
    assert forall|e: int|
        start + 1 < e < s@.len() && s@[e] == ')' implies !(forall|k: int|
        start < k < e ==> '0' <= #[trigger] s@[k] <= '9') by {
        if e < end {
            assert(start < e < end);
        } else if e > end {
            assert(start < end < e);
        }
    }
    false
}

/// `has_windows_copy_number`: a copy number such as `(1)` occurs in `s`.
fn has_windows_copy_number(s: &[char]) -> (b: bool)
    ensures
        b == has_copy_number(s@),
{
    let mut start: usize = 0;
    while start < s.len()
        invariant
            start <= s@.len(),
            forall|k: int| 0 <= k < start ==> !copy_number_at(s@, k),
        decreases s@.len() - start,
    {
        if s[start] == '(' && has_closing_copy_number(s, start) {
            return true;
        }
        start += 1;
    }
    assert forall|k: int| !copy_number_at(s@, k) by {
        if 0 <= k < start {
        }
    }
    false
}

/// Whether an already lower-cased name looks like a copy.
pub fn is_copy_like_lowercase(lower: &str) -> (b: bool)
    ensures
        b == copy_like(lower@),
{
    let lower = chars_of(lower);
    contains_chars(&lower, &chars_of("copy")) || contains_chars(&lower, &chars_of("コピー"))
        || contains_chars(&lower, &chars_of("コヒ\u{309a}ー")) || has_windows_copy_number(&lower)
}

/// Whether an already lower-cased name looks like an old version or a backup.
pub fn is_backup_like_lowercase(lower: &str) -> (b: bool)
    ensures
        b == backup_like(lower@),
{
    let lower = chars_of(lower);
    contains_chars(&lower, &chars_of("old")) || contains_chars(&lower, &chars_of("backup"))
        || contains_chars(&lower, &chars_of("bak"))
}

/// Whether an already lower-cased name ends like a temporary file.
pub fn is_temporary_lowercase(lower: &str) -> (b: bool)
    ensures
        b == temporary_like(lower@),
{
    let lower = chars_of(lower);
    ends_with_chars(&lower, &chars_of(".tmp")) || ends_with_chars(&lower, &chars_of(".swp"))
        || ends_with_chars(&lower, &chars_of("~"))
}

/// `is_copy_like_name`: the name looks like a copy, ignoring case.
fn is_copy_like_name(name: &str) -> (b: bool)
    ensures
        b == copy_like(spec_to_lowercase(name@)),
{
    is_copy_like_lowercase(to_lowercase(name).as_str())
}

/// `is_backup_like_name`: the name looks like an old version or a backup, ignoring case.
fn is_backup_like_name(name: &str) -> (b: bool)
    ensures
        b == backup_like(spec_to_lowercase(name@)),
{
    is_backup_like_lowercase(to_lowercase(name).as_str())
}

/// `is_temporary_file_name`: the name ends like a temporary file, ignoring case.
fn is_temporary_file_name(name: &str) -> (b: bool)
    ensures
        b == temporary_like(spec_to_lowercase(name@)),
{
    is_temporary_lowercase(to_lowercase(name).as_str())
}

/// `is_old_file`: the file was last modified at least 180 days before `now`.
pub fn is_old_file(mtime: i128, now: i128) -> (b: bool)
    ensures
        b == old_at(mtime, now),
{
    if now < i128::MIN + OLD_FILE_NANOS {
        false
    } else {
        mtime <= now - OLD_FILE_NANOS
    }
}

// ---------------------------------------------------------------------------
// Suggestions
// ---------------------------------------------------------------------------

/// `push_reason`: appends `reason` when it was detected.
fn push_reason(reasons: &mut Vec<String>, detected: bool, reason: &str)
    ensures
        final(reasons).deep_view() == old(reasons).deep_view() + reason_if(detected, reason@),
{
    if detected {
        let ghost before = reasons.deep_view();
        reasons.push(String::from_str(reason));
        assert(reasons.deep_view() == before.push(reason@));
    } else {
        assert(reasons.deep_view() == reasons.deep_view() + Seq::<Seq<char>>::empty());
    }
}

/// `clean_suggestion_reasons_for_file`: the reasons for a regular file.
fn clean_suggestion_reasons_for_file(entry: &EntryInfo, now: i128) -> (reasons: Vec<String>)
    requires
        entry.is_regular_file,
    ensures
        reasons.deep_view() == suggestion_reasons(*entry, now),
{
    let mut reasons: Vec<String> = Vec::new();
    let name = entry.name.as_str();
    assert(reasons.deep_view() == Seq::<Seq<char>>::empty());
    push_reason(&mut reasons, is_copy_like_name(name), "copied file name");
    push_reason(&mut reasons, is_backup_like_name(name), "backup-like file name");
    push_reason(&mut reasons, entry.size == 0, "empty file");
    push_reason(&mut reasons, is_old_file(entry.mtime, now), "not modified for 180+ days");
    push_reason(&mut reasons, is_temporary_file_name(name), "temporary file");
    assert(reasons.deep_view() == suggestion_reasons(*entry, now));
    reasons
}

/// `clean_suggestion_reasons`: why an entry may be worth cleaning up at time `now`,
/// in a fixed order (copied name, backup-like name, empty, old, temporary); nothing
/// for directories and other non-regular entries.
pub fn clean_suggestion_reasons(entry: &EntryInfo, now: i128) -> (reasons: Vec<String>)
    ensures
        reasons.deep_view() == suggestion_reasons(*entry, now),
{
    if !entry.is_regular_file {
        let reasons: Vec<String> = Vec::new();
        assert(reasons.deep_view() == Seq::<Seq<char>>::empty());
        return reasons;
    }
    clean_suggestion_reasons_for_file(entry, now)
}

/// `clean_suggestion`: the suggestion for one entry, if it has reasons.
fn clean_suggestion(entry: &EntryInfo, now: i128) -> (r: Option<CleanSuggestion>)
    ensures
        match r {
            Some(s) => suggestion_for(*entry, now) == Some(suggestion_view(s)),
            None => suggestion_for(*entry, now) is None,
        },
{
    let reasons = clean_suggestion_reasons(entry, now);
    if reasons.len() == 0 {
        return None;
    }
    Some(
        CleanSuggestion {
            name: entry.name.clone(),
            size_human: entry.size_human.clone(),
            mtime_text: entry.mtime_text.clone(),
            reasons,
        },
    )
}

/// `collect_clean_suggestions_with_now`: the suggestions for the entries at time
/// `now`, in listing order.
pub fn collect_clean_suggestions_with_now(entries: &[EntryInfo], now: i128) -> (r: Vec<
    CleanSuggestion,
>)
    ensures
        r@.map_values(|s: CleanSuggestion| suggestion_view(s)) == suggestions_for(entries@, now),
{
    let mut out: Vec<CleanSuggestion> = Vec::new();
    let mut i: usize = 0;
    while i < entries.len()
        invariant
            i <= entries@.len(),
            out@.map_values(|s: CleanSuggestion| suggestion_view(s)) == suggestions_for(
                entries@.take(i as int),
                now,
            ),
        decreases entries@.len() - i,
    {
        let ghost before = out@;
        assert(entries@.take(i + 1).drop_last() == entries@.take(i as int));
        assert(entries@.take(i + 1).last() == entries@[i as int]);
        match clean_suggestion(&entries[i], now) {
            Some(s) => {
                out.push(s);
                assert(out@.map_values(|s: CleanSuggestion| suggestion_view(s)) == before.map_values(
                    |s: CleanSuggestion| suggestion_view(s),
                ).push(suggestion_view(s)));
            },
            None => {},
        }
        i += 1;
    }
    assert(entries@.take(entries@.len() as int) == entries@);
    out
}

/// Calls `SystemTime::now` and expresses the result in nanoseconds relative to the
/// Unix epoch (negative before it). Nothing is claimed of the value: it is the clock's.
#[verifier::external_body]
fn current_time() -> i128 {
    match std::time::SystemTime::now().duration_since(std::time::UNIX_EPOCH) {
        Ok(d) => d.as_nanos() as i128,
        Err(e) => -(e.duration().as_nanos() as i128),
    }
}

/// `collect_clean_suggestions`: the suggestions for the entries at the current time.
pub fn collect_clean_suggestions(entries: &[EntryInfo]) -> (r: Vec<CleanSuggestion>)
    ensures
        exists|now: i128|
            r@.map_values(|s: CleanSuggestion| suggestion_view(s)) == suggestions_for(entries@, now),
{
    let now = current_time();
    collect_clean_suggestions_with_now(entries, now)
}

/// `format_clean_suggestion`: one line of the suggestion list.
fn format_clean_suggestion(s: &CleanSuggestion) -> (line: String)
    ensures
        line@ == suggestion_line(suggestion_view(*s)),
{
    let mut out: Vec<char> = vec![' ', ' '];
    extend_chars(&mut out, &pad_right_chars(&chars_of(s.name.as_str()), 24));
    out.push(' ');
    extend_chars(&mut out, &pad_left_chars(&chars_of(s.size_human.as_str()), 8));
    out.push(' ');
    extend_chars(&mut out, &pad_right_chars(&chars_of(s.mtime_text.as_str()), 16));
    out.push(' ');
    let sep = vec![',', ' '];
    extend_chars(&mut out, &join_strings(&s.reasons, &sep));
    string_from_chars(&out)
}

/// `format_clean_suggestions`: the heading `Clean suggestions:` and one line per
/// suggestion, joined by newlines.
pub fn format_clean_suggestions(suggestions: &[CleanSuggestion]) -> (text: String)
    ensures
        text@ == suggestions_text(suggestions@.map_values(|s: CleanSuggestion| suggestion_view(s))),
{
    let mut lines: Vec<String> = Vec::new();
    lines.push(String::from_str("Clean suggestions:"));
    let ghost views = suggestions@.map_values(|s: CleanSuggestion| suggestion_view(s));
    let mut i: usize = 0;
    while i < suggestions.len()
        invariant
            i <= suggestions@.len(),
            views == suggestions@.map_values(|s: CleanSuggestion| suggestion_view(s)),
            lines.deep_view() == seq!["Clean suggestions:"@] + views.take(i as int).map_values(
                |s| suggestion_line(s),
            ),
        decreases suggestions@.len() - i,
    {
        let line = format_clean_suggestion(&suggestions[i]);
        let ghost before = lines.deep_view();
        lines.push(line);
        assert(views.take(i + 1).map_values(|s| suggestion_line(s)) == views.take(i as int).map_values(
            |s| suggestion_line(s),
        ).push(suggestion_line(views[i as int])));
        assert(lines.deep_view() == before.push(line@));
        i += 1;
    }
    assert(views.take(suggestions@.len() as int) == views);
    assert(lines.deep_view() == seq!["Clean suggestions:"@] + views.map_values(|s| suggestion_line(s)));
    let sep = vec!['\n'];
    assert(sep@ == seq!['\n']);
    string_from_chars(&join_strings(&lines, &sep))
}

} // verus!
