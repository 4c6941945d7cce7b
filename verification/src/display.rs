//! The output lines of a listing.
use vstd::prelude::*;

use crate::cli::Config;
use crate::entry::EntryInfo;
use crate::text::{
    chars_of, decimal, decimal_chars, extend_chars, pad_left, pad_left_chars, pad_right,
    pad_right_chars, string_from_chars,
};

verus! {

/// The MARK column: `new` for a new entry.
pub open spec fn mark_text(is_new: bool) -> Seq<char> {
    if is_new {
        seq!['n', 'e', 'w']
    } else {
        Seq::empty()
    }
}

/// The INFO column: the rich information, if any.
pub open spec fn info_text(info: Option<String>) -> Seq<char> {
    match info {
        Some(s) => s@,
        None => Seq::empty(),
    }
}

/// A long-format line: `MARK MODE LINKS OWNER GROUP SIZE MTIME NAME INFO`, each column
/// padded to its width (`{:<4} {:<10} {:>2} {:<8} {:<8} {:>8} {:<16} {:<24} {}`).
pub open spec fn long_line(e: EntryInfo) -> Seq<char> {
    pad_right(mark_text(e.is_new), 4) + seq![' '] + pad_right(e.mode@, 10) + seq![' '] + pad_left(
        decimal(e.links as nat),
        2,
    ) + seq![' '] + pad_right(e.owner@, 8) + seq![' '] + pad_right(e.group@, 8) + seq![' ']
        + pad_left(e.size_human@, 8) + seq![' '] + pad_right(e.mtime_text@, 16) + seq![' ']
        + pad_right(e.display_name@, 24) + seq![' '] + info_text(e.info)
}

/// The line for an entry: the long format, or just the display name.
pub open spec fn entry_line(e: EntryInfo, long: bool) -> Seq<char> {
    if long {
        long_line(e)
    } else {
        e.display_name@
    }
}

/// The long line ends with the NAME and INFO columns: the whole display name, never
/// cut, followed by spaces up to 24 characters when it is shorter, one space, and the
/// INFO text. The short line is the display name itself.
pub proof fn law_lines_show_the_whole_name(e: EntryInfo)
    ensures
        ({
            let line = long_line(e);
            let name = e.display_name@;
            let fill: nat = if name.len() < 24 {
                (24 - name.len()) as nat
            } else {
                0
            };
            let tail = name + Seq::new(fill, |i: int| ' ') + seq![' '] + info_text(e.info);
            &&& tail.len() <= line.len()
            &&& line.skip(line.len() - tail.len()) == tail
        }),
        entry_line(e, false) == e.display_name@,
{
    let line = long_line(e);
    let name = e.display_name@;
    let fill: nat = if name.len() < 24 {
        (24 - name.len()) as nat
    } else {
        0
    };
    let tail = name + Seq::new(fill, |i: int| ' ') + seq![' '] + info_text(e.info);
    let head = pad_right(mark_text(e.is_new), 4) + seq![' '] + pad_right(e.mode@, 10) + seq![' ']
        + pad_left(decimal(e.links as nat), 2) + seq![' '] + pad_right(e.owner@, 8) + seq![' ']
        + pad_right(e.group@, 8) + seq![' '] + pad_left(e.size_human@, 8) + seq![' '] + pad_right(
        e.mtime_text@,
        16,
    ) + seq![' '];
    assert(pad_right(name, 24) =~= name + Seq::new(fill, |i: int| ' '));
    assert(line =~= head + tail);
    assert(line.skip(line.len() - tail.len()) =~= tail);
}

/// `new_mark`: the documented marker text for new entries.
pub fn new_mark(is_new: bool) -> (s: &'static str)
    ensures
        s@ == mark_text(is_new),
{
    proof {
        reveal_strlit("new");
        reveal_strlit("");
    }
    if is_new {
        "new"
    } else {
        ""
    }
}

/// Appends `s` padded to `width` on the right, then a space.
fn push_column_left(out: &mut Vec<char>, s: &str, width: usize)
    ensures
        final(out)@ == old(out)@ + pad_right(s@, width as nat) + seq![' '],
{
    extend_chars(out, &pad_right_chars(&chars_of(s), width));
    out.push(' ');
}

/// Appends `s` padded to `width` on the left, then a space.
fn push_column_right(out: &mut Vec<char>, s: &[char], width: usize)
    ensures
        final(out)@ == old(out)@ + pad_left(s@, width as nat) + seq![' '],
{
    extend_chars(out, &pad_left_chars(s, width));
    out.push(' ');
}

/// `format_long_entry`: the long-format line of an entry.
pub fn format_long_entry(entry: &EntryInfo) -> (line: String)
    ensures
        line@ == long_line(*entry),
{
    let mut out: Vec<char> = Vec::new();
    push_column_left(&mut out, new_mark(entry.is_new), 4);
    push_column_left(&mut out, entry.mode.as_str(), 10);
    push_column_right(&mut out, &decimal_chars(entry.links), 2);
    push_column_left(&mut out, entry.owner.as_str(), 8);
    push_column_left(&mut out, entry.group.as_str(), 8);
    push_column_right(&mut out, &chars_of(entry.size_human.as_str()), 8);
    push_column_left(&mut out, entry.mtime_text.as_str(), 16);
    push_column_left(&mut out, entry.display_name.as_str(), 24);
    match &entry.info {
        Some(info) => extend_chars(&mut out, &chars_of(info.as_str())),
        None => {},
    }
    assert(out@ == long_line(*entry));
    string_from_chars(&out)
}

/// `format_entry`: the line of one entry.
pub fn format_entry(entry: &EntryInfo, long: bool) -> (line: String)
    ensures
        line@ == entry_line(*entry, long),
{
    if long {
        format_long_entry(entry)
    } else {
        entry.display_name.clone()
    }
}

/// `format_entries`: one output line per entry, in order, in the long format when
/// the configuration asks for it.
pub fn format_entries(entries: &[EntryInfo], config: &Config) -> (lines: Vec<String>)
    ensures
        lines.deep_view() == entries@.map_values(|e: EntryInfo| entry_line(e, config.long)),
{
    let mut lines: Vec<String> = Vec::new();
    let mut i: usize = 0;
    while i < entries.len()
        invariant
            i <= entries@.len(),
            lines.deep_view() == entries@.take(i as int).map_values(
                |e: EntryInfo| entry_line(e, config.long),
            ),
        decreases entries@.len() - i,
    {
        let line = format_entry(&entries[i], config.long);
        let ghost before = lines.deep_view();
        lines.push(line);
        assert(lines.deep_view() == before.push(line@));
        assert(entries@.take(i + 1).map_values(|e: EntryInfo| entry_line(e, config.long))
            == entries@.take(i as int).map_values(|e: EntryInfo| entry_line(e, config.long)).push(
            entry_line(entries@[i as int], config.long),
        ));
        i += 1;
    }
    assert(entries@.take(entries@.len() as int) == entries@);
    lines
}

} // verus!
