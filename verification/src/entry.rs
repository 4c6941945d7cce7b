//! One listed file system entry, as plain values, and the decisions made while
//! gathering it.
use vstd::prelude::*;

use crate::pdf::{has_pdf_extension, is_pdf};
use crate::text::{chars_of, string_from_chars};

verus! {

/// What the listing knows about one entry.
///
/// Times are nanoseconds relative to the Unix epoch (negative before it).
#[derive(Debug, Clone)]
pub struct EntryInfo {
    pub name: String,
    pub display_name: String,
    pub mode: String,
    pub links: u64,
    pub owner: String,
    pub group: String,
    pub size: u64,
    pub size_human: String,
    pub mtime: i128,
    pub mtime_text: String,
    pub is_new: bool,
    pub is_regular_file: bool,
    pub info: Option<String>,
}

/// An entry counts as new for this long after it was created: 24 hours, in nanoseconds.
pub const NEW_ENTRY_NANOS: i128 = 86_400_000_000_000;

/// Where the INFO column of an entry comes from in the long format.
#[derive(Debug, Clone, Copy, PartialEq, Eq, Structural)]
pub enum RichInfoSource {
    /// The first line of the directory's `README.md`.
    Readme,
    /// The metadata title of the PDF file.
    PdfTitle,
    /// Nothing is shown.
    Nothing,
}

/// The NAME column: directories get a trailing `/`.
pub open spec fn display_name_text(name: Seq<char>, is_dir: bool) -> Seq<char> {
    if is_dir {
        name.push('/')
    } else {
        name
    }
}

/// An entry created (or, when that is unknown, modified) at `time` is new at `now`
/// when it is at most 24 hours old.
pub open spec fn new_at(time: Option<i128>, now: i128) -> bool {
    match time {
        Some(t) => t <= now && now - t <= NEW_ENTRY_NANOS,
        None => false,
    }
}

/// Directories show their README tagline, PDF files their title, others nothing.
pub open spec fn rich_info_source_of(is_dir: bool, file_name: Seq<char>) -> RichInfoSource {
    if is_dir {
        RichInfoSource::Readme
    } else if has_pdf_extension(file_name) {
        RichInfoSource::PdfTitle
    } else {
        RichInfoSource::Nothing
    }
}

/// The NAME column of an entry.
pub fn display_name(name: &str, is_dir: bool) -> (s: String)
    ensures
        s@ == display_name_text(name@, is_dir),
{
    let mut chars = chars_of(name);
    if is_dir {
        chars.push('/');
    }
    string_from_chars(&chars)
}

/// `is_new`: whether an entry created (or else modified) at `time` is new at `now`.
pub fn is_new(time: Option<i128>, now: i128) -> (b: bool)
    ensures
        b == new_at(time, now),
{
    match time {
        Some(t) => {
            if t > now {
                false
            } else if now < i128::MIN + NEW_ENTRY_NANOS {
                true
            } else {
                t >= now - NEW_ENTRY_NANOS
            }
        },
        None => false,
    }
}

/// `read_rich_info`'s choice: which information the INFO column shows.
pub fn rich_info_source(is_dir: bool, file_name: &str) -> (r: RichInfoSource)
    ensures
        r == rich_info_source_of(is_dir, file_name@),
{
    if is_dir {
        RichInfoSource::Readme
    } else if is_pdf(file_name) {
        RichInfoSource::PdfTitle
    } else {
        RichInfoSource::Nothing
    }
}

/// An entry is new exactly when its creation time (or, failing that, its modification
/// time) is known, is not after `now`, and lies at most 24 hours before `now`.
pub proof fn law_new_means_at_most_a_day_old(time: Option<i128>, now: i128)
    ensures
        new_at(time, now) <==> (time is Some && time->0 <= now && now - time->0 <= 24 * 60 * 60
            * 1_000_000_000),
{
}

/// A directory's NAME column is its name followed by `/`; any other entry's is its
/// name unchanged.
pub proof fn law_directories_end_with_a_slash(name: Seq<char>, is_dir: bool)
    ensures
        is_dir ==> display_name_text(name, is_dir).len() == name.len() + 1
            && display_name_text(name, is_dir).take(name.len() as int) == name
            && display_name_text(name, is_dir).last() == '/',
        !is_dir ==> display_name_text(name, is_dir) == name,
{
    if is_dir {
        assert(name.push('/').take(name.len() as int) =~= name);
    }
}

} // verus!
