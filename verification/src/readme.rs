//! The tagline of a directory: the first line of its `README.md`.
use vstd::prelude::*;

use crate::text::{
    chars_of, copy_range, extend_chars, seq_starts_with, split_chars, split_on, string_from_chars,
    strip_leading, strip_leading_chars, trim, trim_chars, views,
};

verus! {

/// The first `max` characters of `s`, followed by `...` when something was cut.
pub open spec fn truncated(s: Seq<char>, max: nat) -> Seq<char> {
    if s.len() > max {
        s.take(max as int) + seq!['.', '.', '.']
    } else {
        s
    }
}

/// The first line of text among `lines`: lines are trimmed, lines inside ``` code
/// blocks and blank lines are skipped, and leading `#`s and the white space after
/// them are removed; a line left empty by that is skipped too.
pub open spec fn first_text_line(lines: Seq<Seq<char>>, in_code: bool) -> Option<Seq<char>>
    decreases lines.len(),
{
    if lines.len() == 0 {
        None
    } else {
        let line = trim(lines[0]);
        let rest = lines.drop_first();
        if seq_starts_with(line, seq!['`', '`', '`']) {
            first_text_line(rest, !in_code)
        } else if in_code || line.len() == 0 {
            first_text_line(rest, in_code)
        } else {
            let text = trim(strip_leading(line, '#'));
            if text.len() > 0 {
                Some(text)
            } else {
                first_text_line(rest, in_code)
            }
        }
    }
}

/// `README: ` and the first line of text, cut to 80 characters.
pub open spec fn tagline_of(content: Seq<char>) -> Option<Seq<char>> {
    match first_text_line(split_on(content, '\n'), false) {
        Some(t) => Some(seq!['R', 'E', 'A', 'D', 'M', 'E', ':', ' '] + truncated(t, 80)),
        None => None,
    }
}

/// Cutting keeps what fits: a text of at most `max` characters is kept whole; a
/// longer one keeps exactly its first `max` characters, followed by `...`.
pub proof fn law_cutting_keeps_the_start(s: Seq<char>, max: nat)
    ensures
        s.len() <= max ==> truncated(s, max) == s,
        s.len() > max ==> truncated(s, max).len() == max + 3 && truncated(s, max).take(max as int)
            == s.take(max as int) && truncated(s, max).skip(max as int) == seq!['.', '.', '.'],
{
    if s.len() > max {
        let t = truncated(s, max);
        assert(t.take(max as int) =~= s.take(max as int));
        assert(t.skip(max as int) =~= seq!['.', '.', '.']);
    }
}

/// A tagline is `README: ` followed by at most 80 characters of the README, and
/// `...` when the line was longer.
pub proof fn law_tagline_length(content: Seq<char>, tagline: Seq<char>)
    requires
        tagline_of(content) == Some(tagline),
    ensures
        tagline.len() <= 8 + 80 + 3,
        tagline.take(8) == seq!['R', 'E', 'A', 'D', 'M', 'E', ':', ' '],
{
    let t = first_text_line(split_on(content, '\n'), false)->Some_0;
    let prefix = seq!['R', 'E', 'A', 'D', 'M', 'E', ':', ' '];
    assert((prefix + truncated(t, 80)).take(8) == prefix);
}

/// `truncate`: the first `max_chars` characters, with `...` when something was cut.
pub fn truncate(value: &[char], max_chars: usize) -> (out: Vec<char>)
    ensures
        out@ == truncated(value@, max_chars as nat),
{
    if value.len() > max_chars {
        let mut out = copy_range(value, 0, max_chars);
        assert(value@.subrange(0, max_chars as int) == value@.take(max_chars as int));
        out.push('.');
        out.push('.');
        out.push('.');
        out
    } else {
        let out = copy_range(value, 0, value.len());
        assert(value@.subrange(0, value@.len() as int) == value@);
        out
    }
}

/// The tagline of a README given its contents (`read_readme_tagline` after reading
/// the file).
pub fn readme_tagline(content: &str) -> (r: Option<String>)
    ensures
        match r {
            Some(s) => tagline_of(content@) == Some(s@),
            None => tagline_of(content@) is None,
        },
{
    let chars = chars_of(content);
    let lines = split_chars(&chars, '\n');
    let ghost ls = views(lines@);
    let fence = vec!['`', '`', '`'];
    assert(fence@ == seq!['`', '`', '`']);
    let mut in_code_block = false;
    let mut i: usize = 0;
    assert(ls.skip(0) == ls);
    while i < lines.len()
        invariant
            i <= lines@.len(),
            ls == views(lines@),
            ls == split_on(content@, '\n'),
            fence@ == seq!['`', '`', '`'],
            first_text_line(ls, false) == first_text_line(ls.skip(i as int), in_code_block),
        decreases lines@.len() - i,
    {
        let line = trim_chars(&lines[i]);
        assert(ls.skip(i as int)[0] == lines@[i as int]@);
        assert(ls.skip(i as int).drop_first() == ls.skip(i + 1));
        if crate::text::starts_with_chars(&line, &fence) {
            in_code_block = !in_code_block;
        } else if !(in_code_block || line.len() == 0) {
            let stripped = strip_leading_chars(&line, '#');
            let tagline = trim_chars(&stripped);
            if tagline.len() > 0 {
                let mut out = vec!['R', 'E', 'A', 'D', 'M', 'E', ':', ' '];
                extend_chars(&mut out, &truncate(&tagline, 80));
                return Some(string_from_chars(&out));
            }
        }
        i += 1;
    }
    None
}

} // verus!
