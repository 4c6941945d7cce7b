//! The `Title` entry of a PDF file's document information dictionary.
//!
//! The trailer's `/Info` entry names the information dictionary, directly or by an
//! indirect reference; its `/Title` is a literal or hexadecimal string, in UTF-16BE
//! with a byte-order mark or in UTF-8 (invalid UTF-8 is decoded lossily).
use vstd::prelude::*;
use vstd::slice::slice_subrange;
use vstd::utf8::{decode_utf8, valid_utf8};

use crate::pdf_lex::{
    dictionary_prefix, find_indirect_object, hex_contents, indirect_reference, key_offsets,
    key_positions, literal_contents, object_body, open_mark, parse_indirect_reference,
    read_dictionary_slice, read_pdf_hex_string, read_pdf_string, skip_ascii_whitespace,
    trim_ascii_start,
};
use crate::text::{
    chars_of, collapse_whitespace, copy_range, join, lemma_words_filled, lemma_words_of_join,
    lemma_words_solid, seq_starts_with, string_from_chars, words,
};

verus! {

// ---------------------------------------------------------------------------
// Specification
// ---------------------------------------------------------------------------

/// The title with its white space runs collapsed to single spaces and removed at
/// both ends; `None` when nothing is left.
pub open spec fn normalized_title(title: Seq<char>) -> Option<Seq<char>> {
    let n = join(words(title), seq![' ']);
    if n.len() > 0 {
        Some(n)
    } else {
        None
    }
}

/// The big-endian 16-bit units of `b`, an odd last byte being dropped.
pub open spec fn utf16_units(b: Seq<u8>) -> Seq<u16> {
    Seq::new(b.len() / 2, |k: int| (b[2 * k] as nat * 256 + b[2 * k + 1] as nat) as u16)
}

/// UTF-16 decoding: a unit outside `D800..=DFFF` stands for itself; a high
/// surrogate (`D800..=DBFF`) followed by a low one (`DC00..=DFFF`) for the code point
/// they encode; anything else is invalid.
pub open spec fn utf16_decode(u: Seq<u16>) -> Option<Seq<char>>
    decreases u.len(),
{
    if u.len() == 0 {
        Some(Seq::empty())
    } else if u[0] < 0xd800 || u[0] > 0xdfff {
        match utf16_decode(u.drop_first()) {
            Some(rest) => Some(seq![u[0] as char] + rest),
            None => None,
        }
    } else if u[0] <= 0xdbff && u.len() >= 2 && 0xdc00 <= u[1] <= 0xdfff {
        let c = (0x10000 + (u[0] - 0xd800) * 0x400 + (u[1] - 0xdc00)) as char;
        match utf16_decode(u.skip(2)) {
            Some(rest) => Some(seq![c] + rest),
            None => None,
        }
    } else {
        None
    }
}

/// What `String::from_utf8_lossy` returns: the bytes decoded as UTF-8, each
/// ill-formed part replaced by U+FFFD.
pub uninterp spec fn spec_utf8_lossy(bytes: Seq<u8>) -> Seq<char>;

/// The text of a PDF string: UTF-16BE after a `FE FF` byte-order mark, otherwise
/// UTF-8 (lossily decoded when invalid); `None` when it is empty or invalid UTF-16.
pub open spec fn decoded_text(raw: Seq<u8>) -> Option<Seq<char>> {
    if raw.len() >= 2 && raw[0] == 0xfeu8 && raw[1] == 0xffu8 {
        match utf16_decode(utf16_units(raw.skip(2))) {
            Some(t) => if t.len() > 0 {
                Some(t)
            } else {
                None
            },
            None => None,
        }
    } else {
        let t = if valid_utf8(raw) {
            decode_utf8(raw)
        } else {
            spec_utf8_lossy(raw)
        };
        if t.len() > 0 {
            Some(t)
        } else {
            None
        }
    }
}

/// The raw bytes of the string value that `s` starts with: a literal string in
/// parentheses or a hexadecimal string in angle brackets.
pub open spec fn title_value(s: Seq<u8>) -> Option<Seq<u8>> {
    if s.len() > 0 && s[0] == 0x28u8 {
        literal_contents(s.skip(1), 1, false)
    } else if s.len() > 0 && s[0] == 0x3cu8 && !seq_starts_with(s, open_mark()) {
        hex_contents(s.skip(1))
    } else {
        None
    }
}

/// `/Title`.
pub open spec fn title_key() -> Seq<u8> {
    seq![0x2fu8, 0x54u8, 0x69u8, 0x74u8, 0x6cu8, 0x65u8]
}

/// `/Info`.
pub open spec fn info_key() -> Seq<u8> {
    seq![0x2fu8, 0x49u8, 0x6eu8, 0x66u8, 0x6fu8]
}

/// The usable title given by the `/Title` key at `off` of a dictionary.
pub open spec fn title_at(dict: Seq<u8>, off: int) -> Option<Seq<char>> {
    match title_value(trim_ascii_start(dict.skip(off + title_key().len()))) {
        Some(raw) => match decoded_text(raw) {
            Some(t) => normalized_title(t),
            None => None,
        },
        None => None,
    }
}

/// The first usable title among the `/Title` keys at `offs`.
pub open spec fn first_title(dict: Seq<u8>, offs: Seq<int>) -> Option<Seq<char>>
    decreases offs.len(),
{
    if offs.len() == 0 {
        None
    } else {
        match title_at(dict, offs[0]) {
            Some(t) => Some(t),
            None => first_title(dict, offs.drop_first()),
        }
    }
}

/// The title of an information dictionary: that of its first usable `/Title`.
pub open spec fn dictionary_title(dict: Seq<u8>) -> Option<Seq<char>> {
    first_title(dict, key_positions(dict, title_key()))
}

/// The dictionary that the value after an `/Info` key stands for: a dictionary
/// written in place, or the dictionary in the body of the referenced object.
pub open spec fn info_dictionary(bytes: Seq<u8>, after_key: Seq<u8>) -> Option<Seq<u8>> {
    if seq_starts_with(after_key, open_mark()) {
        dictionary_prefix(after_key)
    } else {
        match indirect_reference(after_key) {
            Some((object, generation)) => match object_body(bytes, object, generation) {
                Some(body) => dictionary_prefix(trim_ascii_start(body)),
                None => None,
            },
            None => None,
        }
    }
}

/// The title that the `/Info` key at `off` leads to.
#[verifier::opaque]
pub open spec fn info_title_at(bytes: Seq<u8>, off: int) -> Option<Seq<char>> {
    match info_dictionary(bytes, trim_ascii_start(bytes.skip(off + info_key().len()))) {
        Some(d) => dictionary_title(d),
        None => None,
    }
}

/// The title of the last of the `/Info` keys at `offs` that leads to one.
pub open spec fn last_info_title(bytes: Seq<u8>, offs: Seq<int>) -> Option<Seq<char>>
    decreases offs.len(),
{
    if offs.len() == 0 {
        None
    } else {
        match info_title_at(bytes, offs.last()) {
            Some(t) => Some(t),
            None => last_info_title(bytes, offs.drop_last()),
        }
    }
}

/// The metadata title of a PDF file: the title that the last `/Info` key with a
/// usable title leads to (later trailers supersede earlier ones); in a file without
/// any `/Info` key, the first usable `/Title` entry of the file.
pub open spec fn pdf_metadata_title(bytes: Seq<u8>) -> Option<Seq<char>> {
    let offs = key_positions(bytes, info_key());
    if offs.len() == 0 {
        dictionary_title(bytes)
    } else {
        last_info_title(bytes, offs)
    }
}

/// `PDF: ` followed by the normalized title; `None` when there is no usable title.
pub open spec fn display_label(title: Option<Seq<char>>) -> Option<Seq<char>> {
    match title {
        Some(t) => match normalized_title(t) {
            Some(n) => Some(seq!['P', 'D', 'F', ':', ' '] + n),
            None => None,
        },
        None => None,
    }
}

/// `last_index_of` names the last occurrence of `c`, if there is one.
proof fn lemma_last_index_of(s: Seq<char>, c: char)
    ensures
        match last_index_of(s, c) {
            Some(i) => 0 <= i < s.len() && s[i] == c && forall|j: int| i < j < s.len() ==> s[j] != c,
            None => forall|j: int| 0 <= j < s.len() ==> s[j] != c,
        },
    decreases s.len(),
{
    if s.len() > 0 && s.last() != c {
        let init = s.drop_last();
        lemma_last_index_of(init, c);
        assert forall|j: int| 0 <= j < init.len() implies init[j] == s[j] by {}
        assert(s[s.len() - 1] == s.last());
    }
}

/// A file is taken for a PDF exactly when its name is a non-empty stem, a dot, and
/// `pdf` in any mix of upper and lower case.
pub proof fn law_pdf_names_end_in_dot_pdf(name: Seq<char>)
    ensures
        has_pdf_extension(name) <==> ({
            let n = name.len();
            &&& n >= 5
            &&& name[n - 4] == '.'
            &&& (name[n - 3] == 'p' || name[n - 3] == 'P')
            &&& (name[n - 2] == 'd' || name[n - 2] == 'D')
            &&& (name[n - 1] == 'f' || name[n - 1] == 'F')
        }),
{
    lemma_last_index_of(name, '.');
    let n = name.len();
    if has_pdf_extension(name) {
        let i = last_index_of(name, '.')->Some_0;
        let e = name.skip(i + 1);
        assert(e.len() == 3);
        assert(e[0] == name[n - 3] && e[1] == name[n - 2] && e[2] == name[n - 1]);
        assert(i == n - 4);
    }
    if n >= 5 && name[n - 4] == '.' && (name[n - 3] == 'p' || name[n - 3] == 'P') && (name[n - 2]
        == 'd' || name[n - 2] == 'D') && (name[n - 1] == 'f' || name[n - 1] == 'F') {
        let i = last_index_of(name, '.')->Some_0;
        assert(i >= n - 4);
        assert(name[n - 3] != '.' && name[n - 2] != '.' && name[n - 1] != '.');
        assert(i == n - 4);
        assert(name != seq!['.', '.']);
        let e = name.skip(i + 1);
        assert(e.len() == 3);
        assert(e[0] == name[n - 3] && e[1] == name[n - 2] && e[2] == name[n - 1]);
    }
}

/// The view of an optional string.
pub open spec fn opt_view(s: Option<String>) -> Option<Seq<char>> {
    match s {
        Some(t) => Some(t@),
        None => None,
    }
}

/// `c` with ASCII upper case mapped to lower case.
pub open spec fn ascii_lower(c: char) -> char {
    if 'A' <= c <= 'Z' {
        ((c as u32) + 32) as char
    } else {
        c
    }
}

/// The index of the last `c` in `s`.
pub open spec fn last_index_of(s: Seq<char>, c: char) -> Option<int>
    decreases s.len(),
{
    if s.len() == 0 {
        None
    } else if s.last() == c {
        Some(s.len() - 1)
    } else {
        last_index_of(s.drop_last(), c)
    }
}

/// `Path::extension` of a file name: the text after its last dot, unless the only
/// dot starts the name or the name is `..`.
pub open spec fn file_extension(name: Seq<char>) -> Option<Seq<char>> {
    if name == seq!['.', '.'] {
        None
    } else {
        match last_index_of(name, '.') {
            Some(i) => if i > 0 {
                Some(name.skip(i + 1))
            } else {
                None
            },
            None => None,
        }
    }
}

/// The extension is `pdf` in any ASCII case.
pub open spec fn has_pdf_extension(name: Seq<char>) -> bool {
    match file_extension(name) {
        Some(e) => e.len() == 3 && ascii_lower(e[0]) == 'p' && ascii_lower(e[1]) == 'd'
            && ascii_lower(e[2]) == 'f',
        None => false,
    }
}

/// A normalized title normalizes to itself.
pub proof fn law_title_normalization_idempotent(title: Seq<char>, normalized: Seq<char>)
    requires
        normalized_title(title) == Some(normalized),
    ensures
        normalized_title(normalized) == Some(normalized),
{
    lemma_words_filled(title);
    lemma_words_solid(title);
    lemma_words_of_join(words(title));
}

/// The INFO label of a title is the same whether or not the title was normalized
/// first (the title found in a PDF is normalized before it is labelled).
pub proof fn law_label_of_normalized_title(title: Seq<char>, normalized: Seq<char>)
    requires
        normalized_title(title) == Some(normalized),
    ensures
        display_label(Some(normalized)) == display_label(Some(title)),
{
    law_title_normalization_idempotent(title, normalized);
}

// ---------------------------------------------------------------------------
// Decoding
// ---------------------------------------------------------------------------

/// Calls `String::from_utf8`. Trusted, as its documentation states: it succeeds
/// exactly on valid UTF-8 (`vstd::utf8::valid_utf8`), and then holds the decoded
/// characters (`vstd::utf8::decode_utf8`).
#[verifier::external_body]
fn utf8_string(bytes: Vec<u8>) -> (r: Option<String>)
    ensures
        r is Some <==> valid_utf8(bytes@),
        r matches Some(s) ==> s@ == decode_utf8(bytes@),
{
    String::from_utf8(bytes).ok()
}

/// Calls `String::from_utf8_lossy`. Trusted only in that the result is
/// `spec_utf8_lossy` of the bytes; how ill-formed parts are replaced is left unstated.
#[verifier::external_body]
fn utf8_lossy(bytes: &[u8]) -> (s: String)
    ensures
        s@ == spec_utf8_lossy(bytes@),
{
    String::from_utf8_lossy(bytes).into_owned()
}

/// Calls `String::from_utf16`. Trusted, as its documentation states: it succeeds
/// exactly on valid UTF-16, with the decoded characters, as `utf16_decode` spells out.
#[verifier::external_body]
fn utf16_string(units: &[u16]) -> (r: Option<String>)
    ensures
        opt_view(r) == utf16_decode(units@),
{
    String::from_utf16(units).ok()
}

/// `decode_pdf_string`: the text of a PDF string's bytes.
pub fn decode_pdf_string(bytes: &[u8]) -> (r: Option<String>)
    ensures
        opt_view(r) == decoded_text(bytes@),
{
    let n = bytes.len();
    if n >= 2 && bytes[0] == 0xfe && bytes[1] == 0xff {
        let ghost body = bytes@.skip(2);
        let half = (n - 2) / 2;
        let mut units: Vec<u16> = Vec::new();
        let mut k: usize = 0;
        while k < half
            invariant
                n == bytes@.len() == bytes.len(),
                n >= 2,
                body == bytes@.skip(2),
                half == body.len() / 2,
                k <= half,
                units@ == utf16_units(body).take(k as int),
            decreases half - k,
        {
            let unit = (bytes[2 + 2 * k] as u16) * 256 + bytes[3 + 2 * k] as u16;
            units.push(unit);
            assert(units@ == utf16_units(body).take(k + 1));
            k += 1;
        }
        assert(units@ == utf16_units(body));
        match utf16_string(&units) {
            Some(s) => {
                if s.as_str().is_empty() {
                    None
                } else {
                    Some(s)
                }
            },
            None => None,
        }
    } else {
        let owned = copy_range(bytes, 0, n);
        assert(owned@ == bytes@);
        let s = match utf8_string(owned) {
            Some(s) => s,
            None => utf8_lossy(bytes),
        };
        if s.as_str().is_empty() {
            None
        } else {
            Some(s)
        }
    }
}

/// `normalize_title`: see `normalized_title`.
pub fn normalize_title(title: &str) -> (r: Option<String>)
    ensures
        opt_view(r) == normalized_title(title@),
{
    let chars = chars_of(title);
    let collapsed = collapse_whitespace(&chars);
    if collapsed.len() == 0 {
        None
    } else {
        Some(string_from_chars(&collapsed))
    }
}

// ---------------------------------------------------------------------------
// Dictionaries
// ---------------------------------------------------------------------------

/// `read_title_value`: the raw bytes of the string value that `bytes` starts with.
pub fn read_title_value(bytes: &[u8]) -> (r: Option<Vec<u8>>)
    ensures
        match r {
            Some(v) => title_value(bytes@) == Some(v@),
            None => title_value(bytes@) is None,
        },
{
    let n = bytes.len();
    if n == 0 {
        return None;
    }
    let rest = slice_subrange(bytes, 1, n);
    assert(rest@ == bytes@.skip(1));
    if bytes[0] == 0x28 {
        read_pdf_string(rest)
    } else if bytes[0] == 0x3c && !(n >= 2 && bytes[1] == 0x3c) {
        assert(!seq_starts_with(bytes@, open_mark())) by {
            if n >= 2 {
                assert(bytes@.take(2)[1] == bytes@[1]);
            }
        }
        read_pdf_hex_string(rest)
    } else {
        assert(bytes@[0] == 0x3cu8 && n >= 2 && bytes@[1] == 0x3cu8 ==> seq_starts_with(bytes@, open_mark())) by {
            if bytes@[0] == 0x3cu8 && n >= 2 && bytes@[1] == 0x3cu8 {
                assert(bytes@.take(2) == open_mark());
            }
        }
        None
    }
}

/// The usable title given by the `/Title` key at `off`.
fn title_at_offset(dictionary: &[u8], off: usize) -> (r: Option<String>)
    requires
        off + title_key().len() <= dictionary@.len(),
    ensures
        opt_view(r) == title_at(dictionary@, off as int),
{
    assert(dictionary@.len() == dictionary.len());
    let after = slice_subrange(dictionary, off + 6, dictionary.len());
    assert(after@ == dictionary@.skip(off + 6));
    let value = skip_ascii_whitespace(after);
    let raw = match read_title_value(value) {
        Some(raw) => raw,
        None => return None,
    };
    match decode_pdf_string(&raw) {
        Some(text) => normalize_title(text.as_str()),
        None => None,
    }
}

/// `title_from_info_dictionary`: the first usable `/Title` of a dictionary.
pub fn title_from_info_dictionary(dictionary: &[u8]) -> (r: Option<String>)
    ensures
        opt_view(r) == dictionary_title(dictionary@),
{
    let key: [u8; 6] = [0x2f, 0x54, 0x69, 0x74, 0x6c, 0x65];
    assert(key@ == title_key());
    let offsets = key_offsets(dictionary, &key);
    let ghost offs = key_positions(dictionary@, title_key());
    let mut k: usize = 0;
    assert(offs.skip(0) == offs);
    while k < offsets.len()
        invariant
            k <= offsets@.len() == offs.len(),
            offs == key_positions(dictionary@, title_key()),
            forall|m: int| 0 <= m < offsets@.len() ==> offsets@[m] as int == #[trigger] offs[m],
            first_title(dictionary@, offs) == first_title(dictionary@, offs.skip(k as int)),
        decreases offsets@.len() - k,
    {
        let off = offsets[k];
        proof {
            lemma_key_position_fits(dictionary@, title_key(), k as int);
        }
        assert(offs.skip(k as int)[0] == off as int);
        assert(offs.skip(k as int).drop_first() == offs.skip(k + 1));
        match title_at_offset(dictionary, off) {
            Some(t) => return Some(t),
            None => {},
        }
        k += 1;
    }
    None
}

/// Every key position leaves room for the key.
proof fn lemma_key_position_fits(bytes: Seq<u8>, key: Seq<u8>, k: int)
    requires
        0 <= k < key_positions(bytes, key).len(),
    ensures
        0 <= key_positions(bytes, key)[k],
        key_positions(bytes, key)[k] + key.len() <= bytes.len(),
{
    lemma_key_positions_below(bytes, key, bytes.len() as int);
}

proof fn lemma_key_positions_below(bytes: Seq<u8>, key: Seq<u8>, upto: int)
    ensures
        forall|k: int|
            0 <= k < crate::pdf_lex::key_positions_below(bytes, key, upto).len() ==> {
                let p = #[trigger] crate::pdf_lex::key_positions_below(bytes, key, upto)[k];
                0 <= p && p + key.len() <= bytes.len()
            },
    decreases upto,
{
    if upto > 0 {
        lemma_key_positions_below(bytes, key, upto - 1);
        let init = crate::pdf_lex::key_positions_below(bytes, key, upto - 1);
        let cur = crate::pdf_lex::key_positions_below(bytes, key, upto);
        assert forall|k: int| 0 <= k < cur.len() implies {
            let p = #[trigger] cur[k];
            0 <= p && p + key.len() <= bytes.len()
        } by {
            if k < init.len() {
                assert(cur[k] == init[k]);
            }
        }
    }
}

/// `read_info_dictionary`: the dictionary that the value after an `/Info` key
/// stands for.
pub fn read_info_dictionary<'a>(bytes: &'a [u8], after_key: &'a [u8]) -> (r: Option<&'a [u8]>)
    ensures
        match r {
            Some(d) => info_dictionary(bytes@, after_key@) == Some(d@),
            None => info_dictionary(bytes@, after_key@) is None,
        },
{
    if after_key.len() >= 2 && after_key[0] == 0x3c && after_key[1] == 0x3c {
        assert(after_key@.take(2) == open_mark());
        return read_dictionary_slice(after_key);
    }
    assert(!seq_starts_with(after_key@, open_mark())) by {
        if after_key@.len() >= 2 {
            assert(after_key@.take(2)[0] == after_key@[0]);
            assert(after_key@.take(2)[1] == after_key@[1]);
        }
    }
    let (object, generation) = match parse_indirect_reference(after_key) {
        Some(r) => r,
        None => return None,
    };
    let body = match find_indirect_object(bytes, object, generation) {
        Some(b) => b,
        None => return None,
    };
    read_dictionary_slice(skip_ascii_whitespace(body))
}

/// The title that the `/Info` key at `off` leads to.
fn info_title_at_offset(bytes: &[u8], off: usize) -> (r: Option<String>)
    requires
        off + info_key().len() <= bytes@.len(),
    ensures
        opt_view(r) == info_title_at(bytes@, off as int),
{
    reveal(info_title_at);
    assert(bytes@.len() == bytes.len());
    let after = slice_subrange(bytes, off + 5, bytes.len());
    assert(after@ == bytes@.skip(off + 5));
    let after_key = skip_ascii_whitespace(after);
    match read_info_dictionary(bytes, after_key) {
        Some(dictionary) => title_from_info_dictionary(dictionary),
        None => None,
    }
}

/// The title that the last `/Info` key with a usable title leads to.
fn info_title(bytes: &[u8]) -> (r: Option<String>)
    ensures
        opt_view(r) == last_info_title(bytes@, key_positions(bytes@, info_key())),
{
    let key: [u8; 5] = [0x2f, 0x49, 0x6e, 0x66, 0x6f];
    assert(key@ == info_key());
    let offsets = key_offsets(bytes, &key);
    let ghost offs = key_positions(bytes@, info_key());
    let mut k: usize = offsets.len();
    let ghost target = last_info_title(bytes@, offs);
    assert(offs.take(offs.len() as int) == offs);
    while k > 0
        invariant
            k <= offsets@.len() == offs.len(),
            offs == key_positions(bytes@, info_key()),
            forall|m: int| 0 <= m < offsets@.len() ==> offsets@[m] as int == #[trigger] offs[m],
            target == last_info_title(bytes@, offs),
            target == last_info_title(bytes@, offs.take(k as int)),
        decreases k,
    {
        let off = offsets[k - 1];
        proof {
            lemma_key_position_fits(bytes@, info_key(), k - 1);
        }
        assert(offs.take(k as int).last() == off as int);
        assert(offs.take(k as int).drop_last() == offs.take(k - 1));
        match info_title_at_offset(bytes, off) {
            Some(title) => {
                assert(offs.take(k as int).len() > 0);
                assert(last_info_title(bytes@, offs.take(k as int)) == Some(title@));
                return Some(title);
            },
            None => {},
        }
        k -= 1;
    }
    assert(offs.take(0) == Seq::<int>::empty());
    None
}

/// `find_pdf_metadata_title`: the metadata title of a PDF file's bytes (see
/// `pdf_metadata_title`).
pub fn find_pdf_metadata_title(bytes: &[u8]) -> (r: Option<String>)
    ensures
        opt_view(r) == pdf_metadata_title(bytes@),
{
    let key: [u8; 5] = [0x2f, 0x49, 0x6e, 0x66, 0x6f];
    assert(key@ == info_key());
    let offsets = key_offsets(bytes, &key);
    if offsets.len() == 0 {
        title_from_info_dictionary(bytes)
    } else {
        info_title(bytes)
    }
}

/// `pdf_display_label`: the INFO column text for a PDF title, if it has one.
pub fn pdf_display_label(title: Option<&str>) -> (r: Option<String>)
    ensures
        opt_view(r) == display_label(
            match title {
                Some(t) => Some(t@),
                None => None,
            },
        ),
{
    let t = match title {
        Some(t) => t,
        None => return None,
    };
    let chars = chars_of(t);
    let collapsed = collapse_whitespace(&chars);
    if collapsed.len() == 0 {
        return None;
    }
    let mut label: Vec<char> = vec!['P', 'D', 'F', ':', ' '];
    crate::text::extend_chars(&mut label, &collapsed);
    Some(string_from_chars(&label))
}

/// `is_pdf`: whether a file name has the extension `pdf` in any ASCII case.
pub fn is_pdf(file_name: &str) -> (b: bool)
    ensures
        b == has_pdf_extension(file_name@),
{
    let name = chars_of(file_name);
    let n = name.len();
    if n == 2 && name[0] == '.' && name[1] == '.' {
        assert(name@ == seq!['.', '.']);
        return false;
    }
    assert(name@ != seq!['.', '.']);
    let mut j: usize = n;
    assert(name@.take(n as int) == name@);
    while j > 0 && name[j - 1] != '.'
        invariant
            j <= n == name@.len(),
            name@ == file_name@,
            last_index_of(name@, '.') == last_index_of(name@.take(j as int), '.'),
        decreases j,
    {
        assert(name@.take(j as int).drop_last() == name@.take(j - 1));
        j -= 1;
    }
    if j <= 1 {
        return false;
    }
    assert(name@.take(j as int).last() == '.');
    let ext = copy_range(&name, j, n);
    assert(ext@ == name@.skip(j as int));
    ext.len() == 3 && lower_ascii(ext[0]) == 'p' && lower_ascii(ext[1]) == 'd' && lower_ascii(ext[2])
        == 'f'
}

/// `c` with ASCII upper case mapped to lower case.
fn lower_ascii(c: char) -> (r: char)
    ensures
        r == ascii_lower(c),
{
    if 'A' <= c && c <= 'Z' {
        ((c as u8) + 32) as char
    } else {
        c
    }
}

} // verus!
