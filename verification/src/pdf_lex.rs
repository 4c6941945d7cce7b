//! Byte-level pieces of PDF syntax: white space, delimiters, keys, dictionaries,
//! numbers, indirect references, literal strings and hexadecimal strings.
use vstd::prelude::*;
use vstd::slice::slice_subrange;

use crate::text::occurs_at;

verus! {

// ---------------------------------------------------------------------------
// Specification
// ---------------------------------------------------------------------------

/// `u8::is_ascii_whitespace`: space, tab, line feed, form feed, carriage return.
pub open spec fn is_ascii_ws(b: u8) -> bool {
    b == 0x20 || b == 0x09 || b == 0x0a || b == 0x0c || b == 0x0d
}

/// `u8::is_ascii_digit`.
pub open spec fn is_digit(b: u8) -> bool {
    0x30 <= b <= 0x39
}

/// `[u8]::trim_ascii_start`.
pub open spec fn trim_ascii_start(s: Seq<u8>) -> Seq<u8>
    decreases s.len(),
{
    if s.len() > 0 && is_ascii_ws(s[0]) {
        trim_ascii_start(s.drop_first())
    } else {
        s
    }
}

/// The bytes that end a PDF name: white space and `/ < > [ ] ( )`.
pub open spec fn is_delimiter(b: u8) -> bool {
    is_ascii_ws(b) || b == 0x2fu8 || b == 0x3cu8 || b == 0x3eu8 || b == 0x5bu8 || b == 0x5du8 || b == 0x28u8
        || b == 0x29u8
}

/// The key `key` stands at index `i` as a whole name: it is not followed by
/// further name characters.
pub open spec fn key_at(bytes: Seq<u8>, key: Seq<u8>, i: int) -> bool {
    &&& occurs_at(bytes, key, i)
    &&& (i + key.len() == bytes.len() || is_delimiter(bytes[i + key.len()]))
}

/// The indices below `upto` at which `key` stands, in increasing order.
pub open spec fn key_positions_below(bytes: Seq<u8>, key: Seq<u8>, upto: int) -> Seq<int>
    decreases upto,
{
    if upto <= 0 {
        Seq::empty()
    } else {
        let init = key_positions_below(bytes, key, upto - 1);
        if key_at(bytes, key, upto - 1) {
            init.push(upto - 1)
        } else {
            init
        }
    }
}

/// Every index at which `key` stands, in increasing order.
pub open spec fn key_positions(bytes: Seq<u8>, key: Seq<u8>) -> Seq<int> {
    key_positions_below(bytes, key, bytes.len() as int)
}

/// The first index at which `needle` occurs in `hay`.
pub open spec fn first_occurrence(hay: Seq<u8>, needle: Seq<u8>) -> Option<int> {
    if exists|i: int| occurs_at(hay, needle, i) {
        Some(
            choose|i: int|
                occurs_at(hay, needle, i) && forall|j: int| 0 <= j < i ==> !occurs_at(hay, needle, j),
        )
    } else {
        None
    }
}

pub open spec fn open_mark() -> Seq<u8> {
    seq![0x3cu8, 0x3cu8]
}

pub open spec fn close_mark() -> Seq<u8> {
    seq![0x3eu8, 0x3eu8]
}

/// The number of indices below `n` at which `mark` occurs.
pub open spec fn count_below(s: Seq<u8>, mark: Seq<u8>, n: int) -> int
    decreases n,
{
    if n <= 0 {
        0
    } else {
        count_below(s, mark, n - 1) + if occurs_at(s, mark, n - 1) {
            1int
        } else {
            0int
        }
    }
}

/// The nesting depth of `<<` … `>>` before index `n`.
pub open spec fn depth_before(s: Seq<u8>, n: int) -> int {
    count_below(s, open_mark(), n) - count_below(s, close_mark(), n)
}

/// A `>>` at index `j` that closes the outermost dictionary (depth 1) or has
/// nothing to close (depth 0).
pub open spec fn decisive_close(s: Seq<u8>, j: int) -> bool {
    occurs_at(s, close_mark(), j) && depth_before(s, j) <= 1
}

/// The dictionary that `s` starts with, up to and including the `>>` that closes
/// its first `<<`; `None` when a `>>` comes before any `<<`, or no `>>` closes it.
pub open spec fn dictionary_prefix(s: Seq<u8>) -> Option<Seq<u8>> {
    if exists|j: int| decisive_close(s, j) {
        let j = choose|j: int|
            decisive_close(s, j) && forall|k: int| 0 <= k < j ==> !decisive_close(s, k);
        if depth_before(s, j) == 1 {
            Some(s.take(j + 2))
        } else {
            None
        }
    } else {
        None
    }
}

/// The number of leading decimal digits of `s`.
pub open spec fn leading_digits(s: Seq<u8>) -> nat
    decreases s.len(),
{
    if s.len() > 0 && is_digit(s[0]) {
        1 + leading_digits(s.drop_first())
    } else {
        0
    }
}

/// The value of a sequence of decimal digits.
pub open spec fn digits_value(d: Seq<u8>) -> nat
    decreases d.len(),
{
    if d.len() == 0 {
        0
    } else {
        digits_value(d.drop_last()) * 10 + (d.last() - 48) as nat
    }
}

/// The unsigned number at the start of `s` and the bytes after it: there must be
/// at least one digit, a non-digit after them, and the value must fit in a `u32`.
pub open spec fn leading_uint(s: Seq<u8>) -> Option<(u32, Seq<u8>)> {
    let end = leading_digits(s);
    if end == 0 || end == s.len() || digits_value(s.take(end as int)) > u32::MAX {
        None
    } else {
        Some((digits_value(s.take(end as int)) as u32, s.skip(end as int)))
    }
}

/// `object generation R` at the start of `s` (white space allowed between).
pub open spec fn indirect_reference(s: Seq<u8>) -> Option<(u32, u32)> {
    match leading_uint(s) {
        Some((object, rest)) => match leading_uint(trim_ascii_start(rest)) {
            Some((generation, rest2)) => {
                let r = trim_ascii_start(rest2);
                if r.len() > 0 && r[0] == 0x52u8 {
                    Some((object, generation))
                } else {
                    None
                }
            },
            None => None,
        },
        None => None,
    }
}

/// The decimal digits of `n` as ASCII bytes.
pub open spec fn decimal_ascii(n: nat) -> Seq<u8>
    decreases n,
{
    if n < 10 {
        seq![(48 + n) as u8]
    } else {
        decimal_ascii(n / 10).push((48 + n % 10) as u8)
    }
}

/// `"{object} {generation} obj"`.
pub open spec fn object_header(object: u32, generation: u32) -> Seq<u8> {
    decimal_ascii(object as nat) + seq![0x20u8] + decimal_ascii(generation as nat) + seq![
        0x20u8,
        0x6fu8,
        0x62u8,
        0x6au8,
    ]
}

pub open spec fn endobj() -> Seq<u8> {
    seq![0x65u8, 0x6eu8, 0x64u8, 0x6fu8, 0x62u8, 0x6au8]
}

/// The header of an object stands at `i`: its bytes are there, and no digit comes
/// right before them (so that `1 0 obj` is not found inside `11 0 obj`).
pub open spec fn header_at(bytes: Seq<u8>, header: Seq<u8>, i: int) -> bool {
    occurs_at(bytes, header, i) && (i == 0 || !is_digit(bytes[i - 1]))
}

/// The first index at which `header` stands as an object header.
#[verifier::opaque]
pub open spec fn first_header(bytes: Seq<u8>, header: Seq<u8>) -> Option<int> {
    if exists|i: int| header_at(bytes, header, i) {
        Some(
            choose|i: int|
                header_at(bytes, header, i) && forall|j: int| 0 <= j < i ==> !header_at(bytes, header, j),
        )
    } else {
        None
    }
}

/// The body of the indirect object `object generation`: the bytes between its first
/// header and the next `endobj`.
pub open spec fn object_body(bytes: Seq<u8>, object: u32, generation: u32) -> Option<Seq<u8>> {
    let header = object_header(object, generation);
    match first_header(bytes, header) {
        Some(h) => {
            let start = h + header.len();
            match first_occurrence(bytes.skip(start), endobj()) {
                Some(e) => Some(bytes.subrange(start, start + e)),
                None => None,
            }
        },
        None => None,
    }
}

/// The byte that an escape `\b` in a literal string stands for.
pub open spec fn unescaped(b: u8) -> u8 {
    if b == 0x6eu8 {
        0x0a
    } else if b == 0x72u8 {
        0x0d
    } else if b == 0x74u8 {
        0x09
    } else if b == 0x62u8 {
        0x08
    } else if b == 0x66u8 {
        0x0c
    } else {
        b
    }
}

/// The bytes before `c`, or nothing.
pub open spec fn prepend(c: u8, rest: Option<Seq<u8>>) -> Option<Seq<u8>> {
    match rest {
        Some(r) => Some(seq![c] + r),
        None => None,
    }
}

/// The contents of a literal string whose opening `(` has already been read, with
/// `depth` parentheses open and an escape pending when `escaped` holds; `None` when
/// the string is not closed.
pub open spec fn literal_contents(s: Seq<u8>, depth: nat, escaped: bool) -> Option<Seq<u8>>
    decreases s.len(),
{
    if s.len() == 0 {
        None
    } else {
        let b = s[0];
        let rest = s.drop_first();
        if escaped {
            prepend(unescaped(b), literal_contents(rest, depth, false))
        } else if b == 0x5cu8 {
            literal_contents(rest, depth, true)
        } else if b == 0x28u8 {
            prepend(b, literal_contents(rest, depth + 1, false))
        } else if b == 0x29u8 {
            if depth <= 1 {
                Some(Seq::empty())
            } else {
                prepend(b, literal_contents(rest, (depth - 1) as nat, false))
            }
        } else {
            prepend(b, literal_contents(rest, depth, false))
        }
    }
}

/// The value of a hexadecimal digit.
pub open spec fn hex_digit(b: u8) -> Option<u8> {
    if 0x30 <= b <= 0x39 {
        Some((b - 0x30) as u8)
    } else if 0x61 <= b <= 0x66 {
        Some((b - 0x61 + 10) as u8)
    } else if 0x41 <= b <= 0x46 {
        Some((b - 0x41 + 10) as u8)
    } else {
        None
    }
}

/// `s` without its white space bytes.
pub open spec fn without_ascii_ws(s: Seq<u8>) -> Seq<u8>
    decreases s.len(),
{
    if s.len() == 0 {
        s
    } else if is_ascii_ws(s.last()) {
        without_ascii_ws(s.drop_last())
    } else {
        without_ascii_ws(s.drop_last()).push(s.last())
    }
}

/// The bytes that hexadecimal digits stand for, two digits a byte, a missing final
/// digit counting as 0; `None` when a non-digit comes in.
pub open spec fn hex_bytes(d: Seq<u8>) -> Option<Seq<u8>>
    decreases d.len(),
{
    if d.len() == 0 {
        Some(Seq::empty())
    } else {
        match hex_digit(d[0]) {
            Some(high) => {
                if d.len() == 1 {
                    Some(seq![(high * 16) as u8])
                } else {
                    match hex_digit(d[1]) {
                        Some(low) => prepend((high * 16 + low) as u8, hex_bytes(d.skip(2))),
                        None => None,
                    }
                }
            },
            None => None,
        }
    }
}

/// The contents of a hexadecimal string whose opening `<` has already been read.
pub open spec fn hex_contents(s: Seq<u8>) -> Option<Seq<u8>> {
    match first_occurrence(s, seq![0x3eu8]) {
        Some(end) => hex_bytes(without_ascii_ws(s.take(end))),
        None => None,
    }
}


// ---------------------------------------------------------------------------
// Lemmas
// ---------------------------------------------------------------------------

/// The key positions below `upto` are exactly the indices below it at which the
/// key stands as a whole name.
proof fn lemma_key_positions_below_contains(bytes: Seq<u8>, key: Seq<u8>, upto: int, i: int)
    ensures
        key_positions_below(bytes, key, upto).contains(i) <==> (0 <= i < upto && key_at(
            bytes,
            key,
            i,
        )),
    decreases upto,
{
    if upto > 0 {
        lemma_key_positions_below_contains(bytes, key, upto - 1, i);
        let init = key_positions_below(bytes, key, upto - 1);
        if key_at(bytes, key, upto - 1) {
            let cur = init.push(upto - 1);
            assert(cur[init.len() as int] == upto - 1);
            if cur.contains(i) {
                let k = choose|k: int| 0 <= k < cur.len() && cur[k] == i;
                if k < init.len() {
                    assert(init[k] == i);
                }
            }
            if init.contains(i) {
                let k = choose|k: int| 0 <= k < init.len() && init[k] == i;
                assert(cur[k] == i);
            }
        }
    }
}

/// A key followed by white space, by one of the PDF delimiters `/ < > [ ] ( )`, or by
/// the end of the data stands there as a whole key: `/Title(...)` is a `/Title` key
/// just as `/Title (...)` is.
pub proof fn law_key_ends_at_delimiters(bytes: Seq<u8>, key: Seq<u8>, i: int)
    requires
        key.len() > 0,
        occurs_at(bytes, key, i),
        i + key.len() == bytes.len() || ({
            let d = bytes[i + key.len()];
            ||| d == 0x20u8 || d == 0x09u8 || d == 0x0au8 || d == 0x0cu8 || d == 0x0du8
            ||| d == 0x2fu8 || d == 0x3cu8 || d == 0x3eu8 || d == 0x5bu8 || d == 0x5du8
            ||| d == 0x28u8 || d == 0x29u8
        }),
    ensures
        key_positions(bytes, key).contains(i),
{
    lemma_key_positions_below_contains(bytes, key, bytes.len() as int, i);
}

/// A key followed by a letter or a digit is only the start of a longer name, and is
/// not taken as the key (`/TitleFont` holds no `/Title` key).
pub proof fn law_key_continues_into_longer_names(bytes: Seq<u8>, key: Seq<u8>, i: int)
    requires
        i + key.len() < bytes.len(),
        ({
            let d = bytes[i + key.len()];
            (0x30u8 <= d <= 0x39u8) || (0x41u8 <= d <= 0x5au8) || (0x61u8 <= d <= 0x7au8)
        }),
    ensures
        !key_positions(bytes, key).contains(i),
{
    lemma_key_positions_below_contains(bytes, key, bytes.len() as int, i);
}

/// A found first occurrence is the one that `first_occurrence` names.
pub proof fn lemma_first_occurrence(hay: Seq<u8>, needle: Seq<u8>, i: int)
    requires
        occurs_at(hay, needle, i),
        forall|j: int| 0 <= j < i ==> !occurs_at(hay, needle, j),
    ensures
        first_occurrence(hay, needle) == Some(i),
{
    let p = |k: int| occurs_at(hay, needle, k) && forall|j: int| 0 <= j < k ==> !occurs_at(hay, needle, j);
    assert(p(i));
    let k = choose|k: int| occurs_at(hay, needle, k) && forall|j: int| 0 <= j < k ==> !occurs_at(hay, needle, j);
    assert(p(k));
    if k < i {
        assert(!occurs_at(hay, needle, k));
    }
    if i < k {
        assert(!occurs_at(hay, needle, i));
    }
}

/// A found first header is the one that `first_header` names.
proof fn lemma_first_header(bytes: Seq<u8>, header: Seq<u8>, i: int)
    requires
        header_at(bytes, header, i),
        forall|j: int| 0 <= j < i ==> !header_at(bytes, header, j),
    ensures
        first_header(bytes, header) == Some(i),
{
    reveal(first_header);
    let k = choose|k: int|
        header_at(bytes, header, k) && forall|j: int| 0 <= j < k ==> !header_at(bytes, header, j);
    if k < i {
        assert(!header_at(bytes, header, k));
    }
    if i < k {
        assert(!header_at(bytes, header, i));
    }
}

/// A first occurrence lies within the sequence.
pub proof fn lemma_first_occurrence_bound(hay: Seq<u8>, needle: Seq<u8>)
    ensures
        first_occurrence(hay, needle) matches Some(i) ==> occurs_at(hay, needle, i) && forall|j: int|
            0 <= j < i ==> !occurs_at(hay, needle, j),
{
    if exists|i: int| occurs_at(hay, needle, i) {
        let w = choose|i: int| occurs_at(hay, needle, i);
        lemma_least_occurrence(hay, needle, w);
    }
}

/// Below any occurrence there is a least one.
proof fn lemma_least_occurrence(hay: Seq<u8>, needle: Seq<u8>, w: int)
    requires
        occurs_at(hay, needle, w),
    ensures
        exists|i: int|
            occurs_at(hay, needle, i) && forall|j: int| 0 <= j < i ==> !occurs_at(hay, needle, j),
    decreases w,
{
    if exists|j: int| 0 <= j < w && occurs_at(hay, needle, j) {
        let j = choose|j: int| 0 <= j < w && occurs_at(hay, needle, j);
        lemma_least_occurrence(hay, needle, j);
    } else {
        assert(occurs_at(hay, needle, w) && forall|j: int| 0 <= j < w ==> !occurs_at(hay, needle, j));
    }
}

/// A found first decisive `>>` decides the dictionary.
proof fn lemma_dictionary_prefix(s: Seq<u8>, j: int)
    requires
        decisive_close(s, j),
        forall|k: int| 0 <= k < j ==> !decisive_close(s, k),
    ensures
        dictionary_prefix(s) == if depth_before(s, j) == 1 {
            Some(s.take(j + 2))
        } else {
            None::<Seq<u8>>
        },
{
    let k = choose|k: int| decisive_close(s, k) && forall|m: int| 0 <= m < k ==> !decisive_close(s, m);
    assert(decisive_close(s, k) && forall|m: int| 0 <= m < k ==> !decisive_close(s, m));
    if k < j {
        assert(!decisive_close(s, k));
    }
    if j < k {
        assert(!decisive_close(s, j));
    }
}

/// Digit prefixes never lose value as they grow.
proof fn lemma_digits_value_grows(d: Seq<u8>, k: int, m: int)
    requires
        0 <= k <= m <= d.len(),
    ensures
        digits_value(d.take(k)) <= digits_value(d.take(m)),
    decreases m - k,
{
    if k < m {
        lemma_digits_value_grows(d, k, m - 1);
        assert(d.take(m).drop_last() == d.take(m - 1));
    }
}

// ---------------------------------------------------------------------------
// Executable functions
// ---------------------------------------------------------------------------

/// `u8::is_ascii_whitespace`.
pub fn is_ascii_whitespace(b: u8) -> (r: bool)
    ensures
        r == is_ascii_ws(b),
{
    b == 0x20 || b == 0x09 || b == 0x0a || b == 0x0c || b == 0x0d
}

/// `[u8]::trim_ascii_start`.
pub fn skip_ascii_whitespace(s: &[u8]) -> (r: &[u8])
    ensures
        r@ == trim_ascii_start(s@),
{
    let n = s.len();
    let mut i: usize = 0;
    assert(s@.skip(0) == s@);
    while i < n && is_ascii_whitespace(s[i])
        invariant
            i <= n == s@.len(),
            trim_ascii_start(s@) == trim_ascii_start(s@.skip(i as int)),
        decreases n - i,
    {
        assert(s@.skip(i as int).drop_first() == s@.skip(i + 1));
        i += 1;
    }
    assert(s@.subrange(i as int, n as int) == s@.skip(i as int));
    slice_subrange(s, i, n)
}

/// `is_pdf_delimiter`: white space and `/ < > [ ] ( )` end a name.
pub fn is_pdf_delimiter(byte: u8) -> (r: bool)
    ensures
        r == is_delimiter(byte),
{
    is_ascii_whitespace(byte) || byte == 0x2f || byte == 0x3c || byte == 0x3e || byte == 0x5b
        || byte == 0x5d || byte == 0x28 || byte == 0x29
}

/// Whether `needle` occurs in `hay` at index `i`.
pub fn bytes_at(hay: &[u8], needle: &[u8], i: usize) -> (b: bool)
    requires
        i <= hay@.len(),
    ensures
        b == occurs_at(hay@, needle@, i as int),
{
    if needle.len() > hay.len() - i {
        return false;
    }
    let mut k: usize = 0;
    while k < needle.len()
        invariant
            i <= hay@.len() == hay.len(),
            i + needle@.len() <= hay@.len(),
            k <= needle@.len(),
            forall|m: int| 0 <= m < k ==> hay@[i + m] == needle@[m],
        decreases needle@.len() - k,
    {
        if hay[i + k] != needle[k] {
            assert(hay@.subrange(i as int, i + needle@.len())[k as int] != needle@[k as int]);
            return false;
        }
        k += 1;
    }
    assert(hay@.subrange(i as int, i + needle@.len()) == needle@);
    true
}

/// `find_bytes`: the first index at which `needle` occurs in `bytes`.
pub fn find_bytes(bytes: &[u8], needle: &[u8]) -> (r: Option<usize>)
    requires
        needle@.len() > 0,
    ensures
        match r {
            Some(i) => first_occurrence(bytes@, needle@) == Some(i as int),
            None => first_occurrence(bytes@, needle@) is None,
        },
{
    if needle.len() > bytes.len() {
        assert(forall|j: int| !occurs_at(bytes@, needle@, j));
        return None;
    }
    let last = bytes.len() - needle.len();
    let mut i: usize = 0;
    loop
        invariant
            last + needle@.len() == bytes@.len(),
            i <= last,
            forall|j: int| 0 <= j < i ==> !occurs_at(bytes@, needle@, j),
        decreases last - i,
    {
        if bytes_at(bytes, needle, i) {
            proof {
                lemma_first_occurrence(bytes@, needle@, i as int);
            }
            return Some(i);
        }
        if i == last {
            assert(forall|j: int| !occurs_at(bytes@, needle@, j));
            return None;
        }
        i += 1;
    }
}

/// `key_has_boundary`: the key at `index` is not followed by name characters: the
/// byte after it is a delimiter, or there is no byte after it.
pub fn key_has_boundary(bytes: &[u8], index: usize, key: &[u8]) -> (r: bool)
    requires
        index + key@.len() <= usize::MAX,
    ensures
        r == (index + key@.len() >= bytes@.len() || is_delimiter(bytes@[index + key@.len()])),
{
    assert(bytes@.len() == bytes.len());
    let end = index + key.len();
    end >= bytes.len() || is_pdf_delimiter(bytes[end])
}

/// `key_offsets`: every index at which `key` stands as a whole name, in order.
pub fn key_offsets(bytes: &[u8], key: &[u8]) -> (r: Vec<usize>)
    requires
        key@.len() > 0,
    ensures
        r@.len() == key_positions(bytes@, key@).len(),
        forall|k: int| 0 <= k < r@.len() ==> r@[k] as int == #[trigger] key_positions(bytes@, key@)[k],
{
    let n = bytes.len();
    let mut out: Vec<usize> = Vec::new();
    let mut i: usize = 0;
    while i < n
        invariant
            i <= n == bytes@.len(),
            out@.len() == key_positions_below(bytes@, key@, i as int).len(),
            forall|k: int|
                0 <= k < out@.len() ==> out@[k] as int == #[trigger] key_positions_below(
                    bytes@,
                    key@,
                    i as int,
                )[k],
        decreases n - i,
    {
        if bytes_at(bytes, key, i) && key_has_boundary(bytes, i, key) {
            out.push(i);
        }
        i += 1;
    }
    out
}

/// One step of the `<<`/`>>` count.
proof fn lemma_depth_step(s: Seq<u8>, index: int)
    requires
        0 <= index,
        index + 1 < s.len(),
    ensures
        occurs_at(s, open_mark(), index) <==> (s[index] == 0x3cu8 && s[index + 1] == 0x3cu8),
        occurs_at(s, close_mark(), index) <==> (s[index] == 0x3eu8 && s[index + 1] == 0x3eu8),
        depth_before(s, index + 1) == depth_before(s, index) + (if s[index] == 0x3cu8 && s[index
            + 1] == 0x3cu8 {
            1int
        } else {
            0int
        }) - (if s[index] == 0x3eu8 && s[index + 1] == 0x3eu8 {
            1int
        } else {
            0int
        }),
{
    if s[index] == 0x3cu8 && s[index + 1] == 0x3cu8 {
        assert(s.subrange(index, index + 2) == open_mark());
    }
    if s[index] == 0x3eu8 && s[index + 1] == 0x3eu8 {
        assert(s.subrange(index, index + 2) == close_mark());
    }
    if occurs_at(s, open_mark(), index) {
        assert(s.subrange(index, index + 2)[0] == s[index]);
        assert(s.subrange(index, index + 2)[1] == s[index + 1]);
    }
    if occurs_at(s, close_mark(), index) {
        assert(s.subrange(index, index + 2)[0] == s[index]);
        assert(s.subrange(index, index + 2)[1] == s[index + 1]);
    }
}

/// `read_dictionary_slice`: the dictionary that `bytes` starts with, through the
/// `>>` that closes its first `<<`.
pub fn read_dictionary_slice(bytes: &[u8]) -> (r: Option<&[u8]>)
    ensures
        match r {
            Some(d) => dictionary_prefix(bytes@) == Some(d@),
            None => dictionary_prefix(bytes@) is None,
        },
{
    let ghost s = bytes@;
    let n = bytes.len();
    let mut depth: usize = 0;
    let mut index: usize = 0;
    while index + 1 < n
        invariant
            s == bytes@,
            n == s.len(),
            index == 0 || index + 1 <= n,
            depth <= index,
            depth == depth_before(s, index as int),
            forall|k: int| 0 <= k < index ==> !decisive_close(s, k),
        decreases n - index,
    {
        let a = bytes[index];
        let b = bytes[index + 1];
        proof {
            lemma_depth_step(s, index as int);
        }
        if a == 0x3c && b == 0x3c {
            depth += 1;
        } else if a == 0x3e && b == 0x3e {
            if depth == 0 {
                proof {
                    lemma_dictionary_prefix(s, index as int);
                }
                return None;
            }
            depth -= 1;
            if depth == 0 {
                proof {
                    lemma_dictionary_prefix(s, index as int);
                }
                let d = slice_subrange(bytes, 0, index + 2);
                assert(d@ == s.take(index + 2));
                return Some(d);
            }
        }
        index += 1;
    }
    assert forall|j: int| !decisive_close(s, j) by {
        if j >= index && decisive_close(s, j) {
            assert(j + 2 <= n);
        }
    }
    None
}

/// `parse_uint`: the unsigned number at the start of `bytes` and what follows it.
pub fn parse_uint(bytes: &[u8]) -> (r: Option<(u32, &[u8])>)
    ensures
        match r {
            Some((v, rest)) => leading_uint(bytes@) == Some((v, rest@)),
            None => leading_uint(bytes@) is None,
        },
{
    let ghost s = bytes@;
    let n = bytes.len();
    let mut end: usize = 0;
    assert(s.skip(0) == s);
    while end < n && 0x30 <= bytes[end] && bytes[end] <= 0x39
        invariant
            s == bytes@,
            end <= n == s.len(),
            leading_digits(s) == end + leading_digits(s.skip(end as int)),
            forall|k: int| 0 <= k < end ==> is_digit(s[k]),
        decreases n - end,
    {
        assert(s.skip(end as int).drop_first() == s.skip(end + 1));
        end += 1;
    }
    assert(leading_digits(s) == end);
    if end == 0 || end == n {
        return None;
    }
    let ghost digits = s.take(end as int);
    let mut value: u64 = 0;
    let mut k: usize = 0;
    while k < end
        invariant
            s == bytes@,
            k <= end < n == s.len(),
            leading_digits(s) == end,
            digits == s.take(end as int),
            forall|m: int| 0 <= m < end ==> is_digit(s[m]),
            value == digits_value(digits.take(k as int)),
            value <= u32::MAX,
        decreases end - k,
    {
        assert(digits.take(k + 1).drop_last() == digits.take(k as int));
        assert(digits.take(k + 1).last() == s[k as int]);
        value = value * 10 + (bytes[k] - 0x30) as u64;
        if value > 0xffff_ffff {
            proof {
                lemma_digits_value_grows(digits, k + 1, end as int);
                assert(digits.take(end as int) == digits);
            }
            return None;
        }
        k += 1;
    }
    assert(digits.take(end as int) == digits);
    let rest = slice_subrange(bytes, end, n);
    assert(rest@ == s.skip(end as int));
    Some((value as u32, rest))
}

/// `parse_indirect_reference`: `object generation R` at the start of `bytes`.
pub fn parse_indirect_reference(bytes: &[u8]) -> (r: Option<(u32, u32)>)
    ensures
        r == indirect_reference(bytes@),
{
    let (object, rest) = match parse_uint(bytes) {
        Some(p) => p,
        None => return None,
    };
    let (generation, rest2) = match parse_uint(skip_ascii_whitespace(rest)) {
        Some(p) => p,
        None => return None,
    };
    let tail = skip_ascii_whitespace(rest2);
    if tail.len() > 0 && tail[0] == 0x52 {
        Some((object, generation))
    } else {
        None
    }
}

/// The decimal digits of `n` as ASCII bytes.
fn decimal_ascii_bytes(n: u32) -> (out: Vec<u8>)
    ensures
        out@ == decimal_ascii(n as nat),
    decreases n,
{
    let d = (48 + n % 10) as u8;
    if n < 10 {
        let mut v: Vec<u8> = Vec::new();
        v.push(d);
        v
    } else {
        let mut v = decimal_ascii_bytes(n / 10);
        v.push(d);
        v
    }
}

/// `"{object} {generation} obj"` as bytes.
fn object_header_bytes(object: u32, generation: u32) -> (header: Vec<u8>)
    ensures
        header@ == object_header(object, generation),
{
    let mut header = decimal_ascii_bytes(object);
    header.push(0x20);
    let g = decimal_ascii_bytes(generation);
    let ghost start = header@;
    let mut k: usize = 0;
    while k < g.len()
        invariant
            k <= g@.len(),
            header@ == start + g@.take(k as int),
        decreases g@.len() - k,
    {
        header.push(g[k]);
        assert(g@.take(k + 1) == g@.take(k as int).push(g@[k as int]));
        k += 1;
    }
    assert(g@.take(g@.len() as int) == g@);
    header.push(0x20);
    header.push(0x6f);
    header.push(0x62);
    header.push(0x6a);
    assert(header@ == object_header(object, generation));
    header
}

/// The first index at which `header` stands as an object header (see `header_at`).
fn find_header(bytes: &[u8], header: &[u8]) -> (r: Option<usize>)
    requires
        header@.len() > 0,
    ensures
        match r {
            Some(i) => first_header(bytes@, header@) == Some(i as int) && i + header@.len()
                <= bytes@.len(),
            None => first_header(bytes@, header@) is None,
        },
{
    reveal(first_header);
    if header.len() > bytes.len() {
        assert(forall|j: int| !header_at(bytes@, header@, j));
        return None;
    }
    let last = bytes.len() - header.len();
    let mut i: usize = 0;
    loop
        invariant
            last + header@.len() == bytes@.len(),
            i <= last,
            forall|j: int| 0 <= j < i ==> !header_at(bytes@, header@, j),
        decreases last - i,
    {
        if bytes_at(bytes, header, i) && (i == 0 || !(0x30 <= bytes[i - 1] && bytes[i - 1] <= 0x39)) {
            proof {
                lemma_first_header(bytes@, header@, i as int);
            }
            return Some(i);
        }
        if i == last {
            assert(forall|j: int| !header_at(bytes@, header@, j));
            proof {
                reveal(first_header);
            }
            return None;
        }
        i += 1;
    }
}

/// `find_indirect_object`: the body of object `object generation`, between its
/// header and the next `endobj`.
pub fn find_indirect_object<'a>(bytes: &'a [u8], object: u32, generation: u32) -> (r: Option<
    &'a [u8],
>)
    ensures
        match r {
            Some(body) => object_body(bytes@, object, generation) == Some(body@),
            None => object_body(bytes@, object, generation) is None,
        },
{
    let header = object_header_bytes(object, generation);
    let h = match find_header(bytes, header.as_slice()) {
        Some(h) => h,
        None => return None,
    };
    assert(bytes@.len() == bytes.len());
    let start = h + header.len();
    let rest = slice_subrange(bytes, start, bytes.len());
    assert(rest@ == bytes@.skip(start as int));
    let marker: [u8; 6] = [0x65, 0x6e, 0x64, 0x6f, 0x62, 0x6a];
    assert(marker@ == endobj());
    proof {
        lemma_first_occurrence_bound(rest@, endobj());
    }
    let e = match find_bytes(rest, &marker) {
        Some(e) => e,
        None => return None,
    };
    Some(slice_subrange(bytes, start, start + e))
}

/// `push_escaped_byte`: appends the byte that an escape stands for.
pub fn push_escaped_byte(result: &mut Vec<u8>, byte: u8)
    ensures
        final(result)@ == old(result)@.push(unescaped(byte)),
{
    let value = if byte == 0x6e {
        0x0a
    } else if byte == 0x72 {
        0x0d
    } else if byte == 0x74 {
        0x09
    } else if byte == 0x62 {
        0x08
    } else if byte == 0x66 {
        0x0c
    } else {
        byte
    };
    result.push(value);
}

/// The bytes of `acc` before those of `rest`, if `rest` is some.
pub open spec fn after(acc: Seq<u8>, rest: Option<Seq<u8>>) -> Option<Seq<u8>> {
    match rest {
        Some(r) => Some(acc + r),
        None => None,
    }
}

proof fn lemma_after_push(acc: Seq<u8>, c: u8, rest: Option<Seq<u8>>)
    ensures
        after(acc.push(c), rest) == after(acc, prepend(c, rest)),
{
    if let Some(r) = rest {
        assert(acc.push(c) + r == acc + (seq![c] + r));
    }
}

/// `read_pdf_string`: the contents of a literal string whose `(` has been read.
/// The nesting depth is kept as the number of parentheses open beyond the first.
pub fn read_pdf_string(bytes: &[u8]) -> (r: Option<Vec<u8>>)
    ensures
        match r {
            Some(v) => literal_contents(bytes@, 1, false) == Some(v@),
            None => literal_contents(bytes@, 1, false) is None,
        },
{
    let ghost s = bytes@;
    let mut result: Vec<u8> = Vec::new();
    let mut escaped = false;
    let mut nested: usize = 0;
    let mut i: usize = 0;
    assert(s.skip(0) == s);
    assert(result@ + s == s);
    while i < bytes.len()
        invariant
            s == bytes@,
            i <= s.len(),
            nested <= i,
            literal_contents(s, 1, false) == after(
                result@,
                literal_contents(s.skip(i as int), (nested + 1) as nat, escaped),
            ),
        decreases s.len() - i,
    {
        let byte = bytes[i];
        let ghost acc = result@;
        let ghost rest = literal_contents(s.skip(i + 1), (nested + 1) as nat, false);
        assert(s.skip(i as int).drop_first() == s.skip(i + 1));
        assert(s.skip(i as int)[0] == byte);
        if escaped {
            push_escaped_byte(&mut result, byte);
            escaped = false;
            proof {
                lemma_after_push(acc, unescaped(byte), rest);
            }
        } else if byte == 0x5c {
            escaped = true;
        } else if byte == 0x28 {
            nested += 1;
            result.push(byte);
            proof {
                lemma_after_push(acc, byte, literal_contents(s.skip(i + 1), (nested + 1) as nat, false));
            }
        } else if byte == 0x29 {
            if nested == 0 {
                assert(acc + Seq::<u8>::empty() == acc);
                return Some(result);
            }
            nested -= 1;
            result.push(byte);
            proof {
                lemma_after_push(acc, byte, literal_contents(s.skip(i + 1), (nested + 1) as nat, false));
            }
        } else {
            result.push(byte);
            proof {
                lemma_after_push(acc, byte, rest);
            }
        }
        i += 1;
    }
    None
}

/// `hex_value`: the value of a hexadecimal digit.
pub fn hex_value(value: u8) -> (r: Option<u8>)
    ensures
        r == hex_digit(value),
{
    if 0x30 <= value && value <= 0x39 {
        Some(value - 0x30)
    } else if 0x61 <= value && value <= 0x66 {
        Some(value - 0x61 + 10)
    } else if 0x41 <= value && value <= 0x46 {
        Some(value - 0x41 + 10)
    } else {
        None
    }
}

/// `read_pdf_hex_string`: the bytes of a hexadecimal string whose `<` has been read.
pub fn read_pdf_hex_string(bytes: &[u8]) -> (r: Option<Vec<u8>>)
    ensures
        match r {
            Some(v) => hex_contents(bytes@) == Some(v@),
            None => hex_contents(bytes@) is None,
        },
{
    let ghost s = bytes@;
    let gt: [u8; 1] = [0x3e];
    assert(gt@ == seq![0x3eu8]);
    let end = match find_bytes(bytes, &gt) {
        Some(e) => e,
        None => return None,
    };
    proof {
        lemma_first_occurrence_bound(s, seq![0x3eu8]);
    }
    let mut digits: Vec<u8> = Vec::new();
    let mut k: usize = 0;
    while k < end
        invariant
            s == bytes@,
            end <= s.len(),
            k <= end,
            digits@ == without_ascii_ws(s.take(k as int)),
        decreases end - k,
    {
        assert(s.take(k + 1).drop_last() == s.take(k as int));
        if !is_ascii_whitespace(bytes[k]) {
            digits.push(bytes[k]);
        }
        k += 1;
    }
    let ghost d = digits@;
    assert(hex_contents(bytes@) == hex_bytes(d));
    let mut result: Vec<u8> = Vec::new();
    let mut i: usize = 0;
    assert(d.skip(0) == d);
    assert(result@ + d == d);
    while i < digits.len()
        invariant
            d == digits@,
            i <= d.len(),
            hex_contents(bytes@) == hex_bytes(d),
            hex_bytes(d) == after(result@, hex_bytes(d.skip(i as int))),
        decreases d.len() - i,
    {
        let ghost acc = result@;
        assert(d.skip(i as int)[0] == d[i as int]);
        assert(i + 1 < d.len() ==> d.skip(i as int)[1] == d[i + 1]);
        let high = match hex_value(digits[i]) {
            Some(h) => h,
            None => return None,
        };
        if i + 1 < digits.len() {
            let low = match hex_value(digits[i + 1]) {
                Some(l) => l,
                None => return None,
            };
            result.push(high * 16 + low);
            assert(d.skip(i as int).skip(2) == d.skip(i + 2));
            proof {
                lemma_after_push(acc, (high * 16 + low) as u8, hex_bytes(d.skip(i + 2)));
            }
            i += 2;
        } else {
            result.push(high * 16);
            assert(d.skip(i + 1) == Seq::<u8>::empty());
            assert(acc.push((high * 16) as u8) + Seq::<u8>::empty() == acc + seq![(high * 16) as u8]);
            i += 1;
        }
    }
    assert(d.skip(d.len() as int) == Seq::<u8>::empty());
    assert(result@ + Seq::<u8>::empty() == result@);
    Some(result)
}

} // verus!
