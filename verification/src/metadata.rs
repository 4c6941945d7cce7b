//! Presentation of file metadata: permission strings, human-readable sizes and
//! calendar times, and owner names.
use vstd::prelude::*;

use crate::text::{
    decimal, decimal_chars, digit_char, extend_chars, string_from_chars, zero_padded,
    zero_padded_chars,
};

verus! {

// ---------------------------------------------------------------------------
// Human-readable sizes
// ---------------------------------------------------------------------------

pub open spec fn pow2(k: nat) -> nat
    decreases k,
{
    if k == 0 {
        1
    } else {
        2 * pow2((k - 1) as nat)
    }
}

pub open spec fn pow1024(k: nat) -> nat
    decreases k,
{
    if k == 0 {
        1
    } else {
        1024 * pow1024((k - 1) as nat)
    }
}

/// `n / d` rounded to the nearest integer, ties to the even one.
pub open spec fn div_round_even(n: nat, d: nat) -> nat
    recommends
        d > 0,
{
    let q = n / d;
    let r = n % d;
    if 2 * r > d || (2 * r == d && q % 2 == 1) {
        q + 1
    } else {
        q
    }
}

/// The number of low bits of `size` that a 53-bit significand cannot hold, counting
/// from `s`: the least `s` with `size < 2^(53 + s)` (a `u64` needs at most 11).
pub open spec fn f64_shift(size: nat, s: nat) -> nat
    decreases 11 - s,
{
    if s < 11 && size >= 0x20_0000_0000_0000 * pow2(s) {
        f64_shift(size, s + 1)
    } else {
        s
    }
}

/// The value of `size as f64`: `size` rounded to 53 significant bits, ties to even.
pub open spec fn f64_value(size: nat) -> nat {
    let s = f64_shift(size, 0);
    div_round_even(size, pow2(s)) * pow2(s)
}

/// The unit reached by dividing `value` by 1024 while it is at least 1024, starting at
/// unit `u` and stopping at the last unit (`PB`).
pub open spec fn size_unit_from(value: nat, u: nat) -> nat
    decreases 5 - u,
{
    if u < 5 && value >= pow1024(u + 1) {
        size_unit_from(value, u + 1)
    } else {
        u
    }
}

/// The name of unit `u`: `B`, `KB`, `MB`, `GB`, `TB`, `PB`.
pub open spec fn unit_name(u: nat) -> Seq<char> {
    if u == 0 {
        seq!['B']
    } else if u == 1 {
        seq!['K', 'B']
    } else if u == 2 {
        seq!['M', 'B']
    } else if u == 3 {
        seq!['G', 'B']
    } else if u == 4 {
        seq!['T', 'B']
    } else {
        seq!['P', 'B']
    }
}

/// A size for people: below 1 KB the exact byte count with `B`; otherwise the size in
/// the largest unit (powers of 1024, up to `PB`) in which it is at least 1, with one
/// decimal, exactly as `format!("{:.1}", size as f64 / 1024^unit)` gives it: the size is
/// first rounded to a `f64`, and the tenths are rounded to nearest, ties to even.
pub open spec fn human_size_text(size: nat) -> Seq<char> {
    let value = f64_value(size);
    let unit = size_unit_from(value, 0);
    if unit == 0 {
        decimal(size) + seq!['B']
    } else {
        let tenths = div_round_even(value * 10, pow1024(unit));
        decimal(tenths / 10) + seq!['.', digit_char(tenths % 10)] + unit_name(unit)
    }
}

proof fn lemma_pow2_small(k: nat)
    requires
        k <= 11,
    ensures
        1 <= pow2(k) <= 2048,
{
    reveal_with_fuel(pow2, 12);
}

/// `1024^k` for `1 <= k <= 5`.
fn pow1024_of(k: u64) -> (p: u128)
    requires
        1 <= k <= 5,
    ensures
        p == pow1024(k as nat),
        1024 <= p <= 0x4_0000_0000_0000,
{
    proof {
        reveal_with_fuel(pow1024, 6);
    }
    if k == 1 {
        1024
    } else if k == 2 {
        0x10_0000
    } else if k == 3 {
        0x4000_0000
    } else if k == 4 {
        0x100_0000_0000
    } else {
        0x4_0000_0000_0000
    }
}

/// `n / d` rounded to nearest, ties to even.
fn div_round_even_of(n: u128, d: u128) -> (r: u128)
    requires
        0 < d <= 0x1_0000_0000_0000_0000,
        n <= 0x10_0000_0000_0000_0000,
    ensures
        r == div_round_even(n as nat, d as nat),
        r <= (n as nat) / (d as nat) + 1,
{
    let q = n / d;
    let rem = n % d;
    assert(q <= n) by (nonlinear_arith)
        requires
            q == n / d,
            d > 0,
    ;
    if 2 * rem > d || (2 * rem == d && q % 2 == 1) {
        q + 1
    } else {
        q
    }
}

/// The value of `size as f64`.
fn f64_value_of(size: u64) -> (v: u128)
    ensures
        v == f64_value(size as nat),
        v <= 0x1_0000_0000_0000_0000,
{
    let mut s: u64 = 0;
    let mut p: u128 = 1;
    assert(pow2(0) == 1);
    while s < 11 && (size as u128) >= 0x20_0000_0000_0000 * p
        invariant
            s <= 11,
            p == pow2(s as nat),
            1 <= p <= 2048,
            f64_shift(size as nat, 0) == f64_shift(size as nat, s as nat),
        decreases 11 - s,
    {
        p = p * 2;
        s = s + 1;
        proof {
            lemma_pow2_small(s as nat);
        }
    }
    let q = div_round_even_of(size as u128, p);
    if s == 11 {
        assert(pow2(11) == 2048) by {
            reveal_with_fuel(pow2, 12);
        }
    }
    assert((size as nat) < 0x20_0000_0000_0000 * p);
    assert((size as nat) / (p as nat) < 0x20_0000_0000_0000) by (nonlinear_arith)
        requires
            (size as nat) < 0x20_0000_0000_0000 * p,
            p >= 1,
    ;
    assert(q * p <= 0x1_0000_0000_0000_0000) by (nonlinear_arith)
        requires
            q <= 0x20_0000_0000_0000,
            1 <= p <= 2048,
    ;
    q * p
}

/// `human_size`: see `human_size_text`.
pub fn human_size(size: u64) -> (s: String)
    ensures
        s@ == human_size_text(size as nat),
{
    let value = f64_value_of(size);
    let mut unit: u64 = 0;
    while unit < 5 && value >= pow1024_of(unit + 1)
        invariant
            unit <= 5,
            size_unit_from(value as nat, 0) == size_unit_from(value as nat, unit as nat),
        decreases 5 - unit,
    {
        unit = unit + 1;
    }
    let mut out: Vec<char>;
    if unit == 0 {
        out = decimal_chars(size);
        out.push('B');
    } else {
        let scale = pow1024_of(unit);
        let tenths = div_round_even_of(value * 10, scale);
        assert(tenths < 0x1_0000_0000_0000_0000) by (nonlinear_arith)
            requires
                tenths <= (value * 10) as nat / (scale as nat) + 1,
                scale >= 1024,
                value <= 0x1_0000_0000_0000_0000,
        ;
        out = decimal_chars((tenths / 10) as u64);
        out.push('.');
        let d = (tenths % 10) as u8;
        out.push((48u8 + d) as char);
        let name = if unit == 1 {
            vec!['K', 'B']
        } else if unit == 2 {
            vec!['M', 'B']
        } else if unit == 3 {
            vec!['G', 'B']
        } else if unit == 4 {
            vec!['T', 'B']
        } else {
            vec!['P', 'B']
        };
        extend_chars(&mut out, &name);
    }
    string_from_chars(&out)
}


/// Sizes below 1 KB are shown exactly, in bytes.
pub proof fn law_small_sizes_in_bytes(size: nat)
    requires
        size < 1024,
    ensures
        human_size_text(size) == decimal(size) + seq!['B'],
{
    assert(pow2(0) == 1);
    assert(f64_shift(size, 0) == 0);
    assert(f64_value(size) == size);
    assert(pow1024(1) == 1024) by {
        reveal_with_fuel(pow1024, 2);
    }
    assert(size_unit_from(size, 0) == 0);
}

/// Sizes of at least 1 KB are shown with a unit above bytes.
pub proof fn law_large_sizes_in_units(size: nat)
    requires
        1024 <= size,
    ensures
        size_unit_from(f64_value(size), 0) >= 1,
{
    let s = f64_shift(size, 0);
    lemma_f64_shift_bounds(size, 0);
    lemma_pow2_small(s);
    let p = pow2(s);
    assert(f64_value(size) >= 1024) by {
        if s == 0 {
            assert(pow2(0) == 1);
            assert(size / 1 == size && size % 1 == 0) by (nonlinear_arith);
        } else {
            let q = size / p;
            let r = size % p;
            assert(q * p + r == size && r < p) by (nonlinear_arith)
                requires
                    p >= 1,
                    q == size / p,
                    r == size % p,
            ;
            let d = div_round_even(size, p);
            assert(d >= q);
            assert(d * p >= q * p) by (nonlinear_arith)
                requires
                    d >= q,
                    p >= 1,
            ;
        }
    }
    assert(pow1024(1) == 1024) by {
        reveal_with_fuel(pow1024, 2);
    }
    lemma_size_unit_from_at_least(f64_value(size), 1);
}

/// Sizes are shown in units of 1024: a size from 1024 bytes up to (not including)
/// 1024 times as much is shown in `KB`, then `MB`, `GB`, `TB` and `PB` (for sizes a
/// `f64` holds exactly, below 2^53 bytes).
pub proof fn law_sizes_in_units_of_1024(size: nat)
    requires
        1024 <= size < 0x20_0000_0000_0000,
    ensures
        ({
            let t = human_size_text(size);
            let u = t.skip(t.len() - 2);
            &&& t.len() >= 2
            &&& size < 0x10_0000 ==> u == seq!['K', 'B']
            &&& 0x10_0000 <= size < 0x4000_0000 ==> u == seq!['M', 'B']
            &&& 0x4000_0000 <= size < 0x100_0000_0000 ==> u == seq!['G', 'B']
            &&& 0x100_0000_0000 <= size < 0x4_0000_0000_0000 ==> u == seq!['T', 'B']
            &&& 0x4_0000_0000_0000 <= size ==> u == seq!['P', 'B']
        }),
{
    assert(pow2(0) == 1);
    assert(f64_shift(size, 0) == 0);
    assert(size / 1 == size && size % 1 == 0) by (nonlinear_arith);
    assert(f64_value(size) == size);
    reveal_with_fuel(pow1024, 6);
    reveal_with_fuel(size_unit_from, 6);
    let unit = size_unit_from(size, 0);
    assert(unit >= 1);
    let tenths = div_round_even(size * 10, pow1024(unit));
    let t = human_size_text(size);
    let head = decimal(tenths / 10) + seq!['.', digit_char(tenths % 10)];
    assert(t == head + unit_name(unit));
    assert(t.skip(t.len() - 2) =~= unit_name(unit));
}

/// The significand shift counted from `s` stays within `s ..= 11`, and it passes `s`
/// only for sizes of at least 2^53.
proof fn lemma_f64_shift_bounds(size: nat, s: nat)
    requires
        s <= 11,
    ensures
        s <= f64_shift(size, s) <= 11,
        f64_shift(size, s) > s ==> size >= 0x20_0000_0000_0000,
    decreases 11 - s,
{
    if s < 11 && size >= 0x20_0000_0000_0000 * pow2(s) {
        lemma_pow2_small(s);
        assert(0x20_0000_0000_0000 * pow2(s) >= 0x20_0000_0000_0000) by (nonlinear_arith)
            requires
                pow2(s) >= 1,
        ;
        lemma_f64_shift_bounds(size, s + 1);
    }
}

proof fn lemma_size_unit_from_at_least(value: nat, u: nat)
    requires
        1 <= u <= 5,
        value >= pow1024(u),
    ensures
        size_unit_from(value, u) >= u,
    decreases 5 - u,
{
    if u < 5 && value >= pow1024(u + 1) {
        lemma_size_unit_from_at_least(value, u + 1);
    }
}

// ---------------------------------------------------------------------------
// Permission strings
// ---------------------------------------------------------------------------

/// The kind of a file system entry, as far as the mode string shows it.
#[derive(Debug, Clone, Copy, PartialEq, Eq, Structural)]
pub enum FileKind {
    Directory,
    Symlink,
    Socket,
    Fifo,
    CharDevice,
    BlockDevice,
    Other,
}

/// The first character of a mode string.
pub open spec fn kind_char(kind: FileKind) -> char {
    match kind {
        FileKind::Directory => 'd',
        FileKind::Symlink => 'l',
        FileKind::Socket => 's',
        FileKind::Fifo => 'p',
        FileKind::CharDevice => 'c',
        FileKind::BlockDevice => 'b',
        FileKind::Other => '-',
    }
}

/// The permission bits in display order: owner, group and others, each read,
/// write and execute (`0o400` down to `0o001`).
pub open spec fn permission_bits() -> Seq<u32> {
    seq![0o400u32, 0o200u32, 0o100u32, 0o040u32, 0o020u32, 0o010u32, 0o004u32, 0o002u32, 0o001u32]
}

/// The single-bit mask `bit` is set in `mode` (`mode & bit != 0`).
pub open spec fn mode_bit_set(mode: u32, bit: u32) -> bool {
    (mode / bit) % 2 == 1
}

/// The nine permission characters: `rwx` for owner, group and others, `-` where the
/// bit is clear.
pub open spec fn permission_text(mode: u32) -> Seq<char> {
    Seq::new(
        9,
        |k: int|
            if mode_bit_set(mode, permission_bits()[k]) {
                if k % 3 == 0 {
                    'r'
                } else if k % 3 == 1 {
                    'w'
                } else {
                    'x'
                }
            } else {
                '-'
            },
    )
}

/// The permission characters read the low nine bits of the mode, from the owner's read
/// bit (`0o400`, bit 8) down to the others' execute bit (`0o001`, bit 0): position `k`
/// shows `r`, `w` or `x` (by `k % 3`) when bit `8 - k` is set, and `-` when it is clear.
pub proof fn law_permissions_read_the_mode_bits(mode: u32)
    ensures
        permission_text(mode).len() == 9,
        forall|k: int|
            0 <= k < 9 ==> #[trigger] permission_text(mode)[k] == if (mode as int / (pow2((8 - k) as nat) as int))
                % 2 == 1 {
                seq!['r', 'w', 'x'][k % 3]
            } else {
                '-'
            },
{
    reveal_with_fuel(pow2, 9);
    assert forall|k: int| 0 <= k < 9 implies permission_bits()[k] as int == pow2((8 - k) as nat) by {
        if k == 0 {
        } else if k == 1 {
        } else if k == 2 {
        } else if k == 3 {
        } else if k == 4 {
        } else if k == 5 {
        } else if k == 6 {
        } else if k == 7 {
        } else {
        }
    }
    assert forall|k: int| 0 <= k < 9 implies #[trigger] permission_text(mode)[k] == if (mode as int
        / (pow2((8 - k) as nat) as int)) % 2 == 1 {
        seq!['r', 'w', 'x'][k % 3]
    } else {
        '-'
    } by {
        assert(permission_bits()[k] as int == pow2((8 - k) as nat));
    }
}

/// `file_type_char`: the kind's character in a mode string.
pub fn file_type_char(kind: FileKind) -> (c: char)
    ensures
        c == kind_char(kind),
{
    match kind {
        FileKind::Directory => 'd',
        FileKind::Symlink => 'l',
        FileKind::Socket => 's',
        FileKind::Fifo => 'p',
        FileKind::CharDevice => 'c',
        FileKind::BlockDevice => 'b',
        FileKind::Other => '-',
    }
}

/// `mode_string`: the `ls -l` mode column, such as `-rw-r--r--`.
pub fn mode_string(mode: u32, kind: FileKind) -> (s: String)
    ensures
        s@ == seq![kind_char(kind)] + permission_text(mode),
{
    let mut out: Vec<char> = Vec::new();
    out.push(file_type_char(kind));
    let bits: [u32; 9] = [0o400, 0o200, 0o100, 0o040, 0o020, 0o010, 0o004, 0o002, 0o001];
    assert(bits@ == permission_bits());
    let mut k: usize = 0;
    while k < 9
        invariant
            k <= 9,
            bits@ == permission_bits(),
            out@.len() == k + 1,
            out@[0] == kind_char(kind),
            forall|m: int| 0 <= m < k ==> #[trigger] out@[m + 1] == permission_text(mode)[m],
        decreases 9 - k,
    {
        let bit = bits[k];
        let set = (mode / bit) % 2 == 1;
        let c = if !set {
            '-'
        } else if k % 3 == 0 {
            'r'
        } else if k % 3 == 1 {
            'w'
        } else {
            'x'
        };
        out.push(c);
        k += 1;
    }
    assert forall|i: int| 0 <= i < 10 implies out@[i] == (seq![kind_char(kind)] + permission_text(
        mode,
    ))[i] by {
        if i > 0 {
            assert(out@[(i - 1) + 1] == permission_text(mode)[i - 1]);
        }
    }
    assert(out@ == seq![kind_char(kind)] + permission_text(mode));
    string_from_chars(&out)
}

// ---------------------------------------------------------------------------
// Times and owners
// ---------------------------------------------------------------------------

/// The seconds since the Unix epoch that a file time stands for, given as signed
/// nanoseconds since the epoch: `None` for a time before the epoch, which has no
/// calendar time and shows as `-`; otherwise the whole seconds, rounded down.
pub open spec fn unix_seconds(nanos: int) -> Option<int> {
    if nanos < 0 {
        None
    } else {
        Some(nanos / 1_000_000_000)
    }
}

/// `unix_timestamp`: the timestamp to place in the local calendar (see
/// `unix_seconds`). The whole seconds of a system time fit in an `i64`.
pub fn unix_timestamp(nanos: i128) -> (r: Option<i64>)
    requires
        nanos / 1_000_000_000 <= i64::MAX,
    ensures
        match r {
            Some(s) => unix_seconds(nanos as int) == Some(s as int),
            None => unix_seconds(nanos as int) is None,
        },
{
    if nanos < 0 {
        None
    } else {
        let seconds = nanos / 1_000_000_000;
        Some(seconds as i64)
    }
}

/// A time broken down in the local time zone.
#[derive(Debug, Clone, Copy, PartialEq, Eq)]
pub struct LocalTime {
    pub year: u64,
    pub month: u64,
    pub day: u64,
    pub hour: u64,
    pub minute: u64,
}

/// `YYYY-MM-DD HH:MM`, each field zero-padded.
pub open spec fn local_time_text(t: LocalTime) -> Seq<char> {
    zero_padded(t.year as nat, 4) + seq!['-'] + zero_padded(t.month as nat, 2) + seq!['-']
        + zero_padded(t.day as nat, 2) + seq![' '] + zero_padded(t.hour as nat, 2) + seq![':']
        + zero_padded(t.minute as nat, 2)
}

/// `format_system_time`: the MTIME column for a time that could be placed in the
/// local calendar, and `-` for one that could not (before the Unix epoch, or
/// rejected by the time zone conversion).
pub fn format_system_time(time: Option<LocalTime>) -> (s: String)
    ensures
        s@ == match time {
            Some(t) => local_time_text(t),
            None => seq!['-'],
        },
{
    let t = match time {
        Some(t) => t,
        None => {
            let dash = vec!['-'];
            return string_from_chars(&dash);
        },
    };
    let mut out = zero_padded_chars(t.year, 4);
    out.push('-');
    extend_chars(&mut out, &zero_padded_chars(t.month, 2));
    out.push('-');
    extend_chars(&mut out, &zero_padded_chars(t.day, 2));
    out.push(' ');
    extend_chars(&mut out, &zero_padded_chars(t.hour, 2));
    out.push(':');
    extend_chars(&mut out, &zero_padded_chars(t.minute, 2));
    string_from_chars(&out)
}

/// The OWNER or GROUP column: the account name when it is known, else the numeric id.
pub fn name_or_id(name: Option<String>, id: u32) -> (s: String)
    ensures
        s@ == match name {
            Some(n) => n@,
            None => decimal(id as nat),
        },
{
    match name {
        Some(n) => n,
        None => string_from_chars(&decimal_chars(id as u64)),
    }
}

} // verus!
