//! `.gitignore` / `.dockerignore` rules applied to the entries of the listed directory.
//!
//! Only the basic forms of the ignore syntax are supported: negation lines (`!`) and
//! comments are skipped, and a pattern with a slash is reduced to its first segment.
use vstd::prelude::*;

use crate::text::{
    chars_equal, chars_of, copy_range, has_char,
    seq_starts_with, split_chars, split_on, starts_with_chars, string_from_chars, strip_leading,
    strip_leading_chars, strip_trailing, strip_trailing_chars, trim, trim_chars, views,
};

verus! {

/// The rules read from the ignore files of one directory.
#[derive(Debug, Clone)]
pub struct IgnoreRules {
    patterns: Vec<IgnorePattern>,
}

/// One rule: a wildcard pattern, and whether it only applies to directories.
#[derive(Debug, Clone)]
struct IgnorePattern {
    value: Vec<char>,
    directory_only: bool,
}

impl View for IgnoreRules {
    /// Each pattern with whether it applies to directories only, in file order.
    type V = Seq<(Seq<char>, bool)>;

    closed spec fn view(&self) -> Seq<(Seq<char>, bool)> {
        self.patterns@.map_values(|p: IgnorePattern| (p.value@, p.directory_only))
    }
}

// ---------------------------------------------------------------------------
// Specification
// ---------------------------------------------------------------------------

/// Whether a wildcard pattern matches a whole name: `*` matches any run of characters,
/// the empty one included, and every other character matches itself.
pub open spec fn wildcard_matches(pattern: Seq<char>, value: Seq<char>) -> bool
    decreases pattern.len(), value.len(),
{
    if pattern.len() == 0 {
        value.len() == 0
    } else if pattern[0] == '*' {
        wildcard_matches(pattern.drop_first(), value) || (value.len() > 0 && wildcard_matches(
            pattern,
            value.drop_first(),
        ))
    } else {
        value.len() > 0 && value[0] == pattern[0] && wildcard_matches(
            pattern.drop_first(),
            value.drop_first(),
        )
    }
}

/// The pattern a rule line stands for, reduced to what can match an entry of the
/// listed directory: leading and trailing slashes dropped, a `**/` prefix dropped,
/// and a path reduced to its first segment (`None` when that segment is `*` or `**`).
pub open spec fn normalized_pattern(line: Seq<char>) -> Option<Seq<char>> {
    let p = strip_trailing(strip_leading(line, '/'), '/');
    if seq_starts_with(p, seq!['*', '*', '/']) {
        Some(p.skip(3))
    } else if p.contains('/') {
        let first = split_on(p, '/')[0];
        if first == seq!['*'] || first == seq!['*', '*'] {
            None
        } else {
            Some(first)
        }
    } else {
        Some(p)
    }
}

/// The rule that one line of an ignore file gives, if any: blank lines, comments
/// and negations give none; a trailing slash makes the rule apply to directories only.
pub open spec fn line_rule(line: Seq<char>) -> Option<(Seq<char>, bool)> {
    let t = trim(line);
    if t.len() == 0 || t[0] == '#' || t[0] == '!' {
        None
    } else {
        match normalized_pattern(t) {
            Some(v) => if v.len() == 0 {
                None
            } else {
                Some((v, t.last() == '/'))
            },
            None => None,
        }
    }
}

/// The rules of a sequence of lines, in order.
pub open spec fn rules_of_lines(lines: Seq<Seq<char>>) -> Seq<(Seq<char>, bool)>
    decreases lines.len(),
{
    if lines.len() == 0 {
        Seq::empty()
    } else {
        let init = rules_of_lines(lines.drop_last());
        match line_rule(lines.last()) {
            Some(r) => init.push(r),
            None => init,
        }
    }
}

/// The rules of one ignore file. Splitting at `\n` and trimming each piece gives the
/// same rules as `str::lines`, whose only other effect is to drop a `\r` before the
/// `\n` and a final empty line.
pub open spec fn rules_of_file(contents: Seq<char>) -> Seq<(Seq<char>, bool)> {
    rules_of_lines(split_on(contents, '\n'))
}

/// The rules of several ignore files, in order.
pub open spec fn rules_of_files(files: Seq<Seq<char>>) -> Seq<(Seq<char>, bool)>
    decreases files.len(),
{
    if files.len() == 0 {
        Seq::empty()
    } else {
        rules_of_files(files.drop_last()) + rules_of_file(files.last())
    }
}

/// A rule applies to an entry: it is not restricted to directories or the entry is
/// one, and its pattern matches the name.
pub open spec fn rule_applies(rule: (Seq<char>, bool), name: Seq<char>, is_dir: bool) -> bool {
    (!rule.1 || is_dir) && wildcard_matches(rule.0, name)
}

/// Some rule applies to the entry.
pub open spec fn rules_ignore(rules: Seq<(Seq<char>, bool)>, name: Seq<char>, is_dir: bool) -> bool {
    exists|k: int| 0 <= k < rules.len() && rule_applies(#[trigger] rules[k], name, is_dir)
}

/// Hidden names start with a dot.
pub open spec fn spec_is_hidden(name: Seq<char>) -> bool {
    name.len() > 0 && name[0] == '.'
}

// ---------------------------------------------------------------------------
// Wildcards
// ---------------------------------------------------------------------------

/// One step of matching the pattern from position `i` against the name from
/// position `j`.
proof fn lemma_wildcard_step(pattern: Seq<char>, value: Seq<char>, i: int, j: int)
    requires
        0 <= i < pattern.len(),
        0 <= j <= value.len(),
    ensures
        wildcard_matches(pattern.skip(i), value.skip(j)) == if pattern[i] == '*' {
            wildcard_matches(pattern.skip(i + 1), value.skip(j)) || (j < value.len()
                && wildcard_matches(pattern.skip(i), value.skip(j + 1)))
        } else {
            j < value.len() && value[j] == pattern[i] && wildcard_matches(
                pattern.skip(i + 1),
                value.skip(j + 1),
            )
        },
{
    assert(pattern.skip(i).drop_first() == pattern.skip(i + 1));
    assert(pattern.skip(i)[0] == pattern[i]);
    if j < value.len() {
        assert(value.skip(j).drop_first() == value.skip(j + 1));
        assert(value.skip(j)[0] == value[j]);
    }
}

/// `n + 1` copies of `false`.
fn false_row(n: usize) -> (row: Vec<bool>)
    ensures
        row@.len() == n + 1,
        forall|k: int| 0 <= k <= n ==> !#[trigger] row@[k],
{
    let mut row: Vec<bool> = Vec::new();
    let mut k: usize = 0;
    while k < n
        invariant
            k <= n,
            row@.len() == k,
            forall|m: int| 0 <= m < k ==> !#[trigger] row@[m],
        decreases n - k,
    {
        row.push(false);
        k += 1;
    }
    row.push(false);
    row
}

/// Whether an ignore pattern matches an entry name, on characters. Row `i` of the
/// table holds, for each position `j` of the name, whether the pattern from `i`
/// matches the name from `j`; the rows are computed from the end of the pattern.
fn wildcard_match_chars(pattern: &[char], value: &[char]) -> (b: bool)
    ensures
        b == wildcard_matches(pattern@, value@),
{
    let n = value.len();
    let ghost p = pattern@;
    let ghost v = value@;
    let mut next = false_row(n);
    next.set(n, true);
    assert forall|k: int| 0 <= k <= n implies next@[k] == wildcard_matches(
        p.skip(p.len() as int),
        v.skip(k),
    ) by {
        assert(p.skip(p.len() as int).len() == 0);
        assert(v.skip(k).len() == n - k);
    }
    let mut i: usize = pattern.len();
    while i > 0
        invariant
            i <= p.len() == pattern@.len(),
            p == pattern@,
            v == value@,
            n == v.len(),
            next@.len() == n + 1,
            forall|k: int| 0 <= k <= n ==> #[trigger] next@[k] == wildcard_matches(p.skip(i as int), v.skip(k)),
        decreases i,
    {
        i -= 1;
        let c = pattern[i];
        let mut cur = false_row(n);
        if c == '*' {
            let last = next[n];
            cur.set(n, last);
            proof {
                lemma_wildcard_step(p, v, i as int, n as int);
            }
            let mut k: usize = n;
            while k > 0
                invariant
                    k <= n,
                    i < p.len(),
                    p[i as int] == '*',
                    v == value@,
                    n == v.len(),
                    next@.len() == n + 1,
                    cur@.len() == n + 1,
                    forall|m: int| 0 <= m <= n ==> #[trigger] next@[m] == wildcard_matches(p.skip(i + 1), v.skip(m)),
                    forall|m: int| k <= m <= n ==> #[trigger] cur@[m] == wildcard_matches(p.skip(i as int), v.skip(m)),
                decreases k,
            {
                k -= 1;
                let here = next[k] || cur[k + 1];
                cur.set(k, here);
                proof {
                    lemma_wildcard_step(p, v, i as int, k as int);
                }
            }
        } else {
            proof {
                lemma_wildcard_step(p, v, i as int, n as int);
            }
            let mut k: usize = 0;
            while k < n
                invariant
                    k <= n,
                    i < p.len(),
                    p[i as int] == c,
                    c != '*',
                    v == value@,
                    n == v.len() == value@.len(),
                    next@.len() == n + 1,
                    cur@.len() == n + 1,
                    !cur@[n as int],
                    !wildcard_matches(p.skip(i as int), v.skip(n as int)),
                    forall|m: int| 0 <= m <= n ==> #[trigger] next@[m] == wildcard_matches(p.skip(i + 1), v.skip(m)),
                    forall|m: int| 0 <= m < k ==> #[trigger] cur@[m] == wildcard_matches(p.skip(i as int), v.skip(m)),
                decreases n - k,
            {
                let here = value[k] == c && next[k + 1];
                cur.set(k, here);
                proof {
                    lemma_wildcard_step(p, v, i as int, k as int);
                }
                k += 1;
            }
        }
        next = cur;
    }
    assert(p.skip(0) == p);
    assert(v.skip(0) == v);
    next[0]
}

// ---------------------------------------------------------------------------
// Rules
// ---------------------------------------------------------------------------

/// See `normalized_pattern`, on characters.
fn normalize_pattern_chars(line: &[char]) -> (r: Option<Vec<char>>)
    ensures
        match r {
            Some(v) => normalized_pattern(line@) == Some(v@),
            None => normalized_pattern(line@) is None,
        },
{
    let lead = strip_leading_chars(line, '/');
    let pattern = strip_trailing_chars(&lead, '/');
    let prefix = vec!['*', '*', '/'];
    assert(prefix@ == seq!['*', '*', '/']);
    if starts_with_chars(&pattern, &prefix) {
        let n = pattern.len();
        let suffix = copy_range(&pattern, 3, n);
        assert(pattern@.subrange(3, n as int) == pattern@.skip(3));
        return Some(suffix);
    }
    if has_char(&pattern, '/') {
        let segments = split_chars(&pattern, '/');
        proof {
            crate::text::lemma_split_on_nonempty(pattern@, '/');
        }
        let first = copy_range(&segments[0], 0, segments[0].len());
        assert(first@ == segments@[0]@);
        let star = vec!['*'];
        let star_star = vec!['*', '*'];
        assert(star@ == seq!['*']);
        assert(star_star@ == seq!['*', '*']);
        if chars_equal(&first, &star) || chars_equal(&first, &star_star) {
            return None;
        }
        return Some(first);
    }
    Some(pattern)
}

/// `wildcard_match`: whether an ignore pattern matches an entry name.
pub fn wildcard_match(pattern: &str, value: &str) -> (b: bool)
    ensures
        b == wildcard_matches(pattern@, value@),
{
    wildcard_match_chars(&chars_of(pattern), &chars_of(value))
}

/// `normalize_pattern`: the pattern that a rule line stands for (see
/// `normalized_pattern`).
pub fn normalize_pattern(line: &str) -> (r: Option<String>)
    ensures
        match r {
            Some(v) => normalized_pattern(line@) == Some(v@),
            None => normalized_pattern(line@) is None,
        },
{
    match normalize_pattern_chars(&chars_of(line)) {
        Some(v) => Some(string_from_chars(&v)),
        None => None,
    }
}

/// The rule of one line of an ignore file, if it gives one.
fn parse_rule_line(line: &[char]) -> (r: Option<IgnorePattern>)
    ensures
        match r {
            Some(p) => line_rule(line@) == Some((p.value@, p.directory_only)),
            None => line_rule(line@) is None,
        },
{
    let t = trim_chars(line);
    if t.len() == 0 || t[0] == '#' || t[0] == '!' {
        return None;
    }
    let directory_only = t[t.len() - 1] == '/';
    match normalize_pattern_chars(&t) {
        Some(value) => {
            if value.len() == 0 {
                None
            } else {
                Some(IgnorePattern { value, directory_only })
            }
        },
        None => None,
    }
}

impl IgnorePattern {
    /// `matches`: the rule applies to the entry `name`.
    fn matches(&self, name: &[char], is_dir: bool) -> (b: bool)
        ensures
            b == rule_applies((self.value@, self.directory_only), name@, is_dir),
    {
        if self.directory_only && !is_dir {
            return false;
        }
        wildcard_match_chars(&self.value, name)
    }
}

impl IgnoreRules {
    /// No rules.
    pub fn empty() -> (r: Self)
        ensures
            r@ == Seq::<(Seq<char>, bool)>::empty(),
    {
        let r = IgnoreRules { patterns: Vec::new() };
        assert(r@ == Seq::<(Seq<char>, bool)>::empty());
        r
    }

    /// Adds the rules of one ignore file, given its contents.
    pub fn load_file(&mut self, contents: &str)
        ensures
            final(self)@ == old(self)@ + rules_of_file(contents@),
    {
        let chars = chars_of(contents);
        let lines = split_chars(&chars, '\n');
        let ghost ls = views(lines@);
        let ghost start = self@;
        let mut i: usize = 0;
        assert(ls.take(0) == Seq::<Seq<char>>::empty());
        assert(start + rules_of_lines(ls.take(0)) == start);
        while i < lines.len()
            invariant
                i <= lines@.len(),
                ls == views(lines@),
                ls == split_on(chars@, '\n'),
                self@ == start + rules_of_lines(ls.take(i as int)),
            decreases lines@.len() - i,
        {
            let ghost before = self@;
            assert(ls.take(i + 1).drop_last() == ls.take(i as int));
            assert(ls.take(i + 1).last() == lines@[i as int]@);
            match parse_rule_line(&lines[i]) {
                Some(p) => {
                    self.patterns.push(p);
                    assert(self@ == before.push((p.value@, p.directory_only)));
                },
                None => {},
            }
            i += 1;
        }
        assert(ls.take(lines@.len() as int) == ls);
    }

    /// The rules of the given ignore files, in order (`.gitignore`, then
    /// `.dockerignore`, for those that could be read).
    pub fn load(files: &Vec<String>) -> (r: Self)
        ensures
            r@ == rules_of_files(files.deep_view()),
    {
        let mut rules = IgnoreRules::empty();
        let mut i: usize = 0;
        while i < files.len()
            invariant
                i <= files@.len(),
                rules@ == rules_of_files(files.deep_view().take(i as int)),
            decreases files@.len() - i,
        {
            assert(files.deep_view().take(i + 1).drop_last() == files.deep_view().take(i as int));
            rules.load_file(files[i].as_str());
            i += 1;
        }
        assert(files.deep_view().take(files@.len() as int) == files.deep_view());
        rules
    }

    /// Whether some rule hides the entry `name`; `is_dir` tells whether the entry
    /// is a directory.
    pub fn ignores(&self, name: &str, is_dir: bool) -> (b: bool)
        ensures
            b == rules_ignore(self@, name@, is_dir),
    {
        let chars = chars_of(name);
        let mut k: usize = 0;
        while k < self.patterns.len()
            invariant
                k <= self@.len(),
                chars@ == name@,
                forall|m: int| 0 <= m < k ==> !rule_applies(#[trigger] self@[m], name@, is_dir),
            decreases self@.len() - k,
        {
            let p = &self.patterns[k];
            assert(self@[k as int] == (p.value@, p.directory_only));
            if p.matches(&chars, is_dir) {
                return true;
            }
            k += 1;
        }
        false
    }
}

/// Hidden entries are those whose name starts with a dot.
pub fn is_hidden(name: &str) -> (b: bool)
    ensures
        b == spec_is_hidden(name@),
{
    let chars = chars_of(name);
    chars.len() > 0 && chars[0] == '.'
}


// ---------------------------------------------------------------------------
// Laws
// ---------------------------------------------------------------------------

/// Reading more ignore files never brings back an entry that was already hidden.
pub proof fn law_more_rules_ignore_more(
    rules: Seq<(Seq<char>, bool)>,
    more: Seq<(Seq<char>, bool)>,
    name: Seq<char>,
    is_dir: bool,
)
    requires
        rules_ignore(rules, name, is_dir),
    ensures
        rules_ignore(rules + more, name, is_dir),
{
    let k = choose|k: int| 0 <= k < rules.len() && rule_applies(#[trigger] rules[k], name, is_dir);
    assert((rules + more)[k] == rules[k]);
}

/// A pattern matches the name it spells, and `*` matches every name.
pub proof fn law_star_matches_every_name(pattern: Seq<char>, name: Seq<char>)
    ensures
        wildcard_matches(pattern, pattern),
        wildcard_matches(seq!['*'], name),
{
    lemma_pattern_matches_itself(pattern);
    lemma_star_matches(name);
}

proof fn lemma_pattern_matches_itself(pattern: Seq<char>)
    ensures
        wildcard_matches(pattern, pattern),
    decreases pattern.len(),
{
    if pattern.len() > 0 {
        let rest = pattern.drop_first();
        lemma_pattern_matches_itself(rest);
        if pattern[0] == '*' {
            // the star matches nothing, then the rest matches the rest; the star's
            // own character is taken by the star
            assert(wildcard_matches(pattern, rest));
        }
    }
}

proof fn lemma_star_matches(name: Seq<char>)
    ensures
        wildcard_matches(seq!['*'], name),
    decreases name.len(),
{
    let star = seq!['*'];
    let empty = Seq::<char>::empty();
    assert(star.len() == 1 && star[0] == '*');
    assert(star.drop_first() == empty);
    if name.len() > 0 {
        lemma_star_matches(name.drop_first());
        assert(wildcard_matches(star, name.drop_first()));
    } else {
        assert(wildcard_matches(empty, name));
    }
    assert(wildcard_matches(star, name));
}

/// A pattern without `*` matches exactly the name it spells.
pub proof fn law_plain_patterns_match_only_themselves(pattern: Seq<char>, name: Seq<char>)
    requires
        !pattern.contains('*'),
    ensures
        wildcard_matches(pattern, name) <==> pattern == name,
    decreases pattern.len(),
{
    if pattern.len() > 0 {
        let rest = pattern.drop_first();
        assert(!rest.contains('*')) by {
            if rest.contains('*') {
                let k = choose|k: int| 0 <= k < rest.len() && rest[k] == '*';
                assert(pattern[k + 1] == '*');
            }
        }
        assert(pattern[0] != '*');
        if name.len() > 0 {
            law_plain_patterns_match_only_themselves(rest, name.drop_first());
            if pattern[0] == name[0] && rest == name.drop_first() {
                assert(pattern =~= seq![pattern[0]] + rest);
                assert(name =~= seq![name[0]] + name.drop_first());
            }
            if pattern == name {
                assert(rest =~= name.drop_first());
            }
        }
    } else {
        if name.len() == 0 {
            assert(pattern =~= name);
        }
    }
}

/// A pattern that starts with `*` matches a name when the rest of the pattern
/// matches what is left of the name after some number of characters.
proof fn lemma_leading_star(rest: Seq<char>, name: Seq<char>)
    ensures
        wildcard_matches(seq!['*'] + rest, name) <==> exists|j: int|
            0 <= j <= name.len() && #[trigger] wildcard_matches(rest, name.skip(j)),
    decreases name.len(),
{
    let p = seq!['*'] + rest;
    assert(p[0] == '*');
    assert(p.drop_first() =~= rest);
    assert(name.skip(0) =~= name);
    if wildcard_matches(rest, name) {
        assert(wildcard_matches(rest, name.skip(0)));
    }
    if name.len() > 0 {
        let tail = name.drop_first();
        lemma_leading_star(rest, tail);
        if wildcard_matches(p, tail) {
            let j = choose|j: int| 0 <= j <= tail.len() && #[trigger] wildcard_matches(rest, tail.skip(j));
            assert(tail.skip(j) =~= name.skip(j + 1));
            assert(wildcard_matches(rest, name.skip(j + 1)));
        }
        if exists|j: int| 0 <= j <= name.len() && #[trigger] wildcard_matches(rest, name.skip(j)) {
            let j = choose|j: int| 0 <= j <= name.len() && #[trigger] wildcard_matches(rest, name.skip(j));
            if j > 0 {
                assert(tail.skip(j - 1) =~= name.skip(j));
                assert(wildcard_matches(rest, tail.skip(j - 1)));
            }
        }
    }
}

/// A pattern that starts with text without `*` matches a name when the name starts
/// with that text and the rest of the pattern matches the rest of the name.
proof fn lemma_literal_prefix(prefix: Seq<char>, rest: Seq<char>, name: Seq<char>)
    requires
        !prefix.contains('*'),
    ensures
        wildcard_matches(prefix + rest, name) <==> (prefix.len() <= name.len() && name.take(
            prefix.len() as int,
        ) == prefix && wildcard_matches(rest, name.skip(prefix.len() as int))),
    decreases prefix.len(),
{
    if prefix.len() == 0 {
        assert(prefix + rest =~= rest);
        assert(name.skip(0) =~= name);
        assert(name.take(0) =~= prefix);
    } else {
        let p = prefix + rest;
        let prefix1 = prefix.drop_first();
        assert(!prefix1.contains('*')) by {
            if prefix1.contains('*') {
                let k = choose|k: int| 0 <= k < prefix1.len() && prefix1[k] == '*';
                assert(prefix[k + 1] == '*');
            }
        }
        assert(p[0] == prefix[0]);
        assert(prefix[0] != '*');
        assert(p.drop_first() =~= prefix1 + rest);
        if name.len() > 0 {
            let tail = name.drop_first();
            lemma_literal_prefix(prefix1, rest, tail);
            if prefix.len() <= name.len() {
                assert(tail.skip(prefix1.len() as int) =~= name.skip(prefix.len() as int));
                if name.take(prefix.len() as int) == prefix {
                    assert(tail.take(prefix1.len() as int) =~= prefix1) by {
                        assert forall|i: int| 0 <= i < prefix1.len() implies tail.take(
                            prefix1.len() as int,
                        )[i] == prefix1[i] by {
                            assert(name.take(prefix.len() as int)[i + 1] == prefix[i + 1]);
                        }
                    }
                    assert(name.take(prefix.len() as int)[0] == prefix[0]);
                }
                if name[0] == prefix[0] && tail.take(prefix1.len() as int) == prefix1 {
                    assert forall|i: int| 0 <= i < prefix.len() implies name.take(
                        prefix.len() as int,
                    )[i] == prefix[i] by {
                        if i > 0 {
                            assert(tail.take(prefix1.len() as int)[i - 1] == prefix1[i - 1]);
                        }
                    }
                    assert(name.take(prefix.len() as int) =~= prefix);
                }
            }
        }
    }
}

/// A pattern with a single `*`, between text `prefix` and text `suffix`, matches
/// exactly the names that start with `prefix`, end with `suffix`, and are long
/// enough to hold both without overlap.
pub proof fn law_single_star_patterns(prefix: Seq<char>, suffix: Seq<char>, name: Seq<char>)
    requires
        !prefix.contains('*'),
        !suffix.contains('*'),
    ensures
        wildcard_matches(prefix + seq!['*'] + suffix, name) <==> (prefix.len() + suffix.len()
            <= name.len() && name.take(prefix.len() as int) == prefix && name.skip(
            name.len() - suffix.len(),
        ) == suffix),
{
    assert(prefix + seq!['*'] + suffix =~= prefix + (seq!['*'] + suffix));
    lemma_literal_prefix(prefix, seq!['*'] + suffix, name);
    let w = name.skip(prefix.len() as int);
    lemma_leading_star(suffix, w);
    if prefix.len() <= name.len() {
        if exists|j: int| 0 <= j <= w.len() && #[trigger] wildcard_matches(suffix, w.skip(j)) {
            let j = choose|j: int| 0 <= j <= w.len() && #[trigger] wildcard_matches(suffix, w.skip(j));
            law_plain_patterns_match_only_themselves(suffix, w.skip(j));
            assert(w.skip(j) =~= name.skip(prefix.len() + j));
            assert(name.skip(name.len() - suffix.len()) =~= w.skip(j));
        }
        if prefix.len() + suffix.len() <= name.len() && name.skip(name.len() - suffix.len())
            == suffix {
            let j = w.len() - suffix.len();
            assert(w.skip(j) =~= name.skip(name.len() - suffix.len()));
            law_plain_patterns_match_only_themselves(suffix, w.skip(j));
            assert(wildcard_matches(suffix, w.skip(j)));
        }
    }
}

/// Some rule of the line applies to the entry.
pub open spec fn line_matches(line: Seq<char>, name: Seq<char>, is_dir: bool) -> bool {
    match line_rule(line) {
        Some(r) => rule_applies(r, name, is_dir),
        None => false,
    }
}

/// The rules read from several ignore files hide an entry exactly when one line of
/// one file gives a rule (it is not blank, a comment or a negation, and its pattern
/// is not empty) that applies to the entry.
pub proof fn law_ignored_exactly_when_a_line_matches(
    files: Seq<Seq<char>>,
    name: Seq<char>,
    is_dir: bool,
)
    ensures
        rules_ignore(rules_of_files(files), name, is_dir) <==> exists|f: int, l: int|
            0 <= f < files.len() && 0 <= l < split_on(files[f], '\n').len() && #[trigger] line_matches(
                split_on(files[f], '\n')[l],
                name,
                is_dir,
            ),
    decreases files.len(),
{
    if files.len() > 0 {
        let init = files.drop_last();
        let last = files.len() - 1;
        law_ignored_exactly_when_a_line_matches(init, name, is_dir);
        lemma_rules_ignore_concat(rules_of_files(init), rules_of_file(files.last()), name, is_dir);
        lemma_lines_ignore(split_on(files.last(), '\n'), name, is_dir);
        if rules_ignore(rules_of_files(files), name, is_dir) {
            if rules_ignore(rules_of_files(init), name, is_dir) {
                let (f, l) = choose|f: int, l: int|
                    0 <= f < init.len() && 0 <= l < split_on(init[f], '\n').len()
                        && #[trigger] line_matches(split_on(init[f], '\n')[l], name, is_dir);
                assert(files[f] == init[f]);
                assert(line_matches(split_on(files[f], '\n')[l], name, is_dir));
            } else {
                let l = choose|l: int|
                    0 <= l < split_on(files.last(), '\n').len() && #[trigger] line_matches(
                        split_on(files.last(), '\n')[l],
                        name,
                        is_dir,
                    );
                assert(files[last] == files.last());
                assert(line_matches(split_on(files[last], '\n')[l], name, is_dir));
            }
        }
        if exists|f: int, l: int|
            0 <= f < files.len() && 0 <= l < split_on(files[f], '\n').len() && #[trigger] line_matches(
                split_on(files[f], '\n')[l],
                name,
                is_dir,
            ) {
            let (f, l) = choose|f: int, l: int|
                0 <= f < files.len() && 0 <= l < split_on(files[f], '\n').len() && #[trigger] line_matches(
                    split_on(files[f], '\n')[l],
                    name,
                    is_dir,
                );
            if f < last {
                assert(files[f] == init[f]);
                assert(line_matches(split_on(init[f], '\n')[l], name, is_dir));
            } else {
                assert(files[f] == files.last());
                assert(line_matches(split_on(files.last(), '\n')[l], name, is_dir));
            }
        }
    }
}

/// Some rule of a concatenation applies exactly when one of either part does.
proof fn lemma_rules_ignore_concat(
    a: Seq<(Seq<char>, bool)>,
    b: Seq<(Seq<char>, bool)>,
    name: Seq<char>,
    is_dir: bool,
)
    ensures
        rules_ignore(a + b, name, is_dir) == (rules_ignore(a, name, is_dir) || rules_ignore(
            b,
            name,
            is_dir,
        )),
{
    let ab = a + b;
    if rules_ignore(ab, name, is_dir) {
        let k = choose|k: int| 0 <= k < ab.len() && rule_applies(#[trigger] ab[k], name, is_dir);
        if k < a.len() {
            assert(ab[k] == a[k]);
        } else {
            assert(ab[k] == b[k - a.len()]);
        }
    }
    if rules_ignore(a, name, is_dir) {
        let k = choose|k: int| 0 <= k < a.len() && rule_applies(#[trigger] a[k], name, is_dir);
        assert(ab[k] == a[k]);
    }
    if rules_ignore(b, name, is_dir) {
        let k = choose|k: int| 0 <= k < b.len() && rule_applies(#[trigger] b[k], name, is_dir);
        assert(ab[k + a.len()] == b[k]);
    }
}

/// The rules of some lines hide an entry exactly when one of the lines gives a rule
/// that applies to it.
proof fn lemma_lines_ignore(lines: Seq<Seq<char>>, name: Seq<char>, is_dir: bool)
    ensures
        rules_ignore(rules_of_lines(lines), name, is_dir) <==> exists|l: int|
            0 <= l < lines.len() && #[trigger] line_matches(lines[l], name, is_dir),
    decreases lines.len(),
{
    if lines.len() > 0 {
        let init = lines.drop_last();
        let last = lines.len() - 1;
        lemma_lines_ignore(init, name, is_dir);
        let before = rules_of_lines(init);
        match line_rule(lines.last()) {
            Some(r) => {
                assert(rules_of_lines(lines) == before + seq![r]);
                lemma_rules_ignore_concat(before, seq![r], name, is_dir);
                if rule_applies(r, name, is_dir) {
                    assert(seq![r][0] == r);
                }
                if rules_ignore(seq![r], name, is_dir) {
                    let k = choose|k: int| 0 <= k < 1 && rule_applies(#[trigger] seq![r][k], name, is_dir);
                    assert(k == 0);
                }
            },
            None => {},
        }
        if rules_ignore(rules_of_lines(lines), name, is_dir) {
            if rules_ignore(before, name, is_dir) {
                let l = choose|l: int| 0 <= l < init.len() && #[trigger] line_matches(init[l], name, is_dir);
                assert(lines[l] == init[l]);
            } else {
                assert(lines[last] == lines.last());
                assert(line_matches(lines[last], name, is_dir));
            }
        }
        if exists|l: int| 0 <= l < lines.len() && #[trigger] line_matches(lines[l], name, is_dir) {
            let l = choose|l: int| 0 <= l < lines.len() && #[trigger] line_matches(lines[l], name, is_dir);
            if l < last {
                assert(lines[l] == init[l]);
                assert(line_matches(init[l], name, is_dir));
            } else {
                assert(lines[l] == lines.last());
            }
        }
    }
}

/// Comment lines (`#`) and negation lines (`!`) add no rule: negation is not supported.
pub proof fn law_comments_and_negations_add_no_rule(line: Seq<char>)
    requires
        trim(line).len() > 0,
        trim(line)[0] == '#' || trim(line)[0] == '!',
    ensures
        line_rule(line) is None,
{
}

} // verus!
