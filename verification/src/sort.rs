//! Ordering of the listed entries.
use vstd::prelude::*;

use crate::cli::SortKey;
use crate::entry::EntryInfo;
use crate::text::{chars_of, spec_to_lowercase, to_lowercase, views};

verus! {

/// The outcome of comparing two entries for the listing order.
#[derive(Debug, Clone, Copy, PartialEq, Eq, Structural)]
pub enum Precedence {
    Before,
    Same,
    After,
}

/// Lexicographic order of character sequences by code point, which is the order of
/// `String`s: UTF-8 encodes code points in an order-preserving way.
pub open spec fn lex_precedence(a: Seq<char>, b: Seq<char>) -> Precedence
    decreases a.len(),
{
    if a.len() == 0 {
        if b.len() == 0 {
            Precedence::Same
        } else {
            Precedence::Before
        }
    } else if b.len() == 0 {
        Precedence::After
    } else if a[0] < b[0] {
        Precedence::Before
    } else if a[0] > b[0] {
        Precedence::After
    } else {
        lex_precedence(a.drop_first(), b.drop_first())
    }
}

/// The key by which names are compared: the lower-case form of the name.
pub open spec fn name_key(e: EntryInfo) -> Seq<char> {
    spec_to_lowercase(e.name@)
}

/// How `a`, whose name key is `ka`, compares with `b`, whose name key is `kb`, under
/// `sort_key`: by name key; sizes largest first and times newest first, ties
/// broken by name key.
pub open spec fn keyed_precedence(
    sort_key: SortKey,
    a: EntryInfo,
    ka: Seq<char>,
    b: EntryInfo,
    kb: Seq<char>,
) -> Precedence {
    let by_name = lex_precedence(ka, kb);
    match sort_key {
        SortKey::Name => by_name,
        SortKey::Size => if a.size > b.size {
            Precedence::Before
        } else if a.size < b.size {
            Precedence::After
        } else {
            by_name
        },
        SortKey::Mtime => if a.mtime > b.mtime {
            Precedence::Before
        } else if a.mtime < b.mtime {
            Precedence::After
        } else {
            by_name
        },
    }
}

/// How `a` compares with `b` under `sort_key`: names case-insensitively; sizes
/// largest first and times newest first, ties broken by name.
pub open spec fn entry_precedence(sort_key: SortKey, a: EntryInfo, b: EntryInfo) -> Precedence {
    keyed_precedence(sort_key, a, name_key(a), b, name_key(b))
}

/// The entry at index `i` goes before the one at index `j` when the entries are
/// `es` and their name keys `ks`: it compares before it, or compares the same and
/// stands earlier.
pub open spec fn index_before(
    sort_key: SortKey,
    es: Seq<EntryInfo>,
    ks: Seq<Seq<char>>,
    i: int,
    j: int,
) -> bool {
    let p = keyed_precedence(sort_key, es[i], ks[i], es[j], ks[j]);
    p == Precedence::Before || (p == Precedence::Same && i < j)
}

/// `first`, which stood at index `i` before sorting, may stand before `second`, which
/// stood at index `j`: it compares before it, or compares the same and stood earlier.
pub open spec fn in_order(sort_key: SortKey, first: EntryInfo, i: int, second: EntryInfo, j: int) -> bool {
    ||| entry_precedence(sort_key, first, second) == Precedence::Before
    ||| (entry_precedence(sort_key, first, second) == Precedence::Same && i < j)
}

/// `p` is a permutation of `0..n`.
pub open spec fn is_permutation(p: Seq<int>, n: nat) -> bool {
    &&& p.len() == n
    &&& forall|k: int| 0 <= k < n ==> 0 <= #[trigger] p[k] < n
    &&& forall|k: int, l: int| 0 <= k < l < n ==> #[trigger] p[k] != #[trigger] p[l]
}

/// `sorted` holds the entries of `unsorted`, the entry at index `k` being
/// `unsorted[p[k]]`, in the listing order, entries that compare the same keeping
/// the relative order in which they were given.
pub open spec fn stable_sort_with(
    sort_key: SortKey,
    unsorted: Seq<EntryInfo>,
    sorted: Seq<EntryInfo>,
    p: Seq<int>,
) -> bool {
    &&& is_permutation(p, unsorted.len())
    &&& sorted.len() == unsorted.len()
    &&& forall|k: int| 0 <= k < sorted.len() ==> #[trigger] sorted[k] == unsorted[p[k]]
    &&& forall|k: int, l: int|
        0 <= k < l < sorted.len() ==> in_order(sort_key, #[trigger] sorted[k], p[k], #[trigger] sorted[l], p[l])
}

/// `sorted` is the stable sort of `unsorted` under `sort_key`.
pub open spec fn is_stable_sort(sort_key: SortKey, unsorted: Seq<EntryInfo>, sorted: Seq<EntryInfo>) -> bool {
    exists|p: Seq<int>| stable_sort_with(sort_key, unsorted, sorted, p)
}

// ---------------------------------------------------------------------------
// Order lemmas
// ---------------------------------------------------------------------------

proof fn lemma_lex_antisymmetric(a: Seq<char>, b: Seq<char>)
    ensures
        (lex_precedence(a, b) == Precedence::Before) <==> (lex_precedence(b, a) == Precedence::After),
        (lex_precedence(a, b) == Precedence::Same) <==> (a == b),
    decreases a.len(),
{
    if a.len() > 0 && b.len() > 0 && a[0] == b[0] {
        lemma_lex_antisymmetric(a.drop_first(), b.drop_first());
        if a.drop_first() == b.drop_first() {
            assert(a == b) by {
                assert forall|k: int| 0 <= k < a.len() implies a[k] == b[k] by {
                    if k > 0 {
                        assert(a[k] == a.drop_first()[k - 1]);
                        assert(b[k] == b.drop_first()[k - 1]);
                    }
                }
            }
        }
        if a == b {
            assert(a.drop_first() == b.drop_first());
        }
    } else if a.len() == 0 && b.len() == 0 {
        assert(a == b);
    }
}

proof fn lemma_lex_transitive(a: Seq<char>, b: Seq<char>, c: Seq<char>)
    requires
        lex_precedence(a, b) != Precedence::After,
        lex_precedence(b, c) != Precedence::After,
    ensures
        lex_precedence(a, c) != Precedence::After,
        (lex_precedence(a, b) == Precedence::Before || lex_precedence(b, c) == Precedence::Before)
            ==> lex_precedence(a, c) == Precedence::Before,
    decreases a.len(),
{
    if a.len() > 0 && b.len() > 0 && c.len() > 0 && a[0] == b[0] && b[0] == c[0] {
        lemma_lex_transitive(a.drop_first(), b.drop_first(), c.drop_first());
    }
}

proof fn lemma_keyed_antisymmetric(
    sort_key: SortKey,
    a: EntryInfo,
    ka: Seq<char>,
    b: EntryInfo,
    kb: Seq<char>,
)
    ensures
        (keyed_precedence(sort_key, a, ka, b, kb) == Precedence::Before) <==> (keyed_precedence(
            sort_key,
            b,
            kb,
            a,
            ka,
        ) == Precedence::After),
        (keyed_precedence(sort_key, a, ka, b, kb) == Precedence::Same) <==> (keyed_precedence(
            sort_key,
            b,
            kb,
            a,
            ka,
        ) == Precedence::Same),
{
    lemma_lex_antisymmetric(ka, kb);
    lemma_lex_antisymmetric(kb, ka);
}

proof fn lemma_keyed_transitive(
    sort_key: SortKey,
    a: EntryInfo,
    ka: Seq<char>,
    b: EntryInfo,
    kb: Seq<char>,
    c: EntryInfo,
    kc: Seq<char>,
)
    requires
        keyed_precedence(sort_key, a, ka, b, kb) != Precedence::After,
        keyed_precedence(sort_key, b, kb, c, kc) != Precedence::After,
    ensures
        keyed_precedence(sort_key, a, ka, c, kc) != Precedence::After,
        (keyed_precedence(sort_key, a, ka, b, kb) == Precedence::Before || keyed_precedence(
            sort_key,
            b,
            kb,
            c,
            kc,
        ) == Precedence::Before) ==> keyed_precedence(sort_key, a, ka, c, kc) == Precedence::Before,
{
    lemma_lex_antisymmetric(ka, kb);
    lemma_lex_antisymmetric(kb, kc);
    match sort_key {
        SortKey::Name => lemma_lex_transitive(ka, kb, kc),
        SortKey::Size => {
            if a.size == b.size && b.size == c.size {
                lemma_lex_transitive(ka, kb, kc);
            }
        },
        SortKey::Mtime => {
            if a.mtime == b.mtime && b.mtime == c.mtime {
                lemma_lex_transitive(ka, kb, kc);
            }
        },
    }
}

proof fn lemma_entry_antisymmetric(sort_key: SortKey, a: EntryInfo, b: EntryInfo)
    ensures
        (entry_precedence(sort_key, a, b) == Precedence::Before) <==> (entry_precedence(sort_key, b, a)
            == Precedence::After),
{
    lemma_keyed_antisymmetric(sort_key, a, name_key(a), b, name_key(b));
}

proof fn lemma_entry_same_symmetric(sort_key: SortKey, a: EntryInfo, b: EntryInfo)
    ensures
        (entry_precedence(sort_key, a, b) == Precedence::Same) <==> (entry_precedence(sort_key, b, a)
            == Precedence::Same),
{
    lemma_lex_antisymmetric(name_key(a), name_key(b));
    lemma_lex_antisymmetric(name_key(b), name_key(a));
}

/// Two entries cannot each be in order before the other.
proof fn lemma_in_order_asymmetric(sort_key: SortKey, x: EntryInfo, i: int, y: EntryInfo, j: int)
    requires
        in_order(sort_key, x, i, y, j),
    ensures
        !in_order(sort_key, y, j, x, i),
{
    lemma_entry_antisymmetric(sort_key, x, y);
    lemma_entry_antisymmetric(sort_key, y, x);
    lemma_entry_same_symmetric(sort_key, x, y);
}

/// A strictly increasing permutation is the identity.
proof fn lemma_increasing_permutation(p: Seq<int>, n: nat)
    requires
        is_permutation(p, n),
        forall|k: int, l: int| 0 <= k < l < n ==> p[k] < p[l],
    ensures
        forall|k: int| 0 <= k < n ==> #[trigger] p[k] == k,
{
    assert forall|k: int| 0 <= k < n implies #[trigger] p[k] >= k by {
        lemma_increasing_lower(p, n, k);
    }
    assert forall|k: int| 0 <= k < n implies #[trigger] p[k] <= k by {
        lemma_increasing_upper_bound(p, n, k);
    }
}

proof fn lemma_increasing_lower(p: Seq<int>, n: nat, k: int)
    requires
        is_permutation(p, n),
        forall|a: int, b: int| 0 <= a < b < n ==> p[a] < p[b],
        0 <= k < n,
    ensures
        p[k] >= k,
    decreases k,
{
    if k > 0 {
        lemma_increasing_lower(p, n, k - 1);
        assert(p[k - 1] < p[k]);
    }
}

proof fn lemma_increasing_upper_bound(p: Seq<int>, n: nat, k: int)
    requires
        is_permutation(p, n),
        forall|a: int, b: int| 0 <= a < b < n ==> p[a] < p[b],
        0 <= k < n,
    ensures
        p[k] <= k,
    decreases n - k,
{
    if k < n - 1 {
        lemma_increasing_upper_bound(p, n, k + 1);
        assert(p[k] < p[k + 1]);
    } else {
        assert(p[k] < n);
    }
}

/// Name keys compare in dictionary order: a key goes before another when it is a proper
/// prefix of it, or when at the first position where they differ its character is the
/// smaller one; keys compare the same only when they are equal.
pub proof fn law_name_keys_in_dictionary_order(a: Seq<char>, b: Seq<char>)
    ensures
        (lex_precedence(a, b) == Precedence::Before) <==> ((a.len() < b.len() && b.take(
            a.len() as int,
        ) == a) || exists|i: int|
            0 <= i < a.len() && i < b.len() && a.take(i) == b.take(i) && #[trigger] a[i] < #[trigger] b[i]),
        (lex_precedence(a, b) == Precedence::Same) <==> (a == b),
    decreases a.len(),
{
    lemma_lex_antisymmetric(a, b);
    if a.len() > 0 && b.len() > 0 {
        let a1 = a.drop_first();
        let b1 = b.drop_first();
        law_name_keys_in_dictionary_order(a1, b1);
        if a[0] == b[0] {
            // the pieces after the common first character decide
            if a1.len() < b1.len() && b1.take(a1.len() as int) == a1 {
                assert forall|m: int| 0 <= m < a.len() implies b.take(a.len() as int)[m] == a[m] by {
                    if m > 0 {
                        assert(b1.take(a1.len() as int)[m - 1] == a1[m - 1]);
                    }
                }
                assert(b.take(a.len() as int) =~= a);
            }
            if a.len() < b.len() && b.take(a.len() as int) == a {
                assert(b1.take(a1.len() as int) =~= a1);
            }
            if exists|i: int|
                0 <= i < a1.len() && i < b1.len() && a1.take(i) == b1.take(i) && #[trigger] a1[i]
                    < #[trigger] b1[i] {
                let i = choose|i: int|
                    0 <= i < a1.len() && i < b1.len() && a1.take(i) == b1.take(i) && #[trigger] a1[i]
                        < #[trigger] b1[i];
                assert(a.take(i + 1) =~= b.take(i + 1)) by {
                    assert forall|m: int| 0 <= m < i + 1 implies a[m] == b[m] by {
                        if m > 0 {
                            assert(a1.take(i)[m - 1] == b1.take(i)[m - 1]);
                        }
                    }
                }
                assert(a[i + 1] == a1[i] && b[i + 1] == b1[i]);
            }
            if exists|i: int|
                0 <= i < a.len() && i < b.len() && a.take(i) == b.take(i) && #[trigger] a[i] < #[trigger] b[i] {
                let i = choose|i: int|
                    0 <= i < a.len() && i < b.len() && a.take(i) == b.take(i) && #[trigger] a[i] < #[trigger] b[i];
                assert(i > 0);
                assert(a1.take(i - 1) =~= b1.take(i - 1)) by {
                    assert forall|m: int| 0 <= m < i - 1 implies a1[m] == b1[m] by {
                        assert(a.take(i)[m + 1] == b.take(i)[m + 1]);
                    }
                }
                assert(a1[i - 1] == a[i] && b1[i - 1] == b[i]);
            }
        } else {
            if a[0] < b[0] {
                assert(a.take(0) =~= b.take(0));
            } else {
                if a.len() < b.len() && b.take(a.len() as int) == a {
                    assert(b.take(a.len() as int)[0] == b[0]);
                }
                if exists|i: int|
                    0 <= i < a.len() && i < b.len() && a.take(i) == b.take(i) && #[trigger] a[i] < #[trigger] b[i] {
                    let i = choose|i: int|
                        0 <= i < a.len() && i < b.len() && a.take(i) == b.take(i) && #[trigger] a[i] < #[trigger] b[i];
                    if i > 0 {
                        assert(a.take(i)[0] == b.take(i)[0]);
                    }
                }
            }
        }
    } else if a.len() == 0 && b.len() > 0 {
        assert(b.take(0) =~= a);
    }
}

/// Under `--sort size` an entry of a strictly larger size always goes first, and
/// under `--sort mtime` one modified strictly later; under either key, entries that
/// tie go by name, and under `--sort name` the order is that of the name keys alone.
pub proof fn law_precedence_of_sizes_times_and_names(a: EntryInfo, b: EntryInfo)
    ensures
        a.size > b.size ==> entry_precedence(SortKey::Size, a, b) == Precedence::Before,
        a.size < b.size ==> entry_precedence(SortKey::Size, a, b) == Precedence::After,
        a.mtime > b.mtime ==> entry_precedence(SortKey::Mtime, a, b) == Precedence::Before,
        a.mtime < b.mtime ==> entry_precedence(SortKey::Mtime, a, b) == Precedence::After,
        a.size == b.size ==> entry_precedence(SortKey::Size, a, b) == entry_precedence(
            SortKey::Name,
            a,
            b,
        ),
        a.mtime == b.mtime ==> entry_precedence(SortKey::Mtime, a, b) == entry_precedence(
            SortKey::Name,
            a,
            b,
        ),
        entry_precedence(SortKey::Name, a, b) == lex_precedence(
            spec_to_lowercase(a.name@),
            spec_to_lowercase(b.name@),
        ),
{
}

/// A listing sorted by size goes from the largest entry to the smallest, one sorted
/// by time from the newest to the oldest, and in either, entries of one size or one
/// time stand in name order.
pub proof fn law_sorted_listings_go_largest_and_newest_first(
    sort_key: SortKey,
    unsorted: Seq<EntryInfo>,
    sorted: Seq<EntryInfo>,
)
    requires
        is_stable_sort(sort_key, unsorted, sorted),
    ensures
        sort_key == SortKey::Size ==> forall|k: int, l: int|
            0 <= k < l < sorted.len() ==> #[trigger] sorted[k].size >= #[trigger] sorted[l].size,
        sort_key == SortKey::Mtime ==> forall|k: int, l: int|
            0 <= k < l < sorted.len() ==> #[trigger] sorted[k].mtime >= #[trigger] sorted[l].mtime,
        forall|k: int, l: int|
            0 <= k < l < sorted.len() && (sort_key == SortKey::Name || (sort_key == SortKey::Size
                && sorted[k].size == sorted[l].size) || (sort_key == SortKey::Mtime
                && sorted[k].mtime == sorted[l].mtime)) ==> lex_precedence(
                spec_to_lowercase(#[trigger] sorted[k].name@),
                spec_to_lowercase(#[trigger] sorted[l].name@),
            ) != Precedence::After,
{
    let p = choose|p: Seq<int>| stable_sort_with(sort_key, unsorted, sorted, p);
    assert forall|k: int, l: int| 0 <= k < l < sorted.len() implies in_order(
        sort_key,
        #[trigger] sorted[k],
        p[k],
        #[trigger] sorted[l],
        p[l],
    ) by {}
}

/// A listing that is already in order is left as it is by the stable sort: each
/// entry stays where it stood.
pub proof fn law_ordered_listing_unchanged(
    sort_key: SortKey,
    unsorted: Seq<EntryInfo>,
    sorted: Seq<EntryInfo>,
    p: Seq<int>,
)
    requires
        stable_sort_with(sort_key, unsorted, sorted, p),
        forall|k: int, l: int|
            0 <= k < l < unsorted.len() ==> in_order(sort_key, #[trigger] unsorted[k], k, #[trigger] unsorted[l], l),
    ensures
        sorted == unsorted,
{
    let n = unsorted.len();
    assert forall|k: int, l: int| 0 <= k < l < n implies p[k] < p[l] by {
        assert(in_order(sort_key, sorted[k], p[k], sorted[l], p[l]));
        assert(p[k] != p[l]);
        if p[l] < p[k] {
            assert(in_order(sort_key, unsorted[p[l]], p[l], unsorted[p[k]], p[k]));
            lemma_in_order_asymmetric(sort_key, unsorted[p[l]], p[l], unsorted[p[k]], p[k]);
        }
    }
    lemma_increasing_permutation(p, n);
    assert forall|k: int| 0 <= k < n implies sorted[k] == unsorted[k] by {
        assert(p[k] == k);
    }
    assert(sorted == unsorted);
}

/// Sorting a sorted listing again, by the same key, changes nothing.
pub proof fn law_sort_idempotent(
    sort_key: SortKey,
    unsorted: Seq<EntryInfo>,
    once: Seq<EntryInfo>,
    twice: Seq<EntryInfo>,
)
    requires
        is_stable_sort(sort_key, unsorted, once),
        is_stable_sort(sort_key, once, twice),
    ensures
        twice == once,
{
    let p = choose|p: Seq<int>| stable_sort_with(sort_key, unsorted, once, p);
    let q = choose|q: Seq<int>| stable_sort_with(sort_key, once, twice, q);
    assert forall|k: int, l: int| 0 <= k < l < once.len() implies in_order(
        sort_key,
        #[trigger] once[k],
        k,
        #[trigger] once[l],
        l,
    ) by {
        assert(in_order(sort_key, once[k], p[k], once[l], p[l]));
    }
    law_ordered_listing_unchanged(sort_key, once, twice, q);
}

// ---------------------------------------------------------------------------
// Merge sort of positions
// ---------------------------------------------------------------------------

/// `index_before` is a strict total order on the positions `0..n`.
proof fn lemma_before_order(sort_key: SortKey, es: Seq<EntryInfo>, ks: Seq<Seq<char>>)
    ensures
        forall|i: int| !#[trigger] index_before(sort_key, es, ks, i, i),
        forall|i: int, j: int|
            index_before(sort_key, es, ks, i, j) ==> !#[trigger] index_before(sort_key, es, ks, j, i),
        forall|i: int, j: int|
            i != j ==> #[trigger] index_before(sort_key, es, ks, i, j) || #[trigger] index_before(
                sort_key,
                es,
                ks,
                j,
                i,
            ),
        forall|i: int, j: int, k: int|
            !#[trigger] index_before(sort_key, es, ks, j, i) && !#[trigger] index_before(
                sort_key,
                es,
                ks,
                k,
                j,
            ) ==> !index_before(sort_key, es, ks, k, i),
{
    assert forall|i: int, j: int|
        index_before(sort_key, es, ks, i, j) implies !#[trigger] index_before(sort_key, es, ks, j, i) by {
        lemma_keyed_antisymmetric(sort_key, es[i], ks[i], es[j], ks[j]);
    }
    assert forall|i: int, j: int|
        i != j implies #[trigger] index_before(sort_key, es, ks, i, j) || #[trigger] index_before(
        sort_key,
        es,
        ks,
        j,
        i,
    ) by {
        lemma_keyed_antisymmetric(sort_key, es[i], ks[i], es[j], ks[j]);
    }
    assert forall|i: int, j: int, k: int|
        !#[trigger] index_before(sort_key, es, ks, j, i) && !#[trigger] index_before(
            sort_key,
            es,
            ks,
            k,
            j,
        ) implies !index_before(sort_key, es, ks, k, i) by {
        lemma_keyed_antisymmetric(sort_key, es[i], ks[i], es[j], ks[j]);
        lemma_keyed_antisymmetric(sort_key, es[j], ks[j], es[k], ks[k]);
        lemma_keyed_antisymmetric(sort_key, es[i], ks[i], es[k], ks[k]);
        if index_before(sort_key, es, ks, k, i) && i != j && j != k {
            // i before j and j before k, so i before k
            lemma_keyed_transitive(sort_key, es[i], ks[i], es[j], ks[j], es[k], ks[k]);
        }
    }
}

/// No position of `r` is strictly before an earlier one.
pub open spec fn positions_ordered(
    sort_key: SortKey,
    es: Seq<EntryInfo>,
    ks: Seq<Seq<char>>,
    r: Seq<usize>,
) -> bool {
    forall|k: int, l: int|
        0 <= k < l < r.len() ==> !index_before(sort_key, es, ks, #[trigger] r[l] as int, #[trigger] r[k] as int)
}

/// Every position of `r` is below `n`.
pub open spec fn positions_below(r: Seq<usize>, n: int) -> bool {
    forall|k: int| 0 <= k < r.len() ==> #[trigger] r[k] < n
}

/// Merges two ordered position lists.
fn merge_positions(
    sort_key: SortKey,
    es: &[EntryInfo],
    ks: &[Vec<char>],
    a: Vec<usize>,
    b: Vec<usize>,
) -> (r: Vec<usize>)
    requires
        es@.len() == ks@.len(),
        positions_below(a@, es@.len() as int),
        positions_below(b@, es@.len() as int),
        positions_ordered(sort_key, es@, views(ks@), a@),
        positions_ordered(sort_key, es@, views(ks@), b@),
    ensures
        r@.to_multiset() == a@.to_multiset().add(b@.to_multiset()),
        positions_below(r@, es@.len() as int),
        positions_ordered(sort_key, es@, views(ks@), r@),
{
    broadcast use vstd::seq_lib::group_to_multiset_ensures, vstd::multiset::group_multiset_axioms;

    let ghost kv = views(ks@);
    proof {
        lemma_before_order(sort_key, es@, kv);
    }
    let mut r: Vec<usize> = Vec::new();
    let mut i: usize = 0;
    let mut j: usize = 0;
    assert(a@.take(0) == Seq::<usize>::empty());
    assert(b@.take(0) == Seq::<usize>::empty());
    while i < a.len() || j < b.len()
        invariant
            es@.len() == ks@.len(),
            kv == views(ks@),
            i <= a@.len(),
            j <= b@.len(),
            positions_below(a@, es@.len() as int),
            positions_below(b@, es@.len() as int),
            positions_ordered(sort_key, es@, kv, a@),
            positions_ordered(sort_key, es@, kv, b@),
            positions_below(r@, es@.len() as int),
            positions_ordered(sort_key, es@, kv, r@),
            r@.to_multiset() == a@.take(i as int).to_multiset().add(b@.take(j as int).to_multiset()),
            forall|k: int, l: int|
                0 <= k < r@.len() && i <= l < a@.len() ==> !index_before(
                    sort_key,
                    es@,
                    kv,
                    #[trigger] a@[l] as int,
                    #[trigger] r@[k] as int,
                ),
            forall|k: int, l: int|
                0 <= k < r@.len() && j <= l < b@.len() ==> !index_before(
                    sort_key,
                    es@,
                    kv,
                    #[trigger] b@[l] as int,
                    #[trigger] r@[k] as int,
                ),
            forall|i: int| !#[trigger] index_before(sort_key, es@, kv, i, i),
            forall|i: int, j: int|
                index_before(sort_key, es@, kv, i, j) ==> !#[trigger] index_before(sort_key, es@, kv, j, i),
            forall|i: int, j: int|
                i != j ==> #[trigger] index_before(sort_key, es@, kv, i, j) || #[trigger] index_before(
                    sort_key,
                    es@,
                    kv,
                    j,
                    i,
                ),
            forall|i: int, j: int, k: int|
                !#[trigger] index_before(sort_key, es@, kv, j, i) && !#[trigger] index_before(
                    sort_key,
                    es@,
                    kv,
                    k,
                    j,
                ) ==> !index_before(sort_key, es@, kv, k, i),
        decreases a@.len() + b@.len() - i - j,
    {
        let take_a = if j == b.len() {
            true
        } else if i == a.len() {
            false
        } else {
            let (x, y) = (a[i], b[j]);
            !compare_positions(sort_key, es, ks, y, x)
        };
        let ghost before = r@;
        if take_a {
            let x = a[i];
            r.push(x);
            assert(a@.take(i + 1) == a@.take(i as int).push(x));
            assert(r@ == before.push(x));
            proof {
                vstd::seq_lib::to_multiset_build(before, x);
                vstd::seq_lib::to_multiset_build(a@.take(i as int), x);
            }
            assert(r@.to_multiset() == before.to_multiset().insert(x));
            assert(a@.take(i + 1).to_multiset() == a@.take(i as int).to_multiset().insert(x));
            assert(r@.to_multiset() =~= a@.take(i + 1).to_multiset().add(b@.take(j as int).to_multiset()));
            proof {
                assert forall|k: int, l: int| 0 <= k < l < r@.len() implies !index_before(
                    sort_key,
                    es@,
                    kv,
                    #[trigger] r@[l] as int,
                    #[trigger] r@[k] as int,
                ) by {
                    if l == r@.len() - 1 {
                        assert(r@[l] == a@[i as int]);
                        assert(r@[k] == before[k]);
                    } else {
                        assert(r@[l] == before[l] && r@[k] == before[k]);
                    }
                }
                assert forall|k: int, l: int|
                    0 <= k < r@.len() && i + 1 <= l < a@.len() implies !index_before(
                    sort_key,
                    es@,
                    kv,
                    #[trigger] a@[l] as int,
                    #[trigger] r@[k] as int,
                ) by {
                    if k < before.len() {
                        assert(r@[k] == before[k]);
                    } else {
                        assert(r@[k] == a@[i as int]);
                    }
                }
                assert forall|k: int, l: int|
                    0 <= k < r@.len() && j <= l < b@.len() implies !index_before(
                    sort_key,
                    es@,
                    kv,
                    #[trigger] b@[l] as int,
                    #[trigger] r@[k] as int,
                ) by {
                    if k < before.len() {
                        assert(r@[k] == before[k]);
                    } else {
                        assert(r@[k] == a@[i as int]);
                        if l > j {
                            assert(!index_before(sort_key, es@, kv, b@[l] as int, b@[j as int] as int));
                        }
                    }
                }
            }
            i += 1;
        } else {
            let y = b[j];
            r.push(y);
            assert(b@.take(j + 1) == b@.take(j as int).push(y));
            assert(r@ == before.push(y));
            proof {
                vstd::seq_lib::to_multiset_build(before, y);
                vstd::seq_lib::to_multiset_build(b@.take(j as int), y);
            }
            assert(r@.to_multiset() == before.to_multiset().insert(y));
            assert(b@.take(j + 1).to_multiset() == b@.take(j as int).to_multiset().insert(y));
            assert(r@.to_multiset() =~= a@.take(i as int).to_multiset().add(b@.take(j + 1).to_multiset()));
            proof {
                assert forall|k: int, l: int| 0 <= k < l < r@.len() implies !index_before(
                    sort_key,
                    es@,
                    kv,
                    #[trigger] r@[l] as int,
                    #[trigger] r@[k] as int,
                ) by {
                    if l == r@.len() - 1 {
                        assert(r@[l] == b@[j as int]);
                        assert(r@[k] == before[k]);
                    } else {
                        assert(r@[l] == before[l] && r@[k] == before[k]);
                    }
                }
                assert forall|k: int, l: int|
                    0 <= k < r@.len() && j + 1 <= l < b@.len() implies !index_before(
                    sort_key,
                    es@,
                    kv,
                    #[trigger] b@[l] as int,
                    #[trigger] r@[k] as int,
                ) by {
                    if k < before.len() {
                        assert(r@[k] == before[k]);
                    } else {
                        assert(r@[k] == b@[j as int]);
                    }
                }
                assert forall|k: int, l: int|
                    0 <= k < r@.len() && i <= l < a@.len() implies !index_before(
                    sort_key,
                    es@,
                    kv,
                    #[trigger] a@[l] as int,
                    #[trigger] r@[k] as int,
                ) by {
                    if k < before.len() {
                        assert(r@[k] == before[k]);
                    } else {
                        assert(r@[k] == b@[j as int]);
                        assert(index_before(sort_key, es@, kv, b@[j as int] as int, a@[i as int] as int));
                        if l > i {
                            assert(!index_before(sort_key, es@, kv, a@[l] as int, a@[i as int] as int));
                        }
                    }
                }
            }
            j += 1;
        }
    }
    assert(a@.take(a@.len() as int) == a@);
    assert(b@.take(b@.len() as int) == b@);
    r
}

/// Sorts positions into listing order.
fn merge_sort_positions(
    sort_key: SortKey,
    es: &[EntryInfo],
    ks: &[Vec<char>],
    v: Vec<usize>,
) -> (r: Vec<usize>)
    requires
        es@.len() == ks@.len(),
        positions_below(v@, es@.len() as int),
    ensures
        r@.to_multiset() == v@.to_multiset(),
        positions_below(r@, es@.len() as int),
        positions_ordered(sort_key, es@, views(ks@), r@),
    decreases v@.len(),
{
    broadcast use vstd::seq_lib::group_to_multiset_ensures;

    if v.len() <= 1 {
        return v;
    }
    let mid = v.len() / 2;
    let ghost whole = v@;
    let mut left = v;
    let right = left.split_off(mid);
    assert(whole == left@ + right@);
    let a = merge_sort_positions(sort_key, es, ks, left);
    let b = merge_sort_positions(sort_key, es, ks, right);
    let r = merge_positions(sort_key, es, ks, a, b);
    proof {
        vstd::seq_lib::lemma_multiset_commutative(left@, right@);
    }
    r
}

/// Whether the entry at position `i` goes before the one at position `j`.
fn compare_positions(sort_key: SortKey, es: &[EntryInfo], ks: &[Vec<char>], i: usize, j: usize) -> (b: bool)
    requires
        es@.len() == ks@.len(),
        i < es@.len(),
        j < es@.len(),
    ensures
        b == index_before(sort_key, es@, views(ks@), i as int, j as int),
{
    let p = compare_keyed(sort_key, &es[i], &ks[i], &es[j], &ks[j]);
    p == Precedence::Before || (p == Precedence::Same && i < j)
}

/// How two entries compare, given their name keys.
fn compare_keyed(
    sort_key: SortKey,
    a: &EntryInfo,
    a_key: &[char],
    b: &EntryInfo,
    b_key: &[char],
) -> (r: Precedence)
    ensures
        r == keyed_precedence(sort_key, *a, a_key@, *b, b_key@),
{
    match sort_key {
        SortKey::Name => compare_names(a_key, b_key),
        SortKey::Size => if a.size > b.size {
            Precedence::Before
        } else if a.size < b.size {
            Precedence::After
        } else {
            compare_names(a_key, b_key)
        },
        SortKey::Mtime => if a.mtime > b.mtime {
            Precedence::Before
        } else if a.mtime < b.mtime {
            Precedence::After
        } else {
            compare_names(a_key, b_key)
        },
    }
}

/// Lexicographic comparison of two name keys (`cmp_name` on lower-cased names).
fn compare_names(a: &[char], b: &[char]) -> (r: Precedence)
    ensures
        r == lex_precedence(a@, b@),
{
    let mut i: usize = 0;
    assert(a@.skip(0) == a@ && b@.skip(0) == b@);
    loop
        invariant
            i <= a@.len(),
            i <= b@.len(),
            lex_precedence(a@, b@) == lex_precedence(a@.skip(i as int), b@.skip(i as int)),
        decreases a@.len() - i,
    {
        if i == a.len() {
            return if i == b.len() {
                Precedence::Same
            } else {
                Precedence::Before
            };
        }
        if i == b.len() {
            return Precedence::After;
        }
        let (x, y) = (a[i], b[i]);
        if x < y {
            return Precedence::Before;
        }
        if x > y {
            return Precedence::After;
        }
        assert(a@.skip(i as int).drop_first() == a@.skip(i + 1));
        assert(b@.skip(i as int).drop_first() == b@.skip(i + 1));
        i += 1;
    }
}

/// The listing order of entries whose name keys are `keys`: position `k` of the
/// result is the index of the entry to list `k`-th. Every index appears once, and
/// each entry comes before every later one (comparing the same and standing earlier
/// counts as coming before).
pub fn sort_order(entries: &[EntryInfo], keys: &[Vec<char>], sort_key: SortKey) -> (order: Vec<
    usize,
>)
    requires
        entries@.len() == keys@.len(),
    ensures
        is_permutation(order@.map_values(|x: usize| x as int), entries@.len()),
        forall|k: int, l: int|
            0 <= k < l < order@.len() ==> index_before(
                sort_key,
                entries@,
                views(keys@),
                #[trigger] order@[k] as int,
                #[trigger] order@[l] as int,
            ),
{
    broadcast use vstd::seq_lib::group_to_multiset_ensures;

    let n = entries.len();
    let mut all: Vec<usize> = Vec::new();
    let mut k: usize = 0;
    while k < n
        invariant
            k <= n == entries@.len(),
            all@.len() == k,
            forall|m: int| 0 <= m < k ==> #[trigger] all@[m] == m,
        decreases n - k,
    {
        all.push(k);
        k += 1;
    }
    let ghost start = all@;
    assert(start.no_duplicates());
    let order = merge_sort_positions(sort_key, entries, keys, all);
    proof {
        let kv = views(keys@);
        let ints = order@.map_values(|x: usize| x as int);
        assert(order@.len() == n) by {
            assert(order@.to_multiset().len() == start.to_multiset().len());
        }
        start.lemma_multiset_has_no_duplicates();
        order@.lemma_multiset_has_no_duplicates_conv();
        lemma_before_order(sort_key, entries@, kv);
        assert forall|a: int, b: int| 0 <= a < b < n implies #[trigger] ints[a] != #[trigger] ints[b] by {
            assert(order@[a] != order@[b]);
        }
        assert forall|a: int, b: int| 0 <= a < b < order@.len() implies index_before(
            sort_key,
            entries@,
            kv,
            #[trigger] order@[a] as int,
            #[trigger] order@[b] as int,
        ) by {
            assert(order@[a] != order@[b]);
            assert(!index_before(sort_key, entries@, kv, order@[b] as int, order@[a] as int));
        }
        assert forall|a: int| 0 <= a < n implies 0 <= #[trigger] ints[a] < n by {
            assert(order@[a] < n);
        }
    }
    order
}

/// Sorts the entries for display: by name case-insensitively, by size largest
/// first, or by modification time newest first; ties on size or time are broken by
/// name, and names that differ only in case keep the order in which they were given (a stable sort).
pub fn sort_entries(entries: &mut Vec<EntryInfo>, sort_key: SortKey)
    ensures
        is_stable_sort(sort_key, old(entries)@, final(entries)@),
{
    let ghost unsorted = entries@;
    let n = entries.len();
    let mut keys: Vec<Vec<char>> = Vec::new();
    let mut k: usize = 0;
    while k < n
        invariant
            k <= n == entries@.len(),
            entries@ == unsorted,
            keys@.len() == k,
            forall|m: int| 0 <= m < k ==> #[trigger] keys@[m]@ == name_key(entries@[m]),
        decreases n - k,
    {
        let lowered = to_lowercase(entries[k].name.as_str());
        keys.push(chars_of(lowered.as_str()));
        k += 1;
    }
    assert(views(keys@) == unsorted.map_values(|e: EntryInfo| name_key(e)));
    let order = sort_order(entries.as_slice(), keys.as_slice(), sort_key);
    let ghost p = order@.map_values(|x: usize| x as int);
    // Take the entries out, last first, so that slot `n - 1 - i` holds entry `i`.
    let mut slots: Vec<Option<EntryInfo>> = Vec::new();
    while entries.len() > 0
        invariant
            entries@ == unsorted.take(n - slots@.len()),
            slots@.len() <= n == unsorted.len(),
            forall|m: int| 0 <= m < slots@.len() ==> #[trigger] slots@[m] == Some(unsorted[n - 1 - m]),
        decreases entries@.len(),
    {
        let e = entries.pop().unwrap();
        slots.push(Some(e));
    }
    assert(slots@.len() == n);
    let mut k: usize = 0;
    while k < n
        invariant
            k <= n == unsorted.len() == order@.len() == slots@.len(),
            is_permutation(p, n as nat),
            p == order@.map_values(|x: usize| x as int),
            entries@.len() == k,
            forall|m: int| 0 <= m < k ==> #[trigger] entries@[m] == unsorted[p[m]],
            forall|m: int| k <= m < n ==> #[trigger] slots@[n - 1 - p[m]] == Some(unsorted[p[m]]),
        decreases n - k,
    {
        assert(p[k as int] == order@[k as int] as int);
        assert(slots@[n - 1 - p[k as int]] == Some(unsorted[p[k as int]]));
        let idx = n - 1 - order[k];
        let mut taken: Option<EntryInfo> = None;
        slots.set_and_swap(idx, &mut taken);
        proof {
            assert forall|m: int| k + 1 <= m < n implies #[trigger] slots@[n - 1 - p[m]] == Some(
                unsorted[p[m]],
            ) by {
                assert(p[m] != p[k as int]);
            }
        }
        entries.push(taken.unwrap());
        k += 1;
    }
    proof {
        let vo = views(keys@);
        assert forall|a: int, b: int| 0 <= a < b < n implies in_order(
            sort_key,
            #[trigger] entries@[a],
            p[a],
            #[trigger] entries@[b],
            p[b],
        ) by {
            assert(index_before(sort_key, unsorted, vo, order@[a] as int, order@[b] as int));
            assert(vo[p[a]] == name_key(unsorted[p[a]]));
            assert(vo[p[b]] == name_key(unsorted[p[b]]));
        }
        assert(stable_sort_with(sort_key, unsorted, entries@, p));
    }
}

} // verus!
