//! Fuzzy matching utilities using Levenshtein (edit) distance.
//!
//! Levenshtein distance is the minimum number of single-character insertions,
//! deletions, or substitutions needed to transform one string into another.
use vstd::prelude::*;

use crate::text::chars_of;

verus! {

/// Default edit distance when '~' is specified without an explicit number.
pub const DEFAULT_MAX_DISTANCE: usize = 1;

pub open spec fn min3(x: int, y: int, z: int) -> int {
    if x <= y && x <= z {
        x
    } else if y <= z {
        y
    } else {
        z
    }
}

/// The Levenshtein distance of `a` and `b`, by its recurrence on the last characters.
pub open spec fn edit_distance(a: Seq<char>, b: Seq<char>) -> int
    decreases a.len() + b.len(),
{
    if a.len() == 0 {
        b.len() as int
    } else if b.len() == 0 {
        a.len() as int
    } else {
        min3(
            edit_distance(a.drop_last(), b.drop_last()) + (if a.last() == b.last() {
                0int
            } else {
                1int
            }),
            edit_distance(a, b.drop_last()) + 1,
            edit_distance(a.drop_last(), b) + 1,
        )
    }
}

pub open spec fn max_len(a: Seq<char>, b: Seq<char>) -> int {
    if a.len() >= b.len() {
        a.len() as int
    } else {
        b.len() as int
    }
}

/// The distance is at least the difference of the lengths and at most the longer length.
pub proof fn lemma_edit_distance_bounds(a: Seq<char>, b: Seq<char>)
    ensures
        a.len() - b.len() <= edit_distance(a, b),
        b.len() - a.len() <= edit_distance(a, b),
        edit_distance(a, b) <= max_len(a, b),
    decreases a.len() + b.len(),
{
    if a.len() > 0 && b.len() > 0 {
        lemma_edit_distance_bounds(a.drop_last(), b.drop_last());
        lemma_edit_distance_bounds(a, b.drop_last());
        lemma_edit_distance_bounds(a.drop_last(), b);
    }
}

/// A string is at distance 0 from itself.
pub proof fn lemma_edit_distance_self(a: Seq<char>)
    ensures
        edit_distance(a, a) == 0,
    decreases a.len(),
{
    if a.len() > 0 {
        lemma_edit_distance_self(a.drop_last());
        lemma_edit_distance_bounds(a, a.drop_last());
        lemma_edit_distance_bounds(a.drop_last(), a);
    }
}

/// Distance 0 holds only between equal strings.
pub proof fn lemma_edit_distance_zero_equal(a: Seq<char>, b: Seq<char>)
    requires
        edit_distance(a, b) == 0,
    ensures
        a == b,
    decreases a.len() + b.len(),
{
    if a.len() > 0 && b.len() > 0 {
        lemma_edit_distance_bounds(a, b.drop_last());
        lemma_edit_distance_bounds(a.drop_last(), b);
        lemma_edit_distance_bounds(a.drop_last(), b.drop_last());
        lemma_edit_distance_zero_equal(a.drop_last(), b.drop_last());
        assert(a =~= a.drop_last().push(a.last()));
        assert(b =~= b.drop_last().push(b.last()));
    } else if a.len() == 0 {
        assert(b =~= a);
    } else {
        assert(a =~= b);
    }
}

/// The distance does not depend on the order of its arguments.
pub proof fn lemma_edit_distance_symmetric(a: Seq<char>, b: Seq<char>)
    ensures
        edit_distance(a, b) == edit_distance(b, a),
    decreases a.len() + b.len(),
{
    if a.len() > 0 && b.len() > 0 {
        lemma_edit_distance_symmetric(a.drop_last(), b.drop_last());
        lemma_edit_distance_symmetric(a, b.drop_last());
        lemma_edit_distance_symmetric(a.drop_last(), b);
    }
}

/// `b` is `a` with at most one single-character edit: equal, one character inserted,
/// one deleted, or one replaced.
pub open spec fn one_edit(a: Seq<char>, b: Seq<char>) -> bool {
    ||| a == b
    ||| exists|i: int, c: char| 0 <= i <= a.len() && b == #[trigger] a.insert(i, c)
    ||| exists|i: int| 0 <= i < a.len() && b == #[trigger] a.remove(i)
    ||| exists|i: int, c: char| 0 <= i < a.len() && b == #[trigger] a.update(i, c)
}

/// Appending the same character to both keeps them one edit apart.
proof fn lemma_one_edit_push(a: Seq<char>, b: Seq<char>, x: char)
    requires
        one_edit(a, b),
    ensures
        one_edit(a.push(x), b.push(x)),
{
    if a == b {
    } else if exists|i: int, c: char| 0 <= i <= a.len() && b == #[trigger] a.insert(i, c) {
        let (i, c) = choose|i: int, c: char| 0 <= i <= a.len() && b == #[trigger] a.insert(i, c);
        assert(b.push(x) =~= a.push(x).insert(i, c));
    } else if exists|i: int| 0 <= i < a.len() && b == #[trigger] a.remove(i) {
        let i = choose|i: int| 0 <= i < a.len() && b == #[trigger] a.remove(i);
        assert(b.push(x) =~= a.push(x).remove(i));
    } else {
        let (i, c) = choose|i: int, c: char| 0 <= i < a.len() && b == #[trigger] a.update(i, c);
        assert(b.push(x) =~= a.push(x).update(i, c));
    }
}

/// The distance counts insertions, deletions and substitutions only: two strings at
/// distance at most 1 differ by at most one such edit (so swapping two different
/// adjacent characters costs 2).
pub proof fn lemma_edit_distance_one(a: Seq<char>, b: Seq<char>)
    requires
        edit_distance(a, b) <= 1,
    ensures
        one_edit(a, b),
    decreases a.len() + b.len(),
{
    if a.len() == 0 {
        if b.len() == 0 {
            assert(a =~= b);
        } else {
            assert(b =~= a.insert(0, b[0]));
        }
    } else if b.len() == 0 {
        assert(b =~= a.remove(0));
    } else {
        let a0 = a.drop_last();
        let b0 = b.drop_last();
        lemma_edit_distance_bounds(a0, b0);
        lemma_edit_distance_bounds(a, b0);
        lemma_edit_distance_bounds(a0, b);
        assert(a =~= a0.push(a.last()));
        assert(b =~= b0.push(b.last()));
        if a.last() == b.last() && edit_distance(a0, b0) <= 1 {
            lemma_edit_distance_one(a0, b0);
            lemma_one_edit_push(a0, b0, a.last());
        } else if edit_distance(a0, b0) + (if a.last() == b.last() { 0int } else { 1int }) <= 1 {
            lemma_edit_distance_zero_equal(a0, b0);
            assert(b =~= a.update(a.len() - 1, b.last()));
        } else if edit_distance(a, b0) + 1 <= 1 {
            lemma_edit_distance_zero_equal(a, b0);
            assert(b =~= a.insert(a.len() as int, b.last()));
        } else {
            lemma_edit_distance_zero_equal(a0, b);
            assert(b =~= a.remove(a.len() - 1));
        }
    }
}

/// A common suffix adds nothing to the distance.
proof fn lemma_edit_distance_common_suffix(x: Seq<char>, y: Seq<char>, z: Seq<char>)
    ensures
        edit_distance(x + z, y + z) <= edit_distance(x, y),
    decreases z.len(),
{
    if z.len() == 0 {
        assert(x + z =~= x);
        assert(y + z =~= y);
    } else {
        let z0 = z.drop_last();
        lemma_edit_distance_common_suffix(x, y, z0);
        assert((x + z).drop_last() =~= x + z0);
        assert((y + z).drop_last() =~= y + z0);
    }
}

/// One insertion, deletion or substitution is at distance at most 1.
pub proof fn lemma_one_edit_distance(a: Seq<char>, b: Seq<char>)
    requires
        one_edit(a, b),
    ensures
        edit_distance(a, b) <= 1,
{
    if a == b {
        lemma_edit_distance_self(a);
    } else if exists|i: int, c: char| 0 <= i <= a.len() && b == #[trigger] a.insert(i, c) {
        let (i, c) = choose|i: int, c: char| 0 <= i <= a.len() && b == #[trigger] a.insert(i, c);
        let p = a.take(i);
        let z = a.skip(i);
        lemma_edit_distance_self(p);
        assert(p.push(c).drop_last() =~= p);
        lemma_edit_distance_common_suffix(p, p.push(c), z);
        assert(p + z =~= a);
        assert(p.push(c) + z =~= b);
    } else if exists|i: int| 0 <= i < a.len() && b == #[trigger] a.remove(i) {
        let i = choose|i: int| 0 <= i < a.len() && b == #[trigger] a.remove(i);
        let p = a.take(i);
        let z = a.skip(i + 1);
        lemma_edit_distance_self(p);
        assert(p.push(a[i]).drop_last() =~= p);
        lemma_edit_distance_common_suffix(p.push(a[i]), p, z);
        assert(p.push(a[i]) + z =~= a);
        assert(p + z =~= b);
    } else {
        let (i, c) = choose|i: int, c: char| 0 <= i < a.len() && b == #[trigger] a.update(i, c);
        let p = a.take(i);
        let z = a.skip(i + 1);
        lemma_edit_distance_self(p);
        assert(p.push(a[i]).drop_last() =~= p);
        assert(p.push(c).drop_last() =~= p);
        lemma_edit_distance_common_suffix(p.push(a[i]), p.push(c), z);
        assert(p.push(a[i]) + z =~= a);
        assert(p.push(c) + z =~= b);
    }
}

/// Compute the Levenshtein (edit) distance between two strings.
///
/// Uses the standard dynamic-programming approach with O(n×m) time and O(n×m)
/// space, where n and m are the lengths of the two strings.
pub fn levenshtein(a: &str, b: &str) -> (d: usize)
    requires
        a@.len() < usize::MAX,
        b@.len() < usize::MAX,
    ensures
        d == edit_distance(a@, b@),
{
    let a_chars = chars_of(a);
    let b_chars = chars_of(b);
    let n = a_chars.len();
    let m = b_chars.len();

    // dp[i][j] is the distance between the first i characters of `a` and the first j of `b`.
    let mut dp: Vec<Vec<usize>> = Vec::new();
    let mut first_row: Vec<usize> = Vec::new();
    let mut j: usize = 0;
    while j <= m
        invariant
            m == b@.len(),
            m < usize::MAX,
            0 <= j <= m + 1,
            first_row@.len() == j,
            forall|k: int| 0 <= k < j ==> first_row@[k] == k,
        decreases m + 1 - j,
    {
        first_row.push(j);
        j = j + 1;
    }
    proof {
        assert forall|k: int| 0 <= k <= m implies first_row@[k] == edit_distance(
            a@.take(0),
            #[trigger] b@.take(k),
        ) by {}
    }
    dp.push(first_row);

    let mut i: usize = 0;
    while i < n
        invariant
            a_chars@ == a@,
            b_chars@ == b@,
            n == a@.len(),
            m == b@.len(),
            n < usize::MAX,
            m < usize::MAX,
            0 <= i <= n,
            dp@.len() == i + 1,
            forall|r: int| 0 <= r <= i ==> (#[trigger] dp@[r])@.len() == m + 1,
            forall|r: int, k: int|
                0 <= r <= i && 0 <= k <= m ==> #[trigger] dp@[r]@[k] == edit_distance(
                    a@.take(r),
                    b@.take(k),
                ),
        decreases n - i,
    {
        let ca = a_chars[i];
        let prev = &dp[i];
        let mut row: Vec<usize> = Vec::new();
        row.push(i + 1);
        proof {
            assert(prev@.len() == m + 1);
            assert(a@.take(i + 1).len() == i + 1);
            assert(edit_distance(a@.take(i + 1), b@.take(0)) == i + 1);
        }
        let mut j: usize = 0;
        while j < m
            invariant
                a_chars@ == a@,
                b_chars@ == b@,
                n == a@.len(),
                m == b@.len(),
                n < usize::MAX,
                m < usize::MAX,
                0 <= i < n,
                ca == a@[i as int],
                prev@.len() == m + 1,
                forall|k: int|
                    0 <= k <= m ==> #[trigger] prev@[k] == edit_distance(a@.take(i as int), b@.take(k)),
                0 <= j <= m,
                row@.len() == j + 1,
                forall|k: int|
                    0 <= k <= j ==> #[trigger] row@[k] == edit_distance(a@.take(i + 1), b@.take(k)),
            decreases m - j,
        {
            let cb = b_chars[j];
            let cost: usize = if ca == cb {
                0
            } else {
                1
            };
            proof {
                let aa = a@.take(i + 1);
                let bb = b@.take(j + 1);
                assert(aa.drop_last() =~= a@.take(i as int));
                assert(bb.drop_last() =~= b@.take(j as int));
                assert(aa.last() == ca);
                assert(bb.last() == cb);
                lemma_edit_distance_bounds(a@.take(i as int), b@.take(j as int));
                lemma_edit_distance_bounds(aa, b@.take(j as int));
                lemma_edit_distance_bounds(a@.take(i as int), bb);
            }
            let diag = prev[j] + cost;
            let left = row[j] + 1;
            let up = prev[j + 1] + 1;
            let mut best = diag;
            if left < best {
                best = left;
            }
            if up < best {
                best = up;
            }
            row.push(best);
            j = j + 1;
        }
        dp.push(row);
        i = i + 1;
    }
    proof {
        assert(a@.take(n as int) =~= a@);
        assert(b@.take(m as int) =~= b@);
    }
    dp[n][m]
}

/// The strings of `terms` within `max_distance` edits of `query`, in their order.
pub open spec fn fuzzy_matches<'a>(query: Seq<char>, terms: Seq<&'a str>, max_distance: int) -> Seq<
    &'a str,
> {
    terms.filter(|t: &'a str| edit_distance(query, t@) <= max_distance)
}

/// Find all terms from `all_terms` that are within `max_distance` edits of `query_term`.
///
/// This is a brute-force scan — it checks every term in the index.
pub fn find_fuzzy_matches<'a>(query_term: &str, all_terms: &[&'a str], max_distance: usize) -> (result:
    Vec<&'a str>)
    requires
        query_term@.len() < usize::MAX,
        forall|k: int| 0 <= k < all_terms@.len() ==> (#[trigger] all_terms@[k])@.len() < usize::MAX,
    ensures
        result@ == fuzzy_matches(query_term@, all_terms@, max_distance as int),
{
    let mut result: Vec<&'a str> = Vec::new();
    let mut i: usize = 0;
    while i < all_terms.len()
        invariant
            query_term@.len() < usize::MAX,
            forall|k: int| 0 <= k < all_terms@.len() ==> (#[trigger] all_terms@[k])@.len() < usize::MAX,
            0 <= i <= all_terms@.len(),
            result@ == fuzzy_matches(query_term@, all_terms@.take(i as int), max_distance as int),
        decreases all_terms@.len() - i,
    {
        let t = all_terms[i];
        proof {
            reveal_with_fuel(Seq::filter, 1);
            assert(all_terms@.take(i + 1).drop_last() =~= all_terms@.take(i as int));
        }
        if levenshtein(query_term, t) <= max_distance {
            result.push(t);
        }
        i = i + 1;
    }
    assert(all_terms@.take(all_terms@.len() as int) =~= all_terms@);
    result
}

} // verus!
