use vstd::prelude::*;
use crate::distance::{
    levenshtein, lemma_distance_to_single, lemma_levenshtein_symmetric, lemma_prefix_step,
    lemma_same_matches, lemma_levenshtein_lower_bound, min3, mismatch,
};

verus! {

/// Cell `(i, j)` of the table that the two-row scheme fills, for `1 <= i <= a.len()`
/// and `1 <= j <= b.len()`: the value it computes for the prefixes `a[..i]` and
/// `b[..j]`.  The first row (`j == 1`) is the exact distance.  In the first column
/// (`i == 1`, `j >= 2`) only the last element of `b[..j]` is compared with `a[0]`:
/// the value is `j - 1` when they are equal and `j` otherwise.  Every other cell
/// follows the Levenshtein recurrence.
pub open spec fn two_row_cell<T>(a: Seq<T>, b: Seq<T>, i: int, j: int) -> nat
    decreases i + j,
{
    if i < 1 || j < 1 {
        0
    } else if j == 1 {
        levenshtein(a.take(i), b.take(1))
    } else if i == 1 {
        if b[j - 1] == a[0] { (j - 1) as nat } else { j as nat }
    } else {
        min3(
            two_row_cell(a, b, i - 1, j) + 1,
            two_row_cell(a, b, i, j - 1) + 1,
            two_row_cell(a, b, i - 1, j - 1) + mismatch(a[i - 1], b[j - 1]),
        )
    }
}

/// What the two-row scheme returns for two words: the length of the other word
/// when one is empty; otherwise the last cell of the table in which the first
/// word is the shorter one (the first, when both have the same length).
pub open spec fn two_row_distance<T>(a: Seq<T>, b: Seq<T>) -> nat {
    if a.len() == 0 {
        b.len()
    } else if b.len() == 0 {
        a.len()
    } else if a.len() <= b.len() {
        two_row_cell(a, b, a.len() as int, b.len() as int)
    } else {
        two_row_cell(b, a, b.len() as int, a.len() as int)
    }
}

/// Once `x` occurs in `s`, every later element of `s` is `x` too.
pub open spec fn repeats_to_end<T>(s: Seq<T>, x: T) -> bool {
    forall|q: int, p: int| 0 <= q < p < s.len() && s[q] == x ==> s[p] == x
}

/// A cell of the two-row table is never larger than the longer of its prefixes.
pub proof fn lemma_two_row_cell_bound<T>(a: Seq<T>, b: Seq<T>, i: int, j: int)
    requires
        1 <= i <= a.len(),
        1 <= j <= b.len(),
    ensures
        two_row_cell(a, b, i, j) <= if i >= j { i } else { j },
    decreases i + j,
{
    if j == 1 {
        lemma_prefix_step(a, b, i, 1);
    } else if i > 1 {
        lemma_two_row_cell_bound(a, b, i - 1, j - 1);
    }
}

/// A cell of the two-row table is never smaller than the distance between its
/// prefixes.
pub proof fn lemma_two_row_cell_at_least<T>(a: Seq<T>, b: Seq<T>, i: int, j: int)
    requires
        1 <= i <= a.len(),
        1 <= j <= b.len(),
    ensures
        two_row_cell(a, b, i, j) >= levenshtein(a.take(i), b.take(j)),
    decreases i + j,
{
    lemma_prefix_step(a, b, i, j);
    if j == 1 {
    } else if i == 1 {
        lemma_prefix_step(a, b, 0, j - 1);
    } else {
        lemma_two_row_cell_at_least(a, b, i - 1, j);
        lemma_two_row_cell_at_least(a, b, i, j - 1);
        lemma_two_row_cell_at_least(a, b, i - 1, j - 1);
    }
}

/// When, in the longer word, every element after an occurrence of the first
/// element of the shorter word is that element again, the two-row table holds
/// the exact distances.
pub proof fn lemma_two_row_cell_exact<T>(a: Seq<T>, b: Seq<T>, i: int, j: int)
    requires
        1 <= i <= a.len(),
        1 <= j <= b.len(),
        repeats_to_end(b, a[0]),
    ensures
        two_row_cell(a, b, i, j) == levenshtein(a.take(i), b.take(j)),
    decreases i + j,
{
    lemma_prefix_step(a, b, i, j);
    if j == 1 {
    } else if i == 1 {
        let bj = b.take(j);
        assert(a.take(1) =~= seq![a[0]]);
        lemma_levenshtein_symmetric(a.take(1), bj);
        lemma_distance_to_single(bj, a[0]);
        if bj.contains(a[0]) {
            let q = choose|q: int| 0 <= q < bj.len() && bj[q] == a[0];
            if q < j - 1 {
                assert(b[q] == a[0]);
            }
        }
        if b[j - 1] == a[0] {
            assert(bj[j - 1] == a[0]);
        }
    } else {
        lemma_two_row_cell_exact(a, b, i - 1, j);
        lemma_two_row_cell_exact(a, b, i, j - 1);
        lemma_two_row_cell_exact(a, b, i - 1, j - 1);
    }
}

/// The two-row table depends only on which elements of one word equal which
/// elements of the other.
pub proof fn lemma_two_row_cell_same_matches<T, U>(
    a1: Seq<T>,
    b1: Seq<T>,
    a2: Seq<U>,
    b2: Seq<U>,
    i: int,
    j: int,
)
    requires
        a1.len() == a2.len(),
        b1.len() == b2.len(),
        1 <= i <= a1.len(),
        1 <= j <= b1.len(),
        forall|x: int, y: int|
            0 <= x < a1.len() && 0 <= y < b1.len() ==> ((a1[x] == b1[y]) <==> (a2[x] == b2[y])),
    ensures
        two_row_cell(a1, b1, i, j) == two_row_cell(a2, b2, i, j),
    decreases i + j,
{
    if j == 1 {
        lemma_same_matches(a1.take(i), b1.take(1), a2.take(i), b2.take(1));
    } else if i == 1 {
        assert((b1[j - 1] == a1[0]) <==> (b2[j - 1] == a2[0]));
    } else {
        lemma_two_row_cell_same_matches(a1, b1, a2, b2, i - 1, j);
        lemma_two_row_cell_same_matches(a1, b1, a2, b2, i, j - 1);
        lemma_two_row_cell_same_matches(a1, b1, a2, b2, i - 1, j - 1);
        assert((a1[i - 1] == b1[j - 1]) <==> (a2[i - 1] == b2[j - 1]));
    }
}

/// The two-row scheme never returns less than the Levenshtein distance.
pub proof fn lemma_two_row_at_least_levenshtein<T>(a: Seq<T>, b: Seq<T>)
    ensures
        two_row_distance(a, b) >= levenshtein(a, b),
{
    lemma_prefix_step(a, b, 0, b.len() as int);
    lemma_prefix_step(a, b, a.len() as int, 0);
    assert(a.take(a.len() as int) =~= a);
    assert(b.take(b.len() as int) =~= b);
    if a.len() > 0 && b.len() > 0 {
        if a.len() <= b.len() {
            lemma_two_row_cell_at_least(a, b, a.len() as int, b.len() as int);
        } else {
            lemma_two_row_cell_at_least(b, a, b.len() as int, a.len() as int);
            lemma_levenshtein_symmetric(a, b);
        }
    }
}

/// The two-row scheme returns the Levenshtein distance when, in the longer word,
/// every element after an occurrence of the first element of the shorter word is
/// that element again (in particular when that element does not occur in it).
pub proof fn lemma_two_row_exact<T>(a: Seq<T>, b: Seq<T>)
    requires
        a.len() > 0 && a.len() <= b.len() ==> repeats_to_end(b, a[0]),
        b.len() > 0 && a.len() > b.len() ==> repeats_to_end(a, b[0]),
    ensures
        two_row_distance(a, b) == levenshtein(a, b),
{
    lemma_prefix_step(a, b, 0, b.len() as int);
    lemma_prefix_step(a, b, a.len() as int, 0);
    assert(a.take(a.len() as int) =~= a);
    assert(b.take(b.len() as int) =~= b);
    if a.len() > 0 && b.len() > 0 {
        if a.len() <= b.len() {
            lemma_two_row_cell_exact(a, b, a.len() as int, b.len() as int);
        } else {
            lemma_two_row_cell_exact(b, a, b.len() as int, a.len() as int);
            lemma_levenshtein_symmetric(a, b);
        }
    }
}

/// `a` occurs in `b` as a contiguous block starting at position `k`.
pub open spec fn occurs_at<T>(b: Seq<T>, a: Seq<T>, k: int) -> bool {
    0 <= k && k + a.len() <= b.len() && b.subrange(k, k + a.len()) =~= a
}

/// Along the diagonal that starts where `a` begins in `b`, the two-row table
/// holds at most the number of elements of `b` skipped before it.
proof fn lemma_two_row_diagonal<T>(a: Seq<T>, b: Seq<T>, k: int, i: int)
    requires
        occurs_at(b, a, k),
        1 <= i <= a.len(),
    ensures
        two_row_cell(a, b, i, k + i) <= k,
    decreases i,
{
    assert(b[k + i - 1] == b.subrange(k, k + a.len())[i - 1]);
    if i == 1 {
        if k == 0 {
            lemma_prefix_step(a, b, 1, 1);
            lemma_prefix_step(a, b, 0, 0);
        }
    } else {
        lemma_two_row_diagonal(a, b, k, i - 1);
    }
}

/// Along the last row of the two-row table (for a shorter word of at least two
/// elements) each step to the right costs at most one.
proof fn lemma_two_row_last_row<T>(a: Seq<T>, b: Seq<T>, j0: int, j: int)
    requires
        2 <= a.len(),
        1 <= j0 <= j <= b.len(),
    ensures
        two_row_cell(a, b, a.len() as int, j) <= two_row_cell(a, b, a.len() as int, j0) + (j - j0),
    decreases j - j0,
{
    if j > j0 {
        lemma_two_row_last_row(a, b, j0, j - 1);
    }
}

/// When the shorter word occurs in the longer one as a contiguous block, the
/// two-row scheme returns the difference of their lengths, which is then the
/// Levenshtein distance; for a one-element shorter word the block must end the
/// longer word.
pub proof fn lemma_two_row_contained<T>(a: Seq<T>, b: Seq<T>, k: int)
    requires
        a.len() >= 1,
        a.len() <= b.len(),
        occurs_at(b, a, k),
        a.len() >= 2 || k + 1 == b.len(),
    ensures
        two_row_distance(a, b) == b.len() - a.len(),
        levenshtein(a, b) == b.len() - a.len(),
{
    let n = a.len() as int;
    let m = b.len() as int;
    lemma_two_row_diagonal(a, b, k, n);
    if n >= 2 {
        lemma_two_row_last_row(a, b, k + n, m);
    }
    lemma_two_row_cell_at_least(a, b, n, m);
    assert(a.take(n) =~= a);
    assert(b.take(m) =~= b);
    lemma_levenshtein_lower_bound(a, b);
}

/// For a one-element shorter word the two-row scheme returns the length of the
/// longer word, less one when its last element is that element.
pub proof fn lemma_two_row_single<T>(a: Seq<T>, b: Seq<T>)
    requires
        a.len() == 1,
        b.len() >= 1,
    ensures
        two_row_distance(a, b) == if b.last() == a[0] { b.len() - 1 } else { b.len() as int },
{
    if b.len() == 1 {
        lemma_prefix_step(a, b, 1, 1);
        lemma_prefix_step(a, b, 0, 0);
        assert(a.take(1) =~= a);
        assert(b.take(1) =~= b);
    }
}

/// With words of different lengths the two-row scheme does not depend on the
/// order of its arguments.
pub proof fn lemma_two_row_symmetric<T>(a: Seq<T>, b: Seq<T>)
    requires
        a.len() != b.len(),
    ensures
        two_row_distance(a, b) == two_row_distance(b, a),
{
}

/// A cell of the two-row table is at most one more than the distance between
/// its prefixes.
pub proof fn lemma_two_row_cell_at_most<T>(a: Seq<T>, b: Seq<T>, i: int, j: int)
    requires
        1 <= i <= a.len(),
        1 <= j <= b.len(),
    ensures
        two_row_cell(a, b, i, j) <= levenshtein(a.take(i), b.take(j)) + 1,
    decreases i + j,
{
    lemma_prefix_step(a, b, i, j);
    if j == 1 {
    } else if i == 1 {
        lemma_levenshtein_lower_bound(a.take(1), b.take(j));
    } else {
        lemma_two_row_cell_at_most(a, b, i - 1, j);
        lemma_two_row_cell_at_most(a, b, i, j - 1);
        lemma_two_row_cell_at_most(a, b, i - 1, j - 1);
    }
}

/// The two-row scheme returns at most one more than the Levenshtein distance.
pub proof fn lemma_two_row_at_most_levenshtein_plus_one<T>(a: Seq<T>, b: Seq<T>)
    ensures
        two_row_distance(a, b) <= levenshtein(a, b) + 1,
{
    lemma_prefix_step(a, b, 0, b.len() as int);
    lemma_prefix_step(a, b, a.len() as int, 0);
    assert(a.take(a.len() as int) =~= a);
    assert(b.take(b.len() as int) =~= b);
    if a.len() > 0 && b.len() > 0 {
        if a.len() <= b.len() {
            lemma_two_row_cell_at_most(a, b, a.len() as int, b.len() as int);
        } else {
            lemma_two_row_cell_at_most(b, a, b.len() as int, a.len() as int);
            lemma_levenshtein_symmetric(a, b);
        }
    }
}

} // verus!
