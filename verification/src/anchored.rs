//! What the two-row scheme computes, stated as edit scripts: for a shorter word
//! of at least two elements it returns the cost of the cheapest script in which
//! the first element of the shorter word is either deleted before anything else,
//! or aligned with one element of the longer word after the elements before
//! that one are inserted, and in which nothing is inserted between that step and
//! the step that handles the second element of the shorter word.
use vstd::prelude::*;
use crate::distance::{levenshtein, lemma_back_step, lemma_prefix_step, min2, min3, mismatch};
use crate::two_row::{two_row_cell, two_row_distance};

verus! {

/// Cost of the steps that handle `a[0]`: deleting it first (`k == 0`), or
/// inserting `b[..k - 1]` and then aligning `a[0]` with `b[k - 1]`.
pub open spec fn head_cost<T>(a: Seq<T>, b: Seq<T>, k: int) -> nat {
    if k <= 0 {
        1
    } else {
        (k - 1 + mismatch(a[0], b[k - 1])) as nat
    }
}

/// Least cost of turning `a[1..i]` into `b[k..j]` by a script whose first step
/// handles `a[1]`: deleting it, or aligning it with `b[k]`.
pub open spec fn tail_cost<T>(a: Seq<T>, b: Seq<T>, i: int, j: int, k: int) -> nat {
    let rest = a.subrange(2, i);
    let delete_second = 1 + levenshtein(rest, b.subrange(k, j));
    if k < j {
        min2(
            delete_second as nat,
            (mismatch(a[1], b[k]) + levenshtein(rest, b.subrange(k + 1, j))) as nat,
        )
    } else {
        delete_second as nat
    }
}

/// Least cost of turning `a` into `b` by a script of the shape described above
/// whose step on `a[0]` is chosen by `k`.
pub open spec fn anchored_cost<T>(a: Seq<T>, b: Seq<T>, k: int) -> nat {
    head_cost(a, b, k) + tail_cost(a, b, a.len() as int, b.len() as int, k)
}

/// The same cost for the prefixes `a[..i]` and `b[..j]`.
spec fn prefix_cost<T>(a: Seq<T>, b: Seq<T>, i: int, j: int, k: int) -> nat {
    head_cost(a, b, k) + tail_cost(a, b, i, j, k)
}

/// The least of `prefix_cost` over the choices `0..=u`.
spec fn best_cost<T>(a: Seq<T>, b: Seq<T>, i: int, j: int, u: int) -> nat
    decreases u,
{
    if u <= 0 {
        prefix_cost(a, b, i, j, 0)
    } else {
        min2(best_cost(a, b, i, j, u - 1), prefix_cost(a, b, i, j, u))
    }
}

/// With `a[..2]` the rest after `a[1]` is empty, so the tail cost is explicit.
proof fn lemma_tail_two<T>(a: Seq<T>, b: Seq<T>, j: int, k: int)
    requires
        2 <= a.len(),
        0 <= k <= j <= b.len(),
    ensures
        tail_cost(a, b, 2, j, k) == if k < j { j - k - 1 + mismatch(a[1], b[k]) } else { 1 },
{
    lemma_back_step(a.subrange(2, 2), b.subrange(k, j));
    if k < j {
        lemma_back_step(a.subrange(2, 2), b.subrange(k + 1, j));
    }
}

/// The tail cost follows the recurrence of the distance in its last elements.
proof fn lemma_tail_step<T>(a: Seq<T>, b: Seq<T>, i: int, j: int, k: int)
    requires
        3 <= i <= a.len(),
        1 <= j <= b.len(),
        0 <= k <= j,
    ensures
        k < j ==> tail_cost(a, b, i, j, k) == min3(
            tail_cost(a, b, i - 1, j, k) + 1,
            tail_cost(a, b, i, j - 1, k) + 1,
            tail_cost(a, b, i - 1, j - 1, k) + mismatch(a[i - 1], b[j - 1]),
        ),
        k == j ==> tail_cost(a, b, i, j, k) == tail_cost(a, b, i - 1, j, k) + 1,
{
    let r = a.subrange(2, i);
    let r1 = a.subrange(2, i - 1);
    assert(r.drop_last() =~= r1);
    assert(r.last() == a[i - 1]);
    let s = b.subrange(k, j);
    lemma_back_step(r, s);
    lemma_back_step(r1, s);
    lemma_back_step(r, b.subrange(k, j - 1));
    lemma_back_step(r1, b.subrange(k, j - 1));
    if k < j {
        assert(s.drop_last() =~= b.subrange(k, j - 1));
        assert(s.last() == b[j - 1]);
        let t = b.subrange(k + 1, j);
        lemma_back_step(r, t);
        lemma_back_step(r1, t);
        if k + 1 < j {
            assert(t.drop_last() =~= b.subrange(k + 1, j - 1));
            assert(t.last() == b[j - 1]);
        }
        lemma_back_step(r, b.subrange(k + 1, j - 1));
        lemma_back_step(r1, b.subrange(k + 1, j - 1));
    }
}

/// For `i >= 3` the least cost over the choices `0..=u` (all below `j`) follows
/// the recurrence of the distance.
proof fn lemma_best_step<T>(a: Seq<T>, b: Seq<T>, i: int, j: int, u: int)
    requires
        3 <= i <= a.len(),
        1 <= j <= b.len(),
        0 <= u < j,
    ensures
        best_cost(a, b, i, j, u) == min3(
            best_cost(a, b, i - 1, j, u) + 1,
            best_cost(a, b, i, j - 1, u) + 1,
            best_cost(a, b, i - 1, j - 1, u) + mismatch(a[i - 1], b[j - 1]),
        ),
    decreases u,
{
    lemma_tail_step(a, b, i, j, u);
    if u > 0 {
        lemma_best_step(a, b, i, j, u - 1);
    }
}

/// With `a[..2]`, moving the end of `b` one place to the right adds one to
/// every choice that stays two places before it.
proof fn lemma_best_two<T>(a: Seq<T>, b: Seq<T>, j: int, u: int)
    requires
        2 <= a.len(),
        2 <= j <= b.len(),
        0 <= u <= j - 2,
    ensures
        best_cost(a, b, 2, j, u) == best_cost(a, b, 2, j - 1, u) + 1,
    decreases u,
{
    lemma_tail_two(a, b, j, u);
    lemma_tail_two(a, b, j - 1, u);
    if u > 0 {
        lemma_best_two(a, b, j, u - 1);
    }
}

/// `best_cost` is the least of the costs of the choices `0..=u`.
proof fn lemma_best_is_least<T>(a: Seq<T>, b: Seq<T>, i: int, j: int, u: int)
    requires
        0 <= u,
    ensures
        forall|k: int| 0 <= k <= u ==> best_cost(a, b, i, j, u) <= #[trigger] prefix_cost(a, b, i, j, k),
        exists|k: int| 0 <= k <= u && best_cost(a, b, i, j, u) == #[trigger] prefix_cost(a, b, i, j, k),
    decreases u,
{
    if u == 0 {
        assert(best_cost(a, b, i, j, u) == prefix_cost(a, b, i, j, 0));
    } else {
        lemma_best_is_least(a, b, i, j, u - 1);
        let k0 = choose|k: int| 0 <= k <= u - 1 && best_cost(a, b, i, j, u - 1) == #[trigger] prefix_cost(a, b, i, j, k);
        if best_cost(a, b, i, j, u - 1) <= prefix_cost(a, b, i, j, u) {
            assert(best_cost(a, b, i, j, u) == prefix_cost(a, b, i, j, k0));
        } else {
            assert(best_cost(a, b, i, j, u) == prefix_cost(a, b, i, j, u));
        }
    }
}

/// The first column of the two-row table is the head cost.
proof fn lemma_first_column<T>(a: Seq<T>, b: Seq<T>, j: int)
    requires
        1 <= a.len(),
        1 <= j <= b.len(),
    ensures
        two_row_cell(a, b, 1, j) == head_cost(a, b, j),
{
    if j == 1 {
        lemma_prefix_step(a, b, 1, 1);
        lemma_prefix_step(a, b, 0, 1);
        lemma_prefix_step(a, b, 1, 0);
        lemma_prefix_step(a, b, 0, 0);
    }
}

/// Every cell of the two-row table below its first column is the least cost of
/// a script of the anchored shape between the prefixes.
proof fn lemma_cell_is_best<T>(a: Seq<T>, b: Seq<T>, i: int, j: int)
    requires
        2 <= i <= a.len(),
        1 <= j <= b.len(),
    ensures
        two_row_cell(a, b, i, j) == best_cost(a, b, i, j, j),
    decreases i + j,
{
    if i == 2 {
        lemma_tail_two(a, b, j, j);
        lemma_tail_two(a, b, j, j - 1);
        lemma_first_column(a, b, j);
        lemma_first_column(a, b, 1);
        if j == 1 {
            lemma_tail_two(a, b, 1, 0);
            lemma_prefix_step(a, b, 2, 1);
            lemma_prefix_step(a, b, 2, 0);
            lemma_prefix_step(a, b, 1, 0);
            lemma_prefix_step(a, b, 1, 1);
            lemma_prefix_step(a, b, 0, 1);
            lemma_prefix_step(a, b, 0, 0);
        } else {
            lemma_first_column(a, b, j - 1);
            lemma_cell_is_best(a, b, 2, j - 1);
            lemma_tail_two(a, b, j - 1, j - 1);
            lemma_best_two(a, b, j, j - 2);
        }
    } else {
        lemma_best_step(a, b, i, j, j - 1);
        lemma_tail_step(a, b, i, j, j);
        lemma_cell_is_best(a, b, i - 1, j);
        if j == 1 {
            lemma_prefix_step(a, b, i, 1);
            lemma_prefix_step(a, b, i, 0);
            lemma_prefix_step(a, b, i - 1, 0);
            lemma_back_step(a.subrange(2, i), b.subrange(0, 0));
            lemma_back_step(a.subrange(2, i - 1), b.subrange(0, 0));
        } else {
            lemma_cell_is_best(a, b, i, j - 1);
            lemma_cell_is_best(a, b, i - 1, j - 1);
        }
    }
}

/// For a shorter word of at least two elements, the two-row scheme returns the
/// least cost of an anchored script: no script of that shape is cheaper, and
/// one of them costs exactly the result.
pub proof fn lemma_two_row_anchored<T>(a: Seq<T>, b: Seq<T>)
    requires
        2 <= a.len() <= b.len(),
    ensures
        forall|k: int| 0 <= k <= b.len() ==> two_row_distance(a, b) <= #[trigger] anchored_cost(a, b, k),
        exists|k: int| 0 <= k <= b.len() && two_row_distance(a, b) == #[trigger] anchored_cost(a, b, k),
{
    let n = a.len() as int;
    let m = b.len() as int;
    lemma_cell_is_best(a, b, n, m);
    lemma_best_is_least(a, b, n, m, m);
    assert forall|k: int| 0 <= k <= m implies two_row_distance(a, b) <= #[trigger] anchored_cost(a, b, k) by {
        assert(prefix_cost(a, b, n, m, k) == anchored_cost(a, b, k));
    }
    let k0 = choose|k: int| 0 <= k <= m && best_cost(a, b, n, m, m) == #[trigger] prefix_cost(a, b, n, m, k);
    assert(prefix_cost(a, b, n, m, k0) == anchored_cost(a, b, k0));
}

} // verus!
