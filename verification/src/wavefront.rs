//! The table layout of the anti-diagonal scheme, and the facts that make each of
//! its vector steps a step of the Levenshtein recurrence.
use vstd::prelude::*;
use crate::distance::{levenshtein, lemma_prefix_step, mismatch};
use crate::lanes::{Lanes, LANE_COUNT};

verus! {

/// Distance between the prefixes of lengths `i` and `j` of `a` and `b`.
pub open spec fn cell(a: Seq<u32>, b: Seq<u32>, i: int, j: int) -> nat {
    levenshtein(a.take(i), b.take(j))
}

/// The vector at column `c` of block `blk` runs along an anti-diagonal: lane `k`
/// holds the distance between the prefixes of lengths `c + k` of `a` and
/// `LANE_COUNT * (blk + 1) - k` of `b`.  Only lanes whose prefix of `a` stays
/// within the first `n` elements are asked for.
pub open spec fn lanes_hold(v: Lanes, a: Seq<u32>, b: Seq<u32>, n: int, blk: int, c: int) -> bool {
    forall|k: int|
        0 <= k < LANE_COUNT && c + k <= n ==> #[trigger] v[k] as int == cell(
            a,
            b,
            c + k,
            16 * blk + 16 - k,
        )
}

/// One vector step: lanes computed as `min(lu + delta, min(l, u) + 1)` from the
/// left, upper and upper-left neighbours of their cells, and from the mismatch of
/// the elements compared in them, hold the distances of their cells.
pub proof fn lemma_lanes_step(
    a: Seq<u32>,
    b: Seq<u32>,
    n: int,
    blk: int,
    c: int,
    l: Lanes,
    u: Lanes,
    lu: Lanes,
    delta: Lanes,
    r: Lanes,
)
    requires
        1 <= c,
        n <= a.len(),
        0 <= blk,
        16 * blk + 16 <= b.len(),
        a.len() + 1 < u32::MAX,
        b.len() + 1 < u32::MAX,
        forall|k: int|
            0 <= k < LANE_COUNT && c + k <= n ==> {
                &&& #[trigger] l[k] as int == cell(a, b, c + k - 1, 16 * blk + 16 - k)
                &&& u[k] as int == cell(a, b, c + k, 16 * blk + 15 - k)
                &&& lu[k] as int == cell(a, b, c + k - 1, 16 * blk + 15 - k)
                &&& delta[k] as int == mismatch(a[c + k - 1], b[16 * blk + 15 - k])
            },
        forall|k: int|
            0 <= k < LANE_COUNT ==> #[trigger] r[k] == {
                let diag = lu[k].wrapping_add(delta[k]);
                let side = (if l[k] <= u[k] { l[k] } else { u[k] }).wrapping_add(1);
                if diag <= side { diag } else { side }
            },
    ensures
        lanes_hold(r, a, b, n, blk, c),
{
    assert forall|k: int|
        0 <= k < LANE_COUNT && c + k <= n implies #[trigger] r[k] as int == cell(
        a,
        b,
        c + k,
        16 * blk + 16 - k,
    ) by {
        let i = c + k;
        let j = 16 * blk + 16 - k;
        assert(l[k] as int == cell(a, b, i - 1, j));
        lemma_prefix_step(a, b, i, j);
        lemma_prefix_step(a, b, i - 1, j);
        lemma_prefix_step(a, b, i, j - 1);
        lemma_prefix_step(a, b, i - 1, j - 1);
    }
}

/// Cell `(r, c)` of the triangle, stored row by row in rows of `LANE_COUNT - 1`.
pub open spec fn tri_at(t: Seq<u32>, r: int, c: int) -> u32 {
    t[r * 15 + c]
}

/// The triangle of block `blk` is filled up to row `rr`, column `cc`: its cell
/// `(r, c)` holds the distance between the prefixes of lengths `c + 1` of `a`
/// and `LANE_COUNT * blk + 1 + r` of `b`.
pub open spec fn tri_hold(t: Seq<u32>, a: Seq<u32>, b: Seq<u32>, blk: int, rr: int, cc: int) -> bool {
    forall|r: int, c: int|
        0 <= r && 0 <= c && r + c <= 14 && (r < rr || (r == rr && c < cc)) ==> #[trigger] tri_at(
            t,
            r,
            c,
        ) as int == cell(a, b, c + 1, 16 * blk + 1 + r)
}

/// Every vector of the store before position `upto` holds the cells of its
/// block and column (blocks of `w` columns).
pub open spec fn store_hold(s: Seq<Lanes>, a: Seq<u32>, b: Seq<u32>, n: int, w: int, upto: int) -> bool {
    forall|q: int| 0 <= q < upto ==> lanes_hold(#[trigger] s[q], a, b, n, q / w, q % w)
}

/// Position `blk * w + c` of a table of blocks of width `w` is block `blk`, column `c`.
pub proof fn lemma_block_index(blk: int, c: int, w: int)
    requires
        0 <= blk,
        0 <= c < w,
    ensures
        (blk * w + c) % w == c,
        (blk * w + c) / w == blk,
{
    vstd::arithmetic::div_mod::lemma_fundamental_div_mod_converse(blk * w + c, w, blk, c);
}

/// A lane of a vector already in the store holds its cell.
pub proof fn lemma_store_cell(
    s: Seq<Lanes>,
    a: Seq<u32>,
    b: Seq<u32>,
    n: int,
    w: int,
    upto: int,
    blk: int,
    c: int,
    k: int,
)
    requires
        store_hold(s, a, b, n, w, upto),
        0 <= blk,
        0 <= c < w,
        blk * w + c < upto,
        0 <= k < LANE_COUNT,
        c + k <= n,
    ensures
        s[blk * w + c][k] as int == cell(a, b, c + k, 16 * blk + 16 - k),
{
    lemma_block_index(blk, c, w);
    assert(lanes_hold(s[blk * w + c], a, b, n, blk, c));
}

/// Adding the vector of block `blk`, column `c` (the next position) to the store.
pub proof fn lemma_store_extend(
    s: Seq<Lanes>,
    a: Seq<u32>,
    b: Seq<u32>,
    n: int,
    w: int,
    blk: int,
    c: int,
    v: Lanes,
)
    requires
        store_hold(s, a, b, n, w, blk * w + c),
        0 <= blk,
        0 <= c < w,
        blk * w + c < s.len(),
        lanes_hold(v, a, b, n, blk, c),
    ensures
        store_hold(s.update(blk * w + c, v), a, b, n, w, blk * w + c + 1),
{
    lemma_block_index(blk, c, w);
    let s2 = s.update(blk * w + c, v);
    assert forall|q: int| 0 <= q < blk * w + c + 1 implies lanes_hold(#[trigger] s2[q], a, b, n, q / w, q % w) by {
        if q < blk * w + c {
            assert(s2[q] == s[q]);
        }
    }
}

/// Consecutive blocks of width `w` in a store of `h` blocks.
pub proof fn lemma_block_bounds(blk: int, w: int, h: int)
    requires
        1 <= blk < h,
        1 <= w,
    ensures
        blk * w == (blk - 1) * w + w,
        (blk + 1) * w == blk * w + w,
        blk * w + w <= w * h,
        blk * w + w <= h * w,
        h * w == w * h,
{
    assert(blk * w == (blk - 1) * w + w) by (nonlinear_arith);
    assert((blk + 1) * w == blk * w + w) by (nonlinear_arith);
    assert((blk + 1) * w <= h * w) by (nonlinear_arith)
        requires blk + 1 <= h, 1 <= w;
    assert(h * w == w * h) by (nonlinear_arith);
}

/// Writing cell `(r, c)` (the next one in order) into the triangle.
pub proof fn lemma_tri_extend(
    prev: Seq<u32>,
    t: Seq<u32>,
    a: Seq<u32>,
    b: Seq<u32>,
    blk: int,
    r: int,
    c: int,
    v: u32,
)
    requires
        tri_hold(prev, a, b, blk, r, c),
        0 <= r,
        0 <= c,
        r + c <= 14,
        prev.len() == 225,
        t == prev.update(r * 15 + c, v),
        v as int == cell(a, b, c + 1, 16 * blk + 1 + r),
    ensures
        tri_hold(t, a, b, blk, r, c + 1),
{
    assert forall|r2: int, c2: int|
        0 <= r2 && 0 <= c2 && r2 + c2 <= 14 && (r2 < r || (r2 == r && c2 < c + 1)) implies #[trigger] tri_at(
        t,
        r2,
        c2,
    ) as int == cell(a, b, c2 + 1, 16 * blk + 1 + r2) by {
        if r2 != r || c2 != c {
            assert(tri_at(prev, r2, c2) == tri_at(t, r2, c2));
        }
    }
}

/// Finishing a row of the triangle.
pub proof fn lemma_tri_next_row(t: Seq<u32>, a: Seq<u32>, b: Seq<u32>, blk: int, r: int)
    requires
        tri_hold(t, a, b, blk, r, 15 - r),
    ensures
        tri_hold(t, a, b, blk, r + 1, 0),
{
}

/// The value of triangle cell `(r, c)` of block `blk` from its upper (`u`), left
/// (`l`) and upper-left (`lu`) neighbours and the mismatch of its elements.
pub proof fn lemma_tri_value(
    a: Seq<u32>,
    b: Seq<u32>,
    blk: int,
    r: int,
    c: int,
    u: u32,
    l: u32,
    lu: u32,
    diag: u32,
    v: u32,
)
    requires
        0 <= r,
        0 <= c,
        r + c <= 14,
        c + 1 <= a.len(),
        0 <= blk,
        16 * blk + 1 + r <= b.len(),
        u as int == cell(a, b, c + 1, 16 * blk + r),
        l as int == cell(a, b, c, 16 * blk + 1 + r),
        lu as int == cell(a, b, c, 16 * blk + r),
        diag == lu + mismatch(a[c], b[16 * blk + r]),
        v == if diag <= (if l <= u { l } else { u }) + 1 { diag as int } else { (if l <= u { l } else { u }) + 1 },
    ensures
        v as int == cell(a, b, c + 1, 16 * blk + 1 + r),
{
    lemma_prefix_step(a, b, c + 1, 16 * blk + 1 + r);
}

/// A vector already in the store holds the cells of its block and column.
pub proof fn lemma_store_lanes(
    s: Seq<Lanes>,
    a: Seq<u32>,
    b: Seq<u32>,
    n: int,
    w: int,
    upto: int,
    blk: int,
    c: int,
)
    requires
        store_hold(s, a, b, n, w, upto),
        0 <= blk,
        0 <= c < w,
        blk * w + c < upto,
    ensures
        lanes_hold(s[blk * w + c], a, b, n, blk, c),
{
    lemma_block_index(blk, c, w);
    assert(lanes_hold(s[blk * w + c], a, b, n, (blk * w + c) / w, (blk * w + c) % w));
}

} // verus!
