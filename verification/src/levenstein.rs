use vstd::prelude::*;
use vstd::string::StringSliceAdditionalSpecFns;
use crate::two_row::{
    two_row_cell, two_row_distance, lemma_two_row_cell_bound, lemma_two_row_cell_same_matches,
    repeats_to_end, lemma_two_row_at_least_levenshtein, lemma_two_row_exact, occurs_at,
    lemma_two_row_contained, lemma_two_row_single, lemma_two_row_at_most_levenshtein_plus_one,
};
use crate::anchored::{anchored_cost, lemma_two_row_anchored};
use crate::lanes::{
    Lanes, LANE_COUNT, splat, rotate_left_one, lanes_min, lanes_add, lanes_from_slice,
    lanes_reversed, lanes_mismatch,
};
use crate::wavefront::{
    cell, lanes_hold, lemma_lanes_step, tri_at, tri_hold, store_hold, lemma_tri_extend,
    lemma_tri_next_row, lemma_tri_value, lemma_store_cell, lemma_store_extend, lemma_block_bounds, lemma_store_lanes,
    lemma_block_index,
};
use crate::distance::{
    levenshtein, lemma_equal_heads, lemma_levenshtein_symmetric, lemma_different_heads, lemma_levenshtein_upper_bound,
    lemma_same_matches, lemma_prefix_step, lemma_distance_to_single, mismatch,
    lemma_ascii_bytes_match, lemma_ascii_bytes_distance,
};

verus! {

/// The characters of a string, in order.
fn chars_of(s: &str) -> (v: Vec<char>)
    ensures
        v@ == s@,
{
    let mut v: Vec<char> = Vec::new();
    for c in it: s.chars()
        invariant
            it.seq() == s@,
            v@ == it.seq().take(it.index() as int),
    {
        v.push(c);
    }
    v
}

/// Distance between two character sequences, by recursion from the front:
/// equal first characters are matched, otherwise the cheapest of deleting,
/// inserting or substituting the first character is taken.
fn recursive_chars(a: &[char], b: &[char]) -> (d: usize)
    ensures
        d == levenshtein(a@, b@),
    decreases a@.len() + b@.len(),
{
    proof {
        lemma_levenshtein_upper_bound(a@, b@);
    }
    if a.is_empty() {
        proof { crate::distance::lemma_back_step(a@, b@); }
        b.len()
    } else if b.is_empty() {
        proof { crate::distance::lemma_back_step(a@, b@); }
        a.len()
    } else if a[0] == b[0] {
        proof { lemma_equal_heads(a@, b@); }
        recursive_chars(&a[1..a.len()], &b[1..b.len()])
    } else {
        proof { lemma_different_heads(a@, b@); }
        recursive_chars(a, &b[1..b.len()])
            .min(recursive_chars(&a[1..a.len()], b))
            .min(recursive_chars(&a[1..a.len()], &b[1..b.len()])) + 1
    }
}

/// Levenshtein distance between two strings, counted in characters, by plain
/// recursion.
pub fn recursive(a: &str, b: &str) -> (d: usize)
    ensures
        d == levenshtein(a@, b@),
{
    let av = chars_of(a);
    let bv = chars_of(b);
    recursive_chars(av.as_slice(), bv.as_slice())
}

/// Distance between two byte strings, by recursion from the front.
fn ascii_case_sens_inner(a: &[u8], b: &[u8]) -> (d: usize)
    ensures
        d == levenshtein(a@, b@),
    decreases a@.len() + b@.len(),
{
    proof {
        lemma_levenshtein_upper_bound(a@, b@);
    }
    if a.is_empty() {
        proof { crate::distance::lemma_back_step(a@, b@); }
        b.len()
    } else if b.is_empty() {
        proof { crate::distance::lemma_back_step(a@, b@); }
        a.len()
    } else if a[0] == b[0] {
        proof { lemma_equal_heads(a@, b@); }
        ascii_case_sens_inner(&a[1..a.len()], &b[1..b.len()])
    } else {
        proof { lemma_different_heads(a@, b@); }
        ascii_case_sens_inner(a, &b[1..b.len()])
            .min(ascii_case_sens_inner(&a[1..a.len()], b))
            .min(ascii_case_sens_inner(&a[1..a.len()], &b[1..b.len()])) + 1
    }
}

/// Levenshtein distance between two ASCII strings, by recursion over their bytes.
pub fn recursive_ascii_case_sens(a: &str, b: &str) -> (d: usize)
    requires
        a.is_ascii(),
        b.is_ascii(),
    ensures
        d == levenshtein(a@, b@),
{
    let ab = a.as_bytes();
    let bb = b.as_bytes();
    proof {
        lemma_ascii_bytes_distance(a, b);
    }
    ascii_case_sens_inner(ab, bb)
}


/// The characters of a string as their 32-bit code points, in order.
fn code_points_of(s: &str) -> (v: Vec<u32>)
    ensures
        v@.len() == s@.len(),
        forall|k: int| 0 <= k < s@.len() ==> v@[k] == #[trigger] s@[k] as u32,
{
    let mut v: Vec<u32> = Vec::new();
    for c in it: s.chars()
        invariant
            it.seq() == s@,
            v@.len() == it.index(),
            it.index() <= s@.len(),
            forall|k: int| 0 <= k < it.index() ==> v@[k] == #[trigger] s@[k] as u32,
    {
        v.push(c as u32);
    }
    v
}

/// Code points of two words are equal exactly where their characters are.
proof fn lemma_code_points_match(a: Seq<char>, b: Seq<char>, aw: Seq<u32>, bw: Seq<u32>)
    requires
        aw.len() == a.len(),
        bw.len() == b.len(),
        forall|k: int| 0 <= k < a.len() ==> aw[k] == #[trigger] a[k] as u32,
        forall|k: int| 0 <= k < b.len() ==> bw[k] == #[trigger] b[k] as u32,
    ensures
        levenshtein(aw, bw) == levenshtein(a, b),
{
    assert forall|x: int, y: int|
        0 <= x < aw.len() && 0 <= y < bw.len() implies ((aw[x] == bw[y]) <==> (a[x] == b[y])) by {
        let cx = a[x];
        let cy = b[y];
        assert(aw[x] == cx as u32);
        assert(bw[y] == cy as u32);
        vstd::utf8::char_u32_cast(cx, cx as u32);
        vstd::utf8::char_u32_cast(cy, cy as u32);
    }
    lemma_same_matches(aw, bw, a, b);
}

/// Every cell of the table `s` (rows of width `w`) that lies before position
/// `filled`, and every cell of its first column, holds the distance between the
/// matching prefixes of `a` and `b`.
spec fn table_filled(s: Seq<usize>, a: Seq<u32>, b: Seq<u32>, w: int, filled: int) -> bool {
    forall|q: int|
        0 <= q < s.len() && (q < filled || q % w == 0) ==> #[trigger] s[q] as int == levenshtein(
            a.take(q % w),
            b.take(q / w),
        )
}

/// Levenshtein distance between two strings, counted in characters, by filling
/// the whole `(|a| + 1) x (|b| + 1)` table of distances between prefixes.
pub fn dynamic_wasteful(a: &str, b: &str) -> (d: usize)
    requires
        (a@.len() + 1) * (b@.len() + 1) <= usize::MAX,
    ensures
        d == levenshtein(a@, b@),
{
    let a_wide: Vec<u32> = code_points_of(a);
    let b_wide: Vec<u32> = code_points_of(b);
    proof {
        let x = a@.len() + 1;
        let y = b@.len() + 1;
        assert(x <= x * y && y <= x * y) by (nonlinear_arith)
            requires x >= 1, y >= 1;
    }
    let w = a_wide.len() + 1;  // The width of the dyn prog matrix
    let h = b_wide.len() + 1;
    let ghost aw = a_wide@;
    let ghost bw = b_wide@;
    proof {
        assert(w <= w * h && h <= w * h) by (nonlinear_arith)
            requires w >= 1, h >= 1;
    }
    let mut storage: Vec<usize> = vec![0; w * h];
    proof {
        assert(storage@[0] == 0);
    }
    for c in 1..w
        invariant
            w == aw.len() + 1,
            h == bw.len() + 1,
            w <= w * h,
            storage@.len() == w * h,
            storage@[0] == 0,
            forall|q: int| 1 <= q < c ==> #[trigger] storage@[q] == q,
    {
        storage[c] = c;
    }
    proof {
        assert forall|q: int| 0 <= q < w implies #[trigger] storage@[q] as int == levenshtein(
            aw.take(q % w as int),
            bw.take(q / w as int),
        ) by {
            lemma_block_index(0, q, w as int);
            lemma_prefix_step(aw, bw, q, 0);
        }
    }
    assert(1 * w == w);
    // Now w is the actual needed width
    for r in 1..h
        invariant
            w == aw.len() + 1,
            h == bw.len() + 1,
            w <= w * h,
            w * h <= usize::MAX,
            storage@.len() == w * h,
            forall|q: int|
                0 <= q < w ==> #[trigger] storage@[q] as int == levenshtein(
                    aw.take(q % w as int),
                    bw.take(q / w as int),
                ),
            forall|q: int|
                0 <= q < r * w && q % w as int == 0 ==> #[trigger] storage@[q] as int
                    == levenshtein(aw.take(q % w as int), bw.take(q / w as int)),
    {
        proof {
            lemma_block_bounds(r as int, w as int, h as int);
            lemma_block_index(r as int, 0, w as int);
            lemma_prefix_step(aw, bw, 0, r as int);
        }
        storage[r * w] = r;
        proof {
            assert forall|q: int|
                0 <= q < (r + 1) * w && q % w as int == 0 implies #[trigger] storage@[q] as int
                == levenshtein(aw.take(q % w as int), bw.take(q / w as int)) by {
                if q > r * w {
                    vstd::arithmetic::div_mod::lemma_fundamental_div_mod(q, w as int);
                    let qq = q / w as int;
                    assert(false) by (nonlinear_arith)
                        requires
                            q == w * qq,
                            r * w < q < (r + 1) * w,
                            w >= 1;
                }
            }
            assert forall|q: int| 0 <= q < w implies #[trigger] storage@[q] as int == levenshtein(
                aw.take(q % w as int),
                bw.take(q / w as int),
            ) by {
                lemma_block_index(0, q, w as int);
                if q == r * w {
                    assert(false) by (nonlinear_arith)
                        requires q == r * w, q < w, r >= 1;
                }
            }
        }
    }

    proof {
        assert(table_filled(storage@, aw, bw, w as int, w as int)) by {
            assert forall|q: int|
                0 <= q < storage@.len() && (q < w || q % w as int == 0) implies #[trigger] storage@[q] as int
                == levenshtein(aw.take(q % w as int), bw.take(q / w as int)) by {
                if q >= w && q % w as int == 0 {
                    assert(q < h * w);
                }
            }
        }
    }
    let mut j: usize = 1;
    while j < h
        invariant
            w == aw.len() + 1,
            h == bw.len() + 1,
            a_wide@ == aw,
            b_wide@ == bw,
            w <= w * h,
            h <= w * h,
            w * h <= usize::MAX,
            storage@.len() == w * h,
            1 <= j <= h,
            j * w <= w * h,
            table_filled(storage@, aw, bw, w as int, j * w),
        decreases h - j,
    {
        let bc = b_wide[j - 1];
        proof {
            lemma_block_bounds(j as int, w as int, h as int);
        }
        proof {
            lemma_block_index(j as int, 0, w as int);
            assert forall|q: int|
                0 <= q < storage@.len() && (q < j * w + 1 || q % w as int == 0) implies #[trigger] storage@[q] as int
                == levenshtein(aw.take(q % w as int), bw.take(q / w as int)) by {
                if q == j * w {
                    assert(q % w as int == 0);
                }
            }
        }
        let mut i: usize = 1;
        while i < w
            invariant
                w == aw.len() + 1,
                h == bw.len() + 1,
                a_wide@ == aw,
                bw[j - 1] == bc,
                w <= w * h,
                h <= w * h,
                w * h <= usize::MAX,
                storage@.len() == w * h,
                1 <= j < h,
                1 <= i <= w,
                j * w == (j - 1) * w + w,
                j * w + w <= w * h,
                table_filled(storage@, aw, bw, w as int, j * w + i),
            decreases w - i,
        {
            let ac = a_wide[i - 1];
            proof {
                lemma_block_index(j - 1, i - 1, w as int);
                lemma_block_index(j - 1, i as int, w as int);
                lemma_block_index(j as int, i - 1, w as int);
                lemma_block_index(j as int, i as int, w as int);
                lemma_prefix_step(aw, bw, i - 1, j - 1);
                lemma_prefix_step(aw, bw, i as int, j - 1);
                lemma_prefix_step(aw, bw, i - 1, j as int);
                lemma_prefix_step(aw, bw, i as int, j as int);
                assert(storage@[(j - 1) * w + i - 1] as int == levenshtein(aw.take(i - 1), bw.take(j - 1)));
                assert(storage@[(j - 1) * w + i] as int == levenshtein(aw.take(i as int), bw.take(j - 1)));
                assert(storage@[j * w + i - 1] as int == levenshtein(aw.take(i - 1), bw.take(j as int)));
            }
            let ghost prev = storage@;
            let diag = storage[(j - 1) * w + i - 1] + if ac == bc { 0 } else { 1 };
            storage[j * w + i] = diag.min(
                storage[(j - 1) * w + i].min(storage[j * w + i - 1]) + 1
            );
            proof {
                assert(storage@[j * w + i] as int == levenshtein(aw.take(i as int), bw.take(j as int)));
                assert forall|q: int|
                    0 <= q < storage@.len() && (q < j * w + i + 1 || q % w as int == 0) implies #[trigger] storage@[q] as int
                    == levenshtein(aw.take(q % w as int), bw.take(q / w as int)) by {
                    if q != j * w + i {
                        assert(storage@[q] == prev[q]);
                    }
                }
            }
            i += 1;
        }
        j += 1;
    }
    proof {
        assert(h * w - 1 == (h - 1) * w + (w - 1)) by (nonlinear_arith)
            requires h >= 1, w >= 1;
        assert(h * w == w * h) by (nonlinear_arith);
        lemma_block_index(h - 1, w - 1, w as int);
        assert(storage@[h * w - 1] as int == levenshtein(aw.take(w - 1), bw.take(h - 1)));
        assert(aw.take(w - 1) =~= aw);
        assert(bw.take(h - 1) =~= bw);
        lemma_code_points_match(a@, b@, aw, bw);
    }
    storage[h * w - 1]
}

/// Element `k` of the row of width-`n` rows that starts at `base`.
spec fn row_at(s: Seq<usize>, base: int, k: int) -> usize {
    s[base + k]
}

/// Distance between two ASCII strings by dynamic programming over their bytes,
/// keeping only two rows of the table, each as long as the shorter string.
pub fn dynamic_ascii_case_sensitive(a: &str, b: &str) -> (d: usize)
    requires
        a.is_ascii(),
        b.is_ascii(),
        a@.len() + b@.len() <= usize::MAX,
    ensures
        d == two_row_distance(a@, b@),
        d >= levenshtein(a@, b@),
        a@.len() > 0 && a@.len() <= b@.len() && repeats_to_end(b@, a@[0]) ==> d == levenshtein(
            a@,
            b@,
        ),
        b@.len() > 0 && a@.len() > b@.len() && repeats_to_end(a@, b@[0]) ==> d == levenshtein(
            a@,
            b@,
        ),
        d <= levenshtein(a@, b@) + 1,
        d <= if a@.len() >= b@.len() { a@.len() } else { b@.len() },
        forall|k: int|
            1 <= a@.len() <= b@.len() && #[trigger] occurs_at(b@, a@, k) && (a@.len() >= 2 || k + 1
                == b@.len()) ==> d == b@.len() - a@.len() && d == levenshtein(a@, b@),
        forall|k: int|
            1 <= b@.len() < a@.len() && #[trigger] occurs_at(a@, b@, k) && (b@.len() >= 2 || k + 1
                == a@.len()) ==> d == a@.len() - b@.len() && d == levenshtein(a@, b@),
        a@.len() == 1 && b@.len() >= 1 ==> d == if b@.last() == a@[0] {
            b@.len() - 1
        } else {
            b@.len() as int
        },
        b@.len() == 1 && a@.len() > 1 ==> d == if a@.last() == b@[0] {
            a@.len() - 1
        } else {
            a@.len() as int
        },
        2 <= a@.len() <= b@.len() ==> (forall|k: int|
            0 <= k <= b@.len() ==> d <= #[trigger] anchored_cost(a@, b@, k)) && (exists|k: int|
            0 <= k <= b@.len() && d == #[trigger] anchored_cost(a@, b@, k)),
        2 <= b@.len() < a@.len() ==> (forall|k: int|
            0 <= k <= a@.len() ==> d <= #[trigger] anchored_cost(b@, a@, k)) && (exists|k: int|
            0 <= k <= a@.len() && d == #[trigger] anchored_cost(b@, a@, k)),
{
    proof {
        lemma_ascii_bytes_match(a, b);
        lemma_ascii_bytes_match(b, a);
        lemma_two_row_at_least_levenshtein(a@, b@);
        lemma_two_row_at_most_levenshtein_plus_one(a@, b@);
        if a@.len() > 0 && a@.len() <= b@.len() && repeats_to_end(b@, a@[0]) {
            lemma_two_row_exact(a@, b@);
        }
        if b@.len() > 0 && a@.len() > b@.len() && repeats_to_end(a@, b@[0]) {
            lemma_two_row_exact(a@, b@);
        }
        assert forall|k: int|
            1 <= a@.len() <= b@.len() && #[trigger] occurs_at(b@, a@, k) && (a@.len() >= 2 || k + 1
                == b@.len()) implies two_row_distance(a@, b@) == b@.len() - a@.len() && two_row_distance(a@, b@)
                == levenshtein(a@, b@) by {
            lemma_two_row_contained(a@, b@, k);
        }
        assert forall|k: int|
            1 <= b@.len() < a@.len() && #[trigger] occurs_at(a@, b@, k) && (b@.len() >= 2 || k + 1
                == a@.len()) implies two_row_distance(a@, b@) == a@.len() - b@.len() && two_row_distance(a@, b@)
                == levenshtein(a@, b@) by {
            lemma_two_row_contained(b@, a@, k);
            lemma_levenshtein_symmetric(a@, b@);
        }
        if a@.len() == 1 && b@.len() >= 1 {
            lemma_two_row_single(a@, b@);
        }
        if 2 <= a@.len() <= b@.len() {
            lemma_two_row_anchored(a@, b@);
        }
        if 2 <= b@.len() < a@.len() {
            lemma_two_row_anchored(b@, a@);
        }
        if b@.len() == 1 && a@.len() > 1 {
            lemma_two_row_single(b@, a@);
        }
        if a@.len() >= 1 && b@.len() >= 1 {
            if a@.len() <= b@.len() {
                lemma_two_row_cell_bound(a@, b@, a@.len() as int, b@.len() as int);
            } else {
                lemma_two_row_cell_bound(b@, a@, b@.len() as int, a@.len() as int);
            }
        }
    }
    let ghost a_chars = a@;
    let ghost b_chars = b@;
    // Make it so that a is always shorter
    // Check if quick return is possible
    if a.is_empty() {
        return b.len();
    } else if b.is_empty() {
        return a.len();
    }
    // Must compute
    let (a, b) = if a.len() <= b.len() {
        (a.as_bytes(), b.as_bytes())
    } else {
        (b.as_bytes(), a.as_bytes())
    };
    let ghost sa = if a_chars.len() <= b_chars.len() { a_chars } else { b_chars };
    let ghost sb = if a_chars.len() <= b_chars.len() { b_chars } else { a_chars };
    let ghost aa = a@;
    let ghost bb = b@;
    let n = a.len();
    let m = b.len();
    let mut storage: Vec<usize> = vec![0; 2 * n];
    // First row
    let mut found = false;
    let bfirst = b[0];
    let mut ind: usize = 0;
    while ind < n
        invariant
            aa == a@,
            bb == b@,
            n == aa.len(),
            1 <= n <= m,
            m == bb.len(),
            bfirst == bb[0],
            storage@.len() == 2 * n,
            0 <= ind <= n,
            found == aa.take(ind as int).contains(bfirst),
            forall|k: int|
                0 <= k < ind ==> #[trigger] row_at(storage@, 0, k) == two_row_cell(aa, bb, k + 1, 1),
        decreases n - ind,
    {
        let ach = a[ind];
        found = found || bfirst == ach;
        let ghost prev = storage@;
        storage[ind] = if found { ind } else { ind + 1 };
        proof {
            let p = aa.take(ind + 1);
            if aa.take(ind as int).contains(bfirst) {
                let q = choose|q: int| 0 <= q < ind && aa.take(ind as int)[q] == bfirst;
                assert(p[q] == bfirst);
            }
            if p.contains(bfirst) {
                let q = choose|q: int| 0 <= q < p.len() && p[q] == bfirst;
                if q < ind {
                    assert(aa.take(ind as int)[q] == bfirst);
                }
            }
            if ach == bfirst {
                assert(p[ind as int] == bfirst);
            }
            assert(found == p.contains(bfirst));
            assert(bb.take(1) =~= seq![bfirst]);
            lemma_distance_to_single(p, bfirst);
            assert(row_at(storage@, 0, ind as int) == two_row_cell(aa, bb, ind + 1, 1));
            assert forall|k: int|
                0 <= k < ind + 1 implies #[trigger] row_at(storage@, 0, k) == two_row_cell(
                aa,
                bb,
                k + 1,
                1,
            ) by {
                if k < ind {
                    assert(row_at(prev, 0, k) == two_row_cell(aa, bb, k + 1, 1));
                }
            }
        }
        ind += 1;
    }
    // "Pointers" to switch between the two parts
    let mut current: usize = n;
    let mut previous: usize = 0;
    // Rest of the rows
    let mut bind: usize = 1;
    while bind < m
        invariant
            aa == a@,
            bb == b@,
            n == aa.len(),
            1 <= n <= m,
            m == bb.len(),
            n + m <= usize::MAX,
            storage@.len() == 2 * n,
            1 <= bind <= m,
            (previous == 0 && current == n) || (previous == n && current == 0),
            forall|k: int|
                0 <= k < n ==> #[trigger] row_at(storage@, previous as int, k) == two_row_cell(
                    aa,
                    bb,
                    k + 1,
                    bind as int,
                ),
        decreases m - bind,
    {
        let bch = b[bind];
        // First elem in a
        let ghost prev0 = storage@;
        storage[current] = if bch == a[0] { bind } else { bind + 1 };
        proof {
            assert(row_at(storage@, current as int, 0) == two_row_cell(aa, bb, 1, bind + 1));
            assert forall|k: int|
                0 <= k < n implies #[trigger] row_at(storage@, previous as int, k) == two_row_cell(
                aa,
                bb,
                k + 1,
                bind as int,
            ) by {
                assert(row_at(prev0, previous as int, k) == two_row_cell(aa, bb, k + 1, bind as int));
            }
        }
        // The rest
        let mut aind: usize = 1;
        while aind < n
            invariant
                aa == a@,
                bb == b@,
                n == aa.len(),
                1 <= n <= m,
                m == bb.len(),
                n + m <= usize::MAX,
                storage@.len() == 2 * n,
                1 <= bind < m,
                bch == bb[bind as int],
                1 <= aind <= n,
                (previous == 0 && current == n) || (previous == n && current == 0),
                forall|k: int|
                    0 <= k < n ==> #[trigger] row_at(storage@, previous as int, k) == two_row_cell(
                        aa,
                        bb,
                        k + 1,
                        bind as int,
                    ),
                forall|k: int|
                    0 <= k < aind ==> #[trigger] row_at(storage@, current as int, k) == two_row_cell(
                        aa,
                        bb,
                        k + 1,
                        bind + 1,
                    ),
            decreases n - aind,
        {
            let ach = a[aind];
            proof {
                assert(row_at(storage@, previous as int, aind - 1) == two_row_cell(aa, bb, aind as int, bind as int));
                assert(row_at(storage@, previous as int, aind as int) == two_row_cell(aa, bb, aind + 1, bind as int));
                assert(row_at(storage@, current as int, aind - 1) == two_row_cell(aa, bb, aind as int, bind + 1));
                lemma_two_row_cell_bound(aa, bb, aind as int, bind as int);
                lemma_two_row_cell_bound(aa, bb, aind + 1, bind as int);
                lemma_two_row_cell_bound(aa, bb, aind as int, bind + 1);
            }
            let ghost prev = storage@;
            let diag = storage[previous + aind - 1] + if ach == bch { 0 } else { 1 };
            storage[current + aind] = diag.min(
                storage[current + aind - 1].min(storage[previous + aind]) + 1
            );
            proof {
                assert(row_at(storage@, current as int, aind as int) == two_row_cell(aa, bb, aind + 1, bind + 1));
                assert forall|k: int|
                    0 <= k < n implies #[trigger] row_at(storage@, previous as int, k) == two_row_cell(
                    aa,
                    bb,
                    k + 1,
                    bind as int,
                ) by {
                    assert(row_at(prev, previous as int, k) == two_row_cell(aa, bb, k + 1, bind as int));
                }
                assert forall|k: int|
                    0 <= k < aind + 1 implies #[trigger] row_at(storage@, current as int, k) == two_row_cell(
                    aa,
                    bb,
                    k + 1,
                    bind + 1,
                ) by {
                    if k < aind {
                        assert(row_at(prev, current as int, k) == two_row_cell(aa, bb, k + 1, bind + 1));
                    }
                }
            }
            aind += 1;
        }
        // Swap
        let temp: usize = current;
        current = previous;
        previous = temp;
        bind += 1;
    }
    proof {
        assert(row_at(storage@, previous as int, n - 1) == two_row_cell(aa, bb, n as int, m as int));
        lemma_two_row_cell_same_matches(aa, bb, sa, sb, n as int, m as int);
    }
    storage[previous + n - 1]
}

/// The triangle in the upper left corner of the first block: cell `(r, c)`, for
/// `r + c < LANE_COUNT - 1`, is the distance between the first `c + 1` elements
/// of `a_wide` and the first `r + 1` elements of `b_wide`.
fn fill_first_triangle(triangle: &mut Vec<u32>, a_wide: &Vec<u32>, b_wide: &Vec<u32>, b_chunk_simd: &Lanes)
    requires
        old(triangle)@.len() == 225,
        a_wide@.len() >= LANE_COUNT,
        b_wide@.len() >= LANE_COUNT,
        forall|k: int| 0 <= k < LANE_COUNT ==> b_chunk_simd[k] == b_wide@[LANE_COUNT - 1 - k],
    ensures
        final(triangle)@.len() == 225,
        tri_hold(final(triangle)@, a_wide@, b_wide@, 0, 15, 0),
{
    let ghost aa = a_wide@;
    let ghost bb = b_wide@;
    for r in 0..(LANE_COUNT - 1)
        invariant
            triangle@.len() == 225,
            aa == a_wide@,
            bb == b_wide@,
            aa.len() >= LANE_COUNT,
            bb.len() >= LANE_COUNT,
            forall|k: int| 0 <= k < LANE_COUNT ==> b_chunk_simd[k] == bb[LANE_COUNT - 1 - k],
            tri_hold(triangle@, aa, bb, 0, r as int, 0),
    {
        for c in 0..(LANE_COUNT - 1 - r)
            invariant
                triangle@.len() == 225,
                aa == a_wide@,
                bb == b_wide@,
                aa.len() >= LANE_COUNT,
                bb.len() >= LANE_COUNT,
                forall|k: int| 0 <= k < LANE_COUNT ==> b_chunk_simd[k] == bb[LANE_COUNT - 1 - k],
                r < 15,
                tri_hold(triangle@, aa, bb, 0, r as int, c as int),
        {
            proof {
                lemma_prefix_step(aa, bb, c as int, r as int);
                lemma_prefix_step(aa, bb, c + 1, r as int);
                lemma_prefix_step(aa, bb, c as int, r + 1);
                if r > 0 {
                    assert(tri_at(triangle@, r - 1, c as int) as int == cell(aa, bb, c + 1, r as int));
                }
                if c > 0 {
                    assert(tri_at(triangle@, r as int, c - 1) as int == cell(aa, bb, c as int, r + 1));
                }
                if r > 0 && c > 0 {
                    assert(tri_at(triangle@, r - 1, c - 1) as int == cell(aa, bb, c as int, r as int));
                }
            }
            let u: u32 = if r == 0 { c as u32 + 1 } else { triangle[(r - 1) * (LANE_COUNT - 1) + c] };
            let l: u32 = if c == 0 { r as u32 + 1 } else { triangle[r * (LANE_COUNT - 1) + c - 1] };
            let lu: u32 = if r == 0 || c == 0 { r.max(c) as u32 } else { triangle[(r - 1) * (LANE_COUNT - 1) + c - 1] };
            let diag = lu + if a_wide[c] == b_chunk_simd[LANE_COUNT - 1 - r] { 0 } else { 1 };
            let ghost prev = triangle@;
            triangle[r * (LANE_COUNT - 1) + c] = diag.min(l.min(u) + 1);
            proof {
                lemma_tri_value(aa, bb, 0, r as int, c as int, u, l, lu, diag, triangle@[r * 15 + c]);
                lemma_tri_extend(prev, triangle@, aa, bb, 0, r as int, c as int, triangle@[r * 15 + c]);
            }
        }
        proof {
            lemma_tri_next_row(triangle@, aa, bb, 0, r as int);
        }
    }
}

/// The triangle in the upper left corner of block `r_simd > 0`: cell `(r, c)`,
/// for `r + c < LANE_COUNT - 1`, is the distance between the first `c + 1`
/// elements of `a_wide` and the first `LANE_COUNT * r_simd + r + 1` elements of
/// `b_wide`.  Its first row takes its upper neighbours from the last row of the
/// block above, held in lane 0 of the vectors of that block.
fn fill_triangle(
    triangle: &mut Vec<u32>,
    a_wide: &Vec<u32>,
    b_wide: &Vec<u32>,
    b_chunk_simd: &Lanes,
    stor_simd: &Vec<Lanes>,
    r_simd: usize,
    w: usize,
    Ghost(n): Ghost<int>,
)
    requires
        old(triangle)@.len() == 225,
        n == w - 1,
        LANE_COUNT <= n,
        a_wide@.len() == n + 15,
        1 <= r_simd,
        16 * r_simd + 16 <= b_wide@.len(),
        b_wide@.len() + 2 <= u32::MAX,
        r_simd * w <= stor_simd@.len(),
        r_simd * w <= usize::MAX,
        store_hold(stor_simd@, a_wide@, b_wide@, n, w as int, r_simd * w),
        forall|k: int| 0 <= k < LANE_COUNT ==> b_chunk_simd[k] == b_wide@[16 * r_simd + 15 - k],
    ensures
        final(triangle)@.len() == 225,
        tri_hold(final(triangle)@, a_wide@, b_wide@, r_simd as int, 15, 0),
{
    let ghost aa = a_wide@;
    let ghost bb = b_wide@;
    proof {
        assert((r_simd - 1) * w + w == r_simd * w) by (nonlinear_arith);
    }
    for r in 0..(LANE_COUNT - 1)
        invariant
            triangle@.len() == 225,
            aa == a_wide@,
            bb == b_wide@,
            (r_simd - 1) * w + w == r_simd * w,
            n == w - 1,
            LANE_COUNT <= n,
            aa.len() == n + 15,
            1 <= r_simd,
            16 * r_simd + 16 <= bb.len(),
            bb.len() + 2 <= u32::MAX,
            r_simd * w <= stor_simd@.len(),
            r_simd * w <= usize::MAX,
            store_hold(stor_simd@, aa, bb, n, w as int, r_simd * w),
            forall|k: int| 0 <= k < LANE_COUNT ==> b_chunk_simd[k] == bb[16 * r_simd + 15 - k],
            tri_hold(triangle@, aa, bb, r_simd as int, r as int, 0),
    {
        for c in 0..(LANE_COUNT - 1 - r)
            invariant
                triangle@.len() == 225,
                aa == a_wide@,
                bb == b_wide@,
                (r_simd - 1) * w + w == r_simd * w,
                n == w - 1,
                LANE_COUNT <= n,
                aa.len() == n + 15,
                1 <= r_simd,
                16 * r_simd + 16 <= bb.len(),
                bb.len() + 2 <= u32::MAX,
                r_simd * w <= stor_simd@.len(),
                r_simd * w <= usize::MAX,
            r_simd * w <= usize::MAX,
                store_hold(stor_simd@, aa, bb, n, w as int, r_simd * w),
                forall|k: int| 0 <= k < LANE_COUNT ==> b_chunk_simd[k] == bb[16 * r_simd + 15 - k],
                r < 15,
                tri_hold(triangle@, aa, bb, r_simd as int, r as int, c as int),
        {
            proof {
                let j = 16 * r_simd + r;
                lemma_prefix_step(aa, bb, c as int, j);
                lemma_prefix_step(aa, bb, c + 1, j);
                lemma_prefix_step(aa, bb, c as int, j + 1);
                if r > 0 {
                    assert(tri_at(triangle@, r - 1, c as int) as int == cell(aa, bb, c + 1, j));
                } else {
                    lemma_store_cell(stor_simd@, aa, bb, n, w as int, r_simd * w, r_simd - 1, c + 1, 0);
                }
                if c > 0 {
                    assert(tri_at(triangle@, r as int, c - 1) as int == cell(aa, bb, c as int, j + 1));
                }
                if r > 0 && c > 0 {
                    assert(tri_at(triangle@, r - 1, c - 1) as int == cell(aa, bb, c as int, j));
                } else if c > 0 {
                    lemma_store_cell(stor_simd@, aa, bb, n, w as int, r_simd * w, r_simd - 1, c as int, 0);
                }
            }
            let u: u32 = if r == 0 { stor_simd[(r_simd - 1) * w + c + 1][0] } else { triangle[(r - 1) * (LANE_COUNT - 1) + c] };
            let l: u32 = if c == 0 { (r + LANE_COUNT * r_simd) as u32 + 1 } else { triangle[r * (LANE_COUNT - 1) + c - 1] };
            let lu: u32 = if c == 0 { (r + LANE_COUNT * r_simd) as u32 }
                          else if r == 0 { stor_simd[(r_simd - 1) * w + c][0] }
                          else { triangle[(r - 1) * (LANE_COUNT - 1) + c - 1] };
            let diag = lu + if a_wide[c] == b_chunk_simd[LANE_COUNT - 1 - r] { 0 } else { 1 };
            let ghost prev = triangle@;
            triangle[r * (LANE_COUNT - 1) + c] = diag.min( l.min(u) + 1 );
            proof {
                lemma_tri_value(aa, bb, r_simd as int, r as int, c as int, u, l, lu, diag, triangle@[r * 15 + c]);
                lemma_tri_extend(prev, triangle@, aa, bb, r_simd as int, r as int, c as int, triangle@[r * 15 + c]);
            }
        }
        proof {
            lemma_tri_next_row(triangle@, aa, bb, r_simd as int, r as int);
        }
    }
}

/// The vector at column `c` of block `blk`, from the vectors `l_simd`, `u_simd`
/// and `lu_simd` of the left, upper and upper-left neighbours of its cells.
fn column_step(
    l_simd: &Lanes,
    u_simd: &Lanes,
    lu_simd: &Lanes,
    a_wnd_simd: &Lanes,
    b_chunk_simd: &Lanes,
    simd_1: &Lanes,
    Ghost(aa): Ghost<Seq<u32>>,
    Ghost(bb): Ghost<Seq<u32>>,
    Ghost(n): Ghost<int>,
    Ghost(blk): Ghost<int>,
    Ghost(c): Ghost<int>,
) -> (v: Lanes)
    requires
        1 <= c,
        n <= aa.len(),
        0 <= blk,
        16 * blk + 16 <= bb.len(),
        aa.len() + 1 < u32::MAX,
        bb.len() + 1 < u32::MAX,
        forall|k: int| 0 <= k < LANE_COUNT ==> simd_1[k] == 1,
        forall|k: int|
            0 <= k < LANE_COUNT && c + k <= n ==> {
                &&& #[trigger] l_simd[k] as int == cell(aa, bb, c + k - 1, 16 * blk + 16 - k)
                &&& u_simd[k] as int == cell(aa, bb, c + k, 16 * blk + 15 - k)
                &&& lu_simd[k] as int == cell(aa, bb, c + k - 1, 16 * blk + 15 - k)
                &&& a_wnd_simd[k] == aa[c - 1 + k]
            },
        forall|k: int| 0 <= k < LANE_COUNT ==> b_chunk_simd[k] == bb[16 * blk + 15 - k],
    ensures
        lanes_hold(v, aa, bb, n, blk, c),
{
    // Whether the characters at corresponding locations in a and b were equal
    let diag_delta_simd = lanes_mismatch(a_wnd_simd, b_chunk_simd);
    let diag = lanes_add(lu_simd, &diag_delta_simd);
    let lu_min = lanes_min(l_simd, u_simd);
    let side = lanes_add(&lu_min, simd_1);
    let v = lanes_min(&diag, &side);
    proof {
        let d = diag_delta_simd;
        assert forall|k: int| 0 <= k < LANE_COUNT implies #[trigger] v[k] == {
            let diag = lu_simd[k].wrapping_add(d[k]);
            let side = (if l_simd[k] <= u_simd[k] { l_simd[k] } else { u_simd[k] }).wrapping_add(1);
            if diag <= side { diag } else { side }
        } by {
            assert(side[k] == lu_min[k].wrapping_add(simd_1[k]));
            assert(diag[k] == lu_simd[k].wrapping_add(d[k]));
        }
        assert forall|k: int| 0 <= k < LANE_COUNT && c + k <= n implies {
            &&& #[trigger] l_simd[k] as int == cell(aa, bb, c + k - 1, 16 * blk + 16 - k)
            &&& u_simd[k] as int == cell(aa, bb, c + k, 16 * blk + 15 - k)
            &&& lu_simd[k] as int == cell(aa, bb, c + k - 1, 16 * blk + 15 - k)
            &&& d[k] as int == mismatch(aa[c + k - 1], bb[16 * blk + 15 - k])
        } by {
            assert(l_simd[k] as int == cell(aa, bb, c + k - 1, 16 * blk + 16 - k));
        }
        lemma_lanes_step(aa, bb, n, blk, c, *l_simd, *u_simd, *lu_simd, d, v);
    }
    v
}

/// The vector at column `c >= 2` of block `blk`, from the vectors at columns
/// `c - 1` and `c - 2` and from the two cells of the row above the block that
/// its last lane needs (`u_top` above it, `lu_top` above and to the left).
fn next_column(
    l_simd: &Lanes,
    ll_simd: &Lanes,
    u_top: u32,
    lu_top: u32,
    a_wnd_simd: &Lanes,
    b_chunk_simd: &Lanes,
    simd_1: &Lanes,
    Ghost(aa): Ghost<Seq<u32>>,
    Ghost(bb): Ghost<Seq<u32>>,
    Ghost(n): Ghost<int>,
    Ghost(blk): Ghost<int>,
    Ghost(c): Ghost<int>,
) -> (v: Lanes)
    requires
        2 <= c,
        n <= aa.len(),
        0 <= blk,
        16 * blk + 16 <= bb.len(),
        aa.len() + 1 < u32::MAX,
        bb.len() + 1 < u32::MAX,
        forall|k: int| 0 <= k < LANE_COUNT ==> simd_1[k] == 1,
        lanes_hold(*l_simd, aa, bb, n, blk, c - 1),
        lanes_hold(*ll_simd, aa, bb, n, blk, c - 2),
        c + 15 <= n ==> u_top as int == cell(aa, bb, c + 15, 16 * blk),
        c + 15 <= n ==> lu_top as int == cell(aa, bb, c + 14, 16 * blk),
        forall|k: int| 0 <= k < LANE_COUNT && c + k <= n ==> a_wnd_simd[k] == aa[c - 1 + k],
        forall|k: int| 0 <= k < LANE_COUNT ==> b_chunk_simd[k] == bb[16 * blk + 15 - k],
    ensures
        lanes_hold(v, aa, bb, n, blk, c),
{
    let mut u_simd = rotate_left_one(l_simd);
    u_simd[LANE_COUNT - 1] = u_top;
    let mut lu_simd = rotate_left_one(ll_simd);
    lu_simd[LANE_COUNT - 1] = lu_top;
    proof {
        assert forall|k: int| 0 <= k < LANE_COUNT && c + k <= n implies {
            &&& #[trigger] l_simd[k] as int == cell(aa, bb, c + k - 1, 16 * blk + 16 - k)
            &&& u_simd[k] as int == cell(aa, bb, c + k, 16 * blk + 15 - k)
            &&& lu_simd[k] as int == cell(aa, bb, c + k - 1, 16 * blk + 15 - k)
            &&& a_wnd_simd[k] == aa[c - 1 + k]
        } by {
            if k < LANE_COUNT - 1 {
                assert(l_simd[k + 1] as int == cell(aa, bb, c - 1 + k + 1, 16 * blk + 16 - (k + 1)));
                assert(ll_simd[k + 1] as int == cell(aa, bb, c - 2 + k + 1, 16 * blk + 16 - (k + 1)));
            }
            assert(l_simd[k] as int == cell(aa, bb, c - 1 + k, 16 * blk + 16 - k));
        }
    }
    column_step(
        l_simd,
        &u_simd,
        &lu_simd,
        a_wnd_simd,
        b_chunk_simd,
        simd_1,
        Ghost(aa),
        Ghost(bb),
        Ghost(n),
        Ghost(blk),
        Ghost(c),
    )
}

/// The vector at column 0 of a block: lane 0 is `head`, lane `k > 0` is the
/// triangle cell `(LANE_COUNT - 1 - k, k - 1)`.
fn left_column(triangle: &Vec<u32>, head: u32) -> (v: Lanes)
    requires
        triangle@.len() == 225,
    ensures
        v[0] == head,
        forall|k: int| 1 <= k < LANE_COUNT ==> v[k] == tri_at(triangle@, 15 - k, k - 1),
{
    let mut l_col: Vec<u32> = Vec::new();
    l_col.push(head);
    let mut i: usize = 0;
    while i < LANE_COUNT - 1
        invariant
            triangle@.len() == 225,
            i <= LANE_COUNT - 1,
            l_col@.len() == i + 1,
            l_col@[0] == head,
            forall|k: int| 1 <= k <= i ==> l_col@[k] == tri_at(triangle@, 15 - k, k - 1),
        decreases LANE_COUNT - 1 - i,
    {
        l_col.push(triangle[(LANE_COUNT - 2 - i) * (LANE_COUNT - 1) + i]);
        i += 1;
    }
    lanes_from_slice(&l_col, 0)
}

/// The upper-left neighbours of the cells of column 1 of a block: lane 0 is
/// `head`, lane `k` for `0 < k < LANE_COUNT - 1` is the triangle cell
/// `(LANE_COUNT - 2 - k, k - 1)`, and the last lane is `tail`.
fn upper_left_column(triangle: &Vec<u32>, head: u32, tail: u32) -> (v: Lanes)
    requires
        triangle@.len() == 225,
    ensures
        v[0] == head,
        forall|k: int| 1 <= k < LANE_COUNT - 1 ==> v[k] == tri_at(triangle@, 14 - k, k - 1),
        v[LANE_COUNT - 1] == tail,
{
    let mut lu_col: Vec<u32> = Vec::new();
    lu_col.push(head);
    let mut i: usize = 0;
    while i < LANE_COUNT - 2
        invariant
            triangle@.len() == 225,
            i <= LANE_COUNT - 2,
            lu_col@.len() == i + 1,
            lu_col@[0] == head,
            forall|k: int| 1 <= k <= i ==> lu_col@[k] == tri_at(triangle@, 14 - k, k - 1),
        decreases LANE_COUNT - 2 - i,
    {
        assert(LANE_COUNT - 3 - i >= 0);
        assert((LANE_COUNT - 3 - i) * (LANE_COUNT - 1) + i < 225);
        lu_col.push(triangle[(LANE_COUNT - 3 - i) * (LANE_COUNT - 1) + i]);
        i += 1;
    }
    lu_col.push(tail);
    lanes_from_slice(&lu_col, 0)
}

/// Levenshtein distance between two strings, counted in characters, by filling
/// the table along anti-diagonals, `LANE_COUNT` cells at a time.
///
/// The longer word runs along the rows of the table and the shorter one is cut
/// into blocks of `LANE_COUNT` rows (padded with zeros at the end).  In each
/// block a small triangle in the upper left corner is filled cell by cell; from
/// there on each column of the block is one vector whose lanes lie on an
/// anti-diagonal, computed from the two vectors before it and from the last row
/// of the block above.  When the longer word has fewer than `LANE_COUNT`
/// characters the whole table is filled instead (`dynamic_wasteful`).  When one
/// of the words is empty the result is the length in bytes of the other.
pub fn dynamic_simd_wasteful(a: &str, b: &str) -> (d: usize)
    requires
        (a@.len() + 1) * (b@.len() + 1) <= usize::MAX,
        a@.len() + 2 * LANE_COUNT <= u32::MAX,
        b@.len() + 2 * LANE_COUNT <= u32::MAX,
    ensures
        a@.len() == 0 ==> d == b.len(),
        a@.len() != 0 && b@.len() == 0 ==> d == a.len(),
        a@.len() != 0 && b@.len() != 0 ==> d == levenshtein(a@, b@),
{
    // Check if quick return is possible
    if a.is_empty() {
        return b.len();
    } else if b.is_empty() {
        return a.len();
    }
    let mut a_wide: Vec<u32> = code_points_of(a);
    let mut b_wide: Vec<u32> = code_points_of(b);
    proof {
        lemma_code_points_match(a@, b@, a_wide@, b_wide@);
        lemma_levenshtein_symmetric(a_wide@, b_wide@);
    }
    if a_wide.len() < b_wide.len() {
        let temp = a_wide;
        a_wide = b_wide;
        b_wide = temp;
    }
    if a_wide.len() < LANE_COUNT {
        return dynamic_wasteful(a, b);
    }
    let ghost a_real = a_wide@;
    let ghost b_real = b_wide@;
    let ghost n = a_real.len() as int;
    let ghost m = b_real.len() as int;
    assert(levenshtein(a_real, b_real) == levenshtein(a@, b@));
    assert(16 <= n && 1 <= m && m <= n);
    assert(n + 32 <= u32::MAX);
    let mut p: usize = 0;
    while p < LANE_COUNT - 1
        invariant
            p <= LANE_COUNT - 1,
            a_wide@.len() == n + p,
            forall|k: int| 0 <= k < n ==> a_wide@[k] == a_real[k],
        decreases LANE_COUNT - 1 - p,
    {
        a_wide.push(0);
        p += 1;
    }
    // The width of the dyn prog matrix is the unpadded char len of a + 1
    let w = a_wide.len() - LANE_COUNT + 2;
    let h_scalar = b_wide.len();
    let h_simd = (h_scalar + LANE_COUNT - 1) / LANE_COUNT;
    proof {
        assert(w == n + 1);
        assert(16 * h_simd >= m && 16 * h_simd <= m + 15 && h_simd >= 1);
        assert(w * h_simd <= usize::MAX) by (nonlinear_arith)
            requires
                w <= a@.len() + 1 || w <= b@.len() + 1,
                w <= a@.len() + 1 ==> h_simd <= b@.len() + 1,
                w <= b@.len() + 1 ==> h_simd <= a@.len() + 1,
                (a@.len() + 1) * (b@.len() + 1) <= usize::MAX,
                h_simd >= 1,
                w >= 1;
    }
    let mut stor_simd: Vec<Lanes> = vec![splat(0); w * h_simd];
    assert(w <= w * h_simd) by (nonlinear_arith)
        requires h_simd >= 1, w >= 1;
    // Allocate memory equal to the square, not the triangle for simplicity
    let mut triangle: Vec<u32> = vec![0; (LANE_COUNT - 1) * (LANE_COUNT - 1)];
    // Pad also b_wide so that we get even blocks
    let pad_len = h_simd * LANE_COUNT - h_scalar;
    let mut p: usize = 0;
    while p < pad_len
        invariant
            p <= pad_len,
            b_wide@.len() == m + p,
            forall|k: int| 0 <= k < m ==> b_wide@[k] == b_real[k],
        decreases pad_len - p,
    {
        b_wide.push(0);
        p += 1;
    }
    let ghost aa = a_wide@;
    let ghost bb = b_wide@;
    assert(aa.take(n) =~= a_real);
    assert(bb.take(m) =~= b_real);
    assert(aa.len() == n + 15 && bb.len() == 16 * h_simd);
    // Helper const
    let simd_1 = splat(1);
    let mut r_simd: usize = 0;
    // The first row of the SIMDs needs special care since it needs some of the constants on the first row of the whole matrix
    {
        // To match up with the a chunks, this needs to be reversed
        let b_chunk_simd = lanes_reversed(&b_wide, 0);
        // Do the triangle part
        fill_first_triangle(&mut triangle, &a_wide, &b_wide, &b_chunk_simd);
        // Get ready to construct SIMDs v0 and v1 (need two in the beginning to get the loop for rest started)
        let l_simd = left_column(&triangle, LANE_COUNT as u32);
        let u_simd = rotate_left_one(&l_simd);
        let lu_simd = upper_left_column(&triangle, LANE_COUNT as u32 - 1, LANE_COUNT as u32 - 1);
        // Get all the a windows that are gone through in this row
        let a_wnd_simd = lanes_from_slice(&a_wide, 0);
        proof {
            lemma_prefix_step(aa, bb, 0, 16);
            lemma_prefix_step(aa, bb, 0, 15);
            lemma_prefix_step(aa, bb, 16, 0);
            lemma_prefix_step(aa, bb, 15, 0);
            assert forall|k: int| 0 <= k < LANE_COUNT implies #[trigger] l_simd[k] as int == cell(aa, bb, k, 16 - k) by {
                if k > 0 {
                    assert(tri_at(triangle@, 15 - k, k - 1) as int == cell(aa, bb, k - 1 + 1, 16 * 0 + 1 + (15 - k)));
                }
            }
            assert forall|k: int| 0 <= k < LANE_COUNT && 1 + k <= n implies {
                &&& #[trigger] l_simd[k] as int == cell(aa, bb, 1 + k - 1, 16 * 0 + 16 - k)
                &&& u_simd[k] as int == cell(aa, bb, 1 + k, 16 * 0 + 15 - k)
                &&& lu_simd[k] as int == cell(aa, bb, 1 + k - 1, 16 * 0 + 15 - k)
                &&& a_wnd_simd[k] == aa[1 - 1 + k]
            } by {
                if k < LANE_COUNT - 1 {
                    assert(l_simd[k + 1] as int == cell(aa, bb, k + 1, 16 - (k + 1)));
                }
                if 1 <= k < LANE_COUNT - 1 {
                    assert(tri_at(triangle@, 14 - k, k - 1) as int == cell(aa, bb, k - 1 + 1, 16 * 0 + 1 + (14 - k)));
                }
            }
            assert(lanes_hold(l_simd, aa, bb, n, 0, 0));
        }
        let v0 = column_step(
            &l_simd,
            &u_simd,
            &lu_simd,
            &a_wnd_simd,
            &b_chunk_simd,
            &simd_1,
            Ghost(aa),
            Ghost(bb),
            Ghost(n),
            Ghost(0),
            Ghost(1),
        );
        proof {
            lemma_store_extend(stor_simd@, aa, bb, n, w as int, 0, 0, l_simd);
        }
        stor_simd[0] = l_simd;
        proof {
            lemma_store_extend(stor_simd@, aa, bb, n, w as int, 0, 1, v0);
        }
        stor_simd[1] = v0;
        // Now handle the rest of the first SIMD row
        let mut c: usize = 2;
        while c < w
            invariant
                2 <= c <= w,
                w == n + 1,
                LANE_COUNT <= n,
                aa == a_wide@,
                bb == b_wide@,
                aa.len() == n + 15,
            n + 32 <= u32::MAX,
                n + 32 <= u32::MAX,
                bb.len() == 16 * h_simd,
                1 <= h_simd,
                bb.len() + 2 <= u32::MAX,
                stor_simd@.len() == w * h_simd,
                w <= w * h_simd,
                forall|k: int| 0 <= k < LANE_COUNT ==> simd_1[k] == 1,
                forall|k: int| 0 <= k < LANE_COUNT ==> b_chunk_simd[k] == bb[16 * 0 + 15 - k],
                store_hold(stor_simd@, aa, bb, n, w as int, c as int),
            decreases w - c,
        {
            let l_simd = stor_simd[c - 1];
            let ll_simd = stor_simd[c - 2];
            let a_wnd_simd = lanes_from_slice(&a_wide, c - 1);
            proof {
                lemma_store_lanes(stor_simd@, aa, bb, n, w as int, c as int, 0, c - 1);
                lemma_store_lanes(stor_simd@, aa, bb, n, w as int, c as int, 0, c - 2);
                lemma_prefix_step(aa, bb, c + 15, 0);
                lemma_prefix_step(aa, bb, c + 14, 0);
            }
            let v = next_column(
                &l_simd,
                &ll_simd,
                (LANE_COUNT - 1 + c) as u32,
                (LANE_COUNT - 2 + c) as u32,
                &a_wnd_simd,
                &b_chunk_simd,
                &simd_1,
                Ghost(aa),
                Ghost(bb),
                Ghost(n),
                Ghost(0),
                Ghost(c as int),
            );
            proof {
                lemma_store_extend(stor_simd@, aa, bb, n, w as int, 0, c as int, v);
            }
            stor_simd[c] = v;
            c += 1;
        }
        r_simd += 1;
    }
    // Rest of the SIMD rows
    while r_simd < h_simd
        invariant
            1 <= r_simd <= h_simd,
            w == n + 1,
            LANE_COUNT <= n,
            aa == a_wide@,
            bb == b_wide@,
            aa.len() == n + 15,
            n + 32 <= u32::MAX,
            bb.len() == 16 * h_simd,
            bb.len() + 2 <= u32::MAX,
            stor_simd@.len() == w * h_simd,
            w * h_simd <= usize::MAX,
            triangle@.len() == 225,
            forall|k: int| 0 <= k < LANE_COUNT ==> simd_1[k] == 1,
            store_hold(stor_simd@, aa, bb, n, w as int, r_simd * w),
        decreases h_simd - r_simd,
    {
        proof {
            lemma_block_bounds(r_simd as int, w as int, h_simd as int);
        }
        let b_chunk_simd = lanes_reversed(&b_wide, r_simd * LANE_COUNT);
        // Do the triangle part
        fill_triangle(&mut triangle, &a_wide, &b_wide, &b_chunk_simd, &stor_simd, r_simd, w, Ghost(n));
        // Get ready to construct the first 2 SIMDs of this row
        let l_simd = left_column(&triangle, (LANE_COUNT * (r_simd + 1)) as u32);
        let mut u_simd = rotate_left_one(&l_simd);
        // Get the appropriate last element from the previous simd row
        u_simd[LANE_COUNT - 1] = stor_simd[(r_simd - 1) * w + LANE_COUNT][0];
        let lu_simd = upper_left_column(
            &triangle,
            (LANE_COUNT * (r_simd + 1)) as u32 - 1,
            stor_simd[(r_simd - 1) * w + LANE_COUNT - 1][0],
        );
        // Get all the a windows that are gone through in this row
        let a_wnd_simd = lanes_from_slice(&a_wide, 0);
        proof {
            let jj = 16 * r_simd;
            lemma_prefix_step(aa, bb, 0, jj + 16);
            lemma_prefix_step(aa, bb, 0, jj + 15);
            lemma_store_cell(stor_simd@, aa, bb, n, w as int, r_simd * w, r_simd - 1, 16, 0);
            lemma_store_cell(stor_simd@, aa, bb, n, w as int, r_simd * w, r_simd - 1, 15, 0);
            assert forall|k: int| 0 <= k < LANE_COUNT implies #[trigger] l_simd[k] as int == cell(aa, bb, k, jj + 16 - k) by {
                if k > 0 {
                    assert(tri_at(triangle@, 15 - k, k - 1) as int == cell(aa, bb, k - 1 + 1, jj + 1 + (15 - k)));
                }
            }
            assert forall|k: int| 0 <= k < LANE_COUNT && 1 + k <= n implies {
                &&& #[trigger] l_simd[k] as int == cell(aa, bb, 1 + k - 1, jj + 16 - k)
                &&& u_simd[k] as int == cell(aa, bb, 1 + k, jj + 15 - k)
                &&& lu_simd[k] as int == cell(aa, bb, 1 + k - 1, jj + 15 - k)
                &&& a_wnd_simd[k] == aa[1 - 1 + k]
            } by {
                if k < LANE_COUNT - 1 {
                    assert(l_simd[k + 1] as int == cell(aa, bb, k + 1, jj + 16 - (k + 1)));
                }
                if 1 <= k < LANE_COUNT - 1 {
                    assert(tri_at(triangle@, 14 - k, k - 1) as int == cell(aa, bb, k - 1 + 1, jj + 1 + (14 - k)));
                }
            }
            assert(lanes_hold(l_simd, aa, bb, n, r_simd as int, 0));
        }
        let v_first_of_row = column_step(
            &l_simd,
            &u_simd,
            &lu_simd,
            &a_wnd_simd,
            &b_chunk_simd,
            &simd_1,
            Ghost(aa),
            Ghost(bb),
            Ghost(n),
            Ghost(r_simd as int),
            Ghost(1),
        );
        proof {
            lemma_store_extend(stor_simd@, aa, bb, n, w as int, r_simd as int, 0, l_simd);
        }
        stor_simd[r_simd * w] = l_simd;
        proof {
            lemma_store_extend(stor_simd@, aa, bb, n, w as int, r_simd as int, 1, v_first_of_row);
        }
        stor_simd[r_simd * w + 1] = v_first_of_row;
        // Now handle the rest of this SIMD row
        let mut c: usize = 2;
        while c < w
            invariant
                2 <= c <= w,
                1 <= r_simd < h_simd,
                w == n + 1,
                LANE_COUNT <= n,
                aa == a_wide@,
                bb == b_wide@,
                aa.len() == n + 15,
            n + 32 <= u32::MAX,
                n + 32 <= u32::MAX,
                bb.len() == 16 * h_simd,
                bb.len() + 2 <= u32::MAX,
                stor_simd@.len() == w * h_simd,
                w * h_simd <= usize::MAX,
                r_simd * w == (r_simd - 1) * w + w,
                (r_simd + 1) * w == r_simd * w + w,
                r_simd * w + w <= w * h_simd,
                forall|k: int| 0 <= k < LANE_COUNT ==> simd_1[k] == 1,
                forall|k: int| 0 <= k < LANE_COUNT ==> b_chunk_simd[k] == bb[16 * r_simd + 15 - k],
                store_hold(stor_simd@, aa, bb, n, w as int, r_simd * w + c),
            decreases w - c,
        {
            let l_simd = stor_simd[r_simd * w + c - 1];
            let ll_simd = stor_simd[r_simd * w + c - 2];
            let a_wnd_simd = lanes_from_slice(&a_wide, c - 1);
            let u_top = stor_simd[(r_simd - 1) * w + c + LANE_COUNT - 1][0];
            let lu_top = stor_simd[(r_simd - 1) * w + c + LANE_COUNT - 2][0];
            proof {
                lemma_store_lanes(stor_simd@, aa, bb, n, w as int, r_simd * w + c, r_simd as int, c - 1);
                lemma_store_lanes(stor_simd@, aa, bb, n, w as int, r_simd * w + c, r_simd as int, c - 2);
                if c + 15 <= n {
                    lemma_store_cell(stor_simd@, aa, bb, n, w as int, r_simd * w + c, r_simd - 1, c + 15, 0);
                    lemma_store_cell(stor_simd@, aa, bb, n, w as int, r_simd * w + c, r_simd - 1, c + 14, 0);
                }
            }
            let v = next_column(
                &l_simd,
                &ll_simd,
                u_top,
                lu_top,
                &a_wnd_simd,
                &b_chunk_simd,
                &simd_1,
                Ghost(aa),
                Ghost(bb),
                Ghost(n),
                Ghost(r_simd as int),
                Ghost(c as int),
            );
            proof {
                lemma_store_extend(stor_simd@, aa, bb, n, w as int, r_simd as int, c as int, v);
            }
            stor_simd[r_simd * w + c] = v;
            c += 1;
        }
        r_simd += 1;
    }
    proof {
        let last = h_simd - 1;
        assert(h_simd * w - 1 - pad_len == last * w + (w - 1 - pad_len)) by (nonlinear_arith)
            requires last == h_simd - 1;
        assert(h_simd * w == w * h_simd) by (nonlinear_arith);
        lemma_store_cell(stor_simd@, aa, bb, n, w as int, h_simd * w, last, w - 1 - pad_len, pad_len as int);
        assert(cell(aa, bb, n, m) == levenshtein(a_real, b_real));
    }
    stor_simd[h_simd * w - 1 - pad_len][pad_len] as usize
}

} // verus!
