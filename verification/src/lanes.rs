//! Fixed-width vectors of `u32` lanes, with the lane-wise operations that the
//! anti-diagonal scheme of `dynamic_simd_wasteful` applies to them.  Each
//! operation works lane by lane; additions wrap around, as vector additions do.
use vstd::prelude::*;

verus! {

/// Number of lanes in a vector.
pub const LANE_COUNT: usize = 16;

/// A vector of `LANE_COUNT` lanes.
pub type Lanes = [u32; LANE_COUNT];

/// Every lane holds `x`.
pub fn splat(x: u32) -> (v: Lanes)
    ensures
        forall|k: int| 0 <= k < LANE_COUNT ==> v[k] == x,
{
    [x; LANE_COUNT]
}

/// Lane `k` takes lane `k + 1`; the last lane takes the first.
pub fn rotate_left_one(v: &Lanes) -> (r: Lanes)
    ensures
        forall|k: int| 0 <= k < LANE_COUNT - 1 ==> r[k] == v[k + 1],
        r[LANE_COUNT - 1] == v[0],
{
    let mut r: Lanes = [0; LANE_COUNT];
    let mut k: usize = 0;
    while k < LANE_COUNT - 1
        invariant
            0 <= k <= LANE_COUNT - 1,
            forall|q: int| 0 <= q < k ==> r[q] == v[q + 1],
        decreases LANE_COUNT - k,
    {
        r[k] = v[k + 1];
        k += 1;
    }
    r[LANE_COUNT - 1] = v[0];
    r
}

/// Lane-wise minimum.
pub fn lanes_min(x: &Lanes, y: &Lanes) -> (r: Lanes)
    ensures
        forall|k: int| 0 <= k < LANE_COUNT ==> r[k] == if x[k] <= y[k] { x[k] } else { y[k] },
{
    let mut r: Lanes = [0; LANE_COUNT];
    let mut k: usize = 0;
    while k < LANE_COUNT
        invariant
            0 <= k <= LANE_COUNT,
            forall|q: int| 0 <= q < k ==> r[q] == if x[q] <= y[q] { x[q] } else { y[q] },
        decreases LANE_COUNT - k,
    {
        r[k] = if x[k] <= y[k] { x[k] } else { y[k] };
        k += 1;
    }
    r
}

/// Lane-wise sum, wrapping around on overflow.
pub fn lanes_add(x: &Lanes, y: &Lanes) -> (r: Lanes)
    ensures
        forall|k: int| 0 <= k < LANE_COUNT ==> r[k] == #[trigger] x[k].wrapping_add(y[k]),
{
    let mut r: Lanes = [0; LANE_COUNT];
    let mut k: usize = 0;
    while k < LANE_COUNT
        invariant
            0 <= k <= LANE_COUNT,
            forall|q: int| 0 <= q < k ==> r[q] == #[trigger] x[q].wrapping_add(y[q]),
        decreases LANE_COUNT - k,
    {
        r[k] = x[k].wrapping_add(y[k]);
        k += 1;
    }
    r
}

/// The `LANE_COUNT` elements of `s` from `start` on.
pub fn lanes_from_slice(s: &[u32], start: usize) -> (r: Lanes)
    requires
        start + LANE_COUNT <= s@.len(),
    ensures
        forall|k: int| 0 <= k < LANE_COUNT ==> r[k] == s@[start + k],
{
    let mut r: Lanes = [0; LANE_COUNT];
    let mut k: usize = 0;
    while k < LANE_COUNT
        invariant
            0 <= k <= LANE_COUNT,
            start + LANE_COUNT <= s@.len(),
            s@.len() == s.len(),
            forall|q: int| 0 <= q < k ==> r[q] == s@[start + q],
        decreases LANE_COUNT - k,
    {
        r[k] = s[start + k];
        k += 1;
    }
    r
}

/// The `LANE_COUNT` elements of `s` from `start` on, in reverse order.
pub fn lanes_reversed(s: &[u32], start: usize) -> (r: Lanes)
    requires
        start + LANE_COUNT <= s@.len(),
    ensures
        forall|k: int| 0 <= k < LANE_COUNT ==> r[k] == s@[start + LANE_COUNT - 1 - k],
{
    let mut r: Lanes = [0; LANE_COUNT];
    let mut k: usize = 0;
    while k < LANE_COUNT
        invariant
            0 <= k <= LANE_COUNT,
            start + LANE_COUNT <= s@.len(),
            s@.len() == s.len(),
            forall|q: int| 0 <= q < k ==> r[q] == s@[start + LANE_COUNT - 1 - q],
        decreases LANE_COUNT - k,
    {
        r[k] = s[start + LANE_COUNT - 1 - k];
        k += 1;
    }
    r
}

/// Zero in the lanes where `x` and `y` agree, one elsewhere.
pub fn lanes_mismatch(x: &Lanes, y: &Lanes) -> (r: Lanes)
    ensures
        forall|k: int| 0 <= k < LANE_COUNT ==> r[k] == if x[k] == y[k] { 0u32 } else { 1u32 },
{
    let mut r: Lanes = [0; LANE_COUNT];
    let mut k: usize = 0;
    while k < LANE_COUNT
        invariant
            0 <= k <= LANE_COUNT,
            forall|q: int| 0 <= q < k ==> r[q] == if x[q] == y[q] { 0u32 } else { 1u32 },
        decreases LANE_COUNT - k,
    {
        r[k] = if x[k] == y[k] { 0 } else { 1 };
        k += 1;
    }
    r
}

} // verus!
