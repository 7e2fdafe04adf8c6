//! Segments and exact integer geometry: squared Euclidean distances,
//! direction reversal, direction-insensitive equality, and an integer
//! floor square root used by the length estimator.

use vstd::prelude::*;

verus! {

/// A directed cutting move from `(x1, y1)` to `(x2, y2)`, in micrometers.
#[derive(Clone, Copy, PartialEq, Eq, Structural, Debug)]
pub struct Segment {
    pub x1: i32,
    pub y1: i32,
    pub x2: i32,
    pub y2: i32,
}

/// Mathematical value of a segment: the same four coordinates as
/// unbounded integers.
pub ghost struct SegV {
    pub x1: int,
    pub y1: int,
    pub x2: int,
    pub y2: int,
}

impl View for Segment {
    type V = SegV;

    open spec fn view(&self) -> SegV {
        SegV { x1: self.x1 as int, y1: self.y1 as int, x2: self.x2 as int, y2: self.y2 as int }
    }
}

/// The same move traversed in the opposite direction.
pub open spec fn seg_rev(s: SegV) -> SegV {
    SegV { x1: s.x2, y1: s.y2, x2: s.x1, y2: s.y1 }
}

/// Two segments denote the same physical cut: equal endpoints in either order.
pub open spec fn seg_match(a: SegV, b: SegV) -> bool {
    a == b || a == seg_rev(b)
}

/// Squared Euclidean distance between two points.
pub open spec fn pt_sq_dist(ax: int, ay: int, bx: int, by: int) -> int {
    (bx - ax) * (bx - ax) + (by - ay) * (by - ay)
}

/// Squared length of a segment's cutting move.
pub open spec fn seg_len_sq(s: SegV) -> int {
    pt_sq_dist(s.x1, s.y1, s.x2, s.y2)
}

/// Squared travel distance from the end of `a` to the start of `b`.
pub open spec fn travel_sq(a: SegV, b: SegV) -> int {
    pt_sq_dist(a.x2, a.y2, b.x1, b.y1)
}

/// Direction-insensitive canonical form: the endpoint pair ordered so that
/// the lexicographically smaller endpoint comes first.
pub open spec fn seg_canon(s: SegV) -> SegV {
    if s.x1 < s.x2 || (s.x1 == s.x2 && s.y1 <= s.y2) {
        s
    } else {
        seg_rev(s)
    }
}

/// Reversal does not change the canonical form.
pub proof fn lemma_canon_rev(s: SegV)
    ensures
        seg_canon(seg_rev(s)) == seg_canon(s),
{
}

/// Two segments match (same cut, either direction) exactly when their
/// canonical forms are equal.
pub proof fn lemma_match_iff_canon(a: SegV, b: SegV)
    ensures
        seg_match(a, b) <==> seg_canon(a) == seg_canon(b),
{
}

/// `0 <= a * a <= b * b` whenever `-b <= a <= b`.
pub proof fn lemma_sq_bounds(a: int, b: int)
    by (nonlinear_arith)
    requires
        -b <= a,
        a <= b,
    ensures
        0 <= a * a,
        a * a <= b * b,
{
}

/// Squaring is monotone on non-negative integers.
pub proof fn lemma_sq_mono(a: int, b: int)
    by (nonlinear_arith)
    requires
        0 <= a,
        a <= b,
    ensures
        a * a <= b * b,
{
}

/// Squared distances of points with `i32` coordinates are non-negative and
/// below `2^66`.
pub proof fn lemma_pt_sq_dist_range(ax: int, ay: int, bx: int, by: int)
    requires
        i32::MIN <= ax <= i32::MAX,
        i32::MIN <= ay <= i32::MAX,
        i32::MIN <= bx <= i32::MAX,
        i32::MIN <= by <= i32::MAX,
    ensures
        0 <= pt_sq_dist(ax, ay, bx, by),
        pt_sq_dist(ax, ay, bx, by) < 0x4_0000_0000_0000_0000,
{
    lemma_sq_bounds(bx - ax, 0xffff_ffff);
    lemma_sq_bounds(by - ay, 0xffff_ffff);
}

/// Exact squared distance between two points given by `i32` coordinates.
pub fn dist_sq_points(ax: i32, ay: i32, bx: i32, by: i32) -> (r: u128)
    ensures
        r as int == pt_sq_dist(ax as int, ay as int, bx as int, by as int),
{
    let dx: i64 = bx as i64 - ax as i64;
    let dy: i64 = by as i64 - ay as i64;
    proof {
        lemma_sq_bounds(dx as int, 0xffff_ffff);
        lemma_sq_bounds(dy as int, 0xffff_ffff);
    }
    ((dx as i128 * dx as i128) + (dy as i128 * dy as i128)) as u128
}

impl Segment {
    /// Whether the two segments denote the same physical cut, in either
    /// direction.
    pub fn is_equal(&self, other: &Segment) -> (r: bool)
        ensures
            r == seg_match(self@, other@),
    {
        (self.x1 == other.x1 && self.y1 == other.y1 && self.x2 == other.x2
            && self.y2 == other.y2)
            || (self.x1 == other.x2 && self.y1 == other.y2 && self.x2 == other.x1
                && self.y2 == other.y1)
    }

    /// The segment with its two endpoints swapped.
    pub fn reversed(&self) -> (r: Segment)
        ensures
            r@ == seg_rev(self@),
    {
        Segment { x1: self.x2, y1: self.y2, x2: self.x1, y2: self.y1 }
    }

    /// Squared cutting length of this segment, in square micrometers.
    pub fn length_sq_um2(&self) -> (r: u128)
        ensures
            r as int == seg_len_sq(self@),
    {
        dist_sq_points(self.x1, self.y1, self.x2, self.y2)
    }

    /// Squared travel distance from the end of `self` to the start of
    /// `other`, in square micrometers.
    pub fn travel_sq_to(&self, other: &Segment) -> (r: u128)
        ensures
            r as int == travel_sq(self@, other@),
    {
        dist_sq_points(self.x2, self.y2, other.x1, other.y1)
    }
}

/// Integer floor square root: the largest `r` with `r * r <= n`.
pub open spec fn sqrt_floor(n: int) -> int
    decreases n,
{
    if n <= 0 {
        0
    } else {
        let r = sqrt_floor(n - 1);
        if (r + 1) * (r + 1) <= n {
            r + 1
        } else {
            r
        }
    }
}

/// `sqrt_floor(n)` brackets `n` between consecutive squares.
pub proof fn lemma_sqrt_floor(n: int)
    requires
        0 <= n,
    ensures
        0 <= sqrt_floor(n),
        sqrt_floor(n) * sqrt_floor(n) <= n,
        n < (sqrt_floor(n) + 1) * (sqrt_floor(n) + 1),
    decreases n,
{
    if n == 0 {
    } else {
        lemma_sqrt_floor(n - 1);
        let r = sqrt_floor(n - 1);
        if (r + 1) * (r + 1) <= n {
            assert(n < (r + 2) * (r + 2)) by (nonlinear_arith)
                requires
                    0 <= r,
                    n - 1 < (r + 1) * (r + 1),
                    (r + 1) * (r + 1) <= n,
            {
            }
        }
    }
}

/// The bracket `r * r <= n < (r + 1) * (r + 1)` determines `r` uniquely.
pub proof fn lemma_sqrt_floor_unique(n: int, r: int)
    requires
        0 <= n,
        0 <= r,
        r * r <= n,
        n < (r + 1) * (r + 1),
    ensures
        sqrt_floor(n) == r,
{
    lemma_sqrt_floor(n);
    let s = sqrt_floor(n);
    if s < r {
        lemma_sq_mono(s + 1, r);
    }
    if r < s {
        lemma_sq_mono(r + 1, s);
    }
}

/// The floor square root of anything below `2^66` fits below `2^33`.
pub proof fn lemma_sqrt_floor_bound(n: int)
    requires
        0 <= n,
        n < 0x4_0000_0000_0000_0000,
    ensures
        0 <= sqrt_floor(n),
        sqrt_floor(n) < 0x2_0000_0000,
{
    lemma_sqrt_floor(n);
    let r = sqrt_floor(n);
    if r >= 0x2_0000_0000 {
        lemma_sq_mono(0x2_0000_0000, r);
    }
}

/// Executable integer floor square root, by binary search.
pub(crate) fn isqrt_um(n: u128) -> (r: u128)
    requires
        n < 0x4_0000_0000_0000_0000,
    ensures
        r as int == sqrt_floor(n as int),
        r < 0x2_0000_0000,
{
    let mut lo: u128 = 0;
    let mut hi: u128 = 0x2_0000_0000;
    while lo + 1 < hi
        invariant
            lo < hi,
            hi <= 0x2_0000_0000,
            lo * lo <= n as int,
            (n as int) < hi * hi,
        decreases hi - lo,
    {
        let mid: u128 = lo + (hi - lo) / 2;
        proof {
            lemma_sq_mono(mid as int, 0x2_0000_0000);
        }
        if mid * mid <= n {
            lo = mid;
        } else {
            hi = mid;
        }
    }
    proof {
        lemma_sqrt_floor_unique(n as int, lo as int);
    }
    lo
}

} // verus!
