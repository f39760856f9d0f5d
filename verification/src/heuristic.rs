//! Estimates of the remaining cost between two cells.

use vstd::prelude::*;
use crate::models::Coord;

verus! {

/// The interchangeable estimate functions. Each maps a pair of coordinate
/// deltas to a non-negative integer and keeps no state.
#[derive(Debug, Clone, Copy, PartialEq, Eq, Structural)]
pub enum Heuristic {
    /// Always zero.
    Zero,
    /// `|dx| + |dy|`.
    Manhattan,
    /// The square root of `dx^2 + dy^2`, rounded down.
    Euclidean,
    /// `max(|dx|, |dy|)`.
    Chebyshev,
    /// The shorter delta weighted by `OCTILE_NUMERATOR / OCTILE_DENOMINATOR`
    /// and rounded down, plus the difference of the two deltas.
    Octile,
    /// `dx^2 + dy^2`: cheap to compute, and it overestimates.
    Mine,
}

/// Numerator of the weight that [`Heuristic::Octile`] gives the shorter delta.
pub const OCTILE_NUMERATOR: i64 = 41421356;

/// Denominator of the weight that [`Heuristic::Octile`] gives the shorter delta.
pub const OCTILE_DENOMINATOR: i64 = 100000000;

pub open spec fn abs_of(v: int) -> int {
    if v < 0 {
        -v
    } else {
        v
    }
}

pub open spec fn smaller_of(a: int, b: int) -> int {
    if a <= b {
        a
    } else {
        b
    }
}

pub open spec fn larger_of(a: int, b: int) -> int {
    if a <= b {
        b
    } else {
        a
    }
}

/// `r` is the square root of `n`, rounded down.
pub open spec fn is_floor_sqrt(n: int, r: int) -> bool {
    0 <= r && r * r <= n < (r + 1) * (r + 1)
}

/// The square root of `n`, rounded down (for `n >= 0`).
pub open spec fn floor_sqrt(n: int) -> int {
    choose|r: int| is_floor_sqrt(n, r)
}

/// A number has at most one rounded-down square root, so a witness pins
/// [`floor_sqrt`].
pub proof fn lemma_floor_sqrt_unique(n: int, r: int)
    requires
        is_floor_sqrt(n, r),
    ensures
        floor_sqrt(n) == r,
{
    let s = floor_sqrt(n);
    assert(is_floor_sqrt(n, s));
    if s < r {
        assert((s + 1) * (s + 1) <= r * r) by (nonlinear_arith)
            requires
                0 <= s + 1 <= r,
        ;
    }
    if r < s {
        assert((r + 1) * (r + 1) <= s * s) by (nonlinear_arith)
            requires
                0 <= r + 1 <= s,
        ;
    }
}

/// Rounded-down square root by bisection.
fn isqrt(n: u128) -> (r: u64)
    requires
        n < 0x4_0000_0000_0000_0000,
    ensures
        is_floor_sqrt(n as int, r as int),
        r < 0x2_0000_0000,
{
    let mut lo: u64 = 0;
    let mut hi: u64 = 0x2_0000_0000;
    assert(0x2_0000_0000int * 0x2_0000_0000int == 0x4_0000_0000_0000_0000int) by (nonlinear_arith);
    while hi - lo > 1
        invariant
            lo < hi <= 0x2_0000_0000,
            lo * lo <= n,
            n < hi * hi,
        decreases hi - lo,
    {
        let mid: u64 = lo + (hi - lo) / 2;
        assert(mid * mid < 0x4_0000_0000_0000_0000) by (nonlinear_arith)
            requires
                0 <= mid < 0x2_0000_0000,
        ;
        let sq: u128 = (mid as u128) * (mid as u128);
        if sq <= n {
            lo = mid;
        } else {
            hi = mid;
        }
    }
    lo
}

impl Heuristic {
    pub open spec fn label(self) -> Seq<char> {
        match self {
            Heuristic::Zero => "Always 0"@,
            Heuristic::Manhattan => "Manhattan"@,
            Heuristic::Euclidean => "Euclidean"@,
            Heuristic::Chebyshev => "Chebyshev"@,
            Heuristic::Octile => "Octile"@,
            Heuristic::Mine => "Fast but less accurate"@,
        }
    }

    pub fn name(&self) -> (s: String)
        ensures
            s@ == self.label(),
    {
        match self {
            Heuristic::Zero => "Always 0".to_owned(),
            Heuristic::Manhattan => "Manhattan".to_owned(),
            Heuristic::Euclidean => "Euclidean".to_owned(),
            Heuristic::Chebyshev => "Chebyshev".to_owned(),
            Heuristic::Octile => "Octile".to_owned(),
            Heuristic::Mine => "Fast but less accurate".to_owned(),
        }
    }

    pub fn len() -> (n: usize)
        ensures
            n == 6,
    {
        6
    }

    pub open spec fn at(idx: int) -> Heuristic {
        if idx == 0 {
            Heuristic::Zero
        } else if idx == 1 {
            Heuristic::Manhattan
        } else if idx == 2 {
            Heuristic::Euclidean
        } else if idx == 3 {
            Heuristic::Chebyshev
        } else if idx == 4 {
            Heuristic::Octile
        } else {
            Heuristic::Mine
        }
    }

    /// The heuristic listed at position `idx`; positions run from 0 below
    /// [`Heuristic::len`].
    pub fn from_index(idx: usize) -> (h: Heuristic)
        requires
            idx < 6,
        ensures
            h == Heuristic::at(idx as int),
    {
        if idx == 0 {
            Heuristic::Zero
        } else if idx == 1 {
            Heuristic::Manhattan
        } else if idx == 2 {
            Heuristic::Euclidean
        } else if idx == 3 {
            Heuristic::Chebyshev
        } else if idx == 4 {
            Heuristic::Octile
        } else {
            Heuristic::Mine
        }
    }

    /// The estimate for coordinate deltas `dx` and `dy`, as a mathematical
    /// integer. Only the magnitudes of the deltas count.
    pub open spec fn value(self, dx: int, dy: int) -> int {
        let a = abs_of(dx);
        let b = abs_of(dy);
        match self {
            Heuristic::Zero => 0,
            Heuristic::Manhattan => a + b,
            Heuristic::Euclidean => floor_sqrt(a * a + b * b),
            Heuristic::Chebyshev => larger_of(a, b),
            Heuristic::Octile => (smaller_of(a, b) * OCTILE_NUMERATOR) / (OCTILE_DENOMINATOR as int)
                + (larger_of(a, b) - smaller_of(a, b)),
            Heuristic::Mine => a * a + b * b,
        }
    }

    /// The estimate from `current` to the single goal `end`.
    pub open spec fn between(self, current: Coord, end: Coord) -> int {
        self.value(current.x - end.x, current.y - end.y)
    }

    /// The sum of the estimates from `current` to every goal in `ends`.
    pub open spec fn total(self, current: Coord, ends: Seq<Coord>) -> int
        decreases ends.len(),
    {
        if ends.len() == 0 {
            0
        } else {
            self.total(current, ends.drop_last()) + self.between(current, ends.last())
        }
    }

    /// The least of the estimates from `current` to the goals in `ends`, and
    /// zero when there is no goal.
    pub open spec fn nearest(self, current: Coord, ends: Seq<Coord>) -> int
        decreases ends.len(),
    {
        if ends.len() == 0 {
            0
        } else if ends.len() == 1 {
            self.between(current, ends.last())
        } else {
            smaller_of(self.nearest(current, ends.drop_last()), self.between(current, ends.last()))
        }
    }

    /// No estimate is negative.
    pub proof fn lemma_value_nonnegative(self, dx: int, dy: int)
        ensures
            0 <= self.value(dx, dy),
    {
        let a = abs_of(dx);
        let b = abs_of(dy);
        assert(0 <= a * a) by (nonlinear_arith);
        assert(0 <= b * b) by (nonlinear_arith);
        match self {
            Heuristic::Euclidean => {
                lemma_floor_sqrt_exists(a * a + b * b);
            },
            Heuristic::Octile => {
                let m = smaller_of(a, b);
                assert(0 <= m * OCTILE_NUMERATOR) by (nonlinear_arith)
                    requires
                        0 <= m,
                ;
            },
            _ => {},
        }
    }

    /// The sum over a prefix of the goals never exceeds the sum over all.
    pub proof fn lemma_total_prefix(self, current: Coord, ends: Seq<Coord>, k: int)
        requires
            0 <= k <= ends.len(),
        ensures
            0 <= self.total(current, ends.take(k)) <= self.total(current, ends),
        decreases ends.len() - k,
    {
        if k == ends.len() {
            assert(ends.take(k) =~= ends);
            self.lemma_total_nonnegative(current, ends);
        } else {
            self.lemma_total_prefix(current, ends, k + 1);
            assert(ends.take(k + 1).drop_last() =~= ends.take(k));
            self.lemma_value_nonnegative(current.x - ends[k].x, current.y - ends[k].y);
            self.lemma_total_nonnegative(current, ends.take(k));
        }
    }

    pub proof fn lemma_total_nonnegative(self, current: Coord, ends: Seq<Coord>)
        ensures
            0 <= self.total(current, ends),
        decreases ends.len(),
    {
        if ends.len() > 0 {
            self.lemma_total_nonnegative(current, ends.drop_last());
            self.lemma_value_nonnegative(
                current.x - ends.last().x,
                current.y - ends.last().y,
            );
        }
    }

    /// For at least one goal, the nearest estimate is the estimate to one of
    /// the goals, and no goal is estimated nearer.
    pub proof fn lemma_nearest_is_least(self, current: Coord, ends: Seq<Coord>) -> (k: int)
        requires
            ends.len() >= 1,
        ensures
            0 <= k < ends.len(),
            self.nearest(current, ends) == self.between(current, ends[k]),
            forall|j: int|
                0 <= j < ends.len() ==> self.nearest(current, ends) <= self.between(
                    current,
                    #[trigger] ends[j],
                ),
        decreases ends.len(),
    {
        if ends.len() == 1 {
            0
        } else {
            let front = ends.drop_last();
            let k0 = self.lemma_nearest_is_least(current, front);
            let last = ends.len() - 1;
            assert(front[k0] == ends[k0]);
            assert forall|j: int| 0 <= j < ends.len() implies self.nearest(current, ends)
                <= self.between(current, #[trigger] ends[j]) by {
                if j < last {
                    assert(front[j] == ends[j]);
                }
            }
            if self.between(current, ends[last]) < self.nearest(current, front) {
                last
            } else {
                k0
            }
        }
    }

    /// For a single goal, the sum and the nearest estimate are the
    /// estimate to that goal.
    pub proof fn lemma_single_goal(self, current: Coord, end: Coord)
        ensures
            self.total(current, seq![end]) == self.between(current, end),
            self.nearest(current, seq![end]) == self.between(current, end),
    {
        let ends = seq![end];
        assert(ends.drop_last() =~= Seq::<Coord>::empty());
        assert(ends.last() == end);
        assert(self.total(current, ends.drop_last()) == 0);
    }

    /// The heuristic that is always zero adds up to zero, by either way of
    /// weighing several goals.
    pub proof fn lemma_zero_estimates(current: Coord, ends: Seq<Coord>)
        ensures
            Heuristic::Zero.total(current, ends) == 0,
            Heuristic::Zero.nearest(current, ends) == 0,
        decreases ends.len(),
    {
        if ends.len() > 0 {
            Self::lemma_zero_estimates(current, ends.drop_last());
        }
    }

    /// A bound on the estimate between any two cells of a grid `w` wide and
    /// `h` high.
    pub open spec fn ceiling(self, w: int, h: int) -> int {
        match self {
            Heuristic::Zero => 0,
            Heuristic::Mine => w * w + h * h,
            _ => w + h,
        }
    }

    /// Deltas inside a grid keep the estimate below [`Heuristic::ceiling`].
    pub proof fn lemma_value_ceiling(self, dx: int, dy: int, w: int, h: int)
        requires
            -w < dx < w,
            -h < dy < h,
        ensures
            0 <= self.value(dx, dy) <= self.ceiling(w, h),
    {
        let a = abs_of(dx);
        let b = abs_of(dy);
        self.lemma_value_nonnegative(dx, dy);
        match self {
            Heuristic::Euclidean => {
                let n = a * a + b * b;
                assert(0 <= a * a) by (nonlinear_arith);
                assert(0 <= b * b) by (nonlinear_arith);
                lemma_floor_sqrt_exists(n);
                let r = floor_sqrt(n);
                assert(n <= (a + b) * (a + b)) by (nonlinear_arith)
                    requires
                        n == a * a + b * b,
                        0 <= a,
                        0 <= b,
                ;
                if r > a + b {
                    assert(r * r > (a + b) * (a + b)) by (nonlinear_arith)
                        requires
                            r > a + b,
                            a + b >= 0,
                    ;
                }
            },
            Heuristic::Octile => {
                let m = smaller_of(a, b);
                assert((m * OCTILE_NUMERATOR) / (OCTILE_DENOMINATOR as int) <= m) by (nonlinear_arith)
                    requires
                        0 <= m,
                        OCTILE_NUMERATOR == 41421356,
                        OCTILE_DENOMINATOR == 100000000,
                ;
            },
            Heuristic::Mine => {
                assert(a * a <= w * w) by (nonlinear_arith)
                    requires
                        0 <= a < w,
                ;
                assert(b * b <= h * h) by (nonlinear_arith)
                    requires
                        0 <= b < h,
                ;
            },
            _ => {},
        }
    }

    /// Between cells of a grid, the sum over `ends` stays below the number
    /// of goals times [`Heuristic::ceiling`].
    pub proof fn lemma_total_ceiling(self, current: Coord, ends: Seq<Coord>, w: int, h: int)
        requires
            current.in_bounds(w, h),
            forall|k: int| 0 <= k < ends.len() ==> (#[trigger] ends[k]).in_bounds(w, h),
        ensures
            0 <= self.total(current, ends) <= ends.len() * self.ceiling(w, h),
        decreases ends.len(),
    {
        if ends.len() > 0 {
            let front = ends.drop_last();
            assert forall|k: int| 0 <= k < front.len() implies (#[trigger] front[k]).in_bounds(
                w,
                h,
            ) by {
                assert(front[k] == ends[k]);
            }
            self.lemma_total_ceiling(current, front, w, h);
            let last = ends[ends.len() - 1];
            assert(last.in_bounds(w, h));
            self.lemma_value_ceiling(current.x - last.x, current.y - last.y, w, h);
            assert(ends.len() * self.ceiling(w, h) == front.len() * self.ceiling(w, h)
                + self.ceiling(w, h)) by (nonlinear_arith)
                requires
                    ends.len() == front.len() + 1,
            ;
        } else {
            assert(ends.len() * self.ceiling(w, h) == 0) by (nonlinear_arith)
                requires
                    ends.len() == 0,
            ;
        }
    }

    /// The estimate for deltas that may be as wide as the difference of two
    /// `i32` coordinates.
    fn estimate(&self, dx: i64, dy: i64) -> (r: i32)
        requires
            -0x1_0000_0000 < dx < 0x1_0000_0000,
            -0x1_0000_0000 < dy < 0x1_0000_0000,
            self.value(dx as int, dy as int) <= i32::MAX,
        ensures
            r == self.value(dx as int, dy as int),
    {
        let a: i64 = if dx < 0 { -dx } else { dx };
        let b: i64 = if dy < 0 { -dy } else { dy };
        proof {
            self.lemma_value_nonnegative(dx as int, dy as int);
            assert(0 <= a * a) by (nonlinear_arith);
            assert(0 <= b * b) by (nonlinear_arith);
        }
        match self {
            Heuristic::Zero => 0,
            Heuristic::Manhattan => (a + b) as i32,
            Heuristic::Euclidean => {
                assert(a * a + b * b < 0x4_0000_0000_0000_0000) by (nonlinear_arith)
                    requires
                        0 <= a < 0x1_0000_0000,
                        0 <= b < 0x1_0000_0000,
                ;
                let n: u128 = (a as u128) * (a as u128) + (b as u128) * (b as u128);
                let root = isqrt(n);
                proof {
                    lemma_floor_sqrt_unique(n as int, root as int);
                }
                root as i32
            },
            Heuristic::Chebyshev => if a <= b { b as i32 } else { a as i32 },
            Heuristic::Octile => {
                let lo: i64 = if a <= b { a } else { b };
                let hi: i64 = if a <= b { b } else { a };
                let part: i64 = lo * OCTILE_NUMERATOR / OCTILE_DENOMINATOR;
                assert(0 <= part);
                (part + (hi - lo)) as i32
            },
            Heuristic::Mine => {
                proof {
                    lemma_square_bound(a as int);
                    lemma_square_bound(b as int);
                }
                (a * a + b * b) as i32
            },
        }
    }

    /// The estimate for the deltas `dx` and `dy`.
    pub fn calc(&self, dx: i32, dy: i32) -> (r: i32)
        requires
            self.value(dx as int, dy as int) <= i32::MAX,
        ensures
            r == self.value(dx as int, dy as int),
    {
        self.estimate(dx as i64, dy as i64)
    }

    /// The estimate from `current` to `end`.
    pub fn calc_fixed(&self, current: &Coord, end: &Coord) -> (r: i32)
        requires
            self.between(*current, *end) <= i32::MAX,
        ensures
            r == self.between(*current, *end),
    {
        self.estimate(current.x as i64 - end.x as i64, current.y as i64 - end.y as i64)
    }

    /// The sum of the estimates from `current` to each of `ends`.
    pub fn calc_multiple(&self, current: &Coord, ends: &Vec<Coord>) -> (r: i32)
        requires
            self.total(*current, ends@) <= i32::MAX,
        ensures
            r == self.total(*current, ends@),
    {
        let mut acc: i32 = 0;
        let mut i: usize = 0;
        while i < ends.len()
            invariant
                i <= ends.len(),
                acc == self.total(*current, ends@.take(i as int)),
                self.total(*current, ends@) <= i32::MAX,
            decreases ends.len() - i,
        {
            proof {
                self.lemma_total_prefix(*current, ends@, i + 1);
                self.lemma_total_prefix(*current, ends@, i as int);
                assert(ends@.take(i + 1).drop_last() =~= ends@.take(i as int));
                self.lemma_value_nonnegative(current.x - ends@[i as int].x, current.y - ends@[i as int].y);
            }
            let one = self.calc_fixed(current, &ends[i]);
            acc = acc + one;
            i += 1;
        }
        proof {
            assert(ends@.take(i as int) =~= ends@);
        }
        acc
    }

    /// The least of the estimates from `current` to each of `ends`; zero
    /// when `ends` is empty.
    pub fn calc_nearest(&self, current: &Coord, ends: &Vec<Coord>) -> (r: i32)
        requires
            forall|k: int| 0 <= k < ends@.len() ==> self.between(*current, #[trigger] ends@[k]) <= i32::MAX,
        ensures
            r == self.nearest(*current, ends@),
    {
        if ends.len() == 0 {
            return 0;
        }
        let mut best: i32 = self.calc_fixed(current, &ends[0]);
        let mut i: usize = 1;
        proof {
            assert(ends@.take(1).drop_last() =~= Seq::<Coord>::empty());
        }
        while i < ends.len()
            invariant
                1 <= i <= ends.len(),
                best == self.nearest(*current, ends@.take(i as int)),
                forall|k: int| 0 <= k < ends@.len() ==> self.between(*current, #[trigger] ends@[k]) <= i32::MAX,
            decreases ends.len() - i,
        {
            proof {
                assert(ends@.take(i + 1).drop_last() =~= ends@.take(i as int));
            }
            let one = self.calc_fixed(current, &ends[i]);
            if one < best {
                best = one;
            }
            i += 1;
        }
        proof {
            assert(ends@.take(i as int) =~= ends@);
        }
        best
    }
}

/// Every non-negative number has a rounded-down square root.
pub proof fn lemma_floor_sqrt_exists(n: int)
    requires
        0 <= n,
    ensures
        is_floor_sqrt(n, floor_sqrt(n)),
    decreases n,
{
    if n == 0 {
        assert(is_floor_sqrt(0, 0));
    } else {
        lemma_floor_sqrt_exists(n - 1);
        let r = floor_sqrt(n - 1);
        if (r + 1) * (r + 1) <= n {
            assert((r + 1) * (r + 1) == n);
            assert(n < (r + 2) * (r + 2)) by (nonlinear_arith)
                requires
                    (r + 1) * (r + 1) == n,
                    0 <= r,
            ;
            assert(is_floor_sqrt(n, r + 1));
        } else {
            assert(is_floor_sqrt(n, r));
        }
    }
}

/// A square that fits below `2^31` has a root below `46341`.
proof fn lemma_square_bound(a: int)
    requires
        0 <= a,
    ensures
        a * a <= i32::MAX ==> a <= 46340,
        a <= 46340 ==> a * a <= 46340 * 46340,
{
    if a >= 46341 {
        assert(a * a >= 46341 * 46341) by (nonlinear_arith)
            requires
                a >= 46341,
        ;
    }
    if a <= 46340 {
        assert(a * a <= 46340 * 46340) by (nonlinear_arith)
            requires
                0 <= a <= 46340,
        ;
    }
}

} // verus!
