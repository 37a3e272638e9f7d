//! Points of the integer game grid, distances and the bounded step.
use vstd::prelude::*;

verus! {

/// Largest absolute coordinate that a point of the library may hold.
pub const COORD_LIMIT: i64 = 1_000_000;

/// A point (or a displacement) on the game grid.
#[derive(Clone, Copy, Debug, PartialEq, Eq, Structural)]
pub struct V2 {
    pub x: i64,
    pub y: i64,
}

/// `m * sqrt(l2) <= num`, stated without a square root (`l2 >= 0`).
pub open spec fn scaled_at_most(m: int, l2: int, num: int) -> bool {
    if m <= 0 {
        num >= 0 || m * m * l2 >= num * num
    } else {
        num >= 0 && m * m * l2 <= num * num
    }
}

/// `n` is the floor of `num / sqrt(l2)`.
pub open spec fn is_floor_ratio(n: int, num: int, l2: int) -> bool {
    scaled_at_most(n, l2, num) && !scaled_at_most(n + 1, l2, num)
}

/// The floor of `num / sqrt(l2)` (for `l2 > 0`).
pub open spec fn floor_ratio(num: int, l2: int) -> int {
    choose|n: int| is_floor_ratio(n, num, l2)
}

impl V2 {
    pub open spec fn in_range(self) -> bool {
        -COORD_LIMIT <= self.x <= COORD_LIMIT && -COORD_LIMIT <= self.y <= COORD_LIMIT
    }

    /// Squared Euclidean distance between two points.
    pub open spec fn dist2(self, other: V2) -> int {
        (other.x - self.x) * (other.x - self.x) + (other.y - self.y) * (other.y - self.y)
    }

    /// The point reached from `self` by moving toward `target` by at most `s`
    /// units, floored to the grid: `target` itself when it is within `s`.
    pub open spec fn step_toward(self, target: V2, s: int) -> V2 {
        let l2 = self.dist2(target);
        if l2 <= s * s {
            target
        } else {
            V2 {
                x: (self.x + floor_ratio((target.x - self.x) * s, l2)) as i64,
                y: (self.y + floor_ratio((target.y - self.y) * s, l2)) as i64,
            }
        }
    }

    pub fn zero() -> (r: V2)
        ensures
            r.x == 0 && r.y == 0,
    {
        V2 { x: 0, y: 0 }
    }

    pub fn add(self, other: V2) -> (r: V2)
        requires
            self.in_range(),
            other.in_range(),
        ensures
            r.x == self.x + other.x,
            r.y == self.y + other.y,
    {
        V2 { x: self.x + other.x, y: self.y + other.y }
    }

    pub fn sub(self, other: V2) -> (r: V2)
        requires
            self.in_range(),
            other.in_range(),
        ensures
            r.x == self.x - other.x,
            r.y == self.y - other.y,
    {
        V2 { x: self.x - other.x, y: self.y - other.y }
    }

    /// Scales both coordinates by an integer factor.
    pub fn mul(self, multiplier: i64) -> (r: V2)
        requires
            self.in_range(),
            -COORD_LIMIT <= multiplier <= COORD_LIMIT,
        ensures
            r.x == self.x * multiplier,
            r.y == self.y * multiplier,
    {
        proof {
            lemma_mul_bound(self.x as int, multiplier as int, 1_000_000, 1_000_000);
            lemma_mul_bound(self.y as int, multiplier as int, 1_000_000, 1_000_000);
        }
        V2 { x: self.x * multiplier, y: self.y * multiplier }
    }

    /// The displacement `b - a`.
    pub fn diff(b: V2, a: V2) -> (r: V2)
        requires
            a.in_range(),
            b.in_range(),
        ensures
            r.x == b.x - a.x,
            r.y == b.y - a.y,
    {
        V2 { x: b.x - a.x, y: b.y - a.y }
    }

    /// Squared length of a displacement whose coordinates are at most
    /// twice the coordinate limit.
    pub fn length_squared(self) -> (r: i64)
        requires
            -2 * COORD_LIMIT <= self.x <= 2 * COORD_LIMIT,
            -2 * COORD_LIMIT <= self.y <= 2 * COORD_LIMIT,
        ensures
            r == self.x * self.x + self.y * self.y,
            0 <= r <= 8 * COORD_LIMIT * COORD_LIMIT,
    {
        proof {
            lemma_mul_bound(self.x as int, self.x as int, 2_000_000, 2_000_000);
            lemma_mul_bound(self.y as int, self.y as int, 2_000_000, 2_000_000);
            lemma_square_nonneg(self.x as int);
            lemma_square_nonneg(self.y as int);
        }
        self.x * self.x + self.y * self.y
    }

    pub fn distance_squared(a: V2, b: V2) -> (r: i64)
        requires
            a.in_range(),
            b.in_range(),
        ensures
            r == a.dist2(b),
            r >= 0,
    {
        V2::diff(b, a).length_squared()
    }

    pub fn distance_to_squared(self, target: V2) -> (r: i64)
        requires
            self.in_range(),
            target.in_range(),
        ensures
            r == self.dist2(target),
            r >= 0,
    {
        V2::distance_squared(self, target)
    }

    /// The integer part of the length of a displacement.
    pub fn length(self) -> (r: i64)
        requires
            -2 * COORD_LIMIT <= self.x <= 2 * COORD_LIMIT,
            -2 * COORD_LIMIT <= self.y <= 2 * COORD_LIMIT,
        ensures
            r >= 0,
            r * r <= self.x * self.x + self.y * self.y < (r + 1) * (r + 1),
    {
        let l2 = self.length_squared();
        integer_sqrt(l2)
    }

    /// The integer part of the distance between two points.
    pub fn distance(a: V2, b: V2) -> (r: i64)
        requires
            a.in_range(),
            b.in_range(),
        ensures
            r >= 0,
            r * r <= a.dist2(b) < (r + 1) * (r + 1),
    {
        V2::diff(b, a).length()
    }

    pub fn distance_to(self, target: V2) -> (r: i64)
        requires
            self.in_range(),
            target.in_range(),
        ensures
            r >= 0,
            r * r <= self.dist2(target) < (r + 1) * (r + 1),
    {
        V2::distance(self, target)
    }

    /// Moves from `self` toward `target` by at most `max_step` units and
    /// floors the result to the grid.
    pub fn towards(self, target: V2, max_step: i64) -> (r: V2)
        requires
            self.in_range(),
            target.in_range(),
            0 < max_step <= COORD_LIMIT,
        ensures
            r == self.step_toward(target, max_step as int),
            r.in_range(),
    {
        let l2 = V2::distance_squared(self, target);
        proof {
            lemma_mul_bound(max_step as int, max_step as int, 1_000_000, 1_000_000);
            let dx = target.x - self.x;
            let dy = target.y - self.y;
            lemma_square_nonneg(dx);
            lemma_square_nonneg(dy);
            lemma_mul_bound(dx, dx, 2_000_000, 2_000_000);
            lemma_mul_bound(dy, dy, 2_000_000, 2_000_000);
        }
        if l2 <= max_step * max_step {
            return target;
        }
        let nx = floor_scaled_step(target.x - self.x, max_step, l2);
        let ny = floor_scaled_step(target.y - self.y, max_step, l2);
        proof {
            lemma_floor_ratio_unique(nx as int, (target.x - self.x) * max_step, l2 as int);
            lemma_floor_ratio_unique(ny as int, (target.y - self.y) * max_step, l2 as int);
        }
        V2 { x: self.x + nx, y: self.y + ny }
    }
}

/// `|a * b| <= ba * bb` when `|a| <= ba` and `|b| <= bb`.
pub proof fn lemma_mul_bound(a: int, b: int, ba: int, bb: int)
    requires
        -ba <= a <= ba,
        -bb <= b <= bb,
    ensures
        -(ba * bb) <= a * b <= ba * bb,
{
    assert(-(ba * bb) <= a * b <= ba * bb) by (nonlinear_arith)
        requires
            -ba <= a <= ba,
            -bb <= b <= bb,
    ;
}

pub proof fn lemma_square_nonneg(a: int)
    ensures
        a * a >= 0,
{
    assert(a * a >= 0) by (nonlinear_arith);
}

/// The floor of the square root of `v`.
fn integer_sqrt(v: i64) -> (r: i64)
    requires
        0 <= v <= 8 * COORD_LIMIT * COORD_LIMIT,
    ensures
        r >= 0,
        r * r <= v < (r + 1) * (r + 1),
{
    let mut lo: i64 = 0;
    let mut hi: i64 = 3 * COORD_LIMIT;
    assert(hi * hi > v) by (nonlinear_arith)
        requires
            hi == 3_000_000,
            v <= 8_000_000_000_000,
    ;
    while hi - lo > 1
        invariant
            0 <= lo < hi <= 3 * COORD_LIMIT,
            lo * lo <= v,
            hi * hi > v,
        decreases hi - lo,
    {
        let mid = lo + (hi - lo) / 2;
        proof {
            lemma_mul_bound(mid as int, mid as int, 3_000_000, 3_000_000);
        }
        if mid * mid <= v {
            lo = mid;
        } else {
            hi = mid;
        }
    }
    lo
}

proof fn lemma_scaled_at_most_monotone(a: int, b: int, l2: int, num: int)
    requires
        a <= b,
        l2 >= 0,
        scaled_at_most(b, l2, num),
    ensures
        scaled_at_most(a, l2, num),
{
    if a > 0 {
        assert(a * a * l2 <= b * b * l2) by (nonlinear_arith)
            requires
                0 < a <= b,
                l2 >= 0,
        ;
    } else if b <= 0 {
        assert(a * a * l2 >= b * b * l2) by (nonlinear_arith)
            requires
                a <= b <= 0,
                l2 >= 0,
        ;
    }
}

/// The floor of `num / sqrt(l2)` is unique.
pub proof fn lemma_floor_ratio_unique(n: int, num: int, l2: int)
    requires
        l2 >= 0,
        is_floor_ratio(n, num, l2),
    ensures
        floor_ratio(num, l2) == n,
{
    let m = floor_ratio(num, l2);
    assert(is_floor_ratio(m, num, l2));
    if m < n {
        lemma_scaled_at_most_monotone(m + 1, n, l2, num);
    } else if n < m {
        lemma_scaled_at_most_monotone(n + 1, m, l2, num);
    }
}

/// Decides `m * sqrt(l2) <= num` on machine integers.
fn scaled_at_most_exec(m: i64, l2: i64, num: i128) -> (r: bool)
    requires
        -COORD_LIMIT - 1 <= m <= COORD_LIMIT + 1,
        0 <= l2 <= 8 * COORD_LIMIT * COORD_LIMIT,
        -2 * COORD_LIMIT * COORD_LIMIT <= num <= 2 * COORD_LIMIT * COORD_LIMIT,
    ensures
        r == scaled_at_most(m as int, l2 as int, num as int),
{
    proof {
        lemma_mul_bound(m as int, m as int, 1_000_001, 1_000_001);
        lemma_square_nonneg(m as int);
        lemma_mul_bound(m * m, l2 as int, 1_000_002_000_001int, 8_000_000_000_000int);
        lemma_mul_bound(num as int, num as int, 2_000_000_000_000, 2_000_000_000_000);
    }
    let mm = (m as i128) * (m as i128);
    let lhs = mm * l2 as i128;
    let rhs = num * num;
    if m <= 0 {
        num >= 0 || lhs >= rhs
    } else {
        num >= 0 && lhs <= rhs
    }
}

/// The floor of `d * s / sqrt(l2)`, where `d` is one coordinate of a
/// displacement of squared length `l2 > s * s`.
fn floor_scaled_step(d: i64, s: i64, l2: i64) -> (n: i64)
    requires
        -2 * COORD_LIMIT <= d <= 2 * COORD_LIMIT,
        0 < s <= COORD_LIMIT,
        d * d <= l2 <= 8 * COORD_LIMIT * COORD_LIMIT,
        l2 > s * s,
    ensures
        is_floor_ratio(n as int, d * s, l2 as int),
        -s <= n <= s,
        d >= 0 ==> 0 <= n <= d,
        d < 0 ==> d <= n <= 0,
{
    proof {
        lemma_mul_bound(d as int, s as int, 2_000_000, 1_000_000);
    }
    let num: i128 = d as i128 * s as i128;
    let mut lo: i64 = -s;
    let mut hi: i64 = s + 1;
    assert(scaled_at_most(lo as int, l2 as int, num as int)) by {
        assert((-s) * (-s) * l2 >= (d * s) * (d * s)) by (nonlinear_arith)
            requires
                d * d <= l2,
        ;
    }
    assert(!scaled_at_most(hi as int, l2 as int, num as int)) by {
        assert((s + 1) * (s + 1) * l2 > d * s * (d * s)) by (nonlinear_arith)
            requires
                d * d <= l2,
                l2 > 0,
                s > 0,
        ;
    }
    while hi - lo > 1
        invariant
            -s <= lo < hi <= s + 1,
            0 < s <= COORD_LIMIT,
            0 <= l2 <= 8 * COORD_LIMIT * COORD_LIMIT,
            num == d * s,
            -2 * COORD_LIMIT * COORD_LIMIT <= num <= 2 * COORD_LIMIT * COORD_LIMIT,
            scaled_at_most(lo as int, l2 as int, num as int),
            !scaled_at_most(hi as int, l2 as int, num as int),
        decreases hi - lo,
    {
        let mid = lo + (hi - lo) / 2;
        if scaled_at_most_exec(mid, l2, num) {
            lo = mid;
        } else {
            hi = mid;
        }
    }
    proof {
        lemma_floor_ratio_bounds(lo as int, d as int, s as int, l2 as int);
    }
    lo
}

/// Bounds of the floor of `d * s / sqrt(l2)` for one coordinate `d` of a
/// displacement of squared length `l2 > s * s`.
pub proof fn lemma_floor_ratio_bounds(n: int, d: int, s: int, l2: int)
    requires
        s > 0,
        d * d <= l2,
        l2 > s * s,
        is_floor_ratio(n, d * s, l2),
    ensures
        -s <= n <= s,
        d >= 0 ==> 0 <= n <= d,
        d < 0 ==> d <= n <= 0,
        d >= 0 ==> n * n * l2 <= d * d * (s * s),
{
    let num = d * s;
    assert(d * s * (d * s) == d * d * (s * s)) by (nonlinear_arith);
    if d >= 0 {
        assert(num >= 0) by (nonlinear_arith)
            requires
                d >= 0,
                s > 0,
                num == d * s,
        ;
        if n < 0 {
            assert(scaled_at_most(n + 1, l2, num));
        }
        if n > d {
            assert(n * n * l2 > d * d * (s * s)) by (nonlinear_arith)
                requires
                    n > d >= 0,
                    l2 > s * s,
                    s > 0,
            ;
        }
        if n > s {
            assert(n * n > s * s) by (nonlinear_arith)
                requires
                    n > s > 0,
            ;
            assert(n * n * l2 > s * s * l2) by (nonlinear_arith)
                requires
                    n * n > s * s,
                    l2 > 0,
            ;
            assert(s * s * l2 >= d * d * (s * s)) by (nonlinear_arith)
                requires
                    l2 >= d * d,
            ;
        }
        if n > 0 {
            assert(n * n * l2 <= num * num);
        } else {
            assert(n == 0);
            assert(n * n * l2 == 0) by (nonlinear_arith)
                requires
                    n == 0,
            ;
            lemma_square_nonneg(num);
        }
    } else {
        assert(num < 0) by (nonlinear_arith)
            requires
                d < 0,
                s > 0,
                num == d * s,
        ;
        if n < d || n < -s {
            let m = n + 1;
            assert(m * m * l2 >= d * d * (s * s)) by (nonlinear_arith)
                requires
                    m <= d < 0 || m <= -s < 0,
                    l2 > s * s,
                    l2 >= d * d,
            ;
        }
    }
}

/// There is a floor of `num / sqrt(l2)` between `lo` and `hi`.
proof fn lemma_floor_ratio_exists(num: int, l2: int, lo: int, hi: int)
    requires
        lo < hi,
        scaled_at_most(lo, l2, num),
        !scaled_at_most(hi, l2, num),
    ensures
        exists|n: int| lo <= n < hi && is_floor_ratio(n, num, l2),
    decreases hi - lo,
{
    if scaled_at_most(lo + 1, l2, num) {
        lemma_floor_ratio_exists(num, l2, lo + 1, hi);
    } else {
        assert(is_floor_ratio(lo, num, l2));
    }
}

/// The floor used by a bounded step exists and obeys the step's bounds.
pub proof fn lemma_step_floor(d: int, s: int, l2: int)
    requires
        s > 0,
        d * d <= l2,
        l2 > s * s,
    ensures
        is_floor_ratio(floor_ratio(d * s, l2), d * s, l2),
        -s <= floor_ratio(d * s, l2) <= s,
        d >= 0 ==> 0 <= floor_ratio(d * s, l2) <= d,
        d < 0 ==> d <= floor_ratio(d * s, l2) <= 0,
        d >= 0 ==> floor_ratio(d * s, l2) * floor_ratio(d * s, l2) * l2 <= d * d * (s * s),
{
    let num = d * s;
    assert((-s) * (-s) * l2 >= (d * s) * (d * s)) by (nonlinear_arith)
        requires
            d * d <= l2,
    ;
    assert((s + 1) * (s + 1) * l2 > d * s * (d * s)) by (nonlinear_arith)
        requires
            d * d <= l2,
            l2 > 0,
            s > 0,
    ;
    lemma_floor_ratio_exists(num, l2, -s, s + 1);
    let n = choose|n: int| -s <= n < s + 1 && is_floor_ratio(n, num, l2);
    lemma_floor_ratio_unique(n, num, l2);
    lemma_floor_ratio_bounds(n, d, s, l2);
}

/// A bounded step moves each coordinate by at most `s`, lands between the
/// start and the target, and stays within `s` of the start whenever the
/// target is in reach or lies up and to the right of the start.
pub proof fn lemma_step_toward_bounds(a: V2, b: V2, s: int)
    requires
        a.in_range(),
        b.in_range(),
        0 < s <= COORD_LIMIT,
    ensures
        -s <= a.step_toward(b, s).x - a.x <= s,
        -s <= a.step_toward(b, s).y - a.y <= s,
        a.step_toward(b, s).in_range(),
        (a.dist2(b) <= s * s || (b.x >= a.x && b.y >= a.y)) ==> a.dist2(a.step_toward(b, s))
            <= s * s,
{
    let l2 = a.dist2(b);
    let dx = b.x - a.x;
    let dy = b.y - a.y;
    lemma_square_nonneg(dx);
    lemma_square_nonneg(dy);
    if l2 <= s * s {
        assert(dx * dx <= s * s);
        assert(dy * dy <= s * s);
        assert(-s <= dx <= s) by (nonlinear_arith)
            requires
                dx * dx <= s * s,
                s > 0,
        ;
        assert(-s <= dy <= s) by (nonlinear_arith)
            requires
                dy * dy <= s * s,
                s > 0,
        ;
    } else {
        lemma_step_floor(dx, s, l2);
        lemma_step_floor(dy, s, l2);
        let nx = floor_ratio(dx * s, l2);
        let ny = floor_ratio(dy * s, l2);
        let r = a.step_toward(b, s);
        assert(r.x == a.x + nx && r.y == a.y + ny);
        if b.x >= a.x && b.y >= a.y {
            assert(a.dist2(r) == nx * nx + ny * ny);
            assert(nx * nx + ny * ny <= s * s) by (nonlinear_arith)
                requires
                    nx * nx * l2 <= dx * dx * (s * s),
                    ny * ny * l2 <= dy * dy * (s * s),
                    l2 == dx * dx + dy * dy,
                    l2 > 0,
            ;
        }
    }
}

} // verus!
