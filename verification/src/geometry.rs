//! Fixed-point positions and the integer arithmetic on them.

use vstd::prelude::*;

verus! {

/// Position units that make up one world unit.
pub const UNITS_PER_WORLD: i32 = 1000;

/// Largest magnitude a coordinate of a stored tile position may have.
pub const POSITION_LIMIT: i32 = 1_073_741_824;

/// A point in world space, each coordinate counted in position units.
#[derive(Clone, Copy, Debug, PartialEq, Eq, Structural)]
pub struct Position {
    pub x: i32,
    pub y: i32,
    pub z: i32,
}

impl Position {
    /// Every coordinate lies within `POSITION_LIMIT` of the origin.
    pub open spec fn in_bounds(self) -> bool {
        &&& -POSITION_LIMIT <= self.x <= POSITION_LIMIT
        &&& -POSITION_LIMIT <= self.y <= POSITION_LIMIT
        &&& -POSITION_LIMIT <= self.z <= POSITION_LIMIT
    }

    /// The position with the given coordinates.
    pub fn new(x: i32, y: i32, z: i32) -> (p: Position)
        ensures
            p == (Position { x, y, z }),
    {
        Position { x, y, z }
    }

    /// Whether every coordinate lies within `POSITION_LIMIT` of the origin.
    pub fn is_in_bounds(&self) -> (b: bool)
        ensures
            b == self.in_bounds(),
    {
        -POSITION_LIMIT <= self.x && self.x <= POSITION_LIMIT && -POSITION_LIMIT <= self.y
            && self.y <= POSITION_LIMIT && -POSITION_LIMIT <= self.z && self.z
            <= POSITION_LIMIT
    }
}

/// The square of `a - b`.
pub open spec fn squared_gap(a: int, b: int) -> int {
    (a - b) * (a - b)
}

/// Squared Euclidean distance between two positions.
pub open spec fn squared_distance(a: Position, b: Position) -> int {
    squared_gap(a.x as int, b.x as int) + squared_gap(a.y as int, b.y as int) + squared_gap(
        a.z as int,
        b.z as int,
    )
}

/// The largest squared distance between two positions that are in bounds.
pub open spec fn max_squared_distance() -> int {
    3 * (2 * POSITION_LIMIT) * (2 * POSITION_LIMIT)
}

/// Between numbers within `limit` of zero the squared gap is at most the square of twice `limit`.
proof fn lemma_squared_gap_bounds(a: int, b: int, limit: int)
    requires
        -limit <= a <= limit,
        -limit <= b <= limit,
    ensures
        0 <= squared_gap(a, b) <= (2 * limit) * (2 * limit),
{
    let d = a - b;
    assert(-2 * limit <= d <= 2 * limit);
    assert(0 <= d * d <= (2 * limit) * (2 * limit)) by (nonlinear_arith)
        requires
            -2 * limit <= d <= 2 * limit,
    ;
}

/// Only equal numbers have no gap.
proof fn lemma_squared_gap_zero(a: int, b: int)
    ensures
        squared_gap(a, b) == 0 <==> a == b,
{
    let d = a - b;
    assert(d * d == 0 <==> d == 0) by (nonlinear_arith);
}

/// A squared distance is never negative, and between positions in bounds it is
/// at most `max_squared_distance()`.
pub proof fn lemma_squared_distance_bounds(a: Position, b: Position)
    ensures
        0 <= squared_distance(a, b),
        a.in_bounds() && b.in_bounds() ==> squared_distance(a, b) <= max_squared_distance(),
        squared_distance(a, b) == squared_distance(b, a),
        a == b <==> squared_distance(a, b) == 0,
{
    lemma_squared_gap_bounds(a.x as int, b.x as int, 0x8000_0000);
    lemma_squared_gap_bounds(a.y as int, b.y as int, 0x8000_0000);
    lemma_squared_gap_bounds(a.z as int, b.z as int, 0x8000_0000);
    if a.in_bounds() && b.in_bounds() {
        lemma_squared_gap_bounds(a.x as int, b.x as int, POSITION_LIMIT as int);
        lemma_squared_gap_bounds(a.y as int, b.y as int, POSITION_LIMIT as int);
        lemma_squared_gap_bounds(a.z as int, b.z as int, POSITION_LIMIT as int);
        assert(max_squared_distance() == 3 * ((2 * POSITION_LIMIT) * (2 * POSITION_LIMIT)))
            by (nonlinear_arith);
    }
    assert(squared_gap(a.x as int, b.x as int) == squared_gap(b.x as int, a.x as int))
        by (nonlinear_arith);
    assert(squared_gap(a.y as int, b.y as int) == squared_gap(b.y as int, a.y as int))
        by (nonlinear_arith);
    assert(squared_gap(a.z as int, b.z as int) == squared_gap(b.z as int, a.z as int))
        by (nonlinear_arith);
    lemma_squared_gap_zero(a.x as int, b.x as int);
    lemma_squared_gap_zero(a.y as int, b.y as int);
    lemma_squared_gap_zero(a.z as int, b.z as int);
}

/// The squared distance between any two positions is at most three times
/// the square of the widest gap that coordinates can have.
pub proof fn lemma_squared_distance_within(a: Position, b: Position)
    ensures
        squared_distance(a, b) <= 3 * (0xFFFF_FFFF * 0xFFFF_FFFF),
{
    assert forall|p: int, q: int|
        -0x8000_0000 <= p < 0x8000_0000 && -0x8000_0000 <= q < 0x8000_0000 implies #[trigger] squared_gap(
        p,
        q,
    ) <= 0xFFFF_FFFF * 0xFFFF_FFFF by {
        let d = p - q;
        assert(d * d <= 0xFFFF_FFFF * 0xFFFF_FFFF) by (nonlinear_arith)
            requires
                -0xFFFF_FFFF <= d <= 0xFFFF_FFFF,
        ;
    }
    assert(squared_gap(a.x as int, b.x as int) <= 0xFFFF_FFFF * 0xFFFF_FFFF);
    assert(squared_gap(a.y as int, b.y as int) <= 0xFFFF_FFFF * 0xFFFF_FFFF);
    assert(squared_gap(a.z as int, b.z as int) <= 0xFFFF_FFFF * 0xFFFF_FFFF);
}

/// One axis of `heuristic`: the square of the gap between two coordinates.
fn axis_gap_squared(a: i32, b: i32) -> (s: u128)
    ensures
        s == squared_gap(a as int, b as int),
        s <= 0xFFFF_FFFF_FFFF_FFFF,
{
    let d: i64 = a as i64 - b as i64;
    let m: u64 = if d < 0 {
        (-d) as u64
    } else {
        d as u64
    };
    assert(m <= 0xFFFF_FFFF);
    assert(m * m <= 0xFFFF_FFFF * 0xFFFF_FFFF) by (nonlinear_arith)
        requires
            m <= 0xFFFF_FFFF,
    ;
    assert(m * m == (a - b) * (a - b)) by (nonlinear_arith)
        requires
            m == a - b || m == -(a - b),
    ;
    let s: u64 = m * m;
    s as u128
}

/// Cost estimate between two positions: their squared Euclidean distance.
pub fn heuristic(pos1: Position, pos2: Position) -> (d: u128)
    ensures
        d == squared_distance(pos1, pos2),
{
    let dx = axis_gap_squared(pos1.x, pos2.x);
    let dy = axis_gap_squared(pos1.y, pos2.y);
    let dz = axis_gap_squared(pos1.z, pos2.z);
    dx + dy + dz
}

/// `r` is the integer square root of `n`: the largest integer whose square
/// does not exceed `n`.
pub open spec fn is_integer_sqrt(n: int, r: int) -> bool {
    0 <= r && r * r <= n < (r + 1) * (r + 1)
}

/// The integer square root of `n`.
pub open spec fn integer_sqrt(n: int) -> int {
    choose|r: int| is_integer_sqrt(n, r)
}

/// A number has at most one integer square root.
pub proof fn lemma_integer_sqrt_unique(n: int, r: int)
    requires
        is_integer_sqrt(n, r),
    ensures
        integer_sqrt(n) == r,
{
    let s = integer_sqrt(n);
    assert(is_integer_sqrt(n, s));
    if s < r {
        assert((s + 1) * (s + 1) <= r * r) by (nonlinear_arith)
            requires
                0 <= s + 1 <= r,
        ;
    }
    if r < s {
        assert((r + 1) * (r + 1) <= s * s) by (nonlinear_arith)
            requires
                0 <= r + 1 <= s,
        ;
    }
}

/// Every number that is not negative has an integer square root.
pub proof fn lemma_integer_sqrt_exists(n: int)
    requires
        0 <= n,
    ensures
        is_integer_sqrt(n, integer_sqrt(n)),
    decreases n,
{
    if n == 0 {
        assert(is_integer_sqrt(0, 0));
    } else {
        lemma_integer_sqrt_exists(n - 1);
        let r = integer_sqrt(n - 1);
        if n < (r + 1) * (r + 1) {
            assert(is_integer_sqrt(n, r));
        } else {
            assert(n == (r + 1) * (r + 1));
            assert((r + 1) * (r + 1) < (r + 2) * (r + 2)) by (nonlinear_arith)
                requires
                    0 <= r,
            ;
            assert(is_integer_sqrt(n, r + 1));
        }
    }
}

/// Computes the integer square root of `n`.
pub fn isqrt(n: u128) -> (r: u64)
    ensures
        r == integer_sqrt(n as int),
        is_integer_sqrt(n as int, r as int),
{
    let mut low: u64 = 0;
    let mut high: u64 = u64::MAX;
    assert((high + 1) * (high + 1) > n) by (nonlinear_arith)
        requires
            high == 0xFFFF_FFFF_FFFF_FFFF,
            n <= 0xFFFF_FFFF_FFFF_FFFF_FFFF_FFFF_FFFF_FFFF,
    ;
    while low < high
        invariant
            low <= high,
            low * low <= n,
            n < (high + 1) * (high + 1),
        decreases high - low,
    {
        let mid: u64 = low + (high - low) / 2 + 1;
        assert(mid * mid <= 0xFFFF_FFFF_FFFF_FFFF * 0xFFFF_FFFF_FFFF_FFFF) by (nonlinear_arith)
            requires
                mid <= 0xFFFF_FFFF_FFFF_FFFF,
        ;
        let square: u128 = (mid as u128) * (mid as u128);
        if square <= n {
            low = mid;
        } else {
            high = mid - 1;
        }
    }
    proof {
        lemma_integer_sqrt_unique(n as int, low as int);
    }
    low
}

/// The point a fraction `progress / one` of the way from `a` to `b` on one
/// axis, rounded towards `a`.
pub open spec fn lerp_axis(a: int, b: int, progress: int, one: int) -> int {
    if b >= a {
        a + ((b - a) * progress) / one
    } else {
        a - ((a - b) * progress) / one
    }
}

/// The point a fraction `progress / one` of the way from `a` to `b`.
pub open spec fn lerp(a: Position, b: Position, progress: int, one: int) -> Position {
    Position {
        x: lerp_axis(a.x as int, b.x as int, progress, one) as i32,
        y: lerp_axis(a.y as int, b.y as int, progress, one) as i32,
        z: lerp_axis(a.z as int, b.z as int, progress, one) as i32,
    }
}

/// A scaled gap is no longer than the gap.
pub proof fn lemma_scaled_gap(gap: int, progress: int, one: int)
    requires
        0 <= gap,
        0 <= progress <= one,
        0 < one,
    ensures
        0 <= (gap * progress) / one <= gap,
        progress == 0 ==> (gap * progress) / one == 0,
        progress == one ==> (gap * progress) / one == gap,
{
    assert(0 <= gap * progress <= gap * one) by (nonlinear_arith)
        requires
            0 <= gap,
            0 <= progress <= one,
    ;
    vstd::arithmetic::div_mod::lemma_div_is_ordered(gap * progress, gap * one, one);
    vstd::arithmetic::div_mod::lemma_div_multiples_vanish(gap, one);
    assert(gap * one == one * gap) by (nonlinear_arith);
    vstd::arithmetic::div_mod::lemma_div_pos_is_pos(gap * progress, one);
    if progress == 0 {
        assert(gap * progress == 0) by (nonlinear_arith)
            requires
                progress == 0,
        ;
    }
}

/// Interpolation stays between its ends, starts at `a` and ends at `b`.
pub proof fn lemma_lerp_axis_between(a: int, b: int, progress: int, one: int)
    requires
        0 <= progress <= one,
        0 < one,
    ensures
        a <= b ==> a <= lerp_axis(a, b, progress, one) <= b,
        b <= a ==> b <= lerp_axis(a, b, progress, one) <= a,
        lerp_axis(a, b, 0, one) == a,
        lerp_axis(a, b, one, one) == b,
{
    if b >= a {
        lemma_scaled_gap(b - a, progress, one);
        lemma_scaled_gap(b - a, 0, one);
        lemma_scaled_gap(b - a, one, one);
    } else {
        lemma_scaled_gap(a - b, progress, one);
        lemma_scaled_gap(a - b, 0, one);
        lemma_scaled_gap(a - b, one, one);
    }
}

/// On one axis interpolation moves no further from `a` than that part of
/// the gap: the squared move times `one` squared is at most the squared gap
/// times `progress` squared.
proof fn lemma_axis_moved(a: int, b: int, progress: int, one: int)
    requires
        0 <= progress <= one,
        0 < one,
    ensures
        squared_gap(a, lerp_axis(a, b, progress, one)) * (one * one) <= squared_gap(a, b) * (
        progress * progress),
{
    let gap = if b >= a {
        b - a
    } else {
        a - b
    };
    let moved = (gap * progress) / one;
    lemma_scaled_gap(gap, progress, one);
    assert(moved * one <= gap * progress) by {
        vstd::arithmetic::div_mod::lemma_fundamental_div_mod(gap * progress, one);
        vstd::arithmetic::div_mod::lemma_mod_bound(gap * progress, one);
        assert(one * moved == moved * one) by (nonlinear_arith);
    }
    assert(squared_gap(a, lerp_axis(a, b, progress, one)) == moved * moved) by (nonlinear_arith)
        requires
            lerp_axis(a, b, progress, one) == a + moved || lerp_axis(a, b, progress, one) == a
                - moved,
    ;
    assert(squared_gap(a, b) == gap * gap) by (nonlinear_arith)
        requires
            gap == b - a || gap == a - b,
    ;
    assert((moved * moved) * (one * one) <= (gap * gap) * (progress * progress))
        by (nonlinear_arith)
        requires
            0 <= moved,
            0 < one,
            0 <= gap,
            0 <= progress,
            moved * one <= gap * progress,
    ;
}

/// Interpolation moves no further from `a` than that part of the distance:
/// the squared distance moved times `one` squared is at most the squared
/// distance between the ends times `progress` squared.
pub proof fn lemma_lerp_moved(a: Position, b: Position, progress: int, one: int)
    requires
        0 <= progress <= one,
        0 < one,
    ensures
        squared_distance(a, lerp(a, b, progress, one)) * (one * one) <= squared_distance(a, b) * (
        progress * progress),
{
    lemma_lerp_axis_between(a.x as int, b.x as int, progress, one);
    lemma_lerp_axis_between(a.y as int, b.y as int, progress, one);
    lemma_lerp_axis_between(a.z as int, b.z as int, progress, one);
    lemma_axis_moved(a.x as int, b.x as int, progress, one);
    lemma_axis_moved(a.y as int, b.y as int, progress, one);
    lemma_axis_moved(a.z as int, b.z as int, progress, one);
    let to = lerp(a, b, progress, one);
    let mx = squared_gap(a.x as int, to.x as int);
    let my = squared_gap(a.y as int, to.y as int);
    let mz = squared_gap(a.z as int, to.z as int);
    let gx = squared_gap(a.x as int, b.x as int);
    let gy = squared_gap(a.y as int, b.y as int);
    let gz = squared_gap(a.z as int, b.z as int);
    let one_squared = one * one;
    let part_squared = progress * progress;
    assert((mx + my + mz) * one_squared == mx * one_squared + my * one_squared + mz * one_squared) by (nonlinear_arith);
    assert((gx + gy + gz) * part_squared == gx * part_squared + gy * part_squared + gz * part_squared) by (nonlinear_arith);
}

/// A move of squared length `moved` along a segment of squared length `gap`
/// and whole length `whole`, by a part `progress` of `one` that is no more
/// than the part that `reach` out of `per` is of the whole, is at most
/// `reach` out of `per` long, to within one unit.
pub proof fn lemma_moved_within_reach(
    moved: int,
    gap: int,
    whole: int,
    progress: int,
    one: int,
    reach: int,
    per: int,
)
    requires
        0 <= moved,
        moved * (one * one) <= gap * (progress * progress),
        0 <= progress <= one,
        0 < one,
        0 < per,
        0 <= reach,
        is_integer_sqrt(gap, whole),
        whole > 0 ==> progress * (per * whole) <= reach * one,
    ensures
        moved * (per * per) <= (reach + per) * (reach + per),
{
    let bound = reach + per;
    assert(0 <= bound * bound) by (nonlinear_arith);
    assert(0 <= gap) by (nonlinear_arith)
        requires
            whole * whole <= gap,
    ;
    assert(moved <= gap) by (nonlinear_arith)
        requires
            moved * (one * one) <= gap * (progress * progress),
            0 <= progress <= one,
            0 < one,
            0 <= gap,
            0 <= moved,
    ;
    if whole == 0 {
        assert(gap < 1) by (nonlinear_arith)
            requires
                gap < (whole + 1) * (whole + 1),
                whole == 0,
        ;
        assert(moved * (per * per) == 0) by (nonlinear_arith)
            requires
                moved == 0,
        ;
    } else if reach >= per * whole {
        let step = (whole + 1) * per;
        assert(step <= bound) by (nonlinear_arith)
            requires
                step == (whole + 1) * per,
                bound == reach + per,
                reach >= per * whole,
        ;
        assert(moved * (per * per) <= step * step) by (nonlinear_arith)
            requires
                0 <= moved <= gap,
                gap < (whole + 1) * (whole + 1),
                step == (whole + 1) * per,
                0 < per,
        ;
        assert(step * step <= bound * bound) by (nonlinear_arith)
            requires
                0 <= step <= bound,
        ;
    } else {
        let pw = progress * (per * whole);
        let ro = reach * one;
        assert(pw * pw <= ro * ro) by (nonlinear_arith)
            requires
                0 <= pw <= ro,
        ;
        let w2 = (per * whole) * (per * whole);
        assert(moved * (one * one) * w2 <= gap * (progress * progress) * w2) by (nonlinear_arith)
            requires
                moved * (one * one) <= gap * (progress * progress),
                0 <= w2,
        ;
        assert(gap * (progress * progress) * w2 == gap * (pw * pw)) by (nonlinear_arith)
            requires
                pw == progress * (per * whole),
                w2 == (per * whole) * (per * whole),
        ;
        assert(gap * (pw * pw) <= gap * (ro * ro)) by (nonlinear_arith)
            requires
                0 <= gap,
                pw * pw <= ro * ro,
        ;
        assert(gap * (ro * ro) == (gap * (reach * reach)) * (one * one)) by (nonlinear_arith)
            requires
                ro == reach * one,
        ;
        assert(moved * (one * one) * w2 == (moved * w2) * (one * one)) by (nonlinear_arith);
        assert(moved * w2 <= gap * (reach * reach)) by (nonlinear_arith)
            requires
                (moved * w2) * (one * one) <= (gap * (reach * reach)) * (one * one),
                0 < one,
        ;
        let far = (whole + 1) * reach;
        let near = whole * bound;
        assert(far <= near) by (nonlinear_arith)
            requires
                far == (whole + 1) * reach,
                near == whole * (reach + per),
                reach < per * whole,
        ;
        assert(gap * (reach * reach) <= far * far) by (nonlinear_arith)
            requires
                0 <= gap < (whole + 1) * (whole + 1),
                far == (whole + 1) * reach,
        ;
        assert(far * far <= near * near) by (nonlinear_arith)
            requires
                0 <= far <= near,
        ;
        assert(moved * w2 == (moved * (per * per)) * (whole * whole)) by (nonlinear_arith)
            requires
                w2 == (per * whole) * (per * whole),
        ;
        assert(near * near == (bound * bound) * (whole * whole)) by (nonlinear_arith)
            requires
                near == whole * bound,
        ;
        assert(moved * (per * per) <= bound * bound) by (nonlinear_arith)
            requires
                (moved * (per * per)) * (whole * whole) <= (bound * bound) * (whole * whole),
                whole > 0,
        ;
    }
}

/// Interpolates on one axis.
fn axis_lerp(a: i32, b: i32, progress: u32, one: u32) -> (r: i32)
    requires
        progress <= one,
        0 < one,
    ensures
        r == lerp_axis(a as int, b as int, progress as int, one as int),
{
    proof {
        lemma_lerp_axis_between(a as int, b as int, progress as int, one as int);
    }
    if b >= a {
        let gap: u64 = (b as i64 - a as i64) as u64;
        proof {
            lemma_scaled_gap(gap as int, progress as int, one as int);
            assert(gap * progress <= 0xFFFF_FFFF * 0xFFFF_FFFF) by (nonlinear_arith)
                requires
                    gap <= 0xFFFF_FFFF,
                    progress <= 0xFFFF_FFFF,
            ;
        }
        let moved: u64 = gap * (progress as u64) / (one as u64);
        (a as i64 + moved as i64) as i32
    } else {
        let gap: u64 = (a as i64 - b as i64) as u64;
        proof {
            lemma_scaled_gap(gap as int, progress as int, one as int);
            assert(gap * progress <= 0xFFFF_FFFF * 0xFFFF_FFFF) by (nonlinear_arith)
                requires
                    gap <= 0xFFFF_FFFF,
                    progress <= 0xFFFF_FFFF,
            ;
        }
        let moved: u64 = gap * (progress as u64) / (one as u64);
        (a as i64 - moved as i64) as i32
    }
}

/// Interpolates between two positions, axis by axis.
pub(crate) fn lerp_position(a: Position, b: Position, progress: u32, one: u32) -> (p: Position)
    requires
        progress <= one,
        0 < one,
    ensures
        p == lerp(a, b, progress as int, one as int),
{
    Position {
        x: axis_lerp(a.x, b.x, progress, one),
        y: axis_lerp(a.y, b.y, progress, one),
        z: axis_lerp(a.z, b.z, progress, one),
    }
}

} // verus!
