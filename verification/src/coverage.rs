//! Laws of the map: who sees whom, and why the squares around a player are enough.
use crate::router::{CELL_SIZE, VIEW_RADIUS};
use crate::single::{Single, INFINITE};
use vstd::arithmetic::power2::*;
use vstd::prelude::*;

verus! {

/// A finite number of magnitude less than 2^24, up to which all integers are numbers of single
/// precision.
pub open spec fn moderate(x: Single) -> bool {
    x.is_finite() && crate::single::mag(x.pattern()) < 0x100_0000 * crate::single::one()
}

/// Half a step of single precision at the view radius: what rounding lets through beyond it.
pub open spec fn slack() -> int {
    crate::single::p2(130)
}

proof fn lemma_representable(v: int, e: int) -> (b: int)
    requires
        0 < v <= 0x100_0000,
        0 <= e <= 252,
        v * crate::single::p2(e) >= crate::single::one(),
    ensures
        0 <= b < INFINITE,
        crate::single::mag(b) == v * crate::single::p2(e),
    decreases 0x100_0000 - v,
{
    if v >= 0x80_0000 {
        crate::single::lemma_mag_split(e, v);
        e * 0x80_0000 + v
    } else {
        crate::single::lemma_p2_pos(e);
        if e == 0 {
            crate::single::lemma_p2_values();
            lemma_pow2_strictly_increases(23, 149);
        }
        crate::single::lemma_p2_next(e - 1);
        let w = crate::single::p2(e - 1);
        assert((2 * v) * w == v * (2 * w)) by (nonlinear_arith);
        lemma_representable(2 * v, e - 1)
    }
}

/// An integer up to 2^24 is a number of single precision.
pub proof fn lemma_whole(v: int)
    requires
        0 <= v <= 0x100_0000,
    ensures
        0 <= crate::single::rounded(v * crate::single::one(), 1) < INFINITE,
        crate::single::mag(crate::single::rounded(v * crate::single::one(), 1)) == v
            * crate::single::one(),
{
    let o = crate::single::one();
    if v == 0 {
        crate::single::lemma_rounded_exact(0, 0, 1);
    } else {
        crate::single::lemma_p2_pos(149);
        assert(v * o >= o) by (nonlinear_arith)
            requires
                v >= 1,
                o > 0,
        ;
        let b = lemma_representable(v, 149);
        crate::single::lemma_rounded_exact(b, v * o, 1);
    }
}

/// An even integer up to 2^25 is a number of single precision.
proof fn lemma_even(w: int) -> (b: int)
    requires
        0 < w <= 0x100_0000,
    ensures
        0 <= b < INFINITE,
        crate::single::mag(b) == (2 * w) * crate::single::one(),
{
    let o = crate::single::one();
    crate::single::lemma_p2_pos(149);
    crate::single::lemma_p2_next(149);
    assert(w * (2 * o) == (2 * w) * o && w * (2 * o) >= o) by (nonlinear_arith)
        requires
            w >= 1,
            o > 0,
    ;
    lemma_representable(w, 150)
}

/// Larger patterns lie at least as far apart.
proof fn lemma_step_grows(b: int, c: int)
    requires
        0 <= b <= c,
    ensures
        crate::single::step(b) <= crate::single::step(c),
{
    crate::single::lemma_p2_values();
    let x = b / 0x80_0000 - 1;
    let y = c / 0x80_0000 - 1;
    if b >= 0x80_0000 {
        if x < y {
            lemma_pow2_strictly_increases(x as nat, y as nat);
        }
    } else if c >= 0x80_0000 {
        crate::single::lemma_p2_pos(y);
    }
}

/// Below a magnitude of more than `2^23 * 2^e`, the patterns lie at least `2^e` apart.
proof fn lemma_step_below(b: int, e: int)
    requires
        0 <= e,
        0 <= b,
        crate::single::mag(b) > 0x80_0000 * crate::single::p2(e),
    ensures
        0 < b,
        crate::single::mag(b) == crate::single::mag(b - 1) + crate::single::step(b - 1),
        crate::single::step(b - 1) >= crate::single::p2(e),
{
    let p = e * 0x80_0000 + 0x80_0000;
    crate::single::lemma_mag_split(e, 0x80_0000);
    if b < p {
        crate::single::lemma_mag_increases(b, p);
    }
    crate::single::lemma_mag_step(b - 1);
    lemma_step_grows(p, b - 1);
    assert(p / 0x80_0000 - 1 == e);
}

proof fn lemma_p2_32(e: int)
    requires
        0 <= e,
    ensures
        crate::single::p2(e + 5) == 32 * crate::single::p2(e),
{
    crate::single::lemma_p2_next(e);
    crate::single::lemma_p2_next(e + 1);
    crate::single::lemma_p2_next(e + 2);
    crate::single::lemma_p2_next(e + 3);
    crate::single::lemma_p2_next(e + 4);
}

/// The view radius is 50.
pub proof fn law_view_radius()
    ensures
        (Single { bits: VIEW_RADIUS }).units() == 50 * crate::single::one(),
        crate::single::step(VIEW_RADIUS as int) == 2 * slack(),
{
    let q = 0xC8_0000int;
    lemma2_to64();
    crate::single::lemma_p2_add(18, 131);
    crate::single::lemma_p2_next(130);
    crate::single::lemma_mag_split(131, q);
    assert(131int * 0x80_0000 + q == VIEW_RADIUS);
    assert(q * crate::single::p2(131) == 50 * crate::single::one()) by (nonlinear_arith)
        requires
            q == 50 * 0x4_0000,
            crate::single::one() == 0x4_0000 * crate::single::p2(131),
    ;
}

/// Two finite coordinates are within the view radius exactly where they are not further than 50
/// apart, up to the slack that rounding the difference leaves.
pub proof fn law_near(a: Single, b: Single)
    requires
        a.is_finite(),
        b.is_finite(),
    ensures
        crate::arith::is_near(a, b, Single { bits: VIEW_RADIUS }) <==> crate::single::abs(
            a.units() - b.units(),
        ) <= 50 * crate::single::one() + slack(),
{
    let n = crate::single::abs(a.units() - b.units());
    let r = VIEW_RADIUS as int;
    let g = crate::single::rounded(n, 1);
    let mid = 50 * crate::single::one() + slack();
    law_view_radius();
    crate::single::lemma_p2_pos(130);
    crate::single::lemma_p2_pos(149);
    crate::single::lemma_mag_step(r);
    crate::single::lemma_mag_step(r - 1);
    crate::single::lemma_nearest_exists(n, 1);
    if n <= mid {
        crate::single::lemma_nearest_by_midpoints(r, mid, 1);
        crate::single::lemma_rounded(r, mid, 1);
        crate::single::lemma_rounded_ordered(n, 1, mid, 1);
    } else if g <= r {
        reveal(crate::single::is_nearest);
        if g < r {
            crate::single::lemma_mag_increases(g, r);
        }
        assert(crate::single::abs(n - 1 * crate::single::mag(g)) <= crate::single::abs(
            n - 1 * crate::single::mag(r + 1),
        ));
    }
}

/// Two finite coordinates are within a finite range exactly where their distance is less than half
/// way from the range to the next number, or just half way and the range has an even pattern. So
/// what is no further than the range is always within it.
pub proof fn law_near_range(a: Single, b: Single, r: Single)
    requires
        a.is_finite(),
        b.is_finite(),
        r.is_finite(),
        !r.is_negative(),
    ensures
        ({
            let d = crate::single::abs(a.units() - b.units());
            let m = crate::single::mag(r.pattern()) + crate::single::mag(r.pattern() + 1);
            &&& crate::arith::is_near(a, b, r) <==> 2 * d < m || (2 * d == m && r.pattern() % 2
                == 0)
            &&& d <= r.units() ==> crate::arith::is_near(a, b, r)
        }),
{
    let d = crate::single::abs(a.units() - b.units());
    let p = r.pattern();
    let g = crate::single::rounded(d, 1);
    let (x, y, z) = (crate::single::mag(p), crate::single::mag(p + 1), crate::single::mag(g));
    crate::single::lemma_mag_step(p);
    crate::single::lemma_nearest_exists(d, 1);
    reveal(crate::single::is_nearest);
    assert(crate::single::abs(d - 1 * z) <= crate::single::abs(d - 1 * x));
    assert(crate::single::abs(d - 1 * z) <= crate::single::abs(d - 1 * y));
    if g < p {
        crate::single::lemma_mag_increases(g, p);
    } else if g > p + 1 {
        crate::single::lemma_mag_increases(p + 1, g);
    }
}

/// What is no number is near nothing, and nothing is within a negative range. An infinite coordinate
/// is only within an infinite range of a finite one or of the opposite one; finite ones always are.
pub proof fn law_near_special(a: Single, b: Single, r: Single)
    ensures
        a.is_nan() || b.is_nan() || r.is_nan() ==> !crate::arith::is_near(a, b, r),
        r.is_negative() && r.pattern() != 0 ==> !crate::arith::is_near(a, b, r),
        a.is_infinite() && b.is_finite() ==> (crate::arith::is_near(a, b, r) <==> r.is_infinite()
            && !r.is_negative()),
        b.is_infinite() && a.is_finite() ==> (crate::arith::is_near(a, b, r) <==> r.is_infinite()
            && !r.is_negative()),
        a.is_infinite() && b.is_infinite() && a.is_negative() == b.is_negative()
            ==> !crate::arith::is_near(a, b, r),
        a.is_infinite() && b.is_infinite() && a.is_negative() != b.is_negative() ==> (
        crate::arith::is_near(a, b, r) <==> r.is_infinite() && !r.is_negative()),
        a.is_finite() && b.is_finite() && r.is_infinite() && !r.is_negative()
            ==> crate::arith::is_near(a, b, r),
        a.is_finite() && b.is_finite() && r.pattern() == 0 ==> (crate::arith::is_near(a, b, r)
            <==> a.units() == b.units()),
{
    let d = crate::single::abs(a.units() - b.units());
    crate::single::lemma_nearest_exists(d, 1);
    crate::single::lemma_rounded_exact(0, 0, 1);
    crate::single::lemma_rounded_exact(1, 1, 1);
    if d >= 1 {
        crate::single::lemma_rounded_ordered(1, 1, d, 1);
    }
}

/// The square of a coordinate follows the coordinate: it is the fiftieth part of it, up to what
/// rounding that part changes, which is at most its 2^24th part. Where an index cannot count so far,
/// the last square takes all that is beyond. Below zero, and for what is no number, it is the first.
pub proof fn law_square(x: Single)
    ensures
        ({
            let q = crate::arith::quotient(x, 50);
            let o = crate::single::one();
            &&& 0 <= q <= usize::MAX
            &&& x.is_nan() || x.is_negative() ==> q == 0
            &&& x.is_infinite() && !x.is_negative() ==> q == usize::MAX
            &&& x.is_finite() && !x.is_negative() ==> 0x100_0000 * (50 * (q * o)) <= 0x100_0001
                * x.units()
            &&& x.is_finite() && !x.is_negative() && q < usize::MAX ==> 0xFF_FFFF * x.units()
                < 0x100_0000 * (50 * ((q + 1) * o))
        }),
{
    let o = crate::single::one();
    crate::single::lemma_p2_pos(149);
    if x.is_finite() && !x.is_negative() {
        let u = x.units();
        let r = crate::single::rounded(u, 50);
        let t = crate::single::mag(r);
        let whole = t / o;
        let q = crate::arith::quotient(x, 50);
        crate::single::lemma_mag_nonneg(x.pattern());
        crate::single::lemma_nearest_exists(u, 50);
        crate::single::lemma_mag_nonneg(r);
        crate::single::lemma_rounded_exact(x.pattern(), u, 1);
        crate::single::lemma_rounded_ordered(u, 50, u, 1);
        vstd::arithmetic::div_mod::lemma_fundamental_div_mod(t, o);
        vstd::arithmetic::div_mod::lemma_mod_bound(t, o);
        vstd::arithmetic::div_mod::lemma_div_pos_is_pos(t, o);
        assert(o * whole == whole * o && (whole + 1) * o == whole * o + o) by (nonlinear_arith);
        assert(0 <= q * o <= whole * o) by (nonlinear_arith)
            requires
                0 <= q <= whole,
                0 < o,
        ;
        if u >= 50 * 0x80_0000 {
            crate::single::lemma_relative(u, 50);
        } else {
            // What is too small for that lies far below one square.
            crate::single::lemma_p2_values();
            lemma_pow2_strictly_increases(24, 149);
            let c = 0x80_0000int;
            crate::single::lemma_mag_split(0, c);
            crate::single::lemma_rounded_exact(c, 50 * c, 50);
            crate::single::lemma_rounded_ordered(u, 50, 50 * c, 50);
            if r < c {
                crate::single::lemma_mag_increases(r, c);
            }
            assert(whole == 0) by (nonlinear_arith)
                requires
                    0 <= t < o,
                    whole == t / o,
            ;
        }
    }
}

/// The square of a coordinate that is not below zero is the whole part of the number of single
/// precision that is nearest to the fiftieth part of the coordinate, as far as an index counts.
pub proof fn law_square_exact(x: Single, b: int)
    requires
        x.is_finite(),
        !x.is_negative(),
        crate::single::is_nearest(b, x.units(), 50),
    ensures
        ({
            let q = crate::arith::quotient(x, 50);
            let o = crate::single::one();
            &&& q < usize::MAX ==> q * o <= crate::single::mag(b) < (q + 1) * o
            &&& q == usize::MAX ==> q * o <= crate::single::mag(b)
        }),
{
    let o = crate::single::one();
    let t = crate::single::mag(b);
    let w = t / o;
    crate::single::lemma_rounded(b, x.units(), 50);
    crate::single::lemma_p2_pos(149);
    vstd::arithmetic::div_mod::lemma_fundamental_div_mod(t, o);
    vstd::arithmetic::div_mod::lemma_mod_bound(t, o);
    assert(o * w == w * o && (w + 1) * o == w * o + o) by (nonlinear_arith);
    let q = crate::arith::quotient(x, 50);
    assert(q * o <= w * o) by (nonlinear_arith)
        requires
            q <= w,
            0 < o,
    ;
}

/// The gap between two coordinates is the number nearest to their distance. It does not matter which
/// comes first. What is no number, and two infinities of the same sign, have none.
pub proof fn law_gap(a: Single, b: Single)
    ensures
        crate::arith::gap_of(a, b) == crate::arith::gap_of(b, a),
        a.is_finite() && b.is_finite() ==> crate::arith::gap_of(a, b) is Some
            && crate::single::is_nearest(
            crate::arith::gap_of(a, b)->0,
            crate::single::abs(a.units() - b.units()),
            1,
        ),
        a.is_nan() || b.is_nan() ==> crate::arith::gap_of(a, b) is None,
        a.is_infinite() && b.is_infinite() && a.is_negative() == b.is_negative()
            ==> crate::arith::gap_of(a, b) is None,
        a.is_infinite() && b.is_infinite() && a.is_negative() != b.is_negative()
            ==> crate::arith::gap_of(a, b) == Some(INFINITE as int),
        a.is_infinite() && b.is_finite() ==> crate::arith::gap_of(a, b) == Some(INFINITE as int),
{
    let d = crate::single::abs(a.units() - b.units());
    crate::single::lemma_nearest_exists(d, 1);
}

/// Further along the axis there is no earlier square.
pub proof fn law_squares_ordered(x: Single, y: Single)
    requires
        x.is_finite(),
        y.is_finite(),
        x.units() <= y.units(),
    ensures
        crate::arith::quotient(x, 50) <= crate::arith::quotient(y, 50),
{
    law_square(y);
    crate::single::lemma_mag_nonneg(x.pattern());
    crate::single::lemma_mag_nonneg(y.pattern());
    if !x.is_negative() && !y.is_negative() {
        let (u, v) = (x.units(), y.units());
        crate::single::lemma_rounded_ordered(u, 50, v, 50);
        crate::single::lemma_nearest_exists(u, 50);
        let (a, b) = (crate::single::rounded(u, 50), crate::single::rounded(v, 50));
        if a < b {
            crate::single::lemma_mag_increases(a, b);
        }
        crate::single::lemma_p2_pos(149);
        vstd::arithmetic::div_mod::lemma_div_is_ordered(
            crate::single::mag(a),
            crate::single::mag(b),
            crate::single::one(),
        );
    } else if !x.is_negative() {
        // Then `y` is the zero with a sign, and `x` is zero.
        law_square(x);
        crate::single::lemma_mag_nonneg(x.pattern());
        crate::single::lemma_p2_pos(149);
        let q = crate::arith::quotient(x, 50);
        let o = crate::single::one();
        assert(x.units() == 0);
        assert(q == 0) by (nonlinear_arith)
            requires
                0 <= q,
                0x100_0000 * (50 * (q * o)) <= 0,
                0 < o,
        ;
    }
}

/// A square is found by its column and its row: the column belongs to the first coordinate, the row
/// to the second. Up to 2^24 each is the coordinate divided by 50, without the remainder.
pub proof fn law_cell_of(x: Single, y: Single)
    ensures
        ({
            let c = crate::router::cell_of(x, y);
            let o = crate::single::one();
            &&& moderate(x) && !x.is_negative() ==> c.0 == x.units() / (50 * o)
            &&& moderate(y) && !y.is_negative() ==> c.1 == y.units() / (50 * o)
            &&& x.is_nan() || x.is_negative() ==> c.0 == 0
            &&& y.is_nan() || y.is_negative() ==> c.1 == 0
            &&& x.is_infinite() && !x.is_negative() ==> c.0 == usize::MAX
            &&& y.is_infinite() && !y.is_negative() ==> c.1 == usize::MAX
            &&& x.is_finite() && !x.is_negative() ==> 0x100_0000 * (50 * (c.0 * o)) <= 0x100_0001
                * x.units()
            &&& x.is_finite() && !x.is_negative() && c.0 < usize::MAX ==> 0xFF_FFFF * x.units()
                < 0x100_0000 * (50 * ((c.0 + 1) * o))
            &&& y.is_finite() && !y.is_negative() ==> 0x100_0000 * (50 * (c.1 * o)) <= 0x100_0001
                * y.units()
            &&& y.is_finite() && !y.is_negative() && c.1 < usize::MAX ==> 0xFF_FFFF * y.units()
                < 0x100_0000 * (50 * ((c.1 + 1) * o))
        }),
{
    law_square(x);
    law_square(y);
    if moderate(x) && !x.is_negative() {
        law_cell(x);
    }
    if moderate(y) && !y.is_negative() {
        law_cell(y);
    }
}

/// An integer is rounded to an integer, and by no more than its 2^24th part.
pub proof fn lemma_whole_rounded(v: int) -> (w: int)
    requires
        0 <= v,
        crate::single::rounded(v * crate::single::one(), 1) < INFINITE,
    ensures
        0 <= w,
        crate::single::mag(crate::single::rounded(v * crate::single::one(), 1)) == w
            * crate::single::one(),
        0x100_0000 * crate::single::abs(v - w) <= v,
{
    let o = crate::single::one();
    let b = crate::single::rounded(v * o, 1);
    crate::single::lemma_p2_pos(149);
    if v <= 0x100_0000 {
        lemma_whole(v);
        v
    } else {
        let c = crate::single::rounded(0x100_0000 * o, 1);
        lemma_whole(0x100_0000);
        assert(0x100_0000 * o <= v * o && v * o >= o) by (nonlinear_arith)
            requires
                v > 0x100_0000,
                o > 0,
        ;
        crate::single::lemma_rounded_ordered(0x100_0000 * o, 1, v * o, 1);
        if c < b {
            crate::single::lemma_mag_increases(c, b);
        }
        crate::single::lemma_nearest_exists(v * o, 1);
        crate::single::lemma_p2_values();
        lemma_pow2_strictly_increases(24, 149);
        let w = lemma_multiple(b, 149);
        crate::single::lemma_relative(v * o, 1);
        assert(0 <= w) by (nonlinear_arith)
            requires
                w * o >= 0x100_0000 * o,
                o > 0,
        ;
        assert(v * o - 1 * (w * o) == (v - w) * o) by (nonlinear_arith);
        assert(0x100_0000 * crate::single::abs(v - w) <= v) by (nonlinear_arith)
            requires
                0x100_0000 * crate::single::abs((v - w) * o) <= v * o,
                o > 0,
        ;
        w
    }
}

/// A coordinate from zero up to 2^24 lies in the square whose number is its value divided by the
/// side of a square, without the remainder: rounding the quotient does not move it on there.
pub proof fn law_cell(x: Single)
    requires
        moderate(x),
        !x.is_negative(),
    ensures
        crate::arith::quotient(x, CELL_SIZE as int) == x.units() / (CELL_SIZE
            * crate::single::one()),
        x.units() / (CELL_SIZE * crate::single::one()) <= 0x5_5555,
{
    let o = crate::single::one();
    let u = x.units();
    crate::single::lemma_p2_pos(149);
    crate::single::lemma_mag_nonneg(x.pattern());
    let n = u / (50 * o);
    vstd::arithmetic::div_mod::lemma_fundamental_div_mod(u, 50 * o);
    vstd::arithmetic::div_mod::lemma_mod_bound(u, 50 * o);
    assert(0 <= n && n * (50 * o) <= u && u < (n + 1) * (50 * o) && 50 * n < 0x100_0000)
        by (nonlinear_arith)
        requires
            u == (50 * o) * n + u % (50 * o),
            0 <= u % (50 * o) < 50 * o,
            0 <= u < 0x100_0000 * o,
            0 < o,
    ;
    let r = crate::single::rounded(u, 50);
    crate::single::lemma_nearest_exists(u, 50);
    // The rounded quotient is at least `n`.
    lemma_whole(n);
    let low = crate::single::rounded(n * o, 1);
    crate::single::lemma_rounded_exact(low, 50 * (n * o), 50);
    assert((50 * (n * o)) * 50 <= u * 50) by (nonlinear_arith)
        requires
            n * (50 * o) <= u,
    ;
    crate::single::lemma_rounded_ordered(50 * (n * o), 50, u, 50);
    if low < r {
        crate::single::lemma_mag_increases(low, r);
    }
    // It is less than `n + 1`.
    lemma_whole(n + 1);
    let high = crate::single::rounded((n + 1) * o, 1);
    if high <= r {
        lemma_no_carry(x.pattern(), high, n + 1);
        crate::single::lemma_mag_increases(high - 1, high);
        reveal(crate::single::is_nearest);
        let (y, z, w) = (
            crate::single::mag(high - 1),
            crate::single::mag(high),
            crate::single::mag(r),
        );
        if high < r {
            crate::single::lemma_mag_increases(high, r);
        }
        assert(crate::single::abs(u - 50 * w) <= crate::single::abs(u - 50 * y));
    }
    let t = crate::single::mag(r);
    assert((n + 1) * o == n * o + o) by (nonlinear_arith);
    if r < high {
        crate::single::lemma_mag_increases(r, high);
    }
    vstd::arithmetic::div_mod::lemma_fundamental_div_mod_converse(t, o, n, t - n * o);
}

/// A number below `50 * n` is too far below it for its fiftieth part to be rounded up to `n`.
proof fn lemma_no_carry(b: int, high: int, n: int)
    requires
        0 <= b < INFINITE,
        0 < n,
        50 * n < 0x100_0000 + 51,
        0 <= high < INFINITE,
        crate::single::mag(high) == n * crate::single::one(),
        crate::single::mag(b) < n * (50 * crate::single::one()),
    ensures
        0 < high,
        2 * crate::single::mag(b) < 50 * (crate::single::mag(high - 1) + crate::single::mag(high)),
        crate::single::mag(b) < 50 * crate::single::mag(high),
{
    let o = crate::single::one();
    let u = crate::single::mag(b);
    crate::single::lemma_p2_pos(149);
    crate::single::lemma_p2_values();
    let big = lemma_even(25 * n);
    assert((2 * (25 * n)) * o == 50 * (n * o) && n * (50 * o) == 50 * (n * o) && n * o >= o)
        by (nonlinear_arith)
        requires
            n >= 1,
            o > 0,
    ;
    if high < 0x80_0000 {
        lemma_pow2_strictly_increases(24, 149);
    }
    let e = (high - 1) / 0x80_0000 - 1;
    if high == 0x80_0000 {
        lemma_pow2_strictly_increases(24, 149);
        crate::single::lemma_mag_split(0, 0x80_0000);
    }
    let s = crate::single::p2(e);
    crate::single::lemma_p2_pos(e);
    crate::single::lemma_mag_step(high - 1);
    let q = 0x80_0000 + (high - 1) % 0x80_0000;
    assert(crate::single::mag(high - 1) >= 0x80_0000 * s) by (nonlinear_arith)
        requires
            crate::single::mag(high - 1) == q * s,
            q >= 0x80_0000,
            s > 0,
    ;
    // The patterns around `50 * n` lie more than 25 times as far apart as those around `n`.
    lemma_p2_32(e);
    assert(crate::single::step(high - 1) == s);
    assert(crate::single::mag(big) == 50 * crate::single::mag(high));
    lemma_step_below(big, e + 5);
    if b > big - 1 {
        if b > big {
            crate::single::lemma_mag_increases(big, b);
        }
    } else if b < big - 1 {
        crate::single::lemma_mag_increases(b, big - 1);
    }
}

/// A coordinate that is no more than the view radius away lies in the same square or in one next
/// to it.
pub proof fn law_adjacent(a: Single, b: Single)
    requires
        crate::arith::is_near(a, b, Single { bits: VIEW_RADIUS }),
    ensures
        crate::arith::quotient(a, CELL_SIZE as int) <= crate::arith::quotient(b, CELL_SIZE as int)
            + 1,
        crate::arith::quotient(b, CELL_SIZE as int) <= crate::arith::quotient(a, CELL_SIZE as int)
            + 1,
{
    law_near(a, b);
    if moderate(a) && moderate(b) {
        lemma_not_two_apart(a, b);
        lemma_not_two_apart(b, a);
    } else {
        lemma_far_out(a, b);
        lemma_far_out(b, a);
    }
}

/// A magnitude of at least `2^23 * 2^k` is a multiple of `2^k`.
proof fn lemma_multiple(b: int, k: int) -> (c: int)
    requires
        0 <= b,
        0 <= k,
        crate::single::mag(b) >= 0x80_0000 * crate::single::p2(k),
    ensures
        crate::single::mag(b) == c * crate::single::p2(k),
{
    let p = k * 0x80_0000 + 0x80_0000;
    crate::single::lemma_mag_split(k, 0x80_0000);
    if b < p {
        crate::single::lemma_mag_increases(b, p);
    }
    let e = b / 0x80_0000 - 1;
    let q = 0x80_0000 + b % 0x80_0000;
    assert(e >= k);
    crate::single::lemma_p2_add(e - k, k);
    let (x, y) = (crate::single::p2(e - k), crate::single::p2(k));
    assert(q * (x * y) == (q * x) * y) by (nonlinear_arith);
    q * x
}

/// Far from the origin all coordinates are integers, and a square further than the next one is
/// more than 50 away.
proof fn lemma_far_out(a: Single, b: Single)
    requires
        a.is_finite(),
        b.is_finite(),
        !moderate(a) || !moderate(b),
        crate::single::abs(a.units() - b.units()) <= 50 * crate::single::one() + slack(),
    ensures
        crate::arith::quotient(a, CELL_SIZE as int) <= crate::arith::quotient(b, CELL_SIZE as int)
            + 1,
{
    let o = crate::single::one();
    let (ba, bb) = (a.pattern(), b.pattern());
    let (u, v) = (crate::single::mag(ba), crate::single::mag(bb));
    crate::single::lemma_p2_pos(149);
    crate::single::lemma_mag_nonneg(ba);
    crate::single::lemma_mag_nonneg(bb);
    lemma_pow2_strictly_increases(130, 149);
    let (ra, rb) = (crate::single::rounded(u, 50), crate::single::rounded(v, 50));
    crate::single::lemma_nearest_exists(u, 50);
    crate::single::lemma_nearest_exists(v, 50);
    crate::single::lemma_mag_nonneg(rb);
    vstd::arithmetic::div_mod::lemma_div_pos_is_pos(crate::single::mag(rb), o);
    if !a.is_negative() && !b.is_negative() {
        if u <= v {
            crate::single::lemma_rounded_ordered(u, 50, v, 50);
            if ra < rb {
                crate::single::lemma_mag_increases(ra, rb);
            }
            vstd::arithmetic::div_mod::lemma_div_is_ordered(
                crate::single::mag(ra),
                crate::single::mag(rb),
                o,
            );
        } else {
            lemma_exactly_50(ba, bb);
            let n = crate::single::mag(rb) / o + 1;
            vstd::arithmetic::div_mod::lemma_fundamental_div_mod(crate::single::mag(rb), o);
            vstd::arithmetic::div_mod::lemma_mod_bound(crate::single::mag(rb), o);
            assert(crate::single::mag(rb) < n * o) by (nonlinear_arith)
                requires
                    crate::single::mag(rb) == o * (n - 1) + crate::single::mag(rb) % o,
                    crate::single::mag(rb) % o < o,
            ;
            lemma_whole(1);
            let unit = crate::single::rounded(1 * o, 1);
            crate::single::lemma_rounded_exact(unit, 50 * o, 50);
            crate::single::lemma_rounded_ordered(50 * o, 50, v, 50);
            if unit < rb {
                crate::single::lemma_mag_increases(unit, rb);
            }
            assert(n >= 2) by (nonlinear_arith)
                requires
                    o <= crate::single::mag(rb) < n * o,
                    0 < o,
            ;
            if crate::single::mag(ra) / o >= n + 1 {
                vstd::arithmetic::div_mod::lemma_fundamental_div_mod(crate::single::mag(ra), o);
                vstd::arithmetic::div_mod::lemma_mod_bound(crate::single::mag(ra), o);
                let k = crate::single::mag(ra) / o;
                assert(crate::single::mag(ra) >= (n + 1) * o) by (nonlinear_arith)
                    requires
                        crate::single::mag(ra) == o * k + crate::single::mag(ra) % o,
                        0 <= crate::single::mag(ra) % o,
                        k >= n + 1,
                        0 < o,
                ;
                if n + 1 > 0x100_0000 {
                    lemma_beyond_integers(ba, bb, ra, n);
                } else {
                    lemma_squares_apart(ba, bb, ra, rb, n);
                }
            }
        }
    }
}

/// Between coordinates that are integers there is no slack.
proof fn lemma_exactly_50(a: int, b: int)
    requires
        0 <= b < INFINITE,
        0 <= a < INFINITE,
        crate::single::mag(b) < crate::single::mag(a),
        crate::single::mag(a) >= 0x100_0000 * crate::single::one(),
        crate::single::mag(a) - crate::single::mag(b) <= 50 * crate::single::one() + slack(),
    ensures
        crate::single::mag(a) - crate::single::mag(b) <= 50 * crate::single::one(),
        crate::single::mag(b) >= 0x80_0000 * crate::single::one(),
{
    let o = crate::single::one();
    crate::single::lemma_p2_pos(149);
    lemma_pow2_strictly_increases(130, 149);
    let x = lemma_multiple(a, 149);
    let y = lemma_multiple(b, 149);
    assert(x - y <= 50) by (nonlinear_arith)
        requires
            x * o - y * o < 51 * o,
            0 < o,
    ;
    assert(x * o - y * o <= 50 * o) by (nonlinear_arith)
        requires
            x - y <= 50,
            0 < o,
    ;
}

/// Where the quotients are too large to be told apart by one, two coordinates within the radius
/// are the same.
proof fn lemma_beyond_integers(a: int, b: int, ra: int, n: int)
    requires
        0 <= b < INFINITE,
        0 <= a < INFINITE,
        crate::single::mag(b) < crate::single::mag(a),
        crate::single::mag(a) - crate::single::mag(b) <= 50 * crate::single::one(),
        ra == crate::single::rounded(crate::single::mag(a), 50),
        n + 1 > 0x100_0000,
    ensures
        crate::single::mag(ra) < (n + 1) * crate::single::one(),
{
    if crate::single::mag(ra) >= (n + 1) * crate::single::one() {
        let o = crate::single::one();
        let u = crate::single::mag(a);
        crate::single::lemma_p2_pos(149);
        crate::single::lemma_mag_nonneg(a);
        lemma_whole(0x100_0000);
        let top = crate::single::rounded(0x100_0000 * o, 1);
        crate::single::lemma_rounded_exact(top, 50 * (0x100_0000 * o), 50);
        assert((n + 1) * o > 0x100_0000 * o) by (nonlinear_arith)
            requires
                n + 1 > 0x100_0000,
                0 < o,
        ;
        if u <= 50 * (0x100_0000 * o) {
            crate::single::lemma_rounded_ordered(u, 50, 50 * (0x100_0000 * o), 50);
            crate::single::lemma_nearest_exists(u, 50);
            if ra < top {
                crate::single::lemma_mag_increases(ra, top);
            }
        }
        lemma_p2_32(149);
        crate::single::lemma_p2_next(154);
        let x = lemma_multiple(a, 155);
        let y = lemma_multiple(b, 155);
        assert(x == y) by (nonlinear_arith)
            requires
                0 < x * (64 * o) - y * (64 * o) < 64 * o,
                0 < o,
        ;
    }
}

/// Two coordinates that are at most 50 apart are not two squares apart.
proof fn lemma_squares_apart(a: int, b: int, ra: int, rb: int, n: int)
    requires
        0 <= b < INFINITE,
        0 <= a < INFINITE,
        crate::single::mag(b) < crate::single::mag(a),
        crate::single::mag(a) - crate::single::mag(b) <= 50 * crate::single::one(),
        crate::single::mag(b) >= 0x80_0000 * crate::single::one(),
        ra == crate::single::rounded(crate::single::mag(a), 50),
        rb == crate::single::rounded(crate::single::mag(b), 50),
        crate::single::mag(rb) < n * crate::single::one(),
        2 <= n,
        n + 1 <= 0x100_0000,
    ensures
        crate::single::mag(ra) < (n + 1) * crate::single::one(),
{
    if crate::single::mag(ra) >= (n + 1) * crate::single::one() {
        let o = crate::single::one();
        let (u, v) = (crate::single::mag(a), crate::single::mag(b));
        crate::single::lemma_p2_pos(149);
        crate::single::lemma_p2_values();
        crate::single::lemma_nearest_exists(u, 50);
        crate::single::lemma_nearest_exists(v, 50);
        lemma_whole(n);
        lemma_whole(n + 1);
        let p0 = crate::single::rounded(n * o, 1);
        let p1 = crate::single::rounded((n + 1) * o, 1);
        assert(n * o >= 2 * o && (n + 1) * o == n * o + o) by (nonlinear_arith)
            requires
                n >= 2,
                o > 0,
        ;
        crate::single::lemma_mag_nonneg(p0);
        lemma_pow2_strictly_increases(24, 149);
        if p0 <= 0x80_0000 {
            crate::single::lemma_mag_split(0, 0x80_0000);
        }
        if p1 < p0 {
            crate::single::lemma_mag_increases(p1, p0);
        }
        // The steps below `n` and below `n + 1`.
        let e = (p0 - 1) / 0x80_0000 - 1;
        let s = crate::single::p2(e);
        crate::single::lemma_p2_pos(e);
        crate::single::lemma_mag_step(p0 - 1);
        crate::single::lemma_mag_step(p1 - 1);
        let q = 0x80_0000 + (p0 - 1) % 0x80_0000;
        let w = q + 1;
        assert(n * o == w * s) by (nonlinear_arith)
            requires
                n * o == q * s + s,
                w == q + 1,
        ;
        let s1 = crate::single::step(p1 - 1);
        lemma_midpoint_above(u, ra, p1);
        lemma_midpoint_below(v, rb, p0);
        lemma_steps_next(n, e, w, p1);
        assert(v >= 50 * (w * s) - 25 * s1);
        assert(v <= 50 * (w * s) - 25 * s);
        assert((w - 1) * s >= 0x80_0000 * s && (w - 1) * s == w * s - s) by (nonlinear_arith)
            requires
                w - 1 >= 0x80_0000,
                s > 0,
        ;
        lemma_p2_32(e);
        if w < 0x100_0000 {
            let c = lemma_multiple(b, e + 5);
            assert(32 * c == 50 * w - 25) by (nonlinear_arith)
                requires
                    c * (32 * s) == 50 * (w * s) - 25 * s,
                    s > 0,
            ;
        } else {
            crate::single::lemma_p2_next(e + 5);
            assert(w * s == 0x100_0000 * s);
            let c = lemma_multiple(b, e + 6);
            assert(50 * w - 50 <= 64 * c <= 50 * w - 25) by (nonlinear_arith)
                requires
                    50 * (w * s) - 50 * s <= c * (64 * s) <= 50 * (w * s) - 25 * s,
                    s > 0,
            ;
        }
    }
}

/// A value that is rounded to at least `p` lies at least at the midpoint below it.
proof fn lemma_midpoint_above(u: int, r: int, p: int)
    requires
        0 <= u,
        r == crate::single::rounded(u, 50),
        0 < p < INFINITE,
        crate::single::mag(p) <= crate::single::mag(r),
    ensures
        2 * u >= 50 * (crate::single::mag(p - 1) + crate::single::mag(p)),
{
    crate::single::lemma_nearest_exists(u, 50);
    reveal(crate::single::is_nearest);
    crate::single::lemma_mag_increases(p - 1, p);
    assert(crate::single::abs(u - 50 * crate::single::mag(r)) <= crate::single::abs(
        u - 50 * crate::single::mag(p - 1),
    ));
}

/// A value that is rounded to less than `p` lies at most at the midpoint below it.
proof fn lemma_midpoint_below(v: int, r: int, p: int)
    requires
        0 <= v,
        r == crate::single::rounded(v, 50),
        0 < p < INFINITE,
        crate::single::mag(r) < crate::single::mag(p),
    ensures
        2 * v <= 50 * (crate::single::mag(p - 1) + crate::single::mag(p)),
{
    crate::single::lemma_nearest_exists(v, 50);
    reveal(crate::single::is_nearest);
    if p < r {
        crate::single::lemma_mag_increases(p, r);
    }
    assert(r < p);
    if r < p - 1 {
        crate::single::lemma_mag_increases(r, p - 1);
    }
    assert(crate::single::abs(v - 50 * crate::single::mag(r)) <= crate::single::abs(
        v - 50 * crate::single::mag(p),
    ));
}

/// The step below `n + 1` is that below `n`, or twice that where `n` is a power of two.
proof fn lemma_steps_next(n: int, e: int, w: int, p1: int)
    requires
        2 <= n,
        0 <= e,
        0x80_0000 < w <= 0x100_0000,
        n * crate::single::one() == w * crate::single::p2(e),
        0 < p1,
        crate::single::mag(p1) == (n + 1) * crate::single::one(),
    ensures
        crate::single::step(p1 - 1) <= 2 * crate::single::p2(e),
        w < 0x100_0000 ==> crate::single::step(p1 - 1) <= crate::single::p2(e),
{
    let o = crate::single::one();
    let s = crate::single::p2(e);
    crate::single::lemma_p2_pos(149);
    crate::single::lemma_p2_pos(e);
    crate::single::lemma_p2_next(e);
    crate::single::lemma_p2_values();
    crate::single::lemma_p2_add(24, e);
    crate::single::lemma_mag_split(e, 0x100_0000);
    crate::single::lemma_mag_split(e + 1, 0x100_0000);
    let t = e * 0x80_0000 + 0x100_0000;
    let t2 = (e + 1) * 0x80_0000 + 0x100_0000;
    assert((n + 1) * o <= 2 * (0x100_0000 * s)) by (nonlinear_arith)
        requires
            n * o == w * s,
            n >= 2,
            w <= 0x100_0000,
            s > 0,
            o > 0,
    ;
    if p1 > t2 {
        crate::single::lemma_mag_increases(t2, p1);
    }
    lemma_step_grows(p1 - 1, t2 - 1);
    assert((t2 - 1) / 0x80_0000 - 1 == e + 1);
    if w < 0x100_0000 {
        assert(w * s < 0x100_0000 * s) by (nonlinear_arith)
            requires
                w < 0x100_0000,
                s > 0,
        ;
        assert(0x100_0000 * s >= o) by (nonlinear_arith)
            requires
                0x100_0000 * s > n * o,
                n >= 2,
                o > 0,
        ;
        if 24 + e < 149 {
            lemma_pow2_strictly_increases((24 + e) as nat, 149);
        }
        crate::single::lemma_p2_add(24 + e - 149, 149);
        let k = crate::single::p2(24 + e - 149);
        assert(n + 1 <= k) by (nonlinear_arith)
            requires
                n * o < k * o,
                o > 0,
        ;
        assert((n + 1) * o <= k * o) by (nonlinear_arith)
            requires
                n + 1 <= k,
                o > 0,
        ;
        if p1 > t {
            crate::single::lemma_mag_increases(t, p1);
        }
        lemma_step_grows(p1 - 1, t - 1);
        assert((t - 1) / 0x80_0000 - 1 == e);
    }
}

proof fn lemma_not_two_apart(a: Single, b: Single)
    requires
        moderate(a),
        moderate(b),
        a.units() - b.units() <= 50 * crate::single::one() + slack(),
    ensures
        crate::arith::quotient(a, CELL_SIZE as int) <= crate::arith::quotient(b, CELL_SIZE as int)
            + 1,
{
    let o = crate::single::one();
    let (u, v) = (a.units(), b.units());
    crate::single::lemma_p2_pos(149);
    crate::single::lemma_mag_nonneg(b.pattern());
    let n = u / (50 * o);
    let k = crate::arith::quotient(b, CELL_SIZE as int);
    vstd::arithmetic::div_mod::lemma_fundamental_div_mod(u, 50 * o);
    vstd::arithmetic::div_mod::lemma_mod_bound(u, 50 * o);
    if !a.is_negative() {
        law_cell(a);
    }
    if !b.is_negative() {
        law_cell(b);
        vstd::arithmetic::div_mod::lemma_fundamental_div_mod(v, 50 * o);
        vstd::arithmetic::div_mod::lemma_mod_bound(v, 50 * o);
        vstd::arithmetic::div_mod::lemma_div_pos_is_pos(v, 50 * o);
    }
    assert(v < (k + 1) * (50 * o)) by (nonlinear_arith)
        requires
            0 < o,
            (v <= 0 && k == 0) || (v == (50 * o) * k + v % (50 * o) && v % (50 * o) < 50 * o),
    ;
    if !a.is_negative() && n > k + 1 {
        let m = k + 1;
        assert(u >= m * (50 * o) + 50 * o) by (nonlinear_arith)
            requires
                u >= (50 * o) * n,
                n >= m + 1,
                0 < o,
        ;
        let big = lemma_even(25 * m);
        assert((2 * (25 * m)) * o == m * (50 * o) && m * (50 * o) >= 50 * o) by (nonlinear_arith)
            requires
                m >= 1,
                0 < o,
        ;
        // Just below a multiple of 50, the coordinates lie more than the slack apart.
        lemma_p2_32(149);
        crate::single::lemma_p2_values();
        crate::single::lemma_p2_add(23, 131);
        crate::single::lemma_p2_next(130);
        crate::single::lemma_p2_pos(130);
        lemma_step_below(big, 131);
        lemma_pow2_strictly_increases(130, 149);
        let p = b.pattern();
        if p > big - 1 {
            if p > big {
                crate::single::lemma_mag_increases(big, p);
            }
        } else if p < big - 1 {
            crate::single::lemma_mag_increases(p, big - 1);
        }
    }
}

} // verus!
