//! Single-precision numbers, held and computed as bit patterns.
//!
//! Every finite single is a whole multiple of the smallest positive one, 2^-149.
//! That multiple is the number's value here: the arithmetic of a position is
//! stated, and carried out, on integers.
use vstd::arithmetic::power2::*;
use vstd::prelude::*;

verus! {

/// A single-precision number as its IEEE 754 pattern: the sign in the top bit, then
/// eight bits of exponent, then 23 bits of fraction.
#[derive(Clone, Copy, PartialEq, Eq, Structural, Debug)]
pub struct Single {
    pub bits: u32,
}

impl Single {
    /// The pattern without its sign.
    pub open spec fn pattern(self) -> int {
        self.bits as int % 0x8000_0000
    }

    /// The sign is set. It can be set on zero too.
    pub open spec fn is_negative(self) -> bool {
        self.bits >= 0x8000_0000
    }

    pub open spec fn is_nan(self) -> bool {
        self.pattern() > INFINITE
    }

    pub open spec fn is_infinite(self) -> bool {
        self.pattern() == INFINITE
    }

    pub open spec fn is_finite(self) -> bool {
        self.pattern() < INFINITE
    }

    /// The value of a finite number, as a multiple of 2^-149.
    pub open spec fn units(self) -> int {
        if self.is_negative() {
            -mag(self.pattern())
        } else {
            mag(self.pattern())
        }
    }
}

/// The pattern of positive infinity. The patterns of finite magnitudes lie below it, those of
/// "not a number" above it.
pub const INFINITE: u32 = 0x7F80_0000;

/// Two to the power `e`.
pub open spec fn p2(e: int) -> int {
    pow2(e as nat) as int
}

/// The number one, as a multiple of 2^-149.
pub open spec fn one() -> int {
    p2(149)
}

/// The magnitude that an unsigned pattern stands for, as a multiple of 2^-149. The pattern of
/// infinity gets the value at which the finite range ends, 2^128.
pub open spec fn mag(b: int) -> int {
    if b < 0x80_0000 {
        b
    } else {
        (0x80_0000 + b % 0x80_0000) * p2(b / 0x80_0000 - 1)
    }
}

/// The absolute value of an integer.
pub open spec fn abs(n: int) -> int {
    if n < 0 {
        -n
    } else {
        n
    }
}

/// The unsigned pattern `b` is the one nearest to `n / d` (a multiple of 2^-149). Of two that
/// are equally near, it is the even one.
#[verifier::opaque]
pub open spec fn is_nearest(b: int, n: int, d: int) -> bool {
    &&& 0 <= b <= INFINITE
    &&& forall|c: int|
        0 <= c <= INFINITE ==> {
            &&& abs(n - d * mag(b)) <= abs(n - d * #[trigger] mag(c))
            &&& (abs(n - d * mag(b)) == abs(n - d * mag(c)) && c != b ==> b % 2 == 0)
        }
}

/// The unsigned pattern that the exact value `n / d` is rounded to.
pub open spec fn rounded(n: int, d: int) -> int {
    choose|b: int| is_nearest(b, n, d)
}

pub proof fn lemma_p2_pos(e: int)
    ensures
        p2(e) > 0,
{
    lemma_pow2_pos(e as nat);
}

pub proof fn lemma_p2_add(a: int, b: int)
    requires
        0 <= a,
        0 <= b,
    ensures
        p2(a + b) == p2(a) * p2(b),
{
    lemma_pow2_adds(a as nat, b as nat);
}

pub proof fn lemma_p2_next(e: int)
    requires
        0 <= e,
    ensures
        p2(e + 1) == 2 * p2(e),
{
    lemma_pow2_unfold((e + 1) as nat);
}

pub proof fn lemma_p2_values()
    ensures
        p2(0) == 1,
        p2(1) == 2,
        p2(23) == 0x80_0000,
        p2(24) == 0x100_0000,
{
    lemma2_to64();
    lemma2_to64_rest();
}

/// A pattern written as an exponent step `e` and a significand `q` stands for `q * 2^e`.
pub proof fn lemma_mag_split(e: int, q: int)
    requires
        0 <= e,
        0x80_0000 <= q <= 0x100_0000,
    ensures
        mag(e * 0x80_0000 + q) == q * p2(e),
{
    let b = e * 0x80_0000 + q;
    if q < 0x100_0000 {
        assert(b / 0x80_0000 == e + 1);
        assert(b % 0x80_0000 == q - 0x80_0000);
    } else {
        assert(b / 0x80_0000 == e + 2);
        assert(b % 0x80_0000 == 0);
        lemma_p2_next(e);
        assert(0x80_0000 * p2(e + 1) == 0x100_0000 * p2(e));
    }
}

/// The distance from a pattern's magnitude to the next one.
pub open spec fn step(b: int) -> int {
    if b < 0x80_0000 {
        1
    } else {
        p2(b / 0x80_0000 - 1)
    }
}

pub proof fn lemma_mag_step(b: int)
    requires
        0 <= b,
    ensures
        mag(b + 1) == mag(b) + step(b),
        step(b) > 0,
{
    if b < 0x80_0000 {
        if b + 1 == 0x80_0000 {
            lemma_p2_values();
            lemma_mag_split(0, 0x80_0000);
        }
    } else {
        let e = b / 0x80_0000 - 1;
        let q = 0x80_0000 + b % 0x80_0000;
        lemma_mag_split(e, q);
        lemma_mag_split(e, q + 1);
        lemma_p2_pos(e);
        assert(b == e * 0x80_0000 + q);
        assert((q + 1) * p2(e) == q * p2(e) + p2(e)) by (nonlinear_arith);
    }
}

/// A larger pattern stands for a larger magnitude.
pub proof fn lemma_mag_increases(b: int, c: int)
    requires
        0 <= b < c,
    ensures
        mag(b) < mag(c),
    decreases c - b,
{
    lemma_mag_step(c - 1);
    if b < c - 1 {
        lemma_mag_increases(b, c - 1);
    }
}

pub proof fn lemma_mag_nonneg(b: int)
    requires
        0 <= b,
    ensures
        0 <= mag(b),
{
    if 0 < b {
        lemma_mag_increases(0, b);
    }
}

/// A pattern is the nearest one where the value lies between the two midpoints next to it.
pub proof fn lemma_nearest_by_midpoints(b: int, n: int, d: int)
    requires
        0 < d,
        0 <= b <= INFINITE,
        b == 0 || d * (mag(b - 1) + mag(b)) < 2 * n || (d * (mag(b - 1) + mag(b)) == 2 * n && b % 2
            == 0),
        b == INFINITE || 2 * n < d * (mag(b) + mag(b + 1)) || (2 * n == d * (mag(b) + mag(b + 1))
            && b % 2 == 0),
        0 <= n,
    ensures
        is_nearest(b, n, d),
{
    reveal(is_nearest);
    assert forall|c: int| 0 <= c <= INFINITE implies {
        &&& abs(n - d * mag(b)) <= abs(n - d * #[trigger] mag(c))
        &&& (abs(n - d * mag(b)) == abs(n - d * mag(c)) && c != b ==> b % 2 == 0)
    } by {
        if c < b {
            lemma_mag_increases(c, b);
            if c < b - 1 {
                lemma_mag_increases(c, b - 1);
            }
            let (x, y, z) = (mag(c), mag(b - 1), mag(b));
            assert(d * (y + z) == d * y + d * z) by (nonlinear_arith);
            assert(d * x <= d * y) by (nonlinear_arith)
                requires
                    0 < d,
                    x <= y,
            ;
            assert(d * x < d * z) by (nonlinear_arith)
                requires
                    0 < d,
                    x < z,
            ;
        } else if b < c {
            lemma_mag_increases(b, c);
            if b + 1 < c {
                lemma_mag_increases(b + 1, c);
            }
            let (x, y, z) = (mag(b), mag(b + 1), mag(c));
            assert(d * (x + y) == d * x + d * y) by (nonlinear_arith);
            assert(d * y <= d * z) by (nonlinear_arith)
                requires
                    0 < d,
                    y <= z,
            ;
            assert(d * x < d * z) by (nonlinear_arith)
                requires
                    0 < d,
                    x < z,
            ;
        }
    }
}

/// No value has two nearest patterns.
pub proof fn lemma_nearest_unique(b: int, c: int, n: int, d: int)
    requires
        0 < d,
        is_nearest(b, n, d),
        is_nearest(c, n, d),
    ensures
        b == c,
{
    reveal(is_nearest);
    if b != c {
        let (lo, hi) = if b < c {
            (b, c)
        } else {
            (c, b)
        };
        assert(abs(n - d * mag(b)) <= abs(n - d * mag(c)));
        assert(abs(n - d * mag(c)) <= abs(n - d * mag(b)));
        assert(b % 2 == 0 && c % 2 == 0);
        let mid = lo + 1;
        lemma_mag_increases(lo, mid);
        lemma_mag_increases(mid, hi);
        let (x, y, z) = (mag(lo), mag(mid), mag(hi));
        assert(d * x < d * y && d * y < d * z) by (nonlinear_arith)
            requires
                0 < d,
                x < y,
                y < z,
        ;
    }
}

/// What is nearest is what a value is rounded to.
pub proof fn lemma_rounded(b: int, n: int, d: int)
    requires
        0 < d,
        is_nearest(b, n, d),
    ensures
        rounded(n, d) == b,
{
    lemma_nearest_unique(b, rounded(n, d), n, d);
}

/// A value that a pattern stands for is rounded to that pattern.
pub proof fn lemma_rounded_exact(b: int, n: int, d: int)
    requires
        0 < d,
        0 <= b <= INFINITE,
        n == d * mag(b),
    ensures
        is_nearest(b, n, d),
        rounded(n, d) == b,
{
    reveal(is_nearest);
    assert forall|c: int| 0 <= c <= INFINITE implies {
        &&& abs(n - d * mag(b)) <= abs(n - d * #[trigger] mag(c))
        &&& (abs(n - d * mag(b)) == abs(n - d * mag(c)) && c != b ==> b % 2 == 0)
    } by {
        if c != b {
            if c < b {
                lemma_mag_increases(c, b);
            } else {
                lemma_mag_increases(b, c);
            }
            let (x, y) = (mag(b), mag(c));
            assert(d * x != d * y) by (nonlinear_arith)
                requires
                    0 < d,
                    x != y,
            ;
        }
    }
    lemma_rounded(b, n, d);
}

/// Every value that is not negative has a nearest pattern.
pub proof fn lemma_nearest_exists(n: int, d: int)
    requires
        0 <= n,
        0 < d,
    ensures
        is_nearest(rounded(n, d), n, d),
        0 <= rounded(n, d) <= INFINITE,
{
    reveal(is_nearest);
    let b = floor_pattern(n, d, INFINITE as int);
    lemma_floor_pattern(n, d, INFINITE as int);
    let (x, y) = (mag(b), mag(b + 1));
    lemma_mag_step(b);
    assert(d * (x + y) == d * x + d * y) by (nonlinear_arith);
    assert(d * x < d * y) by (nonlinear_arith)
        requires
            0 < d,
            x < y,
    ;
    if b > 0 {
        lemma_mag_step(b - 1);
        let w = mag(b - 1);
        assert(d * (w + x) < 2 * (d * x)) by (nonlinear_arith)
            requires
                0 < d,
                w < x,
        ;
    }
    if b == INFINITE || 2 * n < d * (x + y) || (2 * n == d * (x + y) && b % 2 == 0) {
        lemma_nearest_by_midpoints(b, n, d);
    } else {
        lemma_mag_step(b + 1);
        let z = mag(b + 2);
        assert(2 * (d * y) < d * (y + z)) by (nonlinear_arith)
            requires
                0 < d,
                y < z,
        ;
        lemma_nearest_by_midpoints(b + 1, n, d);
    }
}

/// The largest pattern up to `top` that does not lie above `n / d`.
spec fn floor_pattern(n: int, d: int, top: int) -> int
    decreases top,
{
    if top <= 0 || d * mag(top) <= n {
        top
    } else {
        floor_pattern(n, d, top - 1)
    }
}

proof fn lemma_floor_pattern(n: int, d: int, top: int)
    requires
        0 <= n,
        0 < d,
        0 <= top,
    ensures
        ({
            let b = floor_pattern(n, d, top);
            &&& 0 <= b <= top
            &&& d * mag(b) <= n
            &&& b == top || n < d * mag(b + 1)
        }),
    decreases top,
{
    assert(d * 0 == 0);
    if top > 0 && d * mag(top) > n {
        lemma_floor_pattern(n, d, top - 1);
    }
}

/// Rounding keeps the order of values.
pub proof fn lemma_rounded_ordered(n1: int, d1: int, n2: int, d2: int)
    requires
        0 <= n1,
        0 < d1,
        0 <= n2,
        0 < d2,
        n1 * d2 <= n2 * d1,
    ensures
        rounded(n1, d1) <= rounded(n2, d2),
{
    reveal(is_nearest);
    let b1 = rounded(n1, d1);
    let b2 = rounded(n2, d2);
    lemma_nearest_exists(n1, d1);
    lemma_nearest_exists(n2, d2);
    if b2 < b1 {
        lemma_mag_increases(b2, b1);
        let (x1, x2) = (mag(b1), mag(b2));
        assert(abs(n1 - d1 * x1) <= abs(n1 - d1 * x2));
        assert(abs(n2 - d2 * x2) <= abs(n2 - d2 * x1));
        assert(d1 * x2 < d1 * x1 && d2 * x2 < d2 * x1) by (nonlinear_arith)
            requires
                0 < d1,
                0 < d2,
                x2 < x1,
        ;
        assert(2 * n1 >= d1 * x1 + d1 * x2);
        assert(2 * n2 <= d2 * x1 + d2 * x2);
        assert(2 * n1 == d1 * x1 + d1 * x2 && 2 * n2 == d2 * x1 + d2 * x2) by (nonlinear_arith)
            requires
                0 < d1,
                0 < d2,
                n1 * d2 <= n2 * d1,
                2 * n1 >= d1 * x1 + d1 * x2,
                2 * n2 <= d2 * x1 + d2 * x2,
        ;
        assert(b1 % 2 == 0 && b2 % 2 == 0);
        let c = b2 + 1;
        lemma_mag_increases(b2, c);
        lemma_mag_increases(c, b1);
        let y = mag(c);
        assert(d1 * x2 < d1 * y && d1 * y < d1 * x1) by (nonlinear_arith)
            requires
                0 < d1,
                x2 < y,
                y < x1,
        ;
        assert(abs(n1 - d1 * x1) <= abs(n1 - d1 * y));
    }
}

/// A value in the range of normal numbers is rounded by at most its 2^24th part.
pub proof fn lemma_relative(n: int, d: int)
    requires
        0 < d,
        d * 0x80_0000 <= n,
        rounded(n, d) < INFINITE,
    ensures
        0 <= rounded(n, d),
        0x100_0000 * abs(n - d * mag(rounded(n, d))) <= n,
{
    let b = rounded(n, d);
    lemma_nearest_exists(n, d);
    reveal(is_nearest);
    assert(d * 0x80_0000 >= 0) by (nonlinear_arith)
        requires
            0 < d,
    ;
    lemma_floor_pattern(n, d, INFINITE as int);
    let f = floor_pattern(n, d, INFINITE as int);
    if f == INFINITE {
        lemma_mag_increases(b, f);
        let (x, y) = (mag(b), mag(f));
        assert(d * x < d * y) by (nonlinear_arith)
            requires
                0 < d,
                x < y,
        ;
        assert(abs(n - d * x) <= abs(n - d * y));
    } else {
        let s = step(f);
        lemma_mag_step(f);
        lemma_p2_values();
        lemma_mag_split(0, 0x80_0000);
        if f < 0x80_0000 {
            if f + 1 < 0x80_0000 {
                lemma_mag_increases(f + 1, 0x80_0000);
            }
            let y = mag(f + 1);
            assert(d * y <= d * 0x80_0000) by (nonlinear_arith)
                requires
                    0 < d,
                    y <= 0x80_0000,
            ;
        }
        let q = 0x80_0000 + f % 0x80_0000;
        assert(mag(f) >= 0x80_0000 * s) by (nonlinear_arith)
            requires
                mag(f) == q * s,
                q >= 0x80_0000,
                s > 0,
        ;
        let (x, y, z) = (mag(f), mag(f + 1), mag(b));
        assert(abs(n - d * z) <= abs(n - d * x));
        assert(abs(n - d * z) <= abs(n - d * y));
        assert(d * y == d * x + d * s && 0x80_0000 * (d * s) <= d * x) by (nonlinear_arith)
            requires
                0 < d,
                y == x + s,
                x >= 0x80_0000 * s,
        ;
    }
}

/// No number of single precision is nearer to a value than the one that it is rounded to, and of two
/// that are equally near it is the one with the even pattern.
pub proof fn law_rounded(n: int, d: int, c: int)
    requires
        0 <= n,
        0 < d,
        0 <= c <= INFINITE,
    ensures
        ({
            let b = rounded(n, d);
            &&& 0 <= b <= INFINITE
            &&& abs(n - d * mag(b)) <= abs(n - d * mag(c))
            &&& abs(n - d * mag(b)) == abs(n - d * mag(c)) && c != b ==> b % 2 == 0
        }),
{
    lemma_nearest_exists(n, d);
    reveal(is_nearest);
}

/// What the patterns stand for: the lowest count up from zero one by one, and from 2^23 on a pattern
/// that is 2^23 larger stands for twice as much. The pattern of one stands for one.
pub proof fn law_patterns(b: int)
    requires
        0 <= b,
    ensures
        b <= 0x80_0000 ==> mag(b) == b,
        b >= 0x80_0000 ==> mag(b + 0x80_0000) == 2 * mag(b),
        mag(b) < mag(b + 1),
        mag(0x3F80_0000) == one(),
{
    lemma_mag_step(b);
    lemma_p2_values();
    lemma_mag_split(0, 0x80_0000);
    lemma_p2_add(23, 126);
    lemma_mag_split(126, 0x80_0000);
    if b >= 0x80_0000 {
        let e = b / 0x80_0000 - 1;
        let q = 0x80_0000 + b % 0x80_0000;
        lemma_mag_split(e, q);
        lemma_mag_split(e + 1, q);
        lemma_p2_next(e);
        assert(q * (2 * p2(e)) == 2 * (q * p2(e))) by (nonlinear_arith);
    }
}

/// What becomes of a significand of `24 + s` bits when its last `s` bits are rounded away.
/// `exact` says that nothing lies below those bits.
pub open spec fn round_off(q: int, s: int, exact: bool) -> int {
    let top = q / p2(s);
    let low = q % p2(s);
    if low > p2(s - 1) || (low == p2(s - 1) && (!exact || top % 2 == 1)) {
        top + 1
    } else {
        top
    }
}

/// The pattern made of a rounded significand and its exponent, at most that of infinity.
pub open spec fn packed(e: int, q: int) -> int {
    let b = e * 0x80_0000 + q;
    if b <= INFINITE {
        b
    } else {
        INFINITE as int
    }
}

/// Rounding a value's first bits to 24 of them gives the nearest pattern.
pub proof fn lemma_round_off(q: int, s: int, e: int, n: int, d: int)
    requires
        1 <= s,
        0 <= e,
        0 < d,
        p2(s + 23) <= q < p2(s + 24),
        d * (q * p2(e)) <= n,
        n < d * ((q + 1) * p2(e)),
    ensures
        is_nearest(packed(e + s, round_off(q, s, n == d * (q * p2(e)))), n, d),
        0x80_0000 <= round_off(q, s, n == d * (q * p2(e))) <= 0x100_0000,
{
    let top = q / p2(s);
    let low = q % p2(s);
    let half = p2(s - 1);
    let exact = n == d * (q * p2(e));
    lemma_p2_pos(s);
    lemma_p2_pos(e);
    lemma_p2_next(s - 1);
    lemma_p2_values();
    lemma_p2_add(s, 23);
    lemma_p2_add(s, 24);
    lemma_p2_add(s, e);
    let w = p2(s);
    assert(q == w * top + low && 0 <= low < w) by {
        vstd::arithmetic::div_mod::lemma_fundamental_div_mod(q, w);
        vstd::arithmetic::div_mod::lemma_mod_bound(q, w);
    }
    assert(0x80_0000 <= top < 0x100_0000) by (nonlinear_arith)
        requires
            0 < w,
            q == w * top + low,
            0 <= low < w,
            w * 0x80_0000 <= q < w * 0x100_0000,
    ;
    let u = d * p2(e);
    let t = (e + s) * 0x80_0000 + top;
    lemma_mag_split(e + s, top);
    lemma_mag_split(e + s, top + 1);
    lemma_mag_step(t - 1);
    lemma_mag_step(t);
    lemma_mag_step(t + 1);
    let pe = p2(e);
    assert(0 < u) by (nonlinear_arith)
        requires
            0 < d,
            0 < pe,
            u == d * pe,
    ;
    assert(d * (q * pe) == q * u && d * ((q + 1) * pe) == q * u + u) by (nonlinear_arith)
        requires
            u == d * pe,
    ;
    let tw = w * u;
    assert(d * mag(t) == top * tw && d * mag(t + 1) == top * tw + tw) by (nonlinear_arith)
        requires
            u == d * pe,
            tw == w * u,
            mag(t) == top * (w * pe),
            mag(t + 1) == (top + 1) * (w * pe),
    ;
    assert(q * u == top * tw + low * u) by (nonlinear_arith)
        requires
            q == w * top + low,
            tw == w * u,
    ;
    assert(tw == 2 * (half * u)) by (nonlinear_arith)
        requires
            w == 2 * half,
            tw == w * u,
    ;
    let (m0, m1, m2, m3) = (mag(t - 1), mag(t), mag(t + 1), mag(t + 2));
    assert(d * (m0 + m1) < 2 * (d * m1) && d * (m1 + m2) == d * m1 + d * m2 && 2 * (d * m2) < d * (
    m2 + m3)) by (nonlinear_arith)
        requires
            0 < d,
            m0 < m1,
            m1 < m2,
            m2 < m3,
    ;
    if low < half {
        assert((low + 1) * u <= half * u && (low + 1) * u == low * u + u) by (nonlinear_arith)
            requires
                0 < u,
                low + 1 <= half,
        ;
    } else if low > half {
        assert(low * u > half * u) by (nonlinear_arith)
            requires
                0 < u,
                low > half,
        ;
    }
    assert((low + 1) * u <= tw && (low + 1) * u == low * u + u) by (nonlinear_arith)
        requires
            0 < u,
            low + 1 <= w,
            tw == w * u,
    ;
    assert(0 <= low * u) by (nonlinear_arith)
        requires
            0 < u,
            0 <= low,
    ;
    let r = round_off(q, s, exact);
    let b = (e + s) * 0x80_0000 + r;
    if b <= INFINITE {
        lemma_nearest_by_midpoints(b, n, d);
    } else {
        assert(t >= INFINITE);
        let f = INFINITE as int;
        if f < t {
            lemma_mag_increases(f, t);
        }
        lemma_mag_step(f - 1);
        let (x, y) = (mag(f - 1), mag(f));
        assert(d * (x + y) < 2 * (d * m1)) by (nonlinear_arith)
            requires
                0 < d,
                x < y,
                y <= m1,
        ;
        lemma_nearest_by_midpoints(f, n, d);
    }
}

} // verus!
