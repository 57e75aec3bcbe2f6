//! Arithmetic on single-precision patterns: each result is the pattern nearest to the exact one.
use crate::single::{Single, INFINITE};
use vstd::arithmetic::power2::*;
use vstd::prelude::*;

verus! {

/// Splits a finite unsigned pattern into a significand and a power of two.
fn split(b: u32) -> (r: (u64, u32))
    requires
        b < INFINITE,
    ensures
        crate::single::mag(b as int) == r.0 * crate::single::p2(r.1 as int),
        r.0 < 0x100_0000,
        r.1 <= 253,
        r.1 == 0 || 0x80_0000 <= r.0,
        0x80_0000 <= b ==> b == r.1 * 0x80_0000 + r.0,
        b < 0x80_0000 ==> r.0 == b && r.1 == 0,
{
    proof {
        crate::single::lemma_p2_values();
    }
    if b < 0x80_0000 {
        (b as u64, 0)
    } else {
        ((0x80_0000 + b % 0x80_0000) as u64, b / 0x80_0000 - 1)
    }
}

/// The number of bits that a positive integer takes.
fn bit_length(v: u64) -> (l: u32)
    requires
        0 < v,
    ensures
        1 <= l <= 64,
        crate::single::p2(l - 1) <= v < crate::single::p2(l as int),
{
    let mut l: u32 = 1;
    let mut rest: u64 = v / 2;
    proof {
        crate::single::lemma_p2_values();
    }
    while rest > 0
        invariant
            1 <= l <= 64,
            rest == v as int / crate::single::p2(l as int),
            crate::single::p2(l - 1) <= v,
        decreases rest,
    {
        proof {
            let w = crate::single::p2(l as int);
            crate::single::lemma_p2_pos(l as int);
            crate::single::lemma_p2_next(l as int);
            vstd::arithmetic::div_mod::lemma_div_denominator(v as int, w, 2);
            assert(w * 2 == crate::single::p2(l + 1));
            assert(w <= v) by {
                if v < w {
                    vstd::arithmetic::div_mod::lemma_basic_div(v as int, w);
                }
            }
            if l == 64 {
                lemma2_to64_rest();
            }
        }
        l = l + 1;
        rest = rest / 2;
    }
    proof {
        let w = crate::single::p2(l as int);
        crate::single::lemma_p2_pos(l as int);
        vstd::arithmetic::div_mod::lemma_fundamental_div_mod(v as int, w);
        vstd::arithmetic::div_mod::lemma_mod_bound(v as int, w);
        assert(w * 0 == 0);
    }
    l
}

/// Two to the power `k`.
fn power(k: u32) -> (w: u64)
    requires
        k < 64,
    ensures
        w == crate::single::p2(k as int),
{
    proof {
        vstd::bits::lemma_u64_pow2_no_overflow(k as nat);
        vstd::bits::lemma_u64_shl_is_mul(1, k as u64);
    }
    1u64 << (k as u64)
}

/// Rounds the last `s` bits of a significand away.
fn round_top(q: u64, s: u32, exact: bool) -> (r: u64)
    requires
        1 <= s < 64,
    ensures
        r == crate::single::round_off(q as int, s as int, exact),
{
    let w = power(s);
    proof {
        crate::single::lemma_p2_pos(s as int);
        crate::single::lemma_p2_pos(s - 1);
        crate::single::lemma_p2_next(s - 1);
    }
    let top: u64 = q / w;
    let low: u64 = q % w;
    let half: u64 = w / 2;
    assert(top <= q / 2) by (nonlinear_arith)
        requires
            w >= 2,
            top == q as int / w as int,
    ;
    if low > half || (low == half && (!exact || top % 2 == 1)) {
        top + 1
    } else {
        top
    }
}

/// Puts a rounded significand and its exponent into one pattern, at most that of infinity.
fn pack(e: u32, q: u64) -> (b: u32)
    requires
        e <= 1000,
        q <= 0x100_0000,
    ensures
        b == crate::single::packed(e as int, q as int),
{
    let b: u64 = e as u64 * 0x80_0000 + q;
    if b <= INFINITE as u64 {
        b as u32
    } else {
        INFINITE
    }
}

/// The pattern nearest to `v * 2^e` multiples of 2^-149.
fn round_exact(v: u64, e: u32) -> (b: u32)
    requires
        e <= 900,
    ensures
        crate::single::is_nearest(b as int, v * crate::single::p2(e as int), 1),
        b <= INFINITE,
        v < 0x100_0000 && e <= 253 ==> b < INFINITE && crate::single::mag(b as int) == v
            * crate::single::p2(e as int),
{
    let ghost n = v * crate::single::p2(e as int);
    proof {
        crate::single::lemma_p2_values();
        crate::single::lemma_p2_pos(e as int);
    }
    if v == 0 {
        proof {
            crate::single::lemma_rounded_exact(0, n, 1);
        }
        return 0;
    }
    let l = bit_length(v);
    proof {
        if l > 24 {
            lemma_pow2_mono(24, l - 1);
        }
    }
    if l <= 24 {
        let k: u32 = if e < 24 - l {
            e
        } else {
            24 - l
        };
        let w = power(k);
        proof {
            let (le, ke) = (l as int, k as int);
            crate::single::lemma_p2_pos(ke);
            crate::single::lemma_p2_add(le, ke);
            crate::single::lemma_p2_add(le - 1, ke);
            crate::single::lemma_p2_add(ke, e - ke);
            lemma_pow2_mono(le + ke, 24);
            assert(v * w < crate::single::p2(le) * w && crate::single::p2(le - 1) * w <= v * w)
                by (nonlinear_arith)
                requires
                    crate::single::p2(le - 1) <= v < crate::single::p2(le),
                    0 < w,
            ;
            assert(v * w * crate::single::p2(e - ke) == n) by (nonlinear_arith)
                requires
                    n == v * crate::single::p2(e as int),
                    crate::single::p2(e as int) == w * crate::single::p2(e - ke),
            ;
        }
        let q: u64 = v * w;
        let b = pack(e - k, q);
        proof {
            if k == 24 - l {
                crate::single::lemma_mag_split(e - k, q as int);
                if (e - k) * 0x80_0000 + q > INFINITE {
                    lemma_beyond((e - k) as int, q as int, n);
                } else {
                    crate::single::lemma_rounded_exact(b as int, n, 1);
                }
            } else {
                if q >= 0x80_0000 {
                    crate::single::lemma_mag_split(0, q as int);
                }
                crate::single::lemma_rounded_exact(b as int, n, 1);
            }
        }
        b
    } else {
        let s: u32 = l - 24;
        let q = round_top(v, s, true);
        proof {
            let x = v * crate::single::p2(e as int);
            assert((v + 1) * crate::single::p2(e as int) > x) by (nonlinear_arith)
                requires
                    x == v * crate::single::p2(e as int),
                    0 < crate::single::p2(e as int),
            ;
            crate::single::lemma_round_off(v as int, s as int, e as int, n, 1);
        }
        pack(e + s, q)
    }
}

proof fn lemma_pow2_mono(a: int, b: int)
    requires
        0 <= a <= b,
    ensures
        crate::single::p2(a) <= crate::single::p2(b),
{
    if a < b {
        lemma_pow2_strictly_increases(a as nat, b as nat);
    }
}

/// What lies at or beyond the end of the finite range is rounded to infinity.
proof fn lemma_beyond(e: int, q: int, n: int)
    requires
        0 <= e,
        0x80_0000 <= q <= 0x100_0000,
        e * 0x80_0000 + q > INFINITE,
        n == q * crate::single::p2(e),
    ensures
        crate::single::is_nearest(INFINITE as int, n, 1),
{
    let f = INFINITE as int;
    crate::single::lemma_mag_split(e, q);
    crate::single::lemma_mag_increases(f, e * 0x80_0000 + q);
    crate::single::lemma_mag_increases(f - 1, f);
    crate::single::lemma_mag_nonneg(f);
    crate::single::lemma_nearest_by_midpoints(f, n, 1);
}

/// The exact sum of two magnitudes, or with `minus` their distance.
pub open spec fn combined(a: int, b: int, minus: bool) -> int {
    if minus {
        crate::single::abs(a - b)
    } else {
        a + b
    }
}

/// Adds two finite magnitudes, or with `minus` takes their distance.
fn combine(a: u32, b: u32, minus: bool) -> (r: u32)
    requires
        a < INFINITE,
        b < INFINITE,
    ensures
        crate::single::is_nearest(
            r as int,
            combined(crate::single::mag(a as int), crate::single::mag(b as int), minus),
            1,
        ),
        r <= INFINITE,
{
    let (hi, lo) = if a >= b {
        (a, b)
    } else {
        (b, a)
    };
    let (mh, eh) = split(hi);
    let (ml, el) = split(lo);
    let ghost (x, y) = (crate::single::mag(hi as int), crate::single::mag(lo as int));
    let ghost n = if minus {
        x - y
    } else {
        x + y
    };
    proof {
        if lo < hi {
            crate::single::lemma_mag_increases(lo as int, hi as int);
        }
        crate::single::lemma_mag_nonneg(lo as int);
        assert(n == combined(
            crate::single::mag(a as int),
            crate::single::mag(b as int),
            minus,
        ));
        assert(el <= eh);
    }
    if eh - el >= 27 {
        proof {
            lemma_absorbed(hi as int, mh as int, eh as int, ml as int, el as int, n);
        }
        return hi;
    }
    let w = power(eh - el);
    let ghost pl = crate::single::p2(el as int);
    proof {
        lemma2_to64();
        lemma2_to64_rest();
        lemma_pow2_mono(eh - el, 26);
        crate::single::lemma_p2_pos(el as int);
        crate::single::lemma_p2_add(eh - el, el as int);
        assert(mh * w <= 0x100_0000 * 0x400_0000) by (nonlinear_arith)
            requires
                0 <= mh <= 0x100_0000,
                0 <= w <= 0x400_0000,
        ;
        assert(x == (mh * w) * pl) by (nonlinear_arith)
            requires
                x == mh * crate::single::p2(eh as int),
                crate::single::p2(eh as int) == w * pl,
        ;
        assert(ml <= mh * w) by (nonlinear_arith)
            requires
                ml * pl <= (mh * w) * pl,
                0 < pl,
        ;
        assert((mh * w + ml) * pl == x + y && (mh * w - ml) * pl == x - y) by (nonlinear_arith)
            requires
                x == (mh * w) * pl,
                y == ml * pl,
        ;
    }
    let aligned: u64 = mh * w;
    if minus {
        round_exact(aligned - ml, el)
    } else {
        round_exact(aligned + ml, el)
    }
}

/// A magnitude far below another does not change it.
proof fn lemma_absorbed(hi: int, mh: int, eh: int, ml: int, el: int, n: int)
    requires
        0x80_0000 <= hi < INFINITE,
        hi == eh * 0x80_0000 + mh,
        0x80_0000 <= mh < 0x100_0000,
        0 <= el,
        el + 27 <= eh,
        0 <= ml < 0x100_0000,
        crate::single::mag(hi) == mh * crate::single::p2(eh),
        n == crate::single::mag(hi) + ml * crate::single::p2(el) || n == crate::single::mag(hi) - ml
            * crate::single::p2(el),
    ensures
        crate::single::is_nearest(hi, n, 1),
{
    let x = crate::single::mag(hi);
    let y = ml * crate::single::p2(el);
    let u = crate::single::p2(eh - 3);
    crate::single::lemma_p2_pos(eh - 3);
    crate::single::lemma_p2_next(eh - 3);
    crate::single::lemma_p2_next(eh - 2);
    crate::single::lemma_p2_next(eh - 1);
    crate::single::lemma_p2_values();
    crate::single::lemma_p2_pos(el);
    crate::single::lemma_p2_add(24, el);
    lemma_pow2_mono(24 + el, eh - 3);
    assert(0 <= y < 0x100_0000 * crate::single::p2(el)) by (nonlinear_arith)
        requires
            0 <= ml < 0x100_0000,
            y == ml * crate::single::p2(el),
            0 < crate::single::p2(el),
    ;
    assert(y < u);
    assert(x >= 8 * u) by (nonlinear_arith)
        requires
            x == mh * (8 * u),
            mh >= 1,
            u > 0,
    ;
    crate::single::lemma_mag_step(hi);
    crate::single::lemma_mag_step(hi - 1);
    assert(crate::single::step(hi) == 8 * u);
    assert((hi - 1) / 0x80_0000 - 1 == eh || (hi - 1) / 0x80_0000 - 1 == eh - 1);
    assert(crate::single::step(hi - 1) >= 4 * u);
    crate::single::lemma_nearest_by_midpoints(hi, n, 1);
}

/// The pattern of `|a - b|` as single-precision subtraction gives it. `None` is "not a number".
pub open spec fn gap_of(a: Single, b: Single) -> Option<int> {
    if a.is_nan() || b.is_nan() {
        None
    } else if a.is_infinite() && b.is_infinite() {
        if a.is_negative() == b.is_negative() {
            None
        } else {
            Some(INFINITE as int)
        }
    } else if a.is_infinite() || b.is_infinite() {
        Some(INFINITE as int)
    } else {
        Some(crate::single::rounded(crate::single::abs(a.units() - b.units()), 1))
    }
}

/// The magnitude with pattern `g` is at most the number `r`.
pub open spec fn at_most(g: int, r: Single) -> bool {
    if r.is_nan() {
        false
    } else if r.is_negative() {
        g == 0 && r.pattern() == 0
    } else {
        g <= r.pattern()
    }
}

/// `|a - b| <= r`, with the difference rounded.
pub open spec fn is_near(a: Single, b: Single, r: Single) -> bool {
    match gap_of(a, b) {
        Some(g) => at_most(g, r),
        None => false,
    }
}

/// The whole part of `x / d`, with the quotient rounded. What is no number or lies below zero
/// gives zero; what is too large gives the largest index.
pub open spec fn quotient(x: Single, d: int) -> int {
    if x.is_nan() || x.is_negative() {
        0
    } else if x.is_infinite() {
        usize::MAX as int
    } else {
        let whole = crate::single::mag(crate::single::rounded(crate::single::mag(x.pattern()), d))
            / crate::single::one();
        if whole <= usize::MAX {
            whole
        } else {
            usize::MAX as int
        }
    }
}

/// What the division of a magnitude by a whole number leaves over. It is always a number of
/// single precision itself.
pub open spec fn remainder(b: int, k: int) -> Single {
    Single {
        bits: crate::single::rounded(crate::single::mag(b) % (k * crate::single::one()), 1) as u32,
    }
}

impl Single {
    /// The magnitude of the difference of two numbers, as its pattern. `None` is "not a number".
    pub fn gap(self, other: Single) -> (g: Option<u32>)
        ensures
            match gap_of(self, other) {
                Some(p) => g matches Some(q) && q == p && q <= INFINITE,
                None => g is None,
            },
    {
        let a: u32 = self.bits % 0x8000_0000;
        let b: u32 = other.bits % 0x8000_0000;
        let same: bool = (self.bits < 0x8000_0000) == (other.bits < 0x8000_0000);
        if a > INFINITE || b > INFINITE {
            None
        } else if a == INFINITE && b == INFINITE {
            if same {
                None
            } else {
                Some(INFINITE)
            }
        } else if a == INFINITE || b == INFINITE {
            Some(INFINITE)
        } else {
            let r = combine(a, b, same);
            proof {
                let n = crate::single::abs(self.units() - other.units());
                crate::single::lemma_mag_nonneg(a as int);
                crate::single::lemma_mag_nonneg(b as int);
                assert(n == combined(
                    crate::single::mag(a as int),
                    crate::single::mag(b as int),
                    same,
                ));
                crate::single::lemma_rounded(r as int, n, 1);
            }
            Some(r)
        }
    }

    /// Whether `|self - other| <= range` in single precision.
    pub fn near(self, other: Single, range: Single) -> (r: bool)
        ensures
            r == is_near(self, other, range),
    {
        match self.gap(other) {
            None => false,
            Some(g) => {
                let limit: u32 = range.bits % 0x8000_0000;
                if limit > INFINITE {
                    false
                } else if range.bits >= 0x8000_0000 {
                    g == 0 && limit == 0
                } else {
                    g <= limit
                }
            },
        }
    }

    /// The number nearest to an integer.
    pub fn from_whole(n: u64) -> (x: Single)
        ensures
            !x.is_negative(),
            x.is_finite(),
            x.pattern() == crate::single::rounded(n * crate::single::one(), 1),
    {
        let b = round_exact(n, 149);
        proof {
            let v = n * crate::single::one();
            crate::single::lemma_rounded(b as int, v, 1);
            lemma_whole_is_finite(n as int);
        }
        Single { bits: b }
    }

    /// The number times a whole one, rounded. `self` is finite and not negative.
    pub fn times_whole(self, k: u32) -> (x: Single)
        requires
            self.is_finite(),
            !self.is_negative(),
            k < 0x100_0000,
        ensures
            !x.is_negative(),
            x.pattern() == crate::single::rounded(crate::single::mag(self.pattern()) * k, 1),
            x.pattern() <= INFINITE,
    {
        let (m, e) = split(self.bits);
        assert(m * k < 0x100_0000 * 0x100_0000) by (nonlinear_arith)
            requires
                0 <= m < 0x100_0000,
                0 <= k < 0x100_0000,
        ;
        let b = round_exact(m * k as u64, e);
        proof {
            let pe = crate::single::p2(e as int);
            assert((m * k) * pe == (m * pe) * k) by (nonlinear_arith);
            crate::single::lemma_rounded(
                b as int,
                crate::single::mag(self.pattern()) * k,
                1,
            );
        }
        Single { bits: b }
    }

    /// The sum of two finite numbers that are not negative, rounded.
    pub fn plus(self, other: Single) -> (x: Single)
        requires
            self.is_finite(),
            !self.is_negative(),
            other.is_finite(),
            !other.is_negative(),
        ensures
            !x.is_negative(),
            x.pattern() == crate::single::rounded(self.units() + other.units(), 1),
            x.pattern() <= INFINITE,
    {
        let b = combine(self.bits, other.bits, false);
        proof {
            crate::single::lemma_rounded(b as int, self.units() + other.units(), 1);
        }
        Single { bits: b }
    }

    /// What a division of a finite number that is not negative by a whole one leaves over.
    pub fn rem_whole(self, k: u32) -> (x: Single)
        requires
            self.is_finite(),
            !self.is_negative(),
            0 < k < 0x100_0000,
        ensures
            !x.is_negative(),
            x.is_finite(),
            x.units() == self.units() % (k * crate::single::one()),
            x == remainder(self.pattern(), k as int),
    {
        let (m, e) = split(self.bits);
        let ghost n = crate::single::mag(self.pattern());
        let ghost modulus = k * crate::single::one();
        if e >= 149 {
            let v = rem_of_power(m, e - 149, k as u64);
            let b = round_exact(v, 149);
            proof {
                let lifted = m * crate::single::p2(e - 149);
                let o = crate::single::one();
                crate::single::lemma_p2_add(e - 149, 149);
                crate::single::lemma_p2_pos(149);
                assert(n == lifted * o) by (nonlinear_arith)
                    requires
                        n == m * crate::single::p2(e as int),
                        crate::single::p2(e as int) == crate::single::p2(e - 149) * o,
                        lifted == m * crate::single::p2(e - 149),
                ;
                lemma_scaled_rem(lifted, k as int, o, v as int);
                crate::single::lemma_rounded_exact(b as int, n % modulus, 1);
            }
            Single { bits: b }
        } else if 149 - e <= 38 {
            let w = power(149 - e);
            proof {
                lemma2_to64_rest();
                lemma2_to64();
                lemma_pow2_mono(149 - e, 38);
                crate::single::lemma_p2_pos(149 - e);
                assert(0 < k * w <= 0x100_0000 * 0x40_0000_0000) by (nonlinear_arith)
                    requires
                        0 < k <= 0x100_0000,
                        0 < w <= 0x40_0000_0000,
                ;
            }
            let span: u64 = k as u64 * w;
            let v: u64 = m % span;
            assert(v <= m) by {
                vstd::arithmetic::div_mod::lemma_mod_decreases(m as nat, span as nat);
            }
            let b = round_exact(v, e);
            proof {
                let pe = crate::single::p2(e as int);
                crate::single::lemma_p2_add(149 - e, e as int);
                crate::single::lemma_p2_pos(e as int);
                assert(span * pe == modulus) by (nonlinear_arith)
                    requires
                        span == k * w,
                        crate::single::one() == w * pe,
                        modulus == k * crate::single::one(),
                ;
                lemma_scaled_rem(m as int, span as int, pe, v as int);
                crate::single::lemma_rounded_exact(b as int, n % modulus, 1);
            }
            Single { bits: b }
        } else {
            proof {
                let pe = crate::single::p2(e as int);
                let w = crate::single::p2(149 - e);
                crate::single::lemma_p2_add(149 - e, e as int);
                crate::single::lemma_p2_pos(e as int);
                crate::single::lemma_p2_values();
                lemma_pow2_mono(24, 149 - e);
                assert(0 <= n < modulus) by (nonlinear_arith)
                    requires
                        n == m * pe,
                        0 < pe,
                        0 <= m < w,
                        crate::single::one() == w * pe,
                        modulus == k * crate::single::one(),
                        1 <= k,
                ;
                vstd::arithmetic::div_mod::lemma_small_mod(n as nat, modulus as nat);
                crate::single::lemma_rounded_exact(self.pattern(), n % modulus, 1);
            }
            self
        }
    }

    /// The whole part of the number divided by `d`, as an index.
    pub fn div_whole(self, d: u32) -> (q: usize)
        requires
            0 < d <= 0x8000,
        ensures
            q == quotient(self, d as int),
    {
        let b: u32 = self.bits;
        if b >= 0x8000_0000 || b > INFINITE {
            return 0;
        }
        if b == INFINITE {
            return usize::MAX;
        }
        let (m, e) = split(b);
        let ghost n = crate::single::mag(b as int);
        if e < 40 {
            proof {
                lemma_tiny_quotient(b as int, m as int, e as int, d as int);
            }
            return 0;
        }
        let wide: u64 = m * 0x100_0000_0000;
        let q: u64 = wide / d as u64;
        let exact: bool = wide % d as u64 == 0;
        proof {
            lemma_long_division(m as int, e as int, wide as int, q as int, d as int, n);
        }
        let l = bit_length(q);
        proof {
            lemma2_to64();
            lemma2_to64_rest();
            if l <= 24 {
                lemma_pow2_mono(l as int, 24);
            }
        }
        let s: u32 = l - 24;
        let r = round_top(q, s, exact);
        let ghost p = crate::single::packed(e - 40 + s, r as int);
        proof {
            crate::single::lemma_round_off(q as int, s as int, e - 40, n, d as int);
            crate::single::lemma_rounded(p, n, d as int);
            crate::single::lemma_mag_split(e - 40 + s, r as int);
        }
        let shift: u32 = e - 40 + s;
        let ghost whole = (r * crate::single::p2(shift as int)) / crate::single::one();
        if shift >= 149 {
            proof {
                let o = crate::single::one();
                crate::single::lemma_p2_add(shift - 149, 149);
                crate::single::lemma_p2_pos(149);
                let t = r * crate::single::p2(shift - 149);
                assert(r * crate::single::p2(shift as int) == o * t) by (nonlinear_arith)
                    requires
                        t == r * crate::single::p2(shift - 149),
                        crate::single::p2(shift as int) == crate::single::p2(shift - 149) * o,
                ;
                vstd::arithmetic::div_mod::lemma_div_multiples_vanish(t, o);
                assert(whole == t);
            }
            if shift - 149 >= 41 {
                proof {
                    lemma2_to64_rest();
                    lemma_pow2_mono(41, shift - 149);
                    assert(r * crate::single::p2(shift - 149) >= 0x80_0000 * 0x200_0000_0000)
                        by (nonlinear_arith)
                        requires
                            r >= 0x80_0000,
                            crate::single::p2(shift - 149) >= 0x200_0000_0000,
                    ;
                }
                usize::MAX
            } else {
                let w = power(shift - 149);
                proof {
                    lemma_pow2_mono(shift - 149, 40);
                    assert(r * w <= 0x100_0000 * 0x100_0000_0000) by (nonlinear_arith)
                        requires
                            0 <= r <= 0x100_0000,
                            0 <= w <= 0x100_0000_0000,
                    ;
                }
                let t: u128 = r as u128 * w as u128;
                if t <= usize::MAX as u128 {
                    t as usize
                } else {
                    usize::MAX
                }
            }
        } else {
            proof {
                let ps = crate::single::p2(shift as int);
                let w = crate::single::p2(149 - shift);
                crate::single::lemma_p2_add(149 - shift, shift as int);
                crate::single::lemma_p2_pos(shift as int);
                crate::single::lemma_p2_pos(149 - shift);
                assert(r * ps == ps * r && crate::single::one() == ps * w) by (nonlinear_arith)
                    requires
                        crate::single::one() == w * ps,
                ;
                lemma_common_factor(r as int, w, ps);
                assert(whole == r as int / w);
            }
            if 149 - shift >= 32 {
                proof {
                    lemma_pow2_mono(32, 149 - shift);
                    vstd::arithmetic::div_mod::lemma_basic_div(
                        r as int,
                        crate::single::p2(149 - shift),
                    );
                }
                0
            } else {
                let w = power(149 - shift);
                let t: u64 = r / w;
                assert(t <= r) by (nonlinear_arith)
                    requires
                        t == r as int / w as int,
                        1 <= w,
                        0 <= r,
                ;
                t as usize
            }
        }
    }
}

/// `m * 2^k` modulo `d`.
fn rem_of_power(m: u64, k: u32, d: u64) -> (v: u64)
    requires
        0 < d < 0x100_0000,
        k <= 1000,
    ensures
        v == (m * crate::single::p2(k as int)) % d as int,
        v < d,
{
    let mut v: u64 = m % d;
    let mut i: u32 = 0;
    proof {
        crate::single::lemma_p2_values();
    }
    while i < k
        invariant
            0 < d < 0x100_0000,
            i <= k,
            k <= 1000,
            v < d,
            v == (m * crate::single::p2(i as int)) % d as int,
        decreases k - i,
    {
        proof {
            let x = m * crate::single::p2(i as int);
            crate::single::lemma_p2_next(i as int);
            assert(m * (2 * crate::single::p2(i as int)) == 2 * x) by (nonlinear_arith)
                requires
                    x == m * crate::single::p2(i as int),
            ;
            vstd::arithmetic::div_mod::lemma_mul_mod_noop_right(2, x, d as int);
        }
        v = v * 2 % d;
        i = i + 1;
    }
    v
}

/// A significand of 24 bits at any power of two is a number of single precision.
proof fn lemma_significand(v: int, e: int) -> (b: int)
    requires
        0 <= v < 0x100_0000,
        0 <= e <= 253,
    ensures
        0 <= b < INFINITE,
        crate::single::mag(b) == v * crate::single::p2(e),
    decreases e,
{
    crate::single::lemma_p2_values();
    if v >= 0x80_0000 {
        crate::single::lemma_mag_split(e, v);
        e * 0x80_0000 + v
    } else if e == 0 {
        v
    } else {
        crate::single::lemma_p2_next(e - 1);
        assert((2 * v) * crate::single::p2(e - 1) == v * (2 * crate::single::p2(e - 1)))
            by (nonlinear_arith);
        lemma_significand(2 * v, e - 1)
    }
}

/// A remainder is exact.
pub proof fn lemma_remainder(b: int, k: int)
    requires
        0 <= b < INFINITE,
        0 < k < 0x100_0000,
    ensures
        !remainder(b, k).is_negative(),
        remainder(b, k).is_finite(),
        remainder(b, k).units() == crate::single::mag(b) % (k * crate::single::one()),
{
    let o = crate::single::one();
    let n = crate::single::mag(b);
    let (m, e) = if b < 0x80_0000 {
        (b, 0int)
    } else {
        (0x80_0000 + b % 0x80_0000, b / 0x80_0000 - 1)
    };
    crate::single::lemma_p2_values();
    crate::single::lemma_p2_pos(149);
    assert(n == m * crate::single::p2(e));
    let c = if e >= 149 {
        let lifted = m * crate::single::p2(e - 149);
        crate::single::lemma_p2_add(e - 149, 149);
        crate::single::lemma_p2_pos(e - 149);
        assert(n == lifted * o && 0 <= lifted) by (nonlinear_arith)
            requires
                n == m * crate::single::p2(e),
                crate::single::p2(e) == crate::single::p2(e - 149) * o,
                lifted == m * crate::single::p2(e - 149),
                0 <= m,
                0 < crate::single::p2(e - 149),
        ;
        vstd::arithmetic::div_mod::lemma_mod_bound(lifted, k);
        lemma_scaled_rem(lifted, k, o, lifted % k);
        lemma_significand(lifted % k, 149)
    } else {
        let pe = crate::single::p2(e);
        let w = crate::single::p2(149 - e);
        let span = k * w;
        crate::single::lemma_p2_add(149 - e, e);
        crate::single::lemma_p2_pos(e);
        crate::single::lemma_p2_pos(149 - e);
        assert(span * pe == k * o && 0 < span) by (nonlinear_arith)
            requires
                span == k * w,
                o == w * pe,
                0 < k,
                0 < w,
        ;
        vstd::arithmetic::div_mod::lemma_mod_bound(m, span);
        vstd::arithmetic::div_mod::lemma_mod_decreases(m as nat, span as nat);
        lemma_scaled_rem(m, span, pe, m % span);
        lemma_significand(m % span, e)
    };
    crate::single::lemma_rounded_exact(c, n % (k * o), 1);
}

/// A remainder scales with its operands.
pub proof fn lemma_scaled_rem(x: int, d: int, o: int, v: int)
    requires
        0 <= x,
        0 < d,
        0 < o,
        v == x % d,
    ensures
        (x * o) % (d * o) == v * o,
{
    let q = x / d;
    vstd::arithmetic::div_mod::lemma_fundamental_div_mod(x, d);
    vstd::arithmetic::div_mod::lemma_mod_bound(x, d);
    assert(x * o == q * (d * o) + v * o && 0 <= v * o && v * o < d * o && 0 < d * o)
        by (nonlinear_arith)
        requires
            x == d * q + v,
            0 <= v < d,
            0 < o,
            0 < d,
    ;
    vstd::arithmetic::div_mod::lemma_fundamental_div_mod_converse(x * o, d * o, q, v * o);
}

/// A factor that both sides of a division share drops out.
proof fn lemma_common_factor(x: int, w: int, o: int)
    requires
        0 <= x,
        0 < w,
        0 < o,
    ensures
        (o * x) / (o * w) == x / w,
{
    vstd::arithmetic::div_mod::lemma_div_denominator(o * x, o, w);
    vstd::arithmetic::div_mod::lemma_div_multiples_vanish(x, o);
}

/// An integer of 64 bits is rounded to at most 2^64.
pub proof fn lemma_whole_is_finite(n: int)
    requires
        0 <= n <= u64::MAX,
    ensures
        0 <= crate::single::rounded(n * crate::single::one(), 1) < INFINITE,
        crate::single::mag(crate::single::rounded(n * crate::single::one(), 1)) <= 0x1_0000_0000_0000_0000
            * crate::single::one(),
{
    let o = crate::single::one();
    let v = n * o;
    let top = 0x8000_0000_0000_0000 * 2 * o;
    crate::single::lemma_p2_pos(149);
    lemma2_to64();
    lemma2_to64_rest();
    crate::single::lemma_p2_add(64, 149);
    crate::single::lemma_p2_add(23, 190);
    crate::single::lemma_mag_split(190, 0x80_0000);
    let b = 190int * 0x80_0000 + 0x80_0000;
    assert(0 <= v <= top) by (nonlinear_arith)
        requires
            0 <= n <= 0x8000_0000_0000_0000 * 2,
            0 < o,
            v == n * o,
            top == 0x8000_0000_0000_0000 * 2 * o,
    ;
    crate::single::lemma_rounded_exact(b, top, 1);
    crate::single::lemma_rounded_ordered(v, 1, top, 1);
    let r = crate::single::rounded(v, 1);
    crate::single::lemma_nearest_exists(v, 1);
    if r < b {
        crate::single::lemma_mag_increases(r, b);
    }
}

proof fn lemma_tiny_quotient(b: int, m: int, e: int, d: int)
    requires
        0 <= b < INFINITE,
        0 <= e < 40,
        0 <= m < 0x100_0000,
        crate::single::mag(b) == m * crate::single::p2(e),
        0 < d,
    ensures
        crate::single::mag(crate::single::rounded(crate::single::mag(b), d)) / crate::single::one()
            == 0,
{
    let n = crate::single::mag(b);
    crate::single::lemma_mag_nonneg(b);
    crate::single::lemma_rounded_exact(b, n, 1);
    assert(n * 1 <= n * d) by (nonlinear_arith)
        requires
            0 <= n,
            1 <= d,
    ;
    crate::single::lemma_rounded_ordered(n, d, n, 1);
    let r = crate::single::rounded(n, d);
    crate::single::lemma_nearest_exists(n, d);
    if r < b {
        crate::single::lemma_mag_increases(r, b);
    }
    crate::single::lemma_mag_nonneg(r);
    crate::single::lemma_p2_values();
    crate::single::lemma_p2_pos(e);
    crate::single::lemma_p2_add(24, e);
    lemma_pow2_mono(24 + e, 64);
    lemma_pow2_strictly_increases(64, 149);
    assert(m * crate::single::p2(e) < 0x100_0000 * crate::single::p2(e)) by (nonlinear_arith)
        requires
            m < 0x100_0000,
            0 < crate::single::p2(e),
    ;
    vstd::arithmetic::div_mod::lemma_basic_div(crate::single::mag(r), crate::single::one());
}

proof fn lemma_long_division(m: int, e: int, wide: int, q: int, d: int, n: int)
    requires
        0x80_0000 <= m < 0x100_0000,
        40 <= e,
        wide == m * 0x100_0000_0000,
        q == wide / d,
        0 < d <= 0x8000,
        n == m * crate::single::p2(e),
    ensures
        0x1_0000_0000_0000 <= q,
        d * (q * crate::single::p2(e - 40)) <= n,
        n < d * ((q + 1) * crate::single::p2(e - 40)),
        (n == d * (q * crate::single::p2(e - 40))) == (wide % d == 0),
{
    let u = crate::single::p2(e - 40);
    let rest = wide % d;
    lemma2_to64();
    lemma2_to64_rest();
    crate::single::lemma_p2_add(40, e - 40);
    crate::single::lemma_p2_pos(e - 40);
    assert(n == wide * u) by (nonlinear_arith)
        requires
            n == m * (0x100_0000_0000 * u),
            wide == m * 0x100_0000_0000,
    ;
    vstd::arithmetic::div_mod::lemma_fundamental_div_mod(wide, d);
    vstd::arithmetic::div_mod::lemma_mod_bound(wide, d);
    assert(wide * u == d * (q * u) + rest * u && d * ((q + 1) * u) == d * (q * u) + d * u)
        by (nonlinear_arith)
        requires
            wide == d * q + rest,
    ;
    assert(0 <= rest * u < d * u && (rest * u == 0) == (rest == 0)) by (nonlinear_arith)
        requires
            0 <= rest < d,
            0 < u,
    ;
    assert(q >= 0x1_0000_0000_0000) by (nonlinear_arith)
        requires
            wide == d * q + rest,
            0 <= rest < d,
            0 < d <= 0x8000,
            wide >= 0x8000_0000_0000_0000,
    ;
}

} // verus!
