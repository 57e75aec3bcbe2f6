use mmo_stream::single::Single;

fn single(x: f32) -> Single {
    Single { bits: x.to_bits() }
}

/// A small generator, so that every run tries the same patterns.
struct Patterns(u64);

impl Patterns {
    fn next(&mut self) -> u32 {
        self.0 = self.0.wrapping_mul(6364136223846793005).wrapping_add(1442695040888963407);
        (self.0 >> 32) as u32
    }

    /// A coordinate of the size that players have, often with a fraction.
    fn coordinate(&mut self) -> f32 {
        let whole = (self.next() % 20_000) as f32;
        let part = (self.next() % 1_000_000) as f32 / 1_000_000.0;
        whole + part - 5_000.0
    }
}

fn check_near(a: f32, b: f32, r: f32) {
    let expected = (a - b).abs() <= r;
    assert_eq!(single(a).near(single(b), single(r)), expected, "{} {} {}", a, b, r);
}

fn check_gap(a: f32, b: f32) {
    let d = (a - b).abs();
    let got = single(a).gap(single(b));
    if d.is_nan() {
        assert_eq!(got, None);
    } else {
        assert_eq!(got, Some(d.to_bits()), "{} {}", a, b);
    }
}

fn check_div(x: f32, d: u32) {
    assert_eq!(single(x).div_whole(d), (x / d as f32) as usize, "{} {}", x, d);
}

const SPECIAL: [u32; 22] = [
    0x0000_0000, 0x8000_0000, 0x0000_0001, 0x8000_0001, 0x007F_FFFF, 0x0080_0000, 0x0080_0001,
    0x3F80_0000, 0xBF80_0000, 0x3F7F_FFFF, 0x4248_0000, 0x4247_FFFF, 0x4248_0001, 0x4B7F_FFFF,
    0x4B80_0000, 0x7F7F_FFFF, 0xFF7F_FFFF, 0x7F80_0000, 0xFF80_0000, 0x7FC0_0000, 0xFFC0_0000,
    0x5F80_0000,
];

#[test]
fn gap_of_special_values() {
    for a in SPECIAL {
        for b in SPECIAL {
            check_gap(f32::from_bits(a), f32::from_bits(b));
        }
    }
}

#[test]
fn gap_of_any_patterns() {
    let mut p = Patterns(1);
    for _ in 0..200_000 {
        check_gap(f32::from_bits(p.next()), f32::from_bits(p.next()));
    }
}

#[test]
fn gap_of_patterns_with_close_exponents() {
    let mut p = Patterns(2);
    for _ in 0..200_000 {
        let a = p.next();
        let shift = p.next() % 32;
        let b = (a & 0xFF80_0000).wrapping_add((shift << 23) ^ 0x8000_0000 * (p.next() % 2))
            | (p.next() & 0x007F_FFFF);
        check_gap(f32::from_bits(a), f32::from_bits(b));
        check_gap(f32::from_bits(b), f32::from_bits(a));
    }
}

#[test]
fn near_of_special_values() {
    for a in SPECIAL {
        for b in SPECIAL {
            for r in SPECIAL {
                check_near(f32::from_bits(a), f32::from_bits(b), f32::from_bits(r));
            }
        }
    }
}

#[test]
fn near_of_coordinates() {
    let mut p = Patterns(3);
    for _ in 0..200_000 {
        let a = p.coordinate();
        check_near(a, p.coordinate(), 50.0);
        check_near(a, a + 50.0, 50.0);
        check_near(a, a - 50.0, 50.0);
        check_near(a, f32::from_bits((a + 50.0).to_bits() + 1), 50.0);
    }
}

#[test]
fn division_of_special_values() {
    for x in SPECIAL {
        for d in [1, 2, 3, 50, 200, 0x8000] {
            check_div(f32::from_bits(x), d);
        }
    }
}

#[test]
fn division_of_any_patterns() {
    let mut p = Patterns(4);
    for _ in 0..200_000 {
        let x = f32::from_bits(p.next());
        check_div(x, 50);
        check_div(x, p.next() % 0x8000 + 1);
        check_div(p.coordinate(), 50);
    }
}

#[test]
fn division_around_every_square() {
    for n in 0..400_000u32 {
        let edge = (50 * n) as f32;
        check_div(edge, 50);
        check_div(f32::from_bits(edge.to_bits() + 1), 50);
        if n > 0 {
            check_div(f32::from_bits(edge.to_bits() - 1), 50);
        }
    }
}

#[test]
fn whole_numbers_are_rounded_like_a_cast() {
    let mut p = Patterns(5);
    for n in [0u64, 1, 2, 0xFF_FFFF, 0x100_0000, 0x100_0001, 0x100_0003, u64::MAX, u64::MAX - 1] {
        assert_eq!(Single::from_whole(n).bits, (n as f32).to_bits());
    }
    for _ in 0..100_000 {
        let n = ((p.next() as u64) << 32 | p.next() as u64) >> (p.next() % 64);
        assert_eq!(Single::from_whole(n).bits, (n as f32).to_bits());
    }
}

#[test]
fn products_and_remainders_match() {
    let mut p = Patterns(6);
    for _ in 0..100_000 {
        let n = ((p.next() as u64) << 32 | p.next() as u64) >> (p.next() % 64);
        for factor in [13u32, 17] {
            let product = Single::from_whole(n).times_whole(factor);
            assert_eq!(product.bits, (n as f32 * factor as f32).to_bits());
            let rest = product.rem_whole(10_000);
            assert_eq!(rest.bits, ((n as f32 * factor as f32) % 10_000.0).to_bits());
        }
        let x = f32::from_bits(p.next() % 0x7F80_0000);
        assert_eq!(single(x).rem_whole(10_000).bits, (x % 10_000.0).to_bits());
        assert_eq!(single(x).rem_whole(7).bits, (x % 7.0).to_bits());
    }
}

#[test]
fn sums_match() {
    let mut p = Patterns(7);
    for _ in 0..100_000 {
        let x = f32::from_bits(p.next() % 0x7F80_0000);
        let y = f32::from_bits(p.next() % 0x7F80_0000);
        assert_eq!(single(x).plus(single(y)).bits, (x + y).to_bits());
        let c = p.coordinate().abs();
        assert_eq!(single(c).plus(single(1.0)).bits, (c + 1.0).to_bits());
    }
    let largest = f32::from_bits(0x7F7F_FFFF);
    assert_eq!(single(largest).plus(single(largest)).bits, f32::INFINITY.to_bits());
}

#[test]
fn a_square_next_door_is_enough() {
    let mut p = Patterns(8);
    for _ in 0..300_000 {
        let scale = p.next() % 32;
        let b = f32::from_bits((0x4000_0000 + (scale << 23)) | (p.next() & 0x007F_FFFF));
        for offset in [50.0f32, 49.5, 32.0, 1.0] {
            let a = b + offset;
            if single(a).near(single(b), single(50.0)) {
                let (i, j) = (single(a).div_whole(50), single(b).div_whole(50));
                assert!(i <= j + 1 && j <= i + 1, "{} {}", a, b);
            }
        }
    }
}
