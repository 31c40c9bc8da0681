use heavy_hash::binary64::{
    difference, exceeds, from_u16, product, quotient, sum, EPSILON, INFINITY, NAN, SIGN,
};

struct Bits(u64);

impl Bits {
    fn next(&mut self) -> u64 {
        self.0 ^= self.0 << 13;
        self.0 ^= self.0 >> 7;
        self.0 ^= self.0 << 17;
        self.0
    }

    /// A pattern whose exponent stays near that of 1.0, so that results
    /// are mostly normal.
    fn moderate(&mut self) -> u64 {
        let raw = self.next();
        let exponent = 1023 - 40 + (raw >> 52) % 80;
        (raw & 0x800F_FFFF_FFFF_FFFF) | (exponent << 52)
    }

    /// A pattern with a very small or very large exponent.
    fn extreme(&mut self) -> u64 {
        let raw = self.next();
        let pick = (raw >> 52) % 120;
        let exponent = if pick < 60 { pick } else { 2046 - (pick - 60) };
        (raw & 0x800F_FFFF_FFFF_FFFF) | (exponent << 52)
    }
}

fn notable() -> Vec<u64> {
    let mut all = vec![
        0u64,
        1,
        2,
        3,
        0x000F_FFFF_FFFF_FFFF,
        0x0010_0000_0000_0000,
        0x0010_0000_0000_0001,
        0x001F_FFFF_FFFF_FFFF,
        0x7FEF_FFFF_FFFF_FFFF,
        0x7FE0_0000_0000_0000,
        INFINITY,
        NAN,
        0x7FF0_0000_0000_0001,
        EPSILON,
        EPSILON + 1,
        EPSILON - 1,
    ];
    for value in [0.5f64, 1.0, 1.5, 2.0, 3.0, 10.0, 15.0, 0.1, 1.0 / 3.0, 1e-9, 1e9, 1e300, 1e-300, 65535.0] {
        all.push(value.to_bits());
    }
    let negated: Vec<u64> = all.iter().map(|x| x | SIGN).collect();
    all.extend(negated);
    all
}

fn same(ours: u64, theirs: f64) -> bool {
    if theirs.is_nan() {
        ours & !SIGN > INFINITY
    } else {
        ours == theirs.to_bits()
    }
}

fn check_product(a: u64, b: u64) {
    let theirs = f64::from_bits(a) * f64::from_bits(b);
    let ours = product(a, b);
    assert!(same(ours, theirs), "{:#018x} * {:#018x}: {:#018x}, not {:#018x}", a, b, ours, theirs.to_bits());
}

fn check_quotient(a: u64, b: u64) {
    let theirs = f64::from_bits(a) / f64::from_bits(b);
    let ours = quotient(a, b);
    assert!(same(ours, theirs), "{:#018x} / {:#018x}: {:#018x}, not {:#018x}", a, b, ours, theirs.to_bits());
}

#[test]
fn epsilon_is_one_billionth() {
    assert_eq!(EPSILON, 1e-9f64.to_bits());
}

#[test]
fn from_u16_is_exact() {
    for n in 0..=u16::MAX {
        assert_eq!(from_u16(n), f64::from(n).to_bits());
    }
}

#[test]
fn exceeds_compares_the_absolute_value_with_the_tolerance() {
    let mut bits = Bits(0x9E37_79B9_7F4A_7C15);
    let mut all = notable();
    for _ in 0..20000 {
        all.push(bits.next());
        all.push(bits.moderate());
    }
    for x in all {
        assert_eq!(exceeds(x), f64::from_bits(x).abs() > 1e-9, "{:#018x}", x);
    }
    assert!(!exceeds(EPSILON));
    assert!(exceeds(EPSILON + 1));
    assert!(!exceeds(NAN));
    assert!(exceeds(INFINITY | SIGN));
}

#[test]
fn product_of_notable_values_matches_the_hardware() {
    let all = notable();
    for &a in all.iter() {
        for &b in all.iter() {
            check_product(a, b);
        }
    }
}

#[test]
fn product_of_random_values_matches_the_hardware() {
    let mut bits = Bits(0x0123_4567_89AB_CDEF);
    for _ in 0..60000 {
        check_product(bits.next(), bits.next());
        check_product(bits.moderate(), bits.moderate());
        check_product(bits.extreme(), bits.extreme());
        check_product(bits.extreme(), bits.moderate());
    }
}

#[test]
fn product_gives_known_values() {
    assert_eq!(product(3.0f64.to_bits(), 5.0f64.to_bits()), 15.0f64.to_bits());
    assert_eq!(product(0.1f64.to_bits(), 3.0f64.to_bits()), 0x3FD3_3333_3333_3334);
    assert_eq!(product((-2.0f64).to_bits(), 0.0f64.to_bits()), SIGN);
    assert_eq!(product(1e300f64.to_bits(), 1e300f64.to_bits()), INFINITY);
    assert_eq!(product(1, 0.5f64.to_bits()), 0);
    assert_eq!(product(3, 0.5f64.to_bits()), 2);
}

#[test]
fn quotient_of_notable_values_matches_the_hardware() {
    let all = notable();
    for &a in all.iter() {
        for &b in all.iter() {
            check_quotient(a, b);
        }
    }
}

#[test]
fn quotient_of_random_values_matches_the_hardware() {
    let mut bits = Bits(0xFEDC_BA98_7654_3210);
    for _ in 0..40000 {
        check_quotient(bits.next(), bits.next());
        check_quotient(bits.moderate(), bits.moderate());
        check_quotient(bits.extreme(), bits.extreme());
        check_quotient(bits.moderate(), bits.extreme());
    }
}

#[test]
fn quotient_of_small_integers_matches_the_hardware() {
    for a in 0..=64u16 {
        for b in 0..=64u16 {
            check_quotient(from_u16(a), from_u16(b));
        }
    }
}

#[test]
fn quotient_gives_known_values() {
    assert_eq!(quotient(1.0f64.to_bits(), 3.0f64.to_bits()), 0x3FD5_5555_5555_5555);
    assert_eq!(quotient(2.0f64.to_bits(), 3.0f64.to_bits()), 0x3FE5_5555_5555_5555);
    assert_eq!(quotient(1.0f64.to_bits(), 10.0f64.to_bits()), 0x3FB9_9999_9999_999A);
    assert_eq!(quotient(1.0f64.to_bits(), 0), INFINITY);
    assert_eq!(quotient((-1.0f64).to_bits(), 0), INFINITY | SIGN);
    assert_eq!(quotient(15.0f64.to_bits(), 15.0f64.to_bits()), 1.0f64.to_bits());
}

fn check_sum(a: u64, b: u64) {
    let theirs = f64::from_bits(a) + f64::from_bits(b);
    let ours = sum(a, b);
    assert!(same(ours, theirs), "{:#018x} + {:#018x}: {:#018x}, not {:#018x}", a, b, ours, theirs.to_bits());
}

fn check_difference(a: u64, b: u64) {
    let theirs = f64::from_bits(a) - f64::from_bits(b);
    let ours = difference(a, b);
    assert!(same(ours, theirs), "{:#018x} - {:#018x}: {:#018x}, not {:#018x}", a, b, ours, theirs.to_bits());
}

#[test]
fn sum_and_difference_of_notable_values_match_the_hardware() {
    let all = notable();
    for &a in all.iter() {
        for &b in all.iter() {
            check_sum(a, b);
            check_difference(a, b);
        }
    }
}

#[test]
fn sum_of_random_values_matches_the_hardware() {
    let mut bits = Bits(0x1357_9BDF_0246_8ACE);
    for _ in 0..40000 {
        check_sum(bits.next(), bits.next());
        check_sum(bits.moderate(), bits.moderate());
        check_sum(bits.extreme(), bits.extreme());
        check_sum(bits.moderate(), bits.extreme());
    }
}

#[test]
fn difference_of_random_values_matches_the_hardware() {
    let mut bits = Bits(0x0F1E_2D3C_4B5A_6978);
    for _ in 0..40000 {
        check_difference(bits.next(), bits.next());
        check_difference(bits.moderate(), bits.moderate());
        check_difference(bits.extreme(), bits.extreme());
        check_difference(bits.extreme(), bits.moderate());
    }
}

#[test]
fn difference_of_close_values_matches_the_hardware() {
    let mut bits = Bits(0x2468_ACE0_1357_9BDF);
    for _ in 0..40000 {
        let a = bits.moderate() & !SIGN;
        let step = bits.next() % 4096;
        check_difference(a, a + step);
        check_difference(a + step, a);
        check_sum(a, (a + step) | SIGN);
        let tiny = bits.next() % 0x0020_0000_0000_0000;
        check_difference(tiny, bits.next() % 0x0020_0000_0000_0000);
        check_sum(tiny, bits.next() % 0x0020_0000_0000_0000);
    }
}

#[test]
fn sum_of_values_far_apart_returns_the_larger() {
    let mut bits = Bits(0xDEAD_BEEF_CAFE_F00D);
    for _ in 0..20000 {
        let big = bits.moderate();
        let raw = bits.next();
        for gap in [52u64, 53, 54, 55, 63, 64, 65, 66, 100, 900] {
            let exponent = ((big >> 52) & 0x7FF).saturating_sub(gap);
            let small = (raw & 0x800F_FFFF_FFFF_FFFF) | (exponent << 52);
            check_sum(big, small);
            check_difference(big, small);
            check_sum(small, big);
            check_difference(small, big);
        }
    }
    let one = 1.0f64.to_bits();
    assert_eq!(sum(one, 1), one);
    assert_eq!(difference(one, 1), one);
    assert_eq!(difference(2.0f64.to_bits(), 1), 2.0f64.to_bits());
}

#[test]
fn sum_and_difference_give_known_values() {
    assert_eq!(sum(0.1f64.to_bits(), 0.2f64.to_bits()), 0x3FD3_3333_3333_3334);
    assert_eq!(sum(1.0f64.to_bits(), 2.0f64.to_bits()), 3.0f64.to_bits());
    assert_eq!(difference(1.0f64.to_bits(), 1.0f64.to_bits()), 0);
    assert_eq!(difference(SIGN, 0), SIGN);
    assert_eq!(sum(SIGN, 0), 0);
    assert_eq!(difference(0, 0), 0);
    assert_eq!(difference(INFINITY, INFINITY) & !SIGN, NAN);
    assert_eq!(difference(15.0f64.to_bits(), 0.5f64.to_bits()), 14.5f64.to_bits());
}
