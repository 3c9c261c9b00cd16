use media_probe::binary64::Binary64;

fn number(x: f64) -> Binary64 {
    Binary64::from_bits(x.to_bits())
}

fn agree(x: Binary64, y: f64) -> bool {
    x.bits == y.to_bits() || (f64::from_bits(x.bits).is_nan() && y.is_nan())
}

fn check(a: f64, b: f64) {
    let (x, y) = (number(a), number(b));
    assert!(agree(x.plus(y), a + b), "{a:e} + {b:e}");
    assert!(agree(x.minus(y), a - b), "{a:e} - {b:e}");
    assert_eq!(x.is_less(y), a < b);
    assert_eq!(x.is_at_most(y), a <= b);
    assert_eq!(x.is_finite(), a.is_finite());
    assert_eq!(x.is_positive(), a > 0.0);
    assert_eq!(x.is_negative(), a.is_sign_negative());
    assert_eq!(x.abs().bits, a.abs().to_bits());
    assert_eq!(x.negated().bits, (-a).to_bits());
}

#[test]
fn special_numbers() {
    let numbers = [
        0.0,
        -0.0,
        1.0,
        -1.0,
        0.1,
        0.2,
        0.001,
        1000.0,
        9007199254740992.0,
        9007199254740993.0,
        1.0000000000000002,
        f64::EPSILON,
        f64::EPSILON / 2.0,
        f64::MIN_POSITIVE,
        f64::MIN_POSITIVE / 2.0,
        5e-324,
        -5e-324,
        f64::MAX,
        f64::MIN,
        9.9792015476736e291,
        f64::INFINITY,
        f64::NEG_INFINITY,
        f64::NAN,
    ];
    for a in numbers {
        for b in numbers {
            check(a, b);
        }
    }
}

#[test]
fn many_numbers() {
    let mut state: u64 = 0x9E37_79B9_7F4A_7C15;
    let mut next = || {
        state ^= state << 13;
        state ^= state >> 7;
        state ^= state << 17;
        state
    };
    for _ in 0..200_000 {
        let a = next();
        let b = next();
        check(f64::from_bits(a), f64::from_bits(b));
        let near = (a & 0x800F_FFFF_FFFF_FFFF) | (((b >> 52) % 140 + 950) << 52);
        let other = (b & 0x800F_FFFF_FFFF_FFFF) | (((a >> 52) % 140 + 950) << 52);
        check(f64::from_bits(near), f64::from_bits(other));
        let small = a & 0x803F_FFFF_FFFF_FFFF;
        let tiny = b & 0x803F_FFFF_FFFF_FFFF;
        check(f64::from_bits(small), f64::from_bits(tiny));
        let n = a as u32;
        let d = (b as u32).max(1);
        assert_eq!(Binary64::quotient(n, d).bits, (n as f64 / d as f64).to_bits());
        let e = (b as u32 % 1000).max(1);
        assert_eq!(Binary64::quotient(n % 5000, e).bits, ((n % 5000) as f64 / e as f64).to_bits());
    }
}

#[test]
fn sums_are_rounded_to_even() {
    let x = 9007199254740992.0f64;
    assert_eq!(number(x).plus(number(1.0)).bits, x.to_bits());
    assert_eq!(number(x).plus(number(3.0)).bits, (x + 4.0).to_bits());
    assert_eq!(number(0.1).plus(number(0.2)).bits, 0.30000000000000004f64.to_bits());
}
