use fusion_ocr::single::Single;

fn s(v: f32) -> Single {
    Single::from_bits(v.to_bits())
}

fn same(a: Single, b: f32, what: &str) {
    if b.is_nan() {
        assert!(a.is_nan(), "{what}");
    } else {
        assert_eq!(a.to_bits(), b.to_bits(), "{what}: {} and {b}", f32::from_bits(a.to_bits()));
    }
}

struct Patterns(u64);

impl Patterns {
    fn next(&mut self) -> u64 {
        self.0 = self.0.wrapping_mul(6364136223846793005).wrapping_add(1442695040888963407);
        self.0 >> 16
    }

    /// A number of some kind: any pattern, a special one, or a moderate fraction.
    fn number(&mut self) -> f32 {
        let special = [
            0.0, -0.0, 1.0, -1.0, f32::INFINITY, f32::NEG_INFINITY, f32::NAN, f32::MIN_POSITIVE,
            f32::MAX, f32::MIN, 0.5, -0.5, 1.5, 2.5, 16777216.0, f32::EPSILON,
        ];
        match self.next() % 4 {
            0 => special[(self.next() % 16) as usize],
            1 => f32::from_bits(self.next() as u32),
            2 => (self.next() % 20000) as f32 / 16.0 - 600.0,
            _ => f32::from_bits((self.next() % 0x200_0000) as u32),
        }
    }
}

#[test]
fn sums_match_hardware() {
    let mut p = Patterns(1);
    for _ in 0..200_000 {
        let (a, b) = (p.number(), p.number());
        same(s(a).plus(s(b)), a + b, "sum");
        same(s(a).minus(s(b)), a - b, "difference");
    }
}

#[test]
fn products_and_quotients_match_hardware() {
    let mut p = Patterns(2);
    for _ in 0..100_000 {
        let (a, b) = (p.number(), p.number());
        same(s(a).times(s(b)), a * b, "product");
        same(s(a).over(s(b)), a / b, "quotient");
    }
}

#[test]
fn neighbouring_numbers_match_hardware() {
    let mut p = Patterns(3);
    for _ in 0..100_000 {
        let bits = p.next() as u32;
        let a = f32::from_bits(bits);
        let b = f32::from_bits(bits.wrapping_add((p.next() % 5) as u32).wrapping_sub(2));
        same(s(a).minus(s(b)), a - b, "difference");
        same(s(a).over(s(b)), a / b, "quotient");
        assert_eq!(s(a).lt(s(b)), a < b);
    }
}

#[test]
fn comparisons_match_hardware() {
    let mut p = Patterns(4);
    for _ in 0..100_000 {
        let (a, b) = (p.number(), p.number());
        assert_eq!(s(a).lt(s(b)), a < b);
        assert_eq!(s(a).le(s(b)), a <= b);
        if a != b {
            same(s(a).min(s(b)), a.min(b), "min");
            same(s(a).max(s(b)), a.max(b), "max");
        }
        same(s(a).abs(), a.abs(), "abs");
        same(s(a).neg(), -a, "neg");
        if !a.is_nan() && !b.is_nan() {
            assert_eq!(s(a).order_key() < s(b).order_key(), a < b);
            assert_eq!(s(a).order_key() == s(b).order_key(), a == b);
        }
        if b >= 0.0 {
            same(s(a).clamp(s(0.0), s(b)), a.clamp(0.0, b), "clamp");
        }
    }
}

#[test]
fn whole_parts_match_hardware() {
    let mut p = Patterns(5);
    for _ in 0..200_000 {
        let a = p.number();
        same(s(a).round(), a.round(), "round");
        same(s(a).floor(), a.floor(), "floor");
        same(s(a).ceil(), a.ceil(), "ceil");
        assert_eq!(s(a).to_u32(), a as u32);
        assert_eq!(s(a).to_i32(), a as i32);
        assert_eq!(s(a).to_u64(), a as u64);
    }
}

#[test]
fn whole_numbers_match_hardware() {
    let mut p = Patterns(6);
    for _ in 0..200_000 {
        let n = p.next() << (p.next() % 17) >> (p.next() % 48);
        same(Single::from_u64(n), n as f32, "from_u64");
        let i = n as i64;
        if i > i64::MIN {
            same(Single::from_i64(i), i as f32, "from_i64");
            same(Single::from_i64(i.wrapping_neg()), i.wrapping_neg() as f32, "from_i64");
        }
    }
    same(Single::from_u64(u64::MAX), u64::MAX as f32, "from_u64");
    same(Single::from_u64(0), 0.0, "from_u64");
}

#[test]
fn hypotenuses_are_correctly_rounded() {
    same(s(3.0).hypot(s(4.0)), 5.0, "hypot");
    same(s(-5.0).hypot(s(12.0)), 13.0, "hypot");
    same(s(0.0).hypot(s(-0.0)), 0.0, "hypot");
    same(s(f32::INFINITY).hypot(s(f32::NAN)), f32::INFINITY, "hypot");
    same(s(f32::NAN).hypot(s(1.0)), f32::NAN, "hypot");
    same(s(f32::MAX).hypot(s(f32::MAX)), f32::INFINITY, "hypot");
    let mut p = Patterns(7);
    for _ in 0..100_000 {
        let (a, b) = (p.number(), p.number());
        if a.is_infinite() || b.is_infinite() {
            continue;
        }
        // the sum of the squares of two binary32 numbers is nearly exact in binary64
        let exact = ((a as f64) * (a as f64) + (b as f64) * (b as f64)).sqrt();
        let got = f32::from_bits(s(a).hypot(s(b)).to_bits());
        let want = exact as f32;
        if want.is_nan() {
            assert!(got.is_nan());
        } else if got != want {
            // only where binary64 lies on the midpoint of two binary32 numbers
            let error = ((got as f64) - exact).abs();
            assert!(error <= ((want as f64) - exact).abs() * 1.0000001, "{a} {b}");
        }
    }
}
