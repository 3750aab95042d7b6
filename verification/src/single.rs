//! Binary32 arithmetic on bit patterns.
//!
//! A [`Single`] is one IEEE 754 binary32 number, held as its 32 bits. Every finite
//! number is a whole multiple of `2^-149`, so the specifications measure numbers in
//! that unit: `units()` of a finite number is an integer, and each operation is the
//! number nearest to the exact result, ties to the even bit pattern.
use vstd::prelude::*;
use vstd::arithmetic::power2::*;
use vstd::arithmetic::mul::*;
use vstd::arithmetic::div_mod::*;

verus! {

/// The bit pattern of "not a number" that the operations return.
pub const NAN: u32 = 0x7fc0_0000;

/// The bit pattern of positive infinity.
pub const INFINITY: u32 = 0x7f80_0000;

/// The bit pattern of negative infinity.
pub const NEG_INFINITY: u32 = 0xff80_0000;

/// The bit pattern of one.
pub const ONE: u32 = 0x3f80_0000;

/// The value of the magnitude `m`, in units of `2^-149`.
///
/// Magnitudes below `2^23` are the subnormal numbers and count units directly.
/// From there on the step between neighbours doubles every `2^23` magnitudes.
/// The magnitude of infinity continues the scale: it stands for `2^128`.
pub open spec fn step(m: nat) -> nat {
    if m < 0x80_0000 {
        m
    } else {
        (0x80_0000 + m % 0x80_0000) * pow2((m / 0x80_0000 - 1) as nat)
    }
}

/// `num / den` units round to the magnitude `m`: the quotient lies between the
/// midpoints to the neighbouring magnitudes, and on a midpoint only if `m` is even.
pub open spec fn is_nearest(m: nat, num: nat, den: nat) -> bool {
    &&& m <= 0x7f80_0000
    &&& m < 0x7f80_0000 ==> {
        ||| 2 * num < (step(m) + step(m + 1)) * den
        ||| 2 * num == (step(m) + step(m + 1)) * den && m % 2 == 0
    }
    &&& m > 0 ==> {
        ||| 2 * num > (step((m - 1) as nat) + step(m)) * den
        ||| 2 * num == (step((m - 1) as nat) + step(m)) * den && m % 2 == 0
    }
}

/// The magnitude that `num / den` units round to.
pub open spec fn nearest(num: nat, den: nat) -> nat {
    choose|m: nat| is_nearest(m, num, den)
}

/// A binary32 number.
#[derive(Clone, Copy, Debug, PartialEq, Eq, Structural)]
pub struct Single {
    /// The IEEE 754 bit pattern: sign, eight exponent bits, twenty-three fraction bits.
    pub bits: u32,
}

impl Single {
    /// The bit pattern without the sign.
    pub open spec fn magnitude(self) -> nat {
        (self.bits as nat) % 0x8000_0000
    }

    pub open spec fn negative(self) -> bool {
        self.bits >= 0x8000_0000u32
    }

    pub open spec fn nan(self) -> bool {
        self.magnitude() > 0x7f80_0000
    }

    pub open spec fn infinite(self) -> bool {
        self.magnitude() == 0x7f80_0000
    }

    pub open spec fn finite(self) -> bool {
        self.magnitude() < 0x7f80_0000
    }

    pub open spec fn zero(self) -> bool {
        self.magnitude() == 0
    }

    /// The value in units of `2^-149`; infinities stand for `2^128` with their sign.
    pub open spec fn units(self) -> int {
        if self.negative() {
            -(step(self.magnitude()) as int)
        } else {
            step(self.magnitude()) as int
        }
    }

    /// The number with the given sign and magnitude.
    pub open spec fn make(negative: bool, magnitude: nat) -> Single {
        Single { bits: (if negative { magnitude + 0x8000_0000 } else { magnitude }) as u32 }
    }

    /// The one bit pattern that the operations of this module return for "not a number".
    pub open spec fn not_a_number() -> Single {
        Single { bits: NAN }
    }

    /// The number nearest to `num / den` units, given that sign.
    pub open spec fn rounded(negative: bool, num: nat, den: nat) -> Single {
        Single::make(negative, nearest(num, den))
    }
}

/// One, in units.
pub open spec fn unit() -> nat {
    pow2(149)
}

/// The absolute value.
pub open spec fn size(i: int) -> nat {
    if i < 0 {
        (-i) as nat
    } else {
        i as nat
    }
}

/// The arithmetic of numbers.
impl Single {
    /// Neither number is "not a number" and the first is below the second.
    pub open spec fn below(self, other: Single) -> bool {
        !self.nan() && !other.nan() && self.units() < other.units()
    }

    /// Neither number is "not a number" and the first does not exceed the second.
    pub open spec fn at_most(self, other: Single) -> bool {
        !self.nan() && !other.nan() && self.units() <= other.units()
    }

    /// The number with the sign turned.
    pub open spec fn negated(self) -> Single {
        Single::make(!self.negative(), self.magnitude())
    }

    /// The number without its sign.
    pub open spec fn unsigned(self) -> Single {
        Single::make(false, self.magnitude())
    }

    /// The number nearest to a whole number.
    #[verifier::opaque]
    pub open spec fn whole(i: int) -> Single {
        Single::rounded(i < 0, size(i) * unit(), 1)
    }

    /// `a + b`. An exact zero is negative only as the sum of two negative zeros.
    #[verifier::opaque]
    pub open spec fn sum(a: Single, b: Single) -> Single {
        if a.nan() || b.nan() || a.infinite() && b.infinite() && a.negative() != b.negative() {
            Single::not_a_number()
        } else if a.infinite() {
            a
        } else if b.infinite() {
            b
        } else if a.units() + b.units() == 0 {
            Single::make(a.negative() && b.negative(), 0)
        } else {
            Single::rounded(a.units() + b.units() < 0, size(a.units() + b.units()), 1)
        }
    }

    /// `a - b`.
    pub open spec fn difference(a: Single, b: Single) -> Single {
        Single::sum(a, b.negated())
    }

    /// `a * b`.
    #[verifier::opaque]
    pub open spec fn product(a: Single, b: Single) -> Single {
        let negative = a.negative() != b.negative();
        if a.nan() || b.nan() || a.infinite() && b.zero() || a.zero() && b.infinite() {
            Single::not_a_number()
        } else if a.infinite() || b.infinite() {
            Single::make(negative, 0x7f80_0000)
        } else {
            Single::rounded(negative, size(a.units()) * size(b.units()), unit())
        }
    }

    /// `a / b`.
    #[verifier::opaque]
    pub open spec fn quotient(a: Single, b: Single) -> Single {
        let negative = a.negative() != b.negative();
        if a.nan() || b.nan() || a.infinite() && b.infinite() || a.zero() && b.zero() {
            Single::not_a_number()
        } else if a.infinite() || b.zero() {
            Single::make(negative, 0x7f80_0000)
        } else if b.infinite() {
            Single::make(negative, 0)
        } else {
            Single::rounded(negative, size(a.units()) * unit(), size(b.units()))
        }
    }

    /// The square root of `a * a + b * b`, correctly rounded.
    #[verifier::opaque]
    pub open spec fn hypotenuse(a: Single, b: Single) -> Single {
        if a.infinite() || b.infinite() {
            Single::make(false, 0x7f80_0000)
        } else if a.nan() || b.nan() {
            Single::not_a_number()
        } else {
            Single::make(false, nearest_root((a.units() * a.units() + b.units() * b.units()) as nat))
        }
    }

    /// The smaller number; a number rather than "not a number", and the first of equals.
    pub open spec fn smaller(a: Single, b: Single) -> Single {
        if a.nan() || b.below(a) {
            b
        } else {
            a
        }
    }

    /// The larger number; a number rather than "not a number", and the first of equals.
    pub open spec fn larger(a: Single, b: Single) -> Single {
        if a.nan() || a.below(b) {
            b
        } else {
            a
        }
    }

    /// The number moved into `[low, high]`; "not a number" stays.
    pub open spec fn clamped(self, low: Single, high: Single) -> Single {
        if self.below(low) {
            low
        } else if high.below(self) {
            high
        } else {
            self
        }
    }

    /// The nearest whole number, halves away from zero.
    #[verifier::opaque]
    pub open spec fn rounded_off(self) -> Single {
        if !self.finite() {
            self
        } else {
            Single::rounded(
                self.negative(),
                ((2 * size(self.units()) + unit()) / (2 * unit())) * unit(),
                1,
            )
        }
    }

    /// The largest whole number that does not exceed the number.
    #[verifier::opaque]
    pub open spec fn floored(self) -> Single {
        if !self.finite() {
            self
        } else {
            Single::rounded(
                self.negative(),
                size(self.units() / (unit() as int)) * unit(),
                1,
            )
        }
    }

    /// The smallest whole number that is not below the number.
    #[verifier::opaque]
    pub open spec fn ceiled(self) -> Single {
        if !self.finite() {
            self
        } else {
            Single::rounded(
                self.negative(),
                size((-self.units()) / (unit() as int)) * unit(),
                1,
            )
        }
    }

    /// The whole part, moved into `[low, high]`; zero for "not a number".
    #[verifier::opaque]
    pub open spec fn to_whole(self, low: int, high: int) -> int {
        let part = (size(self.units()) / unit()) as int;
        let value = if self.negative() {
            -part
        } else {
            part
        };
        if self.nan() {
            0
        } else if value < low {
            low
        } else if value > high {
            high
        } else {
            value
        }
    }
}

/// The root of `n` square units rounds to the magnitude `m`.
pub open spec fn is_nearest_root(m: nat, n: nat) -> bool {
    &&& m <= 0x7f80_0000
    &&& m < 0x7f80_0000 ==> {
        let twice = step(m) + step(m + 1);
        4 * n < twice * twice || 4 * n == twice * twice && m % 2 == 0
    }
    &&& m > 0 ==> {
        let twice = step((m - 1) as nat) + step(m);
        4 * n > twice * twice || 4 * n == twice * twice && m % 2 == 0
    }
}

/// The magnitude that the root of `n` square units rounds to.
pub open spec fn nearest_root(n: nat) -> nat {
    choose|m: nat| is_nearest_root(m, n)
}

/// A value of the scale rounds to itself.
pub proof fn lemma_nearest_step(m: nat, den: nat)
    requires
        m <= 0x7f80_0000,
        den > 0,
    ensures
        is_nearest(m, step(m) * den, den),
        nearest(step(m) * den, den) == m,
{
    lemma_step_next(m);
    let s0: int = step(m) as int;
    let s1: int = step(m + 1) as int;
    assert(2 * (s0 * den) < (s0 + s1) * den) by (nonlinear_arith)
        requires
            s0 < s1,
            den > 0,
    ;
    if m > 0 {
        lemma_step_next((m - 1) as nat);
        let sp: int = step((m - 1) as nat) as int;
        assert(2 * (s0 * den) > (sp + s0) * den) by (nonlinear_arith)
            requires
                sp < s0,
                den > 0,
        ;
    }
    lemma_nearest_is(m, step(m) * den, den);
}

/// Zero rounds to zero.
pub proof fn lemma_nearest_zero(den: nat)
    requires
        den > 0,
    ensures
        is_nearest(0, 0, den),
        nearest(0, den) == 0,
{
    lemma_nearest_step(0, den);
    assert(step(0) * den == 0) by (nonlinear_arith)
        requires
            step(0) == 0,
    ;
}

/// Scaling a significand of at most twenty-four bits by `2^q` is a step of the scale.
pub proof fn lemma_step_scaled(f: nat, q: nat)
    requires
        q == 0 && f <= 0x100_0000 || 0x80_0000 <= f <= 0x100_0000,
    ensures
        step(f + q * 0x80_0000) == f * pow2(q),
{
    lemma2_to64();
    let m: nat = f + q * 0x80_0000;
    if f < 0x80_0000 {
        assert(m == f);
    } else if f < 0x100_0000 {
        assert(m / 0x80_0000 == q + 1 && m % 0x80_0000 == f - 0x80_0000) by (nonlinear_arith)
            requires
                m == f + q * 0x80_0000,
                0x80_0000 <= f < 0x100_0000,
        ;
    } else {
        assert(m / 0x80_0000 == q + 2 && m % 0x80_0000 == 0) by (nonlinear_arith)
            requires
                m == f + q * 0x80_0000,
                f == 0x100_0000,
        ;
        lemma_pow2_unfold(q + 1);
        assert(0x80_0000 * pow2(q + 1) == 0x100_0000 * pow2(q));
    }
}

/// The scale grows strictly from one magnitude to the next.
pub proof fn lemma_step_next(m: nat)
    ensures
        step(m) < step(m + 1),
{
    lemma2_to64();
    if m < 0x80_0000 {
        lemma_step_scaled(m, 0);
        lemma_step_scaled(m + 1, 0);
    } else {
        let q: nat = (m / 0x80_0000 - 1) as nat;
        let f: nat = 0x80_0000 + m % 0x80_0000;
        assert(m == f + q * 0x80_0000);
        assert(m + 1 == (f + 1) + q * 0x80_0000);
        lemma_step_scaled(f, q);
        lemma_step_scaled(f + 1, q);
        lemma_pow2_pos(q);
        assert(f * pow2(q) < (f + 1) * pow2(q)) by (nonlinear_arith)
            requires
                pow2(q) > 0,
        ;
    }
}

/// The scale is strictly increasing.
pub proof fn lemma_step_increases(a: nat, b: nat)
    requires
        a < b,
    ensures
        step(a) < step(b),
    decreases b - a,
{
    lemma_step_next((b - 1) as nat);
    if a + 1 < b {
        lemma_step_increases(a, (b - 1) as nat);
    }
}

/// Rounding is monotone.
pub proof fn lemma_nearest_ordered(m1: nat, num1: nat, den1: nat, m2: nat, num2: nat, den2: nat)
    requires
        den1 > 0,
        den2 > 0,
        is_nearest(m1, num1, den1),
        is_nearest(m2, num2, den2),
        num1 * den2 <= num2 * den1,
    ensures
        m1 <= m2,
{
    if m1 > m2 {
        let low: nat = step(m2) + step(m2 + 1);
        let high: nat = step((m1 - 1) as nat) + step(m1);
        if m2 + 1 < m1 {
            lemma_step_increases(m2 + 1, m1);
            if m2 < m1 - 1 {
                lemma_step_increases(m2, (m1 - 1) as nat);
            }
            assert(low < high);
        } else {
            assert(low == high);
        }
        // low / 2 >= num2 / den2 >= num1 / den1 >= high / 2
        assert(2 * num2 <= low * den2);
        assert(2 * num1 >= high * den1);
        assert(high * den1 * den2 <= low * den2 * den1) by (nonlinear_arith)
            requires
                2 * num2 <= low * den2,
                2 * num1 >= high * den1,
                num1 * den2 <= num2 * den1,
                den1 > 0,
                den2 > 0,
        ;
        assert(high <= low) by (nonlinear_arith)
            requires
                high * den1 * den2 <= low * den2 * den1,
                den1 > 0,
                den2 > 0,
        ;
        assert(low == high);
        assert(m1 == m2 + 1);
        assert(2 * num2 == low * den2 && 2 * num1 == high * den1) by (nonlinear_arith)
            requires
                low == high,
                2 * num2 <= low * den2,
                2 * num1 >= high * den1,
                num1 * den2 <= num2 * den1,
                den1 > 0,
                den2 > 0,
        ;
        assert(false);
    }
}

/// At most one magnitude is nearest, so `nearest` is that one.
pub proof fn lemma_nearest_is(m: nat, num: nat, den: nat)
    requires
        den > 0,
        is_nearest(m, num, den),
    ensures
        nearest(num, den) == m,
{
    let n: nat = nearest(num, den);
    assert(is_nearest(n, num, den));
    lemma_nearest_ordered(m, num, den, n, num, den);
    lemma_nearest_ordered(n, num, den, m, num, den);
}

/// Some magnitude from `m` on is nearest, if the quotient is not below the midpoint before it.
proof fn lemma_nearest_from(m: nat, num: nat, den: nat) -> (r: nat)
    requires
        den > 0,
        m <= 0x7f80_0000,
        m > 0 ==> 2 * num >= (step((m - 1) as nat) + step(m)) * den,
    ensures
        is_nearest(r, num, den),
    decreases 0x7f80_0000 - m,
{
    if m < 0x7f80_0000 && 2 * num >= (step(m) + step(m + 1)) * den {
        lemma_nearest_from(m + 1, num, den)
    } else if m > 0 && 2 * num == (step((m - 1) as nat) + step(m)) * den && m % 2 == 1 {
        let k: nat = (m - 1) as nat;
        if k > 0 {
            lemma_step_next((k - 1) as nat);
            lemma_step_next(k);
            let a: int = (step((k - 1) as nat) + step(k)) as int;
            let b: int = (step(k) + step(m)) as int;
            assert(a * den < b * den) by (nonlinear_arith)
                requires
                    a < b,
                    den > 0,
            ;
        }
        k
    } else {
        m
    }
}

/// Every quotient rounds to a magnitude.
pub proof fn lemma_nearest(num: nat, den: nat)
    requires
        den > 0,
    ensures
        is_nearest(nearest(num, den), num, den),
        nearest(num, den) <= 0x7f80_0000,
{
    let r: nat = lemma_nearest_from(0, num, den);
    assert(is_nearest(r, num, den));
}

} // verus!
