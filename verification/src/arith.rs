//! The executable operations of [`Single`].
use crate::single::Single;
use crate::rounding::{bit_length, round_parts};
use vstd::prelude::*;
use vstd::arithmetic::power2::*;
use vstd::arithmetic::mul::*;
use vstd::arithmetic::div_mod::*;

verus! {

/// A number with the given sign and magnitude.
fn assemble(negative: bool, magnitude: u32) -> (r: Single)
    requires
        magnitude < 0x8000_0000,
    ensures
        r == Single::make(negative, magnitude as nat),
        r.magnitude() == magnitude,
        r.negative() == negative,
{
    if negative {
        Single { bits: magnitude + 0x8000_0000 }
    } else {
        Single { bits: magnitude }
    }
}

impl Single {
    /// The number with this bit pattern.
    pub fn from_bits(bits: u32) -> (r: Single)
        ensures
            r.bits == bits,
    {
        Single { bits }
    }

    /// The bit pattern of the number.
    pub fn to_bits(self) -> (bits: u32)
        ensures
            bits == self.bits,
    {
        self.bits
    }

    /// Whether this is "not a number".
    pub fn is_nan(self) -> (r: bool)
        ensures
            r == self.nan(),
    {
        self.bits % 0x8000_0000 > 0x7f80_0000
    }

    pub(crate) fn is_infinite(self) -> (r: bool)
        ensures
            r == self.infinite(),
    {
        self.bits % 0x8000_0000 == 0x7f80_0000
    }

    fn is_zero(self) -> (r: bool)
        ensures
            r == self.zero(),
    {
        self.bits % 0x8000_0000 == 0
    }

    fn is_negative(self) -> (r: bool)
        ensures
            r == self.negative(),
    {
        self.bits >= 0x8000_0000
    }

    /// An integer that orders as the number does.
    pub fn order_key(self) -> (k: i64)
        requires
            !self.nan(),
        ensures
            k == self.key(),
    {
        let m: i64 = (self.bits % 0x8000_0000) as i64;
        if self.bits >= 0x8000_0000 {
            -m
        } else {
            m
        }
    }

    /// The signed magnitude: an integer that orders as the number does.
    pub open spec fn key(self) -> int {
        if self.negative() {
            -(self.magnitude() as int)
        } else {
            self.magnitude() as int
        }
    }

    /// Numbers are ordered as their keys are.
    pub proof fn lemma_key_orders(a: Single, b: Single)
        ensures
            a.key() < b.key() <==> a.units() < b.units(),
            a.key() == b.key() <==> a.units() == b.units(),
    {
        let (ma, mb) = (a.magnitude(), b.magnitude());
        assert(crate::single::step(0) == 0);
        if ma < mb {
            crate::single::lemma_step_increases(ma, mb);
        }
        if mb < ma {
            crate::single::lemma_step_increases(mb, ma);
        }
        if ma > 0 {
            crate::single::lemma_step_increases(0, ma);
        }
        if mb > 0 {
            crate::single::lemma_step_increases(0, mb);
        }
    }

    /// `self < other`.
    pub fn lt(self, other: Single) -> (r: bool)
        ensures
            r == self.below(other),
    {
        if self.is_nan() || other.is_nan() {
            false
        } else {
            proof {
                Single::lemma_key_orders(self, other);
            }
            self.order_key() < other.order_key()
        }
    }

    /// `self <= other`.
    pub fn le(self, other: Single) -> (r: bool)
        ensures
            r == self.at_most(other),
    {
        if self.is_nan() || other.is_nan() {
            false
        } else {
            proof {
                Single::lemma_key_orders(self, other);
            }
            self.order_key() <= other.order_key()
        }
    }

    /// `-self`.
    pub fn neg(self) -> (r: Single)
        ensures
            r == self.negated(),
    {
        assemble(!self.is_negative(), self.bits % 0x8000_0000)
    }

    /// The absolute value.
    pub fn abs(self) -> (r: Single)
        ensures
            r == self.unsigned(),
    {
        assemble(false, self.bits % 0x8000_0000)
    }

    /// The smaller of two numbers.
    pub fn min(self, other: Single) -> (r: Single)
        ensures
            r == Single::smaller(self, other),
    {
        if self.is_nan() || other.lt(self) {
            other
        } else {
            self
        }
    }

    /// The larger of two numbers.
    pub fn max(self, other: Single) -> (r: Single)
        ensures
            r == Single::larger(self, other),
    {
        if self.is_nan() || self.lt(other) {
            other
        } else {
            self
        }
    }

    /// The number moved into `[low, high]`.
    pub fn clamp(self, low: Single, high: Single) -> (r: Single)
        requires
            low.at_most(high),
        ensures
            r == self.clamped(low, high),
    {
        if self.lt(low) {
            low
        } else if high.lt(self) {
            high
        } else {
            self
        }
    }

    /// Significand and exponent: the magnitude is `sig * 2^exp` units.
    pub(crate) fn parts(self) -> (r: (u64, i32))
        requires
            !self.nan(),
        ensures
            0 <= r.1 <= 254,
            self.finite() ==> r.1 <= 253,
            r.0 < 0x100_0000,
            r.1 > 0 ==> r.0 >= 0x80_0000,
            r.0 == 0 <==> self.zero(),
            crate::single::size(self.units()) == r.0 * pow2(r.1 as nat),
    {
        let m: u32 = self.bits % 0x8000_0000;
        proof {
            lemma2_to64();
        }
        if m < 0x80_0000 {
            proof {
                assert(m * pow2(0) == m);
            }
            (m as u64, 0)
        } else {
            proof {
                assert(m / 0x80_0000 <= 255);
                assert(m / 0x80_0000 == 255 ==> m >= 0x7f80_0000);
                lemma_pow2_pos((m / 0x80_0000 - 1) as nat);
            }
            ((0x80_0000 + m % 0x80_0000) as u64, (m / 0x80_0000) as i32 - 1)
        }
    }

    /// A signed whole number, rounded.
    fn from_magnitude(negative: bool, n: u64) -> (r: Single)
        ensures
            r == Single::rounded(negative, (n * crate::single::unit()) as nat, 1),
    {
        proof {
            lemma2_to64();
            lemma_pow2_pos(149);
        }
        if n == 0 {
            proof {
                crate::single::lemma_nearest_zero(1);
            }
            assemble(negative, 0)
        } else {
            let ghost num: nat = (n * crate::single::unit()) as nat;
            proof {
                let u: int = pow2(149) as int;
                assert(n * u * 1 == num * 1 && num * 1 < (n + 1) * u * 1) by (nonlinear_arith)
                    requires
                        num == n * u,
                        u > 0,
                ;
            }
            let m: u32 = round_parts(n, 149, false, Ghost(num), Ghost(1));
            assemble(negative, m)
        }
    }

    /// The number nearest to an unsigned integer.
    pub fn from_u64(n: u64) -> (r: Single)
        ensures
            r == Single::whole(n as int),
    {
        proof {
            reveal(Single::whole);
        }
        Single::from_magnitude(false, n)
    }

    /// The number nearest to a signed integer.
    pub fn from_i64(n: i64) -> (r: Single)
        requires
            n > i64::MIN,
        ensures
            r == Single::whole(n as int),
    {
        proof {
            reveal(Single::whole);
        }
        if n < 0 {
            Single::from_magnitude(true, (-n) as u64)
        } else {
            Single::from_magnitude(false, n as u64)
        }
    }
}


/// The units of a finite number are its signed significand times `2^exp`.
proof fn lemma_signed_units(a: Single, sig: int, exp: nat)
    requires
        crate::single::size(a.units()) == sig * pow2(exp),
        0 <= sig,
    ensures
        a.units() == (if a.negative() {
            -sig
        } else {
            sig
        }) * pow2(exp),
{
    lemma_pow2_pos(exp);
    assert((-sig) * pow2(exp) == -(sig * pow2(exp))) by (nonlinear_arith);
    assert(crate::single::step(a.magnitude()) >= 0);
}

/// The sum of two finite numbers, the first with the larger exponent.
fn add_parts(a: Single, b: Single, pa: (u64, i32), pb: (u64, i32)) -> (r: Single)
    requires
        a.finite(),
        b.finite(),
        pa.0 < 0x100_0000,
        pb.0 < 0x100_0000,
        0 <= pb.1 <= pa.1 <= 253,
        pa.1 > 0 ==> pa.0 >= 0x80_0000,
        crate::single::size(a.units()) == pa.0 * pow2(pa.1 as nat),
        crate::single::size(b.units()) == pb.0 * pow2(pb.1 as nat),
    ensures
        r == Single::sum(a, b),
{
    proof {
        reveal(Single::sum);
    }
    let na: bool = a.is_negative();
    let nb: bool = b.is_negative();
    let d: i32 = pa.1 - pb.1;
    let ghost total: int = a.units() + b.units();
    let ghost sa: int = if na { -(pa.0 as int) } else { pa.0 as int };
    let ghost sb: int = if nb { -(pb.0 as int) } else { pb.0 as int };
    proof {
        lemma2_to64();
        lemma_signed_units(a, pa.0 as int, pa.1 as nat);
        lemma_signed_units(b, pb.0 as int, pb.1 as nat);
        lemma_pow2_pos(pa.1 as nat);
        lemma_pow2_pos(pb.1 as nat);
    }
    if d <= 38 {
        proof {
            if d < 38 {
                lemma_pow2_strictly_increases(d as nat, 38);
            }
            lemma_pow2_pos(d as nat);
            lemma2_to64_rest();
            assert(pa.0 * pow2(d as nat) <= 0xff_ffff * 0x40_0000_0000) by (nonlinear_arith)
                requires
                    pa.0 <= 0xff_ffff,
                    pow2(d as nat) <= 0x40_0000_0000,
            ;
            vstd::bits::lemma_u64_shl_is_mul(pa.0, d as u64);
            lemma_pow2_adds(d as nat, pb.1 as nat);
        }
        let x: u64 = pa.0 << (d as u64);
        let y: u64 = pb.0;
        let (sig, negative): (u64, bool) = if na == nb {
            (x + y, na)
        } else if x >= y {
            (x - y, na)
        } else {
            (y - x, nb)
        };
        proof {
            let p: int = pow2(pb.1 as nat) as int;
            let k: int = pow2(d as nat) as int;
            assert(total == (sa * k + sb) * p) by (nonlinear_arith)
                requires
                    total == sa * (k * p) + sb * p,
            ;
            assert(sa * k == (if na { -(x as int) } else { x as int })) by (nonlinear_arith)
                requires
                    x == pa.0 * k,
                    sa == (if na { -(pa.0 as int) } else { pa.0 as int }),
            ;
            let v: int = sa * k + sb;
            assert(crate::single::size(total) == crate::single::size(v) * p && (total < 0 <==> v < 0)
                && (total == 0 <==> v == 0)) by (nonlinear_arith)
                requires
                    total == v * p,
                    p > 0,
            ;
        }
        if sig == 0 {
            proof {
                if na && nb {
                    assert(pa.0 == 0) by (nonlinear_arith)
                        requires
                            x == pa.0 * pow2(d as nat),
                            x == 0,
                            pow2(d as nat) > 0,
                    ;
                }
            }
            assemble(na && nb, 0)
        } else {
            let ghost num: nat = crate::single::size(total);
            proof {
                let p: int = pow2(pb.1 as nat) as int;
                assert(sig * p * 1 == num * 1 && num * 1 < (sig + 1) * p * 1) by (nonlinear_arith)
                    requires
                        num == sig * p,
                        p > 0,
                ;
                assert(crate::rounding::scale_up(pb.1 as int) == p);
                assert(crate::rounding::scale_down(pb.1 as int) == 1);
            }
            let m: u32 = round_parts(sig, pb.1, false, Ghost(num), Ghost(1));
            assemble(negative, m)
        }
    } else {
        // The second number lies far below the last bits of the first.
        let sticky: bool = pb.0 != 0;
        let base: u64 = pa.0 * 16;
        let sig: u64 = if sticky && na != nb { base - 1 } else { base };
        let exp: i32 = pa.1 - 4;
        let ghost num: nat = crate::single::size(total);
        proof {
            let p: int = pow2(exp as nat) as int;
            let w: int = pow2(pb.1 as nat) as int;
            lemma_pow2_pos(exp as nat);
            lemma_pow2_adds(4, exp as nat);
            assert(pow2(pa.1 as nat) == 16 * p);
            // the second number is below one unit of the significand
            lemma_pow2_adds(24, pb.1 as nat);
            lemma_pow2_strictly_increases((24 + pb.1) as nat, exp as nat);
            let y: int = pb.0 * w;
            assert(0 <= y < p && (y == 0 <==> pb.0 == 0)) by (nonlinear_arith)
                requires
                    y == pb.0 * w,
                    pb.0 < 0x100_0000,
                    0x100_0000 * w < p,
                    w > 0,
            ;
            let x: int = pa.0 * (16 * p);
            assert(x == base * p) by (nonlinear_arith)
                requires
                    x == pa.0 * (16 * p),
                    base == pa.0 * 16,
            ;
            assert(sa * (16 * p) == (if na { -x } else { x })) by (nonlinear_arith)
                requires
                    x == pa.0 * (16 * p),
                    sa == (if na { -(pa.0 as int) } else { pa.0 as int }),
            ;
            assert(sb * w == (if nb { -y } else { y })) by (nonlinear_arith)
                requires
                    y == pb.0 * w,
                    sb == (if nb { -(pb.0 as int) } else { pb.0 as int }),
            ;
            assert(x >= p) by (nonlinear_arith)
                requires
                    x == base * p,
                    base >= 1,
                    p > 0,
            ;
            assert(num == (if na == nb { x + y } else { x - y }));
            assert((total < 0) == na && total != 0);
            assert((base - 1) * p == base * p - p && (base + 1) * p == base * p + p)
                by (nonlinear_arith);
            assert(sig * p * 1 == sig * p && (sig + 1) * p * 1 == (sig + 1) * p) by (nonlinear_arith);
            assert(crate::rounding::scale_up(exp as int) == p);
            assert(crate::rounding::scale_down(exp as int) == 1);
            assert(num * 1 == num);
        }
        let m: u32 = round_parts(sig, exp, sticky, Ghost(num), Ghost(1));
        assemble(na, m)
    }
}

impl Single {
    /// `self + other`.
    pub fn plus(self, other: Single) -> (r: Single)
        ensures
            r == Single::sum(self, other),
    {
        proof {
            reveal(Single::sum);
        }
        if self.is_nan() || other.is_nan() {
            Single::from_bits(crate::single::NAN)
        } else if self.is_infinite() {
            if other.is_infinite() && self.is_negative() != other.is_negative() {
                Single::from_bits(crate::single::NAN)
            } else {
                self
            }
        } else if other.is_infinite() {
            other
        } else {
            let pa = self.parts();
            let pb = other.parts();
            if pa.1 >= pb.1 {
                add_parts(self, other, pa, pb)
            } else {
                add_parts(other, self, pb, pa)
            }
        }
    }

    /// `self - other`.
    pub fn minus(self, other: Single) -> (r: Single)
        ensures
            r == Single::difference(self, other),
    {
        self.plus(other.neg())
    }

    /// `self * other`.
    pub fn times(self, other: Single) -> (r: Single)
        ensures
            r == Single::product(self, other),
    {
        proof {
            reveal(Single::product);
        }
        let negative: bool = self.is_negative() != other.is_negative();
        if self.is_nan() || other.is_nan() || (self.is_infinite() && other.is_zero()) || (
        self.is_zero() && other.is_infinite()) {
            return Single::from_bits(crate::single::NAN);
        }
        if self.is_infinite() || other.is_infinite() {
            return assemble(negative, 0x7f80_0000);
        }
        let pa = self.parts();
        let pb = other.parts();
        let ghost num: nat = crate::single::size(self.units()) * crate::single::size(other.units());
        let ghost den: nat = crate::single::unit();
        proof {
            lemma2_to64();
            lemma_pow2_pos(149);
            assert(0 <= pa.0 * pb.0 <= 0xff_ffff * 0xff_ffff) by (nonlinear_arith)
                requires
                    0 <= pa.0 <= 0xff_ffff,
                    0 <= pb.0 <= 0xff_ffff,
            ;
        }
        let sig: u64 = pa.0 * pb.0;
        let exp: i32 = pa.1 + pb.1 - 149;
        proof {
            let x: int = pow2(pa.1 as nat) as int;
            let y: int = pow2(pb.1 as nat) as int;
            lemma_pow2_adds(pa.1 as nat, pb.1 as nat);
            assert(num == sig * (x * y)) by (nonlinear_arith)
                requires
                    num == (pa.0 * x) * (pb.0 * y),
                    sig == pa.0 * pb.0,
            ;
        }
        if sig == 0 {
            proof {
                assert(num == 0) by (nonlinear_arith)
                    requires
                        num == sig * pow2((pa.1 + pb.1) as nat),
                        sig == 0,
                ;
                crate::single::lemma_nearest_zero(den);
            }
            assemble(negative, 0)
        } else {
            proof {
                let z: int = pow2((pa.1 + pb.1) as nat) as int;
                let up: int = crate::rounding::scale_up(exp as int) as int;
                let down: int = crate::rounding::scale_down(exp as int) as int;
                if exp >= 0 {
                    lemma_pow2_adds(exp as nat, 149);
                    assert(z == up * den && down == 1);
                    assert(sig * up * den == num * down) by (nonlinear_arith)
                        requires
                            z == up * den,
                            down == 1,
                            num == sig * z,
                    ;
                } else {
                    lemma_pow2_adds((pa.1 + pb.1) as nat, (-exp) as nat);
                    assert(den == z * down && up == 1);
                    assert(sig * up * den == num * down) by (nonlinear_arith)
                        requires
                            den == z * down,
                            up == 1,
                            num == sig * z,
                    ;
                }
                lemma_pow2_pos((if exp > 0 { exp as int } else { 0 }) as nat);
                assert(sig * up * den < (sig + 1) * up * den) by (nonlinear_arith)
                    requires
                        up > 0,
                        den > 0,
                ;
            }
            let m: u32 = round_parts(sig, exp, false, Ghost(num), Ghost(den));
            assemble(negative, m)
        }
    }

    /// `self / other`.
    pub fn over(self, other: Single) -> (r: Single)
        ensures
            r == Single::quotient(self, other),
    {
        proof {
            reveal(Single::quotient);
        }
        let negative: bool = self.is_negative() != other.is_negative();
        if self.is_nan() || other.is_nan() || (self.is_infinite() && other.is_infinite()) || (
        self.is_zero() && other.is_zero()) {
            return Single::from_bits(crate::single::NAN);
        }
        if self.is_infinite() || other.is_zero() {
            return assemble(negative, 0x7f80_0000);
        }
        if other.is_infinite() {
            return assemble(negative, 0);
        }
        let pa = self.parts();
        let pb = other.parts();
        let ghost num: nat = crate::single::size(self.units()) * crate::single::unit();
        let ghost den: nat = crate::single::size(other.units());
        proof {
            lemma2_to64();
            lemma2_to64_rest();
            lemma_pow2_pos(149);
            lemma_pow2_pos(pb.1 as nat);
            assert(den > 0) by (nonlinear_arith)
                requires
                    den == pb.0 * pow2(pb.1 as nat),
                    pb.0 > 0,
                    pow2(pb.1 as nat) > 0,
            ;
        }
        if pa.0 == 0 {
            proof {
                assert(num == 0) by (nonlinear_arith)
                    requires
                        num == (pa.0 * pow2(pa.1 as nat)) * crate::single::unit(),
                        pa.0 == 0,
                ;
                crate::single::lemma_nearest_zero(den);
            }
            return assemble(negative, 0);
        }
        let len: u32 = bit_length(pa.0);
        let k: u32 = 64 - len;
        proof {
            lemma_pow2_adds((len - 1) as nat, k as nat);
            lemma_pow2_adds(len as nat, k as nat);
            lemma_pow2_unfold(64);
            lemma_pow2_pos(k as nat);
            let h: int = pow2(k as nat) as int;
            assert(0x8000_0000_0000_0000 <= pa.0 * h < 0x1_0000_0000_0000_0000) by (nonlinear_arith)
                requires
                    pow2((len - 1) as nat) <= pa.0 < pow2(len as nat),
                    pow2((len - 1) as nat) * h == 0x8000_0000_0000_0000,
                    pow2(len as nat) * h == 0x1_0000_0000_0000_0000,
                    h > 0,
            ;
            assert(k < 64);
            vstd::bits::lemma_u64_shl_is_mul(pa.0, k as u64);
        }
        let wide: u64 = pa.0 << (k as u64);
        let sig: u64 = wide / pb.0;
        let rem: u64 = wide % pb.0;
        let sticky: bool = rem != 0;
        let exp: i32 = pa.1 - pb.1 + 149 - k as i32;
        proof {
            let a: int = pow2(pa.1 as nat) as int;
            let b: int = pow2(pb.1 as nat) as int;
            let h: int = pow2(k as nat) as int;
            let up: int = crate::rounding::scale_up(exp as int) as int;
            let down: int = crate::rounding::scale_down(exp as int) as int;
            lemma_fundamental_div_mod(wide as int, pb.0 as int);
            lemma_mod_bound(wide as int, pb.0 as int);
            assert(sig >= 0x200_0000) by (nonlinear_arith)
                requires
                    wide == pb.0 * sig + rem,
                    rem < pb.0,
                    wide >= 0x8000_0000_0000_0000,
                    pb.0 < 0x100_0000,
            ;
            let f: int = pa.1 + 149;
            let z: int;
            if exp >= 0 {
                // f - k = exp + pb.1
                z = pow2((f - k) as nat) as int;
                lemma_pow2_adds(exp as nat, pb.1 as nat);
                lemma_pow2_adds(k as nat, (f - k) as nat);
                lemma_pow2_adds(pa.1 as nat, 149);
                assert(z == up * b && down == 1);
                assert(a * pow2(149) == h * z);
            } else {
                // -exp + f = k + pb.1
                z = b;
                lemma_pow2_adds(f as nat, (-exp) as nat);
                lemma_pow2_adds(pa.1 as nat, 149);
                lemma_pow2_adds(k as nat, pb.1 as nat);
                assert(f + (-exp) == k + pb.1);
                assert(a * pow2(149) * down == h * z);
                assert(z == up * b) by (nonlinear_arith)
                    requires
                        up == 1,
                        z == b,
                ;
            }
            assert(a * pow2(149) * down == h * z) by (nonlinear_arith)
                requires
                    a * pow2(149) * down == h * z || (down == 1 && a * pow2(149) == h * z),
            ;
            assert(num * down == wide * z) by (nonlinear_arith)
                requires
                    num == (pa.0 * a) * pow2(149),
                    a * pow2(149) * down == h * z,
                    wide == pa.0 * h,
            ;
            assert(z > 0) by {
                lemma_pow2_pos((f - k) as nat);
                lemma_pow2_pos(pb.1 as nat);
            }
            assert(sig * up * den == (pb.0 * sig) * z && (sig + 1) * up * den == (pb.0 * sig
                + pb.0) * z) by (nonlinear_arith)
                requires
                    den == pb.0 * b,
                    z == up * b,
            ;
            assert((pb.0 * sig) * z <= wide * z && wide * z < (pb.0 * sig + pb.0) * z && (wide * z
                == (pb.0 * sig) * z <==> rem == 0)) by (nonlinear_arith)
                requires
                    wide == pb.0 * sig + rem,
                    0 <= rem < pb.0,
                    z > 0,
            ;
        }
        let m: u32 = round_parts(sig, exp, sticky, Ghost(num), Ghost(den));
        assemble(negative, m)
    }
}


/// A magnitude below `2^23` taken apart at the binary point.
struct Apart {
    /// The whole part.
    whole: u64,
    /// Whether there is a fraction.
    fraction: bool,
    /// Whether the fraction is at least one half.
    half: bool,
}

impl Apart {
    spec fn of(self, units: nat) -> bool {
        let u: int = crate::single::unit() as int;
        let rest: int = units - self.whole * u;
        &&& 0 <= rest < u
        &&& self.whole < 0x100_0000
        &&& self.fraction == (rest != 0)
        &&& self.half == (2 * rest >= u)
    }
}

/// Takes `sig * 2^exp` units apart, for an exponent below that of one.
fn take_apart(sig: u64, exp: i32) -> (r: Apart)
    requires
        sig < 0x100_0000,
        0 <= exp < 149,
    ensures
        r.of((sig * pow2(exp as nat)) as nat),
{
    let shift: i32 = 149 - exp;
    let ghost t: nat = pow2(shift as nat);
    let ghost p: nat = pow2(exp as nat);
    let ghost u: nat = crate::single::unit();
    proof {
        lemma2_to64();
        lemma_pow2_pos(exp as nat);
        lemma_pow2_pos(shift as nat);
        lemma_pow2_adds(exp as nat, shift as nat);
    }
    let whole: u64;
    let rem: u64;
    let half: bool;
    if shift >= 25 {
        whole = 0;
        rem = sig;
        half = false;
        proof {
            if shift > 25 {
                lemma_pow2_strictly_increases(25, shift as nat);
            }
        }
    } else {
        proof {
            if shift < 24 {
                lemma_pow2_strictly_increases(shift as nat, 24);
            }
            assert(1 * t <= u64::MAX);
            vstd::bits::lemma_u64_shl_is_mul(1, shift as u64);
        }
        let block: u64 = 1u64 << (shift as u64);
        whole = sig / block;
        rem = sig % block;
        half = 2 * rem >= block;
        proof {
            lemma_fundamental_div_mod(sig as int, t as int);
            assert(whole <= sig) by (nonlinear_arith)
                requires
                    whole == sig as int / t as int,
                    t >= 1,
            ;
        }
    }
    proof {
        assert(sig == whole * t + rem && 0 <= rem < t && (half <==> 2 * rem >= t)) by {
            if shift < 25 {
                assert(t * whole == whole * t) by (nonlinear_arith);
            }
        }
        let rest: int = sig * p - whole * u;
        assert(rest == rem * p) by (nonlinear_arith)
            requires
                rest == sig * p - whole * u,
                sig == whole * t + rem,
                u == p * t,
        ;
        assert(0 <= rest < u && (rest != 0 <==> rem != 0) && (2 * rest >= u <==> 2 * rem >= t))
            by (nonlinear_arith)
            requires
                rest == rem * p,
                u == p * t,
                0 <= rem < t,
                p > 0,
        ;
    }
    Apart { whole, fraction: rem != 0, half }
}

/// Division with a known remainder.
proof fn lemma_divided(n: int, d: int, q: int, r: int)
    requires
        d > 0,
        n == q * d + r,
        0 <= r < d,
    ensures
        n / d == q,
        n % d == r,
{
    lemma_fundamental_div_mod_converse(n, d, q, r);
}

impl Single {
    /// A finite number of at least `2^23` is whole.
    proof fn lemma_whole_already(self, sig: int, exp: int)
        requires
            self.finite(),
            149 <= exp,
            0 <= sig,
            crate::single::size(self.units()) == sig * pow2(exp as nat),
        ensures
            crate::single::size(self.units()) == (sig * pow2((exp - 149) as nat))
                * crate::single::unit(),
            Single::rounded(self.negative(), crate::single::size(self.units()), 1) == self,
            self.rounded_off() == self,
            self.floored() == self,
            self.ceiled() == self,
    {
        reveal(Single::rounded_off);
        reveal(Single::floored);
        reveal(Single::ceiled);
        let n: int = crate::single::size(self.units()) as int;
        let u: int = crate::single::unit() as int;
        let k: int = sig * pow2((exp - 149) as nat);
        lemma_pow2_pos(149);
        lemma_pow2_pos((exp - 149) as nat);
        lemma_pow2_adds((exp - 149) as nat, 149);
        assert(n == k * u) by (nonlinear_arith)
            requires
                n == sig * (pow2((exp - 149) as nat) * u),
                k == sig * pow2((exp - 149) as nat),
        ;
        crate::single::lemma_nearest_step(self.magnitude(), 1);
        assert(crate::single::step(self.magnitude()) == n);
        assert(k >= 0) by (nonlinear_arith)
            requires
                k == sig * pow2((exp - 149) as nat),
                sig >= 0,
                pow2((exp - 149) as nat) > 0,
        ;
        assert(2 * n + u == k * (2 * u) + u) by (nonlinear_arith)
            requires
                n == k * u,
        ;
        lemma_divided(2 * n + u, 2 * u, k, u);
        assert(-n == (-k) * u) by (nonlinear_arith)
            requires
                n == k * u,
        ;
        lemma_divided(n, u, k, 0);
        lemma_divided(-n, u, -k, 0);
    }

    /// The nearest whole number, halves away from zero.
    pub fn round(self) -> (r: Single)
        ensures
            r == self.rounded_off(),
    {
        proof {
            reveal(Single::rounded_off);
        }
        if self.is_nan() || self.is_infinite() {
            return self;
        }
        let p = self.parts();
        if p.1 >= 149 {
            proof {
                self.lemma_whole_already(p.0 as int, p.1 as int);
            }
            return self;
        }
        let a = take_apart(p.0, p.1);
        let n: u64 = if a.half { a.whole + 1 } else { a.whole };
        proof {
            let u: int = crate::single::unit() as int;
            lemma_pow2_pos(149);
            let size: int = crate::single::size(self.units()) as int;
            let rest: int = size - a.whole * u;
            assert(2 * size + u == n * (2 * u) + (if a.half { 2 * rest - u } else { 2 * rest + u }))
                by (nonlinear_arith)
                requires
                    rest == size - a.whole * u,
                    n == (if a.half { a.whole + 1 } else { a.whole as int }),
            ;
            lemma_divided(
                2 * size + u,
                2 * u,
                n as int,
                if a.half {
                    2 * rest - u
                } else {
                    2 * rest + u
                },
            );
        }
        Single::from_magnitude(self.is_negative(), n)
    }

    /// The largest whole number that does not exceed the number.
    pub fn floor(self) -> (r: Single)
        ensures
            r == self.floored(),
    {
        proof {
            reveal(Single::floored);
        }
        if self.is_nan() || self.is_infinite() {
            return self;
        }
        let p = self.parts();
        if p.1 >= 149 {
            proof {
                self.lemma_whole_already(p.0 as int, p.1 as int);
            }
            return self;
        }
        let a = take_apart(p.0, p.1);
        let up: bool = self.is_negative() && a.fraction;
        let n: u64 = if up { a.whole + 1 } else { a.whole };
        proof {
            self.lemma_divided_units(a, false);
        }
        Single::from_magnitude(self.is_negative(), n)
    }

    /// The smallest whole number that is not below the number.
    pub fn ceil(self) -> (r: Single)
        ensures
            r == self.ceiled(),
    {
        proof {
            reveal(Single::ceiled);
        }
        if self.is_nan() || self.is_infinite() {
            return self;
        }
        let p = self.parts();
        if p.1 >= 149 {
            proof {
                self.lemma_whole_already(p.0 as int, p.1 as int);
            }
            return self;
        }
        let a = take_apart(p.0, p.1);
        let up: bool = !self.is_negative() && a.fraction;
        let n: u64 = if up { a.whole + 1 } else { a.whole };
        proof {
            self.lemma_divided_units(a, true);
        }
        Single::from_magnitude(self.is_negative(), n)
    }

    /// The quotients behind the largest whole number below and the smallest above.
    proof fn lemma_divided_units(self, a: Apart, turned: bool)
        requires
            a.of(crate::single::size(self.units())),
            self.finite(),
        ensures
            ({
                let v = if turned {
                    -self.units()
                } else {
                    self.units()
                };
                crate::single::size(v / (crate::single::unit() as int)) == (if (self.negative()
                    != turned) && a.fraction {
                    a.whole + 1
                } else {
                    a.whole as int
                })
            }),
    {
        let u: int = crate::single::unit() as int;
        lemma_pow2_pos(149);
        let n: int = crate::single::size(self.units()) as int;
        let w: int = a.whole as int;
        let rest: int = n - w * u;
        let v: int = if turned {
            -self.units()
        } else {
            self.units()
        };
        assert(crate::single::step(self.magnitude()) >= 0);
        if self.negative() != turned {
            assert(v == -n);
            if rest == 0 {
                assert(v == (-w) * u) by (nonlinear_arith)
                    requires
                        v == -n,
                        n == w * u,
                ;
                lemma_divided(v, u, -w, 0);
            } else {
                assert(v == (-w - 1) * u + (u - rest)) by (nonlinear_arith)
                    requires
                        v == -n,
                        rest == n - w * u,
                ;
                lemma_divided(v, u, -w - 1, u - rest);
            }
        } else {
            assert(v == n);
            lemma_divided(v, u, w, rest);
        }
    }

    /// The whole part of the magnitude, at most `u64::MAX`.
    fn whole_magnitude(self) -> (n: u64)
        requires
            !self.nan(),
        ensures
            ({
                let part = crate::single::size(self.units()) / crate::single::unit();
                n == (if part <= u64::MAX {
                    part
                } else {
                    u64::MAX as nat
                })
            }),
    {
        let p = self.parts();
        let ghost u: nat = crate::single::unit();
        proof {
            lemma2_to64();
            lemma2_to64_rest();
            lemma_pow2_pos(149);
        }
        if p.1 < 149 {
            let a = take_apart(p.0, p.1);
            proof {
                let n: int = crate::single::size(self.units()) as int;
                lemma_divided(n, u as int, a.whole as int, n - a.whole * u);
            }
            a.whole
        } else {
            let k: i32 = p.1 - 149;
            let ghost n: int = crate::single::size(self.units()) as int;
            proof {
                let h: int = pow2(k as nat) as int;
                lemma_pow2_adds(k as nat, 149);
                assert(n == (p.0 * h) * u) by (nonlinear_arith)
                    requires
                        n == p.0 * (h * u),
                ;
                lemma_divided(n, u as int, p.0 * h, 0);
            }
            if k >= 41 {
                proof {
                    let h: int = pow2(k as nat) as int;
                    if k > 41 {
                        lemma_pow2_strictly_increases(41, k as nat);
                    }
                    assert(p.0 * h >= 0x80_0000 * 0x200_0000_0000) by (nonlinear_arith)
                        requires
                            p.0 >= 0x80_0000,
                            h >= 0x200_0000_0000,
                    ;
                }
                u64::MAX
            } else {
                proof {
                    let h: int = pow2(k as nat) as int;
                    lemma_pow2_pos(k as nat);
                    if k < 40 {
                        lemma_pow2_strictly_increases(k as nat, 40);
                    }
                    assert(0 <= p.0 * h <= 0xff_ffff * 0x100_0000_0000) by (nonlinear_arith)
                        requires
                            0 <= p.0 <= 0xff_ffff,
                            0 <= h <= 0x100_0000_0000,
                    ;
                    vstd::bits::lemma_u64_shl_is_mul(p.0, k as u64);
                }
                p.0 << (k as u64)
            }
        }
    }

    /// The whole part, moved into the range of `u64`.
    pub fn to_u64(self) -> (n: u64)
        ensures
            n == self.to_whole(0, u64::MAX as int),
    {
        proof {
            reveal(Single::to_whole);
        }
        proof {
            lemma_pow2_pos(149);
            lemma_div_pos_is_pos(
                crate::single::size(self.units()) as int,
                crate::single::unit() as int,
            );
        }
        if self.is_nan() || self.is_negative() {
            0
        } else {
            self.whole_magnitude()
        }
    }

    /// The whole part, moved into the range of `u32`.
    pub fn to_u32(self) -> (n: u32)
        ensures
            n == self.to_whole(0, u32::MAX as int),
    {
        proof {
            reveal(Single::to_whole);
        }
        let n: u64 = self.to_u64();
        if n > 0xffff_ffff {
            0xffff_ffff
        } else {
            n as u32
        }
    }

    /// The whole part, moved into the range of `i32`.
    pub fn to_i32(self) -> (n: i32)
        ensures
            n == self.to_whole(i32::MIN as int, i32::MAX as int),
    {
        proof {
            reveal(Single::to_whole);
        }
        if self.is_nan() {
            return 0;
        }
        let n: u64 = self.whole_magnitude();
        if self.is_negative() {
            if n > 0x8000_0000 {
                i32::MIN
            } else {
                (-(n as i64)) as i32
            }
        } else if n > 0x7fff_ffff {
            i32::MAX
        } else {
            n as i32
        }
    }
}

} // verus!
