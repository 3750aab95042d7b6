//! Rounding of exact intermediate results to a binary32 magnitude.
use vstd::prelude::*;
use vstd::arithmetic::power2::*;
use vstd::arithmetic::mul::*;
use vstd::arithmetic::div_mod::*;

verus! {

/// The number of binary digits of `x`.
pub(crate) fn bit_length(x: u64) -> (n: u32)
    requires
        x > 0,
    ensures
        1 <= n <= 64,
        pow2((n - 1) as nat) <= x < pow2(n as nat),
{
    let mut y: u64 = x;
    let mut n: u32 = 1;
    proof {
        lemma2_to64();
        assert(pow2((n - 1) as nat) == 1);
        assert(y * 1 == y && (y + 1) * 1 == y + 1);
    }
    while y > 1
        invariant
            1 <= n,
            y >= 1,
            y * pow2((n - 1) as nat) <= x < (y + 1) * pow2((n - 1) as nat),
            pow2((n - 1) as nat) <= x,
            n <= 64,
        decreases y,
    {
        proof {
            lemma2_to64();
            lemma2_to64_rest();
            lemma_pow2_unfold(n as nat);
            let p: int = pow2((n - 1) as nat) as int;
            let h: int = (y / 2) as int;
            assert(h * (2 * p) <= y * p && (y + 1) * p <= (h + 1) * (2 * p)) by (nonlinear_arith)
                requires
                    h == y as int / 2,
                    p >= 0,
            ;
            assert(h * (2 * p) >= 2 * p) by (nonlinear_arith)
                requires
                    h >= 1,
                    p >= 0,
            ;
            if n == 64 {
                assert(pow2(64) == 2 * pow2(63)) by {
                    lemma_pow2_unfold(64);
                }
                assert(false);
            }
        }
        y = y / 2;
        n = n + 1;
    }
    proof {
        lemma_pow2_unfold(n as nat);
    }
    n
}

/// `2^exp` for a positive exponent, one otherwise.
pub open spec fn scale_up(exp: int) -> nat {
    pow2((if exp > 0 { exp } else { 0 }) as nat)
}

/// `2^-exp` for a negative exponent, one otherwise.
pub open spec fn scale_down(exp: int) -> nat {
    pow2((if exp < 0 { -exp } else { 0 }) as nat)
}

/// Where `num / den` lies against the midpoint `(2 * floor + 1) / 2 * unit`, given that
/// it lies in `[sig, sig + 1)` times `2^exp` and `sig` is `floor * t + rem`.
proof fn lemma_halfway(
    num: nat,
    den: nat,
    sig: nat,
    up: nat,
    down: nat,
    floor: nat,
    unit: nat,
    t: nat,
    rem: nat,
)
    requires
        den > 0,
        up > 0,
        down > 0,
        t > 0,
        sig * up * den <= num * down < (sig + 1) * up * den,
        unit * down == t * up,
        sig == floor * t + rem,
        rem < t,
    ensures
        floor * unit * den <= num < (floor + 1) * unit * den,
        2 * rem + 2 <= t ==> 2 * num < (2 * floor + 1) * unit * den,
        2 * rem > t ==> 2 * num > (2 * floor + 1) * unit * den,
        2 * rem == t && num * down == sig * up * den ==> 2 * num == (2 * floor + 1) * unit * den,
        2 * rem == t && num * down != sig * up * den ==> 2 * num > (2 * floor + 1) * unit * den,
{
    let d: int = (up * den) as int;
    let x: int = (num * down) as int;
    assert(d > 0) by (nonlinear_arith)
        requires
            d == up * den,
            up > 0,
            den > 0,
    ;
    assert(sig * up * den == sig * d && (sig + 1) * up * den == (sig + 1) * d) by (nonlinear_arith)
        requires
            d == up * den,
    ;
    let e: int = (unit * den) as int;
    assert(e * down == t * d) by (nonlinear_arith)
        requires
            e == unit * den,
            unit * down == t * up,
            d == up * den,
    ;
    assert(floor * unit * den == floor * e && (floor + 1) * unit * den == (floor + 1) * e && (2
        * floor + 1) * unit * den == (2 * floor + 1) * e) by (nonlinear_arith)
        requires
            e == unit * den,
    ;
    let f: int = floor as int;
    let td: int = t * d;
    assert(f * e * down == f * td && (f + 1) * e * down == (f + 1) * td && (2 * f + 1) * e * down
        == (2 * f + 1) * td) by (nonlinear_arith)
        requires
            e * down == td,
    ;
    assert(sig * d == f * td + rem * d) by (nonlinear_arith)
        requires
            sig == f * t + rem,
            td == t * d,
    ;
    assert((sig + 1) * d == sig * d + d) by (nonlinear_arith);
    assert((f + 1) * td == f * td + td && (2 * f + 1) * td == 2 * (f * td) + td) by (nonlinear_arith);
    assert(0 <= rem * d && (rem + 1) * d <= t * d) by (nonlinear_arith)
        requires
            0 <= rem < t,
            d > 0,
    ;
    assert((rem + 1) * d == rem * d + d) by (nonlinear_arith);
    assert(2 * rem + 2 <= t ==> 2 * (rem * d) + 2 * d <= td) by (nonlinear_arith)
        requires
            td == t * d,
            d > 0,
    ;
    assert(2 * rem > t ==> 2 * (rem * d) > td) by (nonlinear_arith)
        requires
            td == t * d,
            d > 0,
    ;
    assert(2 * rem == t ==> 2 * (rem * d) == td) by (nonlinear_arith)
        requires
            td == t * d,
    ;
    let a: int = f * e;
    let b: int = (f + 1) * e;
    let c: int = (2 * f + 1) * e;
    assert(a * down <= x < b * down);
    assert(a <= num < b) by (nonlinear_arith)
        requires
            a * down <= x < b * down,
            x == num * down,
            down > 0,
    ;
    assert(2 * x < c * down ==> 2 * num < c) by (nonlinear_arith)
        requires
            x == num * down,
            down > 0,
    ;
    assert(2 * x > c * down ==> 2 * num > c) by (nonlinear_arith)
        requires
            x == num * down,
            down > 0,
    ;
    assert(2 * x == c * down ==> 2 * num == c) by (nonlinear_arith)
        requires
            x == num * down,
            down > 0,
    ;
}

/// The magnitude `floor` or `floor + 1` steps of `2^q`, whichever the midpoint decides.
proof fn lemma_pick(num: nat, den: nat, floor: nat, q: nat, above: bool)
    requires
        den > 0,
        q <= 253,
        q == 0 && floor < 0x100_0000 || 0x80_0000 <= floor < 0x100_0000,
        floor * pow2(q) * den <= num < (floor + 1) * pow2(q) * den,
        above ==> {
            ||| 2 * num > (2 * floor + 1) * pow2(q) * den
            ||| 2 * num == (2 * floor + 1) * pow2(q) * den && floor % 2 == 1
        },
        !above ==> {
            ||| 2 * num < (2 * floor + 1) * pow2(q) * den
            ||| 2 * num == (2 * floor + 1) * pow2(q) * den && floor % 2 == 0
        },
    ensures
        crate::single::is_nearest(
            (floor + q * 0x80_0000 + (if above { 1nat } else { 0nat })) as nat,
            num,
            den,
        ),
{
    let m: nat = floor + q * 0x80_0000;
    let u: nat = pow2(q);
    crate::single::lemma_step_scaled(floor, q);
    crate::single::lemma_step_scaled(floor + 1, q);
    assert(m + 1 == (floor + 1) + q * 0x80_0000);
    let s0: int = crate::single::step(m) as int;
    let s1: int = crate::single::step(m + 1) as int;
    assert(s0 == floor * u && s1 == (floor + 1) * u);
    assert((s0 + s1) * den == (2 * floor + 1) * u * den) by (nonlinear_arith)
        requires
            s0 == floor * u,
            s1 == (floor + 1) * u,
    ;
    assert(m % 2 == floor % 2) by (nonlinear_arith)
        requires
            m == floor + q * 0x80_0000,
    ;
    assert(m < 0x7f80_0000) by (nonlinear_arith)
        requires
            m == floor + q * 0x80_0000,
            q <= 253,
            floor < 0x100_0000,
    ;
    if above {
        crate::single::lemma_step_next(m + 1);
        let s2: int = crate::single::step(m + 2) as int;
        assert(m + 1 + 1 == m + 2);
        assert(2 * num < (s1 + s2) * den) by (nonlinear_arith)
            requires
                num < s1 * den,
                s1 < s2,
                den > 0,
        ;
    } else if m > 0 {
        crate::single::lemma_step_next((m - 1) as nat);
        let sp: int = crate::single::step((m - 1) as nat) as int;
        assert(2 * num > (sp + s0) * den) by (nonlinear_arith)
            requires
                num >= s0 * den,
                sp < s0,
                den > 0,
        ;
    }
}

/// A quotient of at least `2^128` rounds to infinity.
proof fn lemma_overflow(num: nat, den: nat, floor: nat, q: nat)
    requires
        den > 0,
        q >= 254,
        0x80_0000 <= floor,
        floor * pow2(q) * den <= num,
    ensures
        crate::single::is_nearest(0x7f80_0000, num, den),
{
    lemma2_to64();
    crate::single::lemma_step_scaled(0x80_0000, 254);
    assert(0x80_0000 + 254 * 0x80_0000 == 0x7f80_0000);
    crate::single::lemma_step_next(0x7f7f_ffff);
    if q > 254 {
        lemma_pow2_strictly_increases(254, q);
    }
    let s0: int = crate::single::step(0x7f80_0000) as int;
    let sp: int = crate::single::step(0x7f7f_ffff) as int;
    let p: int = pow2(q) as int;
    let p0: int = pow2(254) as int;
    assert(s0 <= floor * p) by (nonlinear_arith)
        requires
            s0 == 0x80_0000 * p0,
            0x80_0000 <= floor,
            0 <= p0 <= p,
    ;
    assert(2 * num > (sp + s0) * den) by (nonlinear_arith)
        requires
            num >= floor * p * den,
            s0 <= floor * p,
            sp < s0,
            den > 0,
    ;
}

/// A significand cut to the twenty-four bits that binary32 keeps.
pub(crate) struct Kept {
    /// The kept bits.
    pub floor: u64,
    /// The exponent of their unit.
    pub q: i32,
    /// Whether the part cut off rounds up.
    pub above: bool,
}

/// `kept` is `sig * 2^exp` cut at the unit `2^q`: either nothing is cut off, or the
/// part cut off is compared with half a unit, ties to even.
pub(crate) open spec fn cut(kept: Kept, sig: int, exp: int, sticky: bool) -> bool {
    let shift: int = kept.q - exp;
    let t: int = pow2(shift as nat) as int;
    &&& kept.q >= 0
    &&& kept.q == 0 && kept.floor < 0x100_0000 || 0x80_0000 <= kept.floor < 0x100_0000
    &&& shift <= 0 ==> exp >= 0 && !sticky && kept.floor == sig * pow2((-shift) as nat)
        && !kept.above
    &&& shift > 0 ==> {
        let rem: int = sig - kept.floor * t;
        &&& 0 <= rem < t
        &&& kept.above == (2 * rem > t || 2 * rem == t && (sticky || kept.floor % 2 == 1))
    }
}

/// Cuts a significand to twenty-four bits.
pub(crate) fn cut_parts(sig: u64, exp: i32, sticky: bool) -> (kept: Kept)
    requires
        sig > 0,
        -1000 <= exp <= 1000,
        sticky ==> sig >= 0x200_0000 || exp < 0,
    ensures
        cut(kept, sig as int, exp as int, sticky),
        kept.q <= 1040,
{
    proof {
        lemma2_to64();
        lemma2_to64_rest();
    }
    let len: i32 = bit_length(sig) as i32;
    let q: i32 = if exp + len > 24 { exp + len - 24 } else { 0 };
    let shift: i32 = q - exp;
    if shift <= 0 {
        // The significand has at most twenty-four bits and is exact.
        proof {
            if sticky {
                if len < 26 {
                    lemma_pow2_strictly_increases(len as nat, 26);
                }
            }
            assert(len <= 24);
            lemma_pow2_adds(len as nat, (-shift) as nat);
            let k: nat = (-shift) as nat;
            lemma_pow2_pos(k);
            assert(sig * pow2(k) < pow2(len as nat) * pow2(k)) by (nonlinear_arith)
                requires
                    sig < pow2(len as nat),
                    pow2(k) > 0,
            ;
            if (len as nat + k) < 24 {
                lemma_pow2_strictly_increases(len as nat + k, 24);
            }
            assert(sig * pow2(k) < 0x100_0000);
            vstd::bits::lemma_u64_shl_is_mul(sig, k as u64);
            if q > 0 {
                lemma_pow2_adds((len - 1) as nat, k);
                assert(len - 1 + k == 23);
                assert(sig * pow2(k) >= 0x80_0000) by (nonlinear_arith)
                    requires
                        sig >= pow2((len - 1) as nat),
                        pow2((len - 1) as nat) * pow2(k) == 0x80_0000,
                        pow2(k) > 0,
                ;
            }
        }
        let floor: u64 = sig << ((-shift) as u64);
        Kept { floor, q, above: false }
    } else if shift >= 65 {
        // Less than half a unit.
        proof {
            lemma_pow2_unfold(65);
            lemma_pow2_unfold(64);
            if shift > 65 {
                lemma_pow2_strictly_increases(65, shift as nat);
            }
        }
        Kept { floor: 0, q, above: false }
    } else if shift == 64 {
        proof {
            lemma_pow2_unfold(64);
        }
        Kept {
            floor: 0,
            q,
            above: sig > 0x8000_0000_0000_0000 || (sig == 0x8000_0000_0000_0000 && sticky),
        }
    } else {
        let ghost t: nat = pow2(shift as nat);
        proof {
            lemma_pow2_unfold(shift as nat);
            lemma_pow2_pos((shift - 1) as nat);
            vstd::bits::lemma_u64_shr_is_div(sig, shift as u64);
            lemma_fundamental_div_mod(sig as int, t as int);
            lemma_mod_bound(sig as int, t as int);
            assert(t <= 0x8000_0000_0000_0000) by {
                if shift < 63 {
                    lemma_pow2_strictly_increases(shift as nat, 63);
                }
            }
            assert(1 * t <= u64::MAX);
            vstd::bits::lemma_u64_shl_is_mul(1, shift as u64);
        }
        let block: u64 = 1u64 << (shift as u64);
        let floor: u64 = sig >> (shift as u64);
        let rem: u64 = sig % block;
        let half: u64 = block / 2;
        proof {
            assert(block == t);
            assert(floor == sig as int / t as int);
            assert(sig == floor * t + rem) by (nonlinear_arith)
                requires
                    sig == t * (sig as int / t as int) + rem,
                    floor == sig as int / t as int,
            ;
            assert(2 * half == t);
            lemma_pow2_adds(24, shift as nat);
            if q > 0 {
                assert(shift == len - 24);
                lemma_pow2_adds(23, shift as nat);
                assert(0x80_0000 <= floor < 0x100_0000) by (nonlinear_arith)
                    requires
                        sig == floor * t + rem,
                        0 <= rem < t,
                        0x80_0000 * t <= sig < 0x100_0000 * t,
                ;
            } else {
                if len < 24 + shift {
                    lemma_pow2_strictly_increases(len as nat, (24 + shift) as nat);
                }
                assert(floor < 0x100_0000) by (nonlinear_arith)
                    requires
                        sig == floor * t + rem,
                        0 <= rem < t,
                        sig < 0x100_0000 * t,
                ;
            }
        }
        Kept { floor, q, above: rem > half || (rem == half && (sticky || floor % 2 == 1)) }
    }
}

/// The magnitude of a cut significand.
pub(crate) fn pack(kept: &Kept) -> (m: u32)
    requires
        kept.q >= 0,
        kept.floor < 0x100_0000,
    ensures
        kept.q >= 254 ==> m == 0x7f80_0000,
        kept.q < 254 ==> m == kept.floor + kept.q * 0x80_0000 + (if kept.above {
            1int
        } else {
            0int
        }),
        m <= 0x7f80_0000,
{
    if kept.q >= 254 {
        0x7f80_0000
    } else {
        let base: u32 = kept.floor as u32 + (kept.q as u32) * 0x80_0000;
        if kept.above {
            base + 1
        } else {
            base
        }
    }
}

/// The units of a cut: `2^q * scale_down` is `2^shift * scale_up`.
pub(crate) proof fn lemma_unit(q: int, exp: int)
    requires
        q >= 0,
        q > exp,
    ensures
        pow2(q as nat) * scale_down(exp) == pow2((q - exp) as nat) * scale_up(exp),
        scale_down(exp) > 0,
        scale_up(exp) > 0,
{
    lemma2_to64();
    if exp >= 0 {
        lemma_pow2_pos(exp as nat);
        lemma_pow2_adds(exp as nat, (q - exp) as nat);
        assert(pow2(exp as nat) * pow2((q - exp) as nat) == pow2((q - exp) as nat) * pow2(
            exp as nat,
        )) by (nonlinear_arith);
        assert(scale_down(exp) == 1);
        assert(scale_up(exp) == pow2(exp as nat));
        assert(q as nat == exp as nat + (q - exp) as nat);
        assert(pow2(q as nat) * 1 == pow2(q as nat));
    } else {
        lemma_pow2_pos((-exp) as nat);
        lemma_pow2_adds(q as nat, (-exp) as nat);
        assert(scale_up(exp) == 1);
        assert(scale_down(exp) == pow2((-exp) as nat));
        assert((q - exp) as nat == q as nat + (-exp) as nat);
        assert(pow2((q - exp) as nat) * 1 == pow2((q - exp) as nat));
    }
}

/// The magnitude nearest to `num / den` units, which lie in `[sig, sig + 1)` times
/// `2^exp`; `sticky` says whether they exceed `sig` times `2^exp`.
pub(crate) fn round_parts(
    sig: u64,
    exp: i32,
    sticky: bool,
    Ghost(num): Ghost<nat>,
    Ghost(den): Ghost<nat>,
) -> (m: u32)
    requires
        sig > 0,
        -1000 <= exp <= 1000,
        den > 0,
        sticky ==> sig >= 0x200_0000 || exp < 0,
        sig * scale_up(exp as int) * den <= num * scale_down(exp as int),
        num * scale_down(exp as int) < (sig + 1) * scale_up(exp as int) * den,
        sticky == (num * scale_down(exp as int) != sig * scale_up(exp as int) * den),
    ensures
        crate::single::is_nearest(m as nat, num, den),
        crate::single::nearest(num, den) == m,
        m <= 0x7f80_0000,
{
    let kept = cut_parts(sig, exp, sticky);
    let m: u32 = pack(&kept);
    proof {
        let q: int = kept.q as int;
        let shift: int = q - exp;
        let floor: nat = kept.floor as nat;
        let unit: nat = pow2(q as nat);
        lemma_pow2_pos(q as nat);
        if shift <= 0 {
            lemma2_to64();
            let k: nat = (-shift) as nat;
            lemma_pow2_adds(k, q as nat);
            assert(floor * unit * den == num) by (nonlinear_arith)
                requires
                    floor == sig * pow2(k),
                    scale_up(exp as int) == pow2(k) * unit,
                    num * 1 == sig * scale_up(exp as int) * den,
            ;
            lemma_exact(num, den, floor, unit);
        } else {
            lemma_unit(q, exp as int);
            let t: nat = pow2(shift as nat);
            lemma_pow2_pos(shift as nat);
            lemma_pow2_unfold(shift as nat);
            let rem: nat = (sig - floor * t) as nat;
            lemma_halfway(
                num,
                den,
                sig as nat,
                scale_up(exp as int),
                scale_down(exp as int),
                floor,
                unit,
                t,
                rem,
            );
        }
        if q >= 254 {
            lemma_overflow(num, den, floor, q as nat);
        } else {
            lemma_pick(num, den, floor, q as nat, kept.above);
        }
        crate::single::lemma_nearest_is(m as nat, num, den);
    }
    m
}

/// An exact multiple of the unit lies below the midpoint above it.
proof fn lemma_exact(num: nat, den: nat, floor: nat, unit: nat)
    requires
        den > 0,
        unit > 0,
        num == floor * unit * den,
    ensures
        floor * unit * den <= num < (floor + 1) * unit * den,
        2 * num < (2 * floor + 1) * unit * den,
{
    assert(unit * den > 0) by (nonlinear_arith)
        requires
            den > 0,
            unit > 0,
    ;
    assert((floor + 1) * unit * den == floor * unit * den + unit * den && (2 * floor + 1) * unit
        * den == 2 * (floor * unit * den) + unit * den) by (nonlinear_arith);
}

} // verus!
