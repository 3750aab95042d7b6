//! The hypotenuse of two numbers, correctly rounded.
use crate::rounding::{cut_parts, pack};
use crate::single::Single;
use vstd::prelude::*;
use vstd::arithmetic::power2::*;
use vstd::arithmetic::mul::*;

verus! {

proof fn lemma_square_le(a: int, b: int)
    requires
        0 <= a <= b,
    ensures
        a * a <= b * b,
{
    assert(a * a <= b * b) by (nonlinear_arith)
        requires
            0 <= a <= b,
    ;
}

proof fn lemma_square_lt(a: int, b: int)
    requires
        0 <= a < b,
    ensures
        a * a < b * b,
{
    assert(a * a < b * b) by (nonlinear_arith)
        requires
            0 <= a < b,
    ;
}

/// At most one magnitude is nearest to a root.
pub proof fn lemma_nearest_root_is(m: nat, n: nat)
    requires
        crate::single::is_nearest_root(m, n),
    ensures
        crate::single::nearest_root(n) == m,
{
    let k: nat = crate::single::nearest_root(n);
    assert(crate::single::is_nearest_root(k, n));
    lemma_roots_apart(m, k, n);
    lemma_roots_apart(k, m, n);
}

/// Some magnitude from `m` on is nearest, if the root is not below the midpoint before it.
proof fn lemma_nearest_root_from(m: nat, n: nat) -> (r: nat)
    requires
        m <= 0x7f80_0000,
        m > 0 ==> ({
            let twice = crate::single::step((m - 1) as nat) + crate::single::step(m);
            4 * n >= twice * twice
        }),
    ensures
        crate::single::is_nearest_root(r, n),
    decreases 0x7f80_0000 - m,
{
    let here: nat = crate::single::step(m) + crate::single::step(m + 1);
    if m < 0x7f80_0000 && 4 * n >= here * here {
        lemma_nearest_root_from(m + 1, n)
    } else if m > 0 {
        let k: nat = (m - 1) as nat;
        let before: nat = crate::single::step(k) + crate::single::step(m);
        if 4 * n == before * before && m % 2 == 1 {
            if k > 0 {
                let first: nat = crate::single::step((k - 1) as nat) + crate::single::step(k);
                crate::single::lemma_step_next((k - 1) as nat);
                crate::single::lemma_step_next(k);
                lemma_square_lt(first as int, before as int);
            }
            k
        } else {
            m
        }
    } else {
        m
    }
}

/// Every root rounds to a magnitude.
pub proof fn lemma_nearest_root(n: nat)
    ensures
        crate::single::is_nearest_root(crate::single::nearest_root(n), n),
{
    let r: nat = lemma_nearest_root_from(0, n);
    assert(crate::single::is_nearest_root(r, n));
}

proof fn lemma_roots_apart(m1: nat, m2: nat, n: nat)
    requires
        crate::single::is_nearest_root(m1, n),
        crate::single::is_nearest_root(m2, n),
    ensures
        m1 <= m2,
{
    if m1 > m2 {
        let low: int = (crate::single::step(m2) + crate::single::step(m2 + 1)) as int;
        let high: int = (crate::single::step((m1 - 1) as nat) + crate::single::step(m1)) as int;
        if m2 + 1 < m1 {
            crate::single::lemma_step_increases(m2 + 1, m1);
            if m2 < m1 - 1 {
                crate::single::lemma_step_increases(m2, (m1 - 1) as nat);
            }
            lemma_square_lt(low, high);
        } else {
            assert(low == high);
        }
        assert(4 * n <= low * low);
        assert(4 * n >= high * high);
        assert(false);
    }
}

/// The largest integer whose square does not exceed `x`.
fn integer_root(x: u128) -> (r: u64)
    ensures
        r * r <= x,
        x < (r + 1) * (r + 1),
{
    let mut r: u64 = 0;
    let mut i: u32 = 64;
    proof {
        lemma2_to64_rest();
        assert(pow2(64) == 0x1_0000_0000_0000_0000) by {
            lemma_pow2_unfold(64);
        }
        assert((0 + pow2(64)) * (0 + pow2(64)) == 0x1_0000_0000_0000_0000
            * 0x1_0000_0000_0000_0000);
        assert(x < (0 + pow2(64)) * (0 + pow2(64))) by (nonlinear_arith)
            requires
                x <= u128::MAX,
                pow2(64) == 0x1_0000_0000_0000_0000,
        ;
    }
    while i > 0
        invariant
            i <= 64,
            r * r <= x,
            x < (r + pow2(i as nat)) * (r + pow2(i as nat)),
            r + pow2(i as nat) <= 0x1_0000_0000_0000_0000,
        decreases i,
    {
        proof {
            lemma2_to64();
            lemma2_to64_rest();
            lemma_pow2_unfold(i as nat);
            lemma_pow2_pos((i - 1) as nat);
            if i < 64 {
                lemma_pow2_strictly_increases((i - 1) as nat, 63);
            }
            assert(1 * pow2((i - 1) as nat) <= u64::MAX);
            vstd::bits::lemma_u64_shl_is_mul(1, (i - 1) as u64);
        }
        i = i - 1;
        let bit: u64 = 1u64 << (i as u64);
        let t: u64 = r + bit;
        proof {
            assert(bit == pow2(i as nat));
            assert(0 <= t * t <= 0xffff_ffff_ffff_ffff * 0xffff_ffff_ffff_ffff) by (nonlinear_arith)
                requires
                    0 <= t <= 0xffff_ffff_ffff_ffff,
            ;
            assert(r + 2 * bit == t + bit);
        }
        if (t as u128) * (t as u128) <= x {
            r = t;
        }
    }
    proof {
        lemma2_to64();
    }
    r
}

/// Where a root lies against the midpoint `(2 * floor + 1) / 2 * unit`.
proof fn lemma_halfway_root(
    n: int,
    sig: int,
    up: int,
    down: int,
    floor: int,
    unit: int,
    t: int,
    rem: int,
)
    requires
        n >= 0,
        sig >= 0,
        floor >= 0,
        up > 0,
        down > 0,
        t > 0,
        unit > 0,
        (sig * up) * (sig * up) <= n * (down * down) < ((sig + 1) * up) * ((sig + 1) * up),
        unit * down == t * up,
        sig == floor * t + rem,
        0 <= rem < t,
    ensures
        (floor * unit) * (floor * unit) <= n < ((floor + 1) * unit) * ((floor + 1) * unit),
        2 * rem + 2 <= t ==> 4 * n < ((2 * floor + 1) * unit) * ((2 * floor + 1) * unit),
        2 * rem > t ==> 4 * n > ((2 * floor + 1) * unit) * ((2 * floor + 1) * unit),
        2 * rem == t && n * (down * down) == (sig * up) * (sig * up) ==> 4 * n == ((2 * floor + 1)
            * unit) * ((2 * floor + 1) * unit),
        2 * rem == t && n * (down * down) != (sig * up) * (sig * up) ==> 4 * n > ((2 * floor + 1)
            * unit) * ((2 * floor + 1) * unit),
{
    let dd: int = down * down;
    assert(dd > 0) by (nonlinear_arith)
        requires
            dd == down * down,
            down > 0,
    ;
    let x: int = n * dd;
    let s0: int = sig * up;
    let s1: int = (sig + 1) * up;
    assert(s1 == s0 + up && s0 >= 0) by (nonlinear_arith)
        requires
            s0 == sig * up,
            s1 == (sig + 1) * up,
            sig >= 0,
            up > 0,
    ;
    let a: int = floor * unit;
    let b: int = (floor + 1) * unit;
    let c: int = (2 * floor + 1) * unit;
    assert(a >= 0 && b >= 0 && c >= 0) by (nonlinear_arith)
        requires
            a == floor * unit,
            b == (floor + 1) * unit,
            c == (2 * floor + 1) * unit,
            floor >= 0,
            unit > 0,
    ;
    // the same numbers on the scale of the significand
    let ad: int = a * down;
    let bd: int = b * down;
    let cd: int = c * down;
    assert(ad == floor * t * up && bd == (floor + 1) * t * up && cd == (2 * floor + 1) * t * up)
        by (nonlinear_arith)
        requires
            ad == a * down,
            bd == b * down,
            cd == c * down,
            a == floor * unit,
            b == (floor + 1) * unit,
            c == (2 * floor + 1) * unit,
            unit * down == t * up,
    ;
    assert(ad * ad == (a * a) * dd && bd * bd == (b * b) * dd && cd * cd == (c * c) * dd)
        by (nonlinear_arith)
        requires
            ad == a * down,
            bd == b * down,
            cd == c * down,
            dd == down * down,
    ;
    assert(0 <= ad && ad <= s0 && s1 <= bd && 0 <= cd) by (nonlinear_arith)
        requires
            ad == floor * t * up,
            bd == (floor + 1) * t * up,
            cd == (2 * floor + 1) * t * up,
            s0 == sig * up,
            s1 == (sig + 1) * up,
            sig == floor * t + rem,
            0 <= rem < t,
            floor >= 0,
            t > 0,
            up > 0,
    ;
    lemma_square_le(ad, s0);
    lemma_square_le(s1, bd);
    assert((a * a) * dd <= x < (b * b) * dd);
    assert(a * a <= n) by (nonlinear_arith)
        requires
            (a * a) * dd <= n * dd,
            dd > 0,
    ;
    assert(n < b * b) by (nonlinear_arith)
        requires
            n * dd < (b * b) * dd,
            dd > 0,
    ;
    let s2: int = 2 * s0;
    let s3: int = 2 * s1;
    assert(s2 * s2 == 4 * (s0 * s0) && s3 * s3 == 4 * (s1 * s1)) by (nonlinear_arith)
        requires
            s2 == 2 * s0,
            s3 == 2 * s1,
    ;
    let cc: int = c * c;
    assert(2 * rem + 2 <= t ==> s3 <= cd) by (nonlinear_arith)
        requires
            cd == (2 * floor + 1) * t * up,
            s3 == 2 * ((sig + 1) * up),
            sig == floor * t + rem,
            up > 0,
    ;
    assert(2 * rem > t ==> s2 > cd) by (nonlinear_arith)
        requires
            cd == (2 * floor + 1) * t * up,
            s2 == 2 * (sig * up),
            sig == floor * t + rem,
            up > 0,
    ;
    assert(2 * rem == t ==> s2 == cd) by (nonlinear_arith)
        requires
            cd == (2 * floor + 1) * t * up,
            s2 == 2 * (sig * up),
            sig == floor * t + rem,
    ;
    if 2 * rem + 2 <= t {
        lemma_square_le(s3, cd);
        assert(4 * n < cc) by (nonlinear_arith)
            requires
                4 * (n * dd) < cc * dd,
                dd > 0,
        ;
    }
    if 2 * rem > t {
        lemma_square_lt(cd, s2);
        assert(4 * n > cc) by (nonlinear_arith)
            requires
                4 * (n * dd) > cc * dd,
                dd > 0,
        ;
    }
    if 2 * rem == t {
        if x == s0 * s0 {
            assert(4 * n == cc) by (nonlinear_arith)
                requires
                    4 * (n * dd) == cc * dd,
                    dd > 0,
            ;
        } else {
            assert(4 * n > cc) by (nonlinear_arith)
                requires
                    4 * (n * dd) > cc * dd,
                    dd > 0,
            ;
        }
    }
}

/// The magnitude `floor` or `floor + 1` steps of `2^q`, as the midpoint decides.
proof fn lemma_pick_root(n: nat, floor: nat, q: nat, above: bool)
    requires
        q <= 253,
        q == 0 && floor < 0x100_0000 || 0x80_0000 <= floor < 0x100_0000,
        (floor * pow2(q)) * (floor * pow2(q)) <= n,
        n < ((floor + 1) * pow2(q)) * ((floor + 1) * pow2(q)),
        above ==> {
            let c = (2 * floor + 1) * pow2(q);
            4 * n > c * c || 4 * n == c * c && floor % 2 == 1
        },
        !above ==> {
            let c = (2 * floor + 1) * pow2(q);
            4 * n < c * c || 4 * n == c * c && floor % 2 == 0
        },
    ensures
        crate::single::is_nearest_root(
            (floor + q * 0x80_0000 + (if above { 1nat } else { 0nat })) as nat,
            n,
        ),
{
    let m: nat = floor + q * 0x80_0000;
    let u: nat = pow2(q);
    crate::single::lemma_step_scaled(floor, q);
    crate::single::lemma_step_scaled(floor + 1, q);
    assert(m + 1 == (floor + 1) + q * 0x80_0000);
    let s0: int = crate::single::step(m) as int;
    let s1: int = crate::single::step(m + 1) as int;
    assert(s0 + s1 == (2 * floor + 1) * u) by (nonlinear_arith)
        requires
            s0 == floor * u,
            s1 == (floor + 1) * u,
    ;
    assert(m % 2 == floor % 2) by (nonlinear_arith)
        requires
            m == floor + q * 0x80_0000,
    ;
    assert(m < 0x7f80_0000) by (nonlinear_arith)
        requires
            m == floor + q * 0x80_0000,
            q <= 253,
            floor < 0x100_0000,
    ;
    if above {
        crate::single::lemma_step_next(m + 1);
        assert(m + 1 + 1 == m + 2);
        let s2: int = crate::single::step(m + 2) as int;
        lemma_square_lt(2 * s1, s1 + s2);
        assert((2 * s1) * (2 * s1) == 4 * (s1 * s1)) by (nonlinear_arith);
    } else if m > 0 {
        crate::single::lemma_step_next((m - 1) as nat);
        let sp: int = crate::single::step((m - 1) as nat) as int;
        lemma_square_lt(sp + s0, 2 * s0);
        assert((2 * s0) * (2 * s0) == 4 * (s0 * s0)) by (nonlinear_arith);
    }
}

/// A root of at least `2^128` rounds to infinity.
proof fn lemma_overflow_root(n: nat, floor: nat, q: nat)
    requires
        q >= 254,
        0x80_0000 <= floor,
        (floor * pow2(q)) * (floor * pow2(q)) <= n,
    ensures
        crate::single::is_nearest_root(0x7f80_0000, n),
{
    crate::single::lemma_step_scaled(0x80_0000, 254);
    assert(0x80_0000 + 254 * 0x80_0000 == 0x7f80_0000);
    crate::single::lemma_step_next(0x7f7f_ffff);
    if q > 254 {
        lemma_pow2_strictly_increases(254, q);
    }
    let s0: int = crate::single::step(0x7f80_0000) as int;
    let sp: int = crate::single::step(0x7f7f_ffff) as int;
    let p: int = pow2(q) as int;
    let p0: int = pow2(254) as int;
    assert(s0 <= floor * p) by (nonlinear_arith)
        requires
            s0 == 0x80_0000 * p0,
            0x80_0000 <= floor,
            0 <= p0 <= p,
    ;
    lemma_square_le(s0, floor * p);
    lemma_square_lt(sp + s0, 2 * s0);
    assert((2 * s0) * (2 * s0) == 4 * (s0 * s0)) by (nonlinear_arith);
}

/// The magnitude nearest to the root of `n` square units, which lies in
/// `[sig, sig + 1)` times `2^exp`.
fn round_root(sig: u64, exp: i32, sticky: bool, Ghost(n): Ghost<nat>) -> (m: u32)
    requires
        sig >= 0x200_0000,
        -1000 <= exp <= 1000,
        ({
            let up = crate::rounding::scale_up(exp as int) as int;
            let down = crate::rounding::scale_down(exp as int) as int;
            &&& (sig * up) * (sig * up) <= n * (down * down)
            &&& n * (down * down) < ((sig + 1) * up) * ((sig + 1) * up)
            &&& sticky == (n * (down * down) != (sig * up) * (sig * up))
        }),
    ensures
        crate::single::nearest_root(n) == m,
        m <= 0x7f80_0000,
{
    let kept = cut_parts(sig, exp, sticky);
    let m: u32 = pack(&kept);
    proof {
        let q: int = kept.q as int;
        let shift: int = q - exp;
        let floor: int = kept.floor as int;
        let unit: int = pow2(q as nat) as int;
        lemma_pow2_pos(q as nat);
        if shift <= 0 {
            // impossible: the significand has more than twenty-four bits
            lemma2_to64();
            lemma_pow2_pos((-shift) as nat);
            assert(floor >= sig) by (nonlinear_arith)
                requires
                    floor == sig * pow2((-shift) as nat),
                    pow2((-shift) as nat) >= 1,
                    sig >= 0,
            ;
            assert(false);
        }
        crate::rounding::lemma_unit(q, exp as int);
        let t: int = pow2(shift as nat) as int;
        lemma_pow2_pos(shift as nat);
        lemma_pow2_unfold(shift as nat);
        lemma_halfway_root(
            n as int,
            sig as int,
            crate::rounding::scale_up(exp as int) as int,
            crate::rounding::scale_down(exp as int) as int,
            floor,
            unit,
            t,
            sig - floor * t,
        );
        if q >= 254 {
            lemma_overflow_root(n, floor as nat, q as nat);
        } else {
            lemma_pick_root(n, floor as nat, q as nat, kept.above);
        }
        lemma_nearest_root_is(m as nat, n);
    }
    m
}

/// The root of the sum of two squares, the first with the larger exponent.
fn root_parts(pa: (u64, i32), pb: (u64, i32), Ghost(n): Ghost<nat>) -> (m: u32)
    requires
        pa.0 < 0x100_0000,
        pb.0 < 0x100_0000,
        0 <= pb.1 <= pa.1 <= 253,
        pa.1 > 0 ==> pa.0 >= 0x80_0000,
        pa.0 > 0 || pb.0 > 0,
        ({
            let x = pa.0 * pow2(pa.1 as nat);
            let y = pb.0 * pow2(pb.1 as nat);
            n == x * x + y * y
        }),
    ensures
        crate::single::nearest_root(n) == m,
        m <= 0x7f80_0000,
{
    let d: i32 = pa.1 - pb.1;
    let ghost w: int = pow2(pb.1 as nat) as int;
    proof {
        lemma2_to64();
        lemma2_to64_rest();
        lemma_pow2_pos(pb.1 as nat);
        lemma_pow2_adds(d as nat, pb.1 as nat);
    }
    if d <= 13 {
        let ghost h: int = pow2(d as nat) as int;
        proof {
            lemma_pow2_pos(d as nat);
            if d < 13 {
                lemma_pow2_strictly_increases(d as nat, 13);
            }
            assert(0 <= pa.0 * h <= 0xff_ffff * 0x2000) by (nonlinear_arith)
                requires
                    0 <= pa.0 <= 0xff_ffff,
                    0 <= h <= 0x2000,
            ;
            vstd::bits::lemma_u64_shl_is_mul(pa.0, d as u64);
        }
        let x: u64 = pa.0 << (d as u64);
        let y: u64 = pb.0;
        proof {
            assert(0 <= x * x <= 0x1f_ffff_e000 * 0x1f_ffff_e000) by (nonlinear_arith)
                requires
                    0 <= x <= 0x1f_ffff_e000,
            ;
            assert(0 <= y * y <= 0xff_ffff * 0xff_ffff) by (nonlinear_arith)
                requires
                    0 <= y <= 0xff_ffff,
            ;
        }
        let s: u128 = (x as u128) * (x as u128) + (y as u128) * (y as u128);
        let wide: u128 = s * 0x10_0000_0000_0000;
        let sig: u64 = integer_root(wide);
        let sticky: bool = (sig as u128) * (sig as u128) != wide;
        let exp: i32 = pb.1 - 26;
        proof {
            assert(pa.0 >= 1 ==> x >= 1) by (nonlinear_arith)
                requires
                    x == pa.0 * h,
                    h >= 1,
            ;
            assert(s >= 1) by (nonlinear_arith)
                requires
                    s == x * x + y * y,
                    x >= 1 || y >= 1,
                    x >= 0,
                    y >= 0,
            ;
            assert(sig >= 0x200_0000) by (nonlinear_arith)
                requires
                    wide >= 0x10_0000_0000_0000,
                    wide < (sig + 1) * (sig + 1),
                    sig >= 0,
            ;
            let up: int = crate::rounding::scale_up(exp as int) as int;
            let down: int = crate::rounding::scale_down(exp as int) as int;
            assert(n == s * (w * w)) by (nonlinear_arith)
                requires
                    n == (pa.0 * (h * w)) * (pa.0 * (h * w)) + (y * w) * (y * w),
                    x == pa.0 * h,
                    s == x * x + y * y,
            ;
            // up / down is w / 2^26
            if exp >= 0 {
                lemma_pow2_adds(exp as nat, 26);
                assert(w == up * 0x400_0000 && down == 1);
                assert(w * 1 == w);
            } else {
                lemma_pow2_adds(pb.1 as nat, (-exp) as nat);
                assert(0x400_0000 == w * down && up == 1);
                assert(1 * 0x400_0000 == up * 0x400_0000);
            }
            assert(w * down == up * 0x400_0000);
            assert(n * (down * down) == wide * (up * up)) by (nonlinear_arith)
                requires
                    n == s * (w * w),
                    w * down == up * 0x400_0000,
                    wide == s * 0x10_0000_0000_0000,
            ;
            lemma_pow2_pos((if exp > 0 { exp as int } else { 0 }) as nat);
            assert((sig * up) * (sig * up) == (sig * sig) * (up * up) && ((sig + 1) * up) * ((sig
                + 1) * up) == ((sig + 1) * (sig + 1)) * (up * up)) by (nonlinear_arith);
            let uu: int = up * up;
            assert(uu > 0) by (nonlinear_arith)
                requires
                    uu == up * up,
                    up > 0,
            ;
            assert((sig * sig) * uu <= wide * uu && wide * uu < ((sig + 1) * (sig + 1)) * uu && (
            wide * uu == (sig * sig) * uu <==> wide == sig * sig)) by (nonlinear_arith)
                requires
                    sig * sig <= wide,
                    wide < (sig + 1) * (sig + 1),
                    uu > 0,
            ;
        }
        round_root(sig, exp, sticky, Ghost(n))
    } else {
        // The second number adds less than one unit to sixteen times the first.
        let sig: u64 = pa.0 * 16;
        let exp: i32 = pa.1 - 4;
        let sticky: bool = pb.0 != 0;
        proof {
            let p: int = pow2(exp as nat) as int;
            lemma_pow2_pos(exp as nat);
            lemma_pow2_adds(4, exp as nat);
            lemma_pow2_adds(10, pb.1 as nat);
            if d > 14 {
                lemma_pow2_strictly_increases((10 + pb.1) as nat, exp as nat);
            }
            assert(1024 * w <= p);
            assert(crate::rounding::scale_up(exp as int) == p);
            assert(crate::rounding::scale_down(exp as int) == 1);
            let y: int = pb.0 * w;
            let sp: int = sig * p;
            assert(pa.0 * (16 * p) == sp) by (nonlinear_arith)
                requires
                    sp == sig * p,
                    sig == pa.0 * 16,
            ;
            assert(pow2(pa.1 as nat) == 16 * p);
            assert(n == sp * sp + y * y);
            assert(0 <= y * y && (y * y == 0 <==> pb.0 == 0)) by (nonlinear_arith)
                requires
                    y == pb.0 * w,
                    w > 0,
                    pb.0 >= 0,
            ;
            // y < 2^14 * p and sig >= 2^27
            assert(0 <= y && y < 0x4000 * p) by (nonlinear_arith)
                requires
                    y == pb.0 * w,
                    0 <= pb.0 < 0x100_0000,
                    1024 * w <= p,
                    w > 0,
            ;
            lemma_square_lt(y, 0x4000 * p);
            assert((0x4000 * p) * (0x4000 * p) <= 2 * (sig * p) * p) by (nonlinear_arith)
                requires
                    sig >= 0x800_0000,
                    p > 0,
            ;
            assert(((sig + 1) * p) * ((sig + 1) * p) >= sp * sp + 2 * (sig * p) * p) by (nonlinear_arith)
                requires
                    sp == sig * p,
                    p > 0,
            ;
            assert(n * 1 == n);
        }
        round_root(sig, exp, sticky, Ghost(n))
    }
}

impl Single {
    /// The length of the hypotenuse of a right triangle with the legs `self` and `other`.
    pub fn hypot(self, other: Single) -> (r: Single)
        ensures
            r == Single::hypotenuse(self, other),
    {
        proof {
            reveal(Single::hypotenuse);
        }
        if self.is_infinite() || other.is_infinite() {
            return Single::from_bits(crate::single::INFINITY);
        }
        if self.is_nan() || other.is_nan() {
            return Single::from_bits(crate::single::NAN);
        }
        let pa = self.parts();
        let pb = other.parts();
        let ghost n: int = self.units() * self.units() + other.units() * other.units();
        proof {
            let x: int = crate::single::size(self.units()) as int;
            let y: int = crate::single::size(other.units()) as int;
            assert(x * x == self.units() * self.units() && y * y == other.units() * other.units())
                by (nonlinear_arith)
                requires
                    x == self.units() || x == -self.units(),
                    y == other.units() || y == -other.units(),
            ;
            assert(n >= 0) by (nonlinear_arith)
                requires
                    n == x * x + y * y,
            ;
        }
        let m: u32;
        if pa.0 == 0 && pb.0 == 0 {
            m = 0;
            proof {
                lemma2_to64();
                assert(self.units() == 0 && other.units() == 0);
                assert(n == 0);
                crate::single::lemma_step_next(0);
                assert(crate::single::is_nearest_root(0, 0));
                lemma_nearest_root_is(0, 0);
            }
        } else if pa.1 >= pb.1 {
            m = root_parts(pa, pb, Ghost(n as nat));
        } else {
            m = root_parts(pb, pa, Ghost(n as nat));
        }
        Single::from_bits(m)
    }
}

} // verus!
