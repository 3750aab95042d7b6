//! How large the results of binary32 operations can be, and how far they are from exact.
use crate::single::Single;
use vstd::arithmetic::power2::*;
use vstd::prelude::*;

verus! {

/// `c` times `2^e` is a value of the scale where `c` has at most twenty-four bits.
pub proof fn lemma_on_scale(c: nat, e: nat) -> (m: nat)
    requires
        c <= 0x100_0000,
        c * pow2(e) <= pow2(277),
    ensures
        crate::single::step(m) == c * pow2(e),
        m <= 0x7f80_0000,
    decreases e,
{
    let m: nat = if c >= 0x80_0000 || e == 0 {
        crate::single::lemma_step_scaled(c, e);
        c + e * 0x80_0000
    } else {
        lemma_pow2_unfold(e);
        let p: nat = pow2((e - 1) as nat);
        assert(c * (2 * p) == (2 * c) * p) by (nonlinear_arith);
        lemma_on_scale(2 * c, (e - 1) as nat)
    };
    lemma_top();
    if m > 0x7f80_0000 {
        crate::single::lemma_step_increases(0x7f80_0000, m);
    }
    m
}

/// The magnitude of infinity stands for `2^128`.
pub proof fn lemma_top()
    ensures
        crate::single::step(0x7f80_0000) == pow2(277),
{
    lemma2_to64();
    crate::single::lemma_step_scaled(0x80_0000, 254);
    lemma_pow2_adds(23, 254);
}

/// Rounding does not pass a value of the scale from below.
pub proof fn lemma_nearest_at_most(num: nat, den: nat, m: nat)
    requires
        den > 0,
        m <= 0x7f80_0000,
        num <= crate::single::step(m) * den,
    ensures
        crate::single::nearest(num, den) <= m,
{
    let n: nat = crate::single::nearest(num, den);
    let s: nat = crate::single::step(m);
    crate::single::lemma_nearest(num, den);
    crate::single::lemma_nearest_step(m, den);
    assert(num * den <= (s * den) * den) by (nonlinear_arith)
        requires
            num <= s * den,
    ;
    crate::single::lemma_nearest_ordered(n, num, den, m, s * den, den);
}

/// Rounding does not pass a value of the scale from above.
pub proof fn lemma_nearest_at_least(num: nat, den: nat, m: nat)
    requires
        den > 0,
        m <= 0x7f80_0000,
        num >= crate::single::step(m) * den,
    ensures
        crate::single::nearest(num, den) >= m,
{
    let n: nat = crate::single::nearest(num, den);
    let s: nat = crate::single::step(m);
    crate::single::lemma_nearest(num, den);
    crate::single::lemma_nearest_step(m, den);
    assert((s * den) * den <= num * den) by (nonlinear_arith)
        requires
            num >= s * den,
    ;
    crate::single::lemma_nearest_ordered(m, s * den, den, n, num, den);
}

/// Rounding errs by at most one part in `2^24`, or half a unit near zero.
pub proof fn lemma_nearest_close(num: nat, den: nat)
    requires
        den > 0,
        crate::single::nearest(num, den) < 0x7f80_0000,
    ensures
        ({
            let s = crate::single::step(crate::single::nearest(num, den));
            let scale = if s < 0x80_0000 { 0x80_0000nat } else { s };
            &&& 0x100_0000 * (num - s * den) <= scale * den
            &&& 0x100_0000 * (s * den - num) <= scale * den
        }),
{
    let m: nat = crate::single::nearest(num, den);
    crate::single::lemma_nearest(num, den);
    let s: nat = crate::single::step(m);
    let scale: nat = if s < 0x80_0000 { 0x80_0000nat } else { s };
    let (f, q): (nat, nat) = if m < 0x80_0000 {
        (m, 0nat)
    } else {
        ((0x80_0000 + m % 0x80_0000) as nat, (m / 0x80_0000 - 1) as nat)
    };
    assert(m == f + q * 0x80_0000);
    let p: nat = pow2(q);
    lemma_pow2_pos(q);
    lemma2_to64();
    crate::single::lemma_step_scaled(f, q);
    crate::single::lemma_step_scaled(f + 1, q);
    assert(m + 1 == (f + 1) + q * 0x80_0000);
    assert(0x80_0000 * p <= scale) by (nonlinear_arith)
        requires
            m < 0x80_0000 && p == 1 && scale >= 0x80_0000 || f >= 0x80_0000 && scale >= f * p,
            p > 0,
    ;
    assert(2 * num <= (f * p + (f + 1) * p) * den);
    assert(0x100_0000 * (num - s * den) <= scale * den) by (nonlinear_arith)
        requires
            2 * num <= (f * p + (f + 1) * p) * den,
            s == f * p,
            0x80_0000 * p <= scale,
            den > 0,
    ;
    if m > 0 {
        let t: nat = crate::single::step((m - 1) as nat);
        if f > 0x80_0000 || q == 0 {
            crate::single::lemma_step_scaled((f - 1) as nat, q);
            assert(m - 1 == (f - 1) + q * 0x80_0000);
            assert(t == (f - 1) * p);
        } else {
            lemma_pow2_unfold(q);
            let h: nat = pow2((q - 1) as nat);
            crate::single::lemma_step_scaled(0xff_ffff, (q - 1) as nat);
            assert(m - 1 == 0xff_ffff + (q - 1) * 0x80_0000) by (nonlinear_arith)
                requires
                    m == 0x80_0000 + q * 0x80_0000,
            ;
            assert(t == 0xff_ffff * h);
            assert(t >= (f - 1) * p) by (nonlinear_arith)
                requires
                    t == 0xff_ffff * h,
                    p == 2 * h,
                    f == 0x80_0000,
            ;
        }
        assert(2 * num >= (t + s) * den);
        assert(0x100_0000 * (s * den - num) <= scale * den) by (nonlinear_arith)
            requires
                2 * num >= (t + s) * den,
                t >= (f - 1) * p,
                s == f * p,
                0x80_0000 * p <= scale,
                den > 0,
        ;
    } else {
        assert(0x100_0000 * (s * den - num) <= scale * den) by (nonlinear_arith)
            requires
                s == 0,
                num >= 0,
                den > 0,
                scale > 0,
        ;
    }
}

/// A rounded quotient keeps its sign and is never "not a number".
pub proof fn lemma_rounded(negative: bool, num: nat, den: nat)
    requires
        den > 0,
    ensures
        ({
            let r = Single::rounded(negative, num, den);
            &&& r.magnitude() == crate::single::nearest(num, den)
            &&& r.negative() == negative
            &&& !r.nan()
            &&& crate::single::size(r.units()) == crate::single::step(
                crate::single::nearest(num, den),
            )
        }),
{
    crate::single::lemma_nearest(num, den);
}

/// Whole numbers of at most twenty-four bits are on the scale.
pub proof fn lemma_whole_on_scale(n: nat) -> (m: nat)
    requires
        n <= 0x100_0000,
    ensures
        m < 0x7f80_0000,
        crate::single::step(m) == n * crate::single::unit(),
        crate::single::nearest(n * crate::single::unit(), 1) == m,
{
    let u: nat = crate::single::unit();
    lemma2_to64();
    lemma_pow2_pos(149);
    lemma_pow2_adds(24, 149);
    lemma_pow2_strictly_increases(173, 277);
    assert(n * u <= 0x100_0000 * u) by (nonlinear_arith)
        requires
            n <= 0x100_0000,
    ;
    let m: nat = lemma_on_scale(n, 149);
    lemma_top();
    crate::single::lemma_nearest_step(m, 1);
    assert((n * u) * 1 == n * u);
    m
}

/// Whole numbers of at most twenty-four bits are exact.
pub proof fn lemma_whole(n: int)
    requires
        -0x100_0000 <= n <= 0x100_0000,
    ensures
        Single::whole(n).finite(),
        Single::whole(n).negative() == (n < 0),
        Single::whole(n).units() == n * crate::single::unit(),
{
    reveal(Single::whole);
    let m: nat = lemma_whole_on_scale(crate::single::size(n));
    lemma_rounded(n < 0, crate::single::size(n) * crate::single::unit(), 1);
    let u: int = crate::single::unit() as int;
    assert((-n) * u == -(n * u)) by (nonlinear_arith);
}

/// Larger whole numbers round to larger numbers.
pub proof fn lemma_whole_ordered(a: nat, b: nat)
    requires
        a <= b < 0x1_0000_0000_0000_0000,
    ensures
        Single::whole(a as int).finite(),
        Single::whole(b as int).finite(),
        0 <= Single::whole(a as int).units() <= Single::whole(b as int).units(),
        !Single::whole(a as int).negative(),
        !Single::whole(b as int).negative(),
        Single::whole(b as int).units() <= 0x1_0000_0000_0000_0000 * crate::single::unit(),
{
    reveal(Single::whole);
    let u: nat = crate::single::unit();
    let (na, nb): (nat, nat) = (
        crate::single::nearest(a * u, 1),
        crate::single::nearest(b * u, 1),
    );
    lemma_rounded(false, a * u, 1);
    lemma_rounded(false, b * u, 1);
    crate::single::lemma_nearest(a * u, 1);
    crate::single::lemma_nearest(b * u, 1);
    assert((a * u) * 1 <= (b * u) * 1) by (nonlinear_arith)
        requires
            a <= b,
    ;
    crate::single::lemma_nearest_ordered(na, a * u, 1, nb, b * u, 1);
    if na < nb {
        crate::single::lemma_step_increases(na, nb);
    }
    lemma2_to64();
    lemma_pow2_adds(64, 149);
    lemma_pow2_strictly_increases(213, 277);
    let top: nat = lemma_on_scale(1, 213);
    lemma_top();
    assert(1 * pow2(213) == pow2(213));
    assert(b * u <= pow2(213) * 1) by (nonlinear_arith)
        requires
            b < 0x1_0000_0000_0000_0000,
            pow2(213) == 0x1_0000_0000_0000_0000 * u,
    ;
    lemma_nearest_at_most(b * u, 1, top);
    if nb < top {
        crate::single::lemma_step_increases(nb, top);
    }
    if top >= 0x7f80_0000 {
        assert(crate::single::step(top) == pow2(213));
        assert(false);
    }
}

/// A product of finite numbers is the exact product, rounded.
pub proof fn lemma_product(a: Single, b: Single)
    requires
        a.finite(),
        b.finite(),
    ensures
        ({
            let r = Single::product(a, b);
            let m = crate::single::nearest(
                crate::single::size(a.units()) * crate::single::size(b.units()),
                crate::single::unit(),
            );
            &&& !r.nan()
            &&& r.negative() == (a.negative() != b.negative())
            &&& r.magnitude() == m
            &&& m <= 0x7f80_0000
            &&& crate::single::size(r.units()) == crate::single::step(m)
        }),
{
    reveal(Single::product);
    lemma_pow2_pos(149);
    let num: nat = crate::single::size(a.units()) * crate::single::size(b.units());
    lemma_rounded(a.negative() != b.negative(), num, crate::single::unit());
}

/// A quotient of finite numbers is the exact quotient, rounded.
pub proof fn lemma_quotient(a: Single, b: Single)
    requires
        a.finite(),
        b.finite(),
        !b.zero(),
    ensures
        ({
            let r = Single::quotient(a, b);
            let m = crate::single::nearest(
                crate::single::size(a.units()) * crate::single::unit(),
                crate::single::size(b.units()),
            );
            &&& crate::single::size(b.units()) > 0
            &&& !r.nan()
            &&& r.negative() == (a.negative() != b.negative())
            &&& r.magnitude() == m
            &&& m <= 0x7f80_0000
            &&& crate::single::size(r.units()) == crate::single::step(m)
        }),
{
    reveal(Single::quotient);
    lemma_pow2_pos(149);
    assert(crate::single::step(0) == 0);
    crate::single::lemma_step_increases(0, b.magnitude());
    let num: nat = crate::single::size(a.units()) * crate::single::unit();
    lemma_rounded(a.negative() != b.negative(), num, crate::single::size(b.units()));
}

/// Multiplying by the same number keeps the order of magnitudes.
pub proof fn lemma_product_ordered(a: Single, b: Single, c: Single)
    requires
        a.finite(),
        b.finite(),
        c.finite(),
        crate::single::size(a.units()) <= crate::single::size(b.units()),
    ensures
        crate::single::size(Single::product(a, c).units()) <= crate::single::size(
            Single::product(b, c).units(),
        ),
        Single::product(a, c).magnitude() <= Single::product(b, c).magnitude(),
{
    lemma_product(a, c);
    lemma_product(b, c);
    lemma_pow2_pos(149);
    let u: nat = crate::single::unit();
    let (sa, sb, sc): (nat, nat, nat) = (
        crate::single::size(a.units()),
        crate::single::size(b.units()),
        crate::single::size(c.units()),
    );
    crate::single::lemma_nearest(sa * sc, u);
    crate::single::lemma_nearest(sb * sc, u);
    assert((sa * sc) * u <= (sb * sc) * u) by (nonlinear_arith)
        requires
            sa <= sb,
    ;
    let (ma, mb): (nat, nat) = (
        crate::single::nearest(sa * sc, u),
        crate::single::nearest(sb * sc, u),
    );
    crate::single::lemma_nearest_ordered(ma, sa * sc, u, mb, sb * sc, u);
    if ma < mb {
        crate::single::lemma_step_increases(ma, mb);
    }
}

/// Scaling a number to a whole number `c` and back exceeds `c` by less than one.
pub proof fn lemma_scaled_to(length: Single, c: nat)
    requires
        length.finite(),
        !length.negative(),
        crate::single::unit() <= length.units(),
        length.units() <= 0x1_0000_0000_0000_0000 * crate::single::unit(),
        c < 0x40_0000,
    ensures
        ({
            let ratio = Single::quotient(Single::whole(c as int), length);
            let back = Single::product(length, ratio);
            &&& ratio.finite()
            &&& !ratio.negative()
            &&& back.finite()
            &&& !back.negative()
            &&& back.units() <= (c + 1) * crate::single::unit()
        }),
{
    let u: nat = crate::single::unit();
    lemma_pow2_pos(149);
    lemma2_to64();
    let l: nat = length.units() as nat;
    assert(crate::single::step(0) == 0);
    lemma_whole(c as int);
    let cu: nat = c * u;
    let ratio: Single = Single::quotient(Single::whole(c as int), length);
    lemma_quotient(Single::whole(c as int), length);
    // the ratio does not exceed c
    let mc: nat = lemma_whole_on_scale(c);
    assert(cu * u <= cu * l) by (nonlinear_arith)
        requires
            u <= l,
    ;
    lemma_nearest_at_most(cu * u, l, mc);
    let m: nat = crate::single::nearest(cu * u, l);
    assert(ratio.magnitude() == m && m < 0x7f80_0000);
    let r: nat = crate::single::step(m);
    assert(ratio.units() == r);
    lemma_nearest_close(cu * u, l);
    let scale: nat = if r < 0x80_0000 { 0x80_0000nat } else { r };
    assert(0x100_0000 * (r * l - cu * u) <= scale * l);
    // back
    let back: Single = Single::product(length, ratio);
    lemma_product(length, ratio);
    let n: nat = crate::single::nearest(l * r, u);
    // a bound for the exact product
    let slack: nat = 0x1_0000_0000_0000_0000 * 0x80_0000;
    assert(0x100_0000 * (l * r) <= 0x100_0000 * (cu * u) + l * r + slack * u) by (nonlinear_arith)
        requires
            0x100_0000 * (r * l - cu * u) <= scale * l,
            scale <= r + 0x80_0000,
            l <= 0x1_0000_0000_0000_0000 * u,
            slack == 0x1_0000_0000_0000_0000 * 0x80_0000,
            l >= 0,
            r >= 0,
    ;
    assert(slack <= u) by {
        lemma_pow2_adds(64, 23);
        lemma_pow2_strictly_increases(87, 149);
    }
    // l * r <= (c + 1) * u * u
    let goal: nat = (c + 1) * u;
    assert(l * r <= goal * u) by (nonlinear_arith)
        requires
            0x100_0000 * (l * r) <= 0x100_0000 * (cu * u) + l * r + slack * u,
            slack <= u,
            cu == c * u,
            goal == (c + 1) * u,
            c < 0x40_0000,
            u > 0,
    ;
    let mg: nat = lemma_whole_on_scale(c + 1);
    lemma_nearest_at_most(l * r, u, mg);
    if n < mg {
        crate::single::lemma_step_increases(n, mg);
    }
}

/// A sum of finite numbers is the exact sum, rounded.
pub proof fn lemma_sum(a: Single, b: Single)
    requires
        a.finite(),
        b.finite(),
    ensures
        ({
            let r = Single::sum(a, b);
            let total = a.units() + b.units();
            let m = crate::single::nearest(crate::single::size(total), 1);
            &&& !r.nan()
            &&& r.magnitude() == m
            &&& m <= 0x7f80_0000
            &&& crate::single::size(r.units()) == crate::single::step(m)
            &&& total > 0 ==> r.units() >= 0
            &&& total < 0 ==> r.units() <= 0
            &&& total == 0 ==> r.units() == 0
        }),
{
    reveal(Single::sum);
    let total: int = a.units() + b.units();
    crate::single::lemma_nearest_zero(1);
    lemma_rounded(total < 0, crate::single::size(total), 1);
}

/// A difference of finite numbers is the exact difference, rounded.
pub proof fn lemma_difference(a: Single, b: Single)
    requires
        a.finite(),
        b.finite(),
    ensures
        ({
            let r = Single::difference(a, b);
            let total = a.units() - b.units();
            let m = crate::single::nearest(crate::single::size(total), 1);
            &&& !r.nan()
            &&& r.magnitude() == m
            &&& m <= 0x7f80_0000
            &&& crate::single::size(r.units()) == crate::single::step(m)
            &&& total > 0 ==> r.units() >= 0
            &&& total < 0 ==> r.units() <= 0
            &&& total == 0 ==> r.units() == 0
        }),
{
    assert(b.negated().units() == -b.units());
    lemma_sum(a, b.negated());
}

/// A difference of finite numbers has the sign of the exact difference.
pub proof fn lemma_difference_sign(a: Single, b: Single)
    requires
        a.finite(),
        b.finite(),
    ensures
        !Single::difference(a, b).nan(),
        Single::difference(a, b).units() > 0 <==> a.units() > b.units(),
        Single::difference(a, b).units() < 0 <==> a.units() < b.units(),
{
    lemma_difference(a, b);
    let total: int = a.units() - b.units();
    let n: nat = crate::single::size(total);
    let m: nat = crate::single::nearest(n, 1);
    if total != 0 {
        assert(crate::single::step(1) == 1);
        lemma_nearest_at_least(n, 1, 1);
        if m > 1 {
            crate::single::lemma_step_increases(1, m);
        }
    }
}

/// One is one unit of the whole numbers.
pub proof fn lemma_one()
    ensures
        (Single { bits: crate::single::ONE }).units() == crate::single::unit(),
{
    lemma2_to64();
    crate::single::lemma_step_scaled(0x80_0000, 126);
    lemma_pow2_adds(23, 126);
}

/// A whole number less one, where both are exact.
pub proof fn lemma_less_one(n: int)
    requires
        1 <= n <= 0x100_0000,
    ensures
        ({
            let r = Single::difference(
                Single::whole(n),
                Single { bits: crate::single::ONE },
            );
            &&& r.finite()
            &&& !r.negative()
            &&& r.units() == (n - 1) * crate::single::unit()
        }),
{
    let u: int = crate::single::unit() as int;
    let one: Single = Single { bits: crate::single::ONE };
    lemma_one();
    lemma_pow2_pos(149);
    lemma_whole(n);
    lemma_difference(Single::whole(n), one);
    assert(n * u - u == (n - 1) * u) by (nonlinear_arith);
    assert((n - 1) * u >= 0) by (nonlinear_arith)
        requires
            n >= 1,
            u > 0,
    ;
    let m: nat = lemma_whole_on_scale((n - 1) as nat);
    reveal(Single::sum);
    assert(one.negated().negative());
    if n > 1 {
        assert((n - 1) * u > 0) by (nonlinear_arith)
            requires
                n > 1,
                u > 0,
        ;
        lemma_rounded(false, ((n - 1) * u) as nat, 1);
    }
}

/// Rounding to whole numbers does not yield "not a number".
pub proof fn lemma_whole_parts(x: Single)
    requires
        !x.nan(),
    ensures
        !x.floored().nan(),
        !x.ceiled().nan(),
        !x.rounded_off().nan(),
{
    reveal(Single::floored);
    reveal(Single::ceiled);
    reveal(Single::rounded_off);
    if x.finite() {
        let u: nat = crate::single::unit();
        lemma_rounded(x.negative(), crate::single::size(x.units() / (u as int)) * u, 1);
        lemma_rounded(x.negative(), crate::single::size((-x.units()) / (u as int)) * u, 1);
        lemma_rounded(
            x.negative(),
            ((2 * crate::single::size(x.units()) + u) / (2 * u)) * u,
            1,
        );
    }
}

/// The whole part of a number between zero and a whole number lies between these too.
pub proof fn lemma_whole_part(x: Single, n: nat, low: int, high: int)
    requires
        !x.nan(),
        0 <= x.units() <= n * crate::single::unit(),
        low <= 0,
        n <= high,
    ensures
        0 <= x.to_whole(low, high) <= n,
{
    reveal(Single::to_whole);
    let u: nat = crate::single::unit();
    lemma_pow2_pos(149);
    let s: nat = crate::single::size(x.units());
    assert(0 <= s / u <= n) by (nonlinear_arith)
        requires
            s <= n * u,
            u > 0,
    ;
    if x.negative() {
        assert(s == 0);
        assert(s / u == 0) by (nonlinear_arith)
            requires
                s == 0,
                u > 0,
        ;
    }
}

/// Finite numbers lie between the infinities.
pub proof fn lemma_below_infinity(x: Single)
    requires
        x.finite(),
    ensures
        -(pow2(277) as int) < x.units() < pow2(277),
{
    lemma_top();
    crate::single::lemma_step_increases(x.magnitude(), 0x7f80_0000);
}

/// What lies between the infinities is finite.
pub proof fn lemma_finite(x: Single)
    requires
        !x.nan(),
        -(pow2(277) as int) < x.units() < pow2(277),
    ensures
        x.finite(),
{
    lemma_top();
}

/// The number is the whole number `n`.
pub open spec fn is_whole(x: Single, n: int) -> bool {
    x.finite() && x.units() == n * crate::single::unit()
}

/// Differences of whole numbers are exact as long as they have at most twenty-four bits.
pub proof fn lemma_exact_difference(x: Single, y: Single, a: int, b: int)
    requires
        is_whole(x, a),
        is_whole(y, b),
        -0x100_0000 <= a - b <= 0x100_0000,
    ensures
        is_whole(Single::difference(x, y), a - b),
{
    let u: int = crate::single::unit() as int;
    lemma_pow2_pos(149);
    lemma_difference(x, y);
    assert(a * u - b * u == (a - b) * u) by (nonlinear_arith);
    let n: nat = crate::single::size(a - b);
    let m: nat = lemma_whole_on_scale(n);
    let c: int = a - b;
    assert((-c) * u == -(c * u)) by (nonlinear_arith);
    assert(c > 0 ==> c * u > 0) by (nonlinear_arith)
        requires
            u > 0,
    ;
    assert(c < 0 ==> c * u < 0) by (nonlinear_arith)
        requires
            u > 0,
    ;
    assert(c == 0 ==> c * u == 0) by (nonlinear_arith);
}

/// Products of whole numbers are exact as long as they have at most twenty-four bits.
pub proof fn lemma_exact_product(x: Single, y: Single, a: int, b: int)
    requires
        is_whole(x, a),
        is_whole(y, b),
        -0x100_0000 <= a * b <= 0x100_0000,
    ensures
        is_whole(Single::product(x, y), a * b),
{
    let u: int = crate::single::unit() as int;
    lemma_pow2_pos(149);
    lemma_product(x, y);
    let (sa, sb): (nat, nat) = (crate::single::size(x.units()), crate::single::size(y.units()));
    let n: nat = crate::single::size(a * b);
    let m: nat = lemma_whole_on_scale(n);
    assert(sa == crate::single::size(a) * u && sb == crate::single::size(b) * u)
        by (nonlinear_arith)
        requires
            sa == (if a * u < 0 {
                -(a * u)
            } else {
                a * u
            }),
            sb == (if b * u < 0 {
                -(b * u)
            } else {
                b * u
            }),
            crate::single::size(a) == (if a < 0 {
                -a
            } else {
                a
            }),
            crate::single::size(b) == (if b < 0 {
                -b
            } else {
                b
            }),
            u > 0,
    ;
    let (za, zb): (int, int) = (crate::single::size(a) as int, crate::single::size(b) as int);
    assert(n == za * zb) by (nonlinear_arith)
        requires
            n == (if a * b < 0 {
                -(a * b)
            } else {
                a * b
            }),
            za == (if a < 0 {
                -a
            } else {
                a
            }),
            zb == (if b < 0 {
                -b
            } else {
                b
            }),
    ;
    assert(sa * sb == (n * u) * u) by (nonlinear_arith)
        requires
            sa == za * u,
            sb == zb * u,
            n == za * zb,
    ;
    assert(crate::single::step(m) * crate::single::unit() == (n * u) * u);
    crate::single::lemma_nearest_step(m, crate::single::unit());
    let r: Single = Single::product(x, y);
    assert(r.magnitude() == m);
    let c: int = a * b;
    assert((-c) * u == -(c * u)) by (nonlinear_arith);
    // the sign
    assert(x.negative() ==> a <= 0) by (nonlinear_arith)
        requires
            x.negative() ==> a * u <= 0,
            u > 0,
    ;
    assert(!x.negative() ==> a >= 0) by (nonlinear_arith)
        requires
            !x.negative() ==> a * u >= 0,
            u > 0,
    ;
    assert(y.negative() ==> b <= 0) by (nonlinear_arith)
        requires
            y.negative() ==> b * u <= 0,
            u > 0,
    ;
    assert(!y.negative() ==> b >= 0) by (nonlinear_arith)
        requires
            !y.negative() ==> b * u >= 0,
            u > 0,
    ;
    assert(x.negative() == y.negative() ==> c >= 0) by (nonlinear_arith)
        requires
            c == a * b,
            x.negative() ==> a <= 0,
            !x.negative() ==> a >= 0,
            y.negative() ==> b <= 0,
            !y.negative() ==> b >= 0,
    ;
    assert(x.negative() != y.negative() ==> c <= 0) by (nonlinear_arith)
        requires
            c == a * b,
            x.negative() ==> a <= 0,
            !x.negative() ==> a >= 0,
            y.negative() ==> b <= 0,
            !y.negative() ==> b >= 0,
    ;
    assert(c == 0 ==> n * u == 0) by (nonlinear_arith)
        requires
            c == 0 ==> n == 0,
    ;
}

} // verus!
