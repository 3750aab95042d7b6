//! How far the results of binary32 arithmetic lie from the exact ones.
//!
//! A result errs by at most half of its last place: one part in `2^24` of it, or half a unit
//! where it is smaller than all numbers with full precision.
use crate::single::Single;
use vstd::arithmetic::power2::*;
use vstd::prelude::*;

verus! {

/// The size of a result that its error is measured by.
pub open spec fn scale_of(r: Single) -> nat {
    if crate::single::size(r.units()) < 0x80_0000 {
        0x80_0000
    } else {
        crate::single::size(r.units())
    }
}

/// A sum errs by at most one part in `2^24` of it.
pub proof fn lemma_sum_close(a: Single, b: Single)
    requires
        a.finite(),
        b.finite(),
        Single::sum(a, b).finite(),
    ensures
        ({
            let r = Single::sum(a, b).units();
            let exact = a.units() + b.units();
            &&& 0x100_0000 * (r - exact) <= crate::single::size(r)
            &&& 0x100_0000 * (exact - r) <= crate::single::size(r)
            &&& exact >= 0 ==> r >= 0
            &&& exact <= 0 ==> r <= 0
        }),
{
    crate::bounds::lemma_sum(a, b);
    let total: int = a.units() + b.units();
    let n: nat = crate::single::size(total);
    crate::bounds::lemma_nearest_close(n, 1);
    let s: nat = crate::single::step(crate::single::nearest(n, 1));
    assert(s * 1 == s);
    let scale: nat = if s < 0x80_0000 { 0x80_0000nat } else { s };
    assert(scale * 1 == scale);
}

/// A difference errs by at most one part in `2^24` of it.
pub proof fn lemma_difference_close(a: Single, b: Single)
    requires
        a.finite(),
        b.finite(),
        Single::difference(a, b).finite(),
    ensures
        ({
            let r = Single::difference(a, b).units();
            let exact = a.units() - b.units();
            &&& 0x100_0000 * (r - exact) <= crate::single::size(r)
            &&& 0x100_0000 * (exact - r) <= crate::single::size(r)
            &&& exact >= 0 ==> r >= 0
            &&& exact <= 0 ==> r <= 0
        }),
{
    assert(b.negated().units() == -b.units());
    lemma_sum_close(a, b.negated());
}

/// A product errs by at most one part in `2^24` of it, or half a unit.
pub proof fn lemma_product_close(a: Single, b: Single)
    requires
        a.finite(),
        b.finite(),
        Single::product(a, b).finite(),
    ensures
        ({
            let u = crate::single::unit() as int;
            let p = Single::product(a, b);
            let (r, exact) = (p.units() * u, a.units() * b.units());
            &&& 0x100_0000 * (r - exact) <= scale_of(p) * u
            &&& 0x100_0000 * (exact - r) <= scale_of(p) * u
            &&& exact >= 0 ==> p.units() >= 0
            &&& exact <= 0 ==> p.units() <= 0
        }),
{
    let u: int = crate::single::unit() as int;
    lemma_pow2_pos(149);
    crate::bounds::lemma_product(a, b);
    let (x, y): (int, int) = (a.units(), b.units());
    let (sa, sb): (nat, nat) = (crate::single::size(x), crate::single::size(y));
    let p: Single = Single::product(a, b);
    crate::bounds::lemma_nearest_close(sa * sb, crate::single::unit());
    let s: nat = crate::single::step(crate::single::nearest(sa * sb, crate::single::unit()));
    let e: int = x * y;
    lemma_signed_product(x, y);
    lemma_signed_product(p.units(), u);
    if a.zero() || b.zero() {
        assert(sa * sb == 0) by (nonlinear_arith)
            requires
                sa == 0 || sb == 0,
        ;
        crate::single::lemma_nearest_zero(crate::single::unit());
        assert(crate::single::step(0) == 0);
    }
    lemma_not_zero(a);
    lemma_not_zero(b);
}

/// A quotient errs by at most one part in `2^24` of it, or half a unit.
pub proof fn lemma_quotient_close(a: Single, b: Single)
    requires
        a.finite(),
        b.finite(),
        !b.zero(),
        Single::quotient(a, b).finite(),
    ensures
        ({
            let u = crate::single::unit() as int;
            let q = Single::quotient(a, b);
            let l = crate::single::size(b.units()) as int;
            let (r, exact) = (q.units() * b.units(), a.units() * u);
            &&& l > 0
            &&& 0x100_0000 * (r - exact) <= scale_of(q) * l
            &&& 0x100_0000 * (exact - r) <= scale_of(q) * l
            &&& a.units() == 0 ==> q.units() == 0
            &&& (a.units() >= 0 && b.units() > 0) ==> q.units() >= 0
            &&& (a.units() <= 0 && b.units() > 0) ==> q.units() <= 0
        }),
{
    let u: int = crate::single::unit() as int;
    lemma_pow2_pos(149);
    crate::bounds::lemma_quotient(a, b);
    let (x, y): (int, int) = (a.units(), b.units());
    let (sa, sb): (nat, nat) = (crate::single::size(x), crate::single::size(y));
    let q: Single = Single::quotient(a, b);
    let num: nat = sa * crate::single::unit();
    crate::bounds::lemma_nearest_close(num, sb);
    let s: nat = crate::single::step(crate::single::nearest(num, sb));
    lemma_not_zero(a);
    lemma_not_zero(b);
    lemma_signed_product(q.units(), y);
    lemma_signed_product(x, u);
    if a.zero() {
        assert(num == 0) by (nonlinear_arith)
            requires
                num == sa * u,
                sa == 0,
        ;
        crate::single::lemma_nearest_zero(sb);
        assert(crate::single::step(0) == 0);
    }
}

/// A number that is not zero has a value.
pub proof fn lemma_not_zero(a: Single)
    ensures
        a.units() == 0 <==> a.zero(),
        !a.zero() ==> (a.negative() <==> a.units() < 0),
{
    assert(crate::single::step(0) == 0);
    if a.magnitude() > 0 {
        crate::single::lemma_step_increases(0, a.magnitude());
    }
}

/// The size of a product is the product of the sizes, and its sign follows from theirs.
pub proof fn lemma_signed_product(x: int, y: int)
    ensures
        crate::single::size(x * y) == crate::single::size(x) * crate::single::size(y),
        (x > 0 && y > 0 || x < 0 && y < 0) ==> x * y > 0,
        (x > 0 && y < 0 || x < 0 && y > 0) ==> x * y < 0,
        (x == 0 || y == 0) ==> x * y == 0,
{
    assert((x > 0 && y > 0 || x < 0 && y < 0) ==> x * y > 0) by (nonlinear_arith);
    assert((x > 0 && y < 0 || x < 0 && y > 0) ==> x * y < 0) by (nonlinear_arith);
    assert((x == 0 || y == 0) ==> x * y == 0) by (nonlinear_arith);
    assert((-x) * y == -(x * y) && x * (-y) == -(x * y) && (-x) * (-y) == x * y)
        by (nonlinear_arith);
}

/// Two, in units.
pub proof fn lemma_two()
    ensures
        (Single { bits: 0x4000_0000 }).units() == 2 * crate::single::unit(),
        (Single { bits: 0x4000_0000 }).finite(),
{
    lemma2_to64();
    crate::single::lemma_step_scaled(0x80_0000, 127);
    lemma_pow2_adds(23, 127);
    lemma_pow2_adds(1, 149);
}

/// A quotient of at most `2^k` is finite and at most `2^k`.
pub proof fn lemma_quotient_within(a: Single, b: Single, k: nat)
    requires
        a.finite(),
        b.finite(),
        b.units() > 0,
        k <= 127,
        crate::single::size(a.units()) * crate::single::unit() <= pow2(k + 149) * b.units(),
    ensures
        Single::quotient(a, b).finite(),
        crate::single::size(Single::quotient(a, b).units()) <= pow2(k + 149),
        !b.zero(),
{
    lemma_not_zero(b);
    crate::bounds::lemma_quotient(a, b);
    crate::ocr::text::drawing::lemma_rounds_within(
        crate::single::size(a.units()) * crate::single::unit(),
        crate::single::size(b.units()),
        k,
    );
}

/// The number is `num / den`, up to `k` parts in `2^23`.
pub open spec fn about(x: Single, num: int, den: int, k: int) -> bool {
    let u = crate::single::unit() as int;
    &&& x.finite()
    &&& (0x80_0000 - k) * (num * u) <= 0x80_0000 * (x.units() * den)
    &&& 0x80_0000 * (x.units() * den) <= (0x80_0000 + k) * (num * u)
}

/// The fraction is positive and neither part of it is large.
pub open spec fn ordinary(num: int, den: int) -> bool {
    0 < num <= 0x1_0000_0000_0000 && 0 < den <= 0x1_0000_0000_0000
}

/// A number that is about an ordinary fraction is neither tiny nor huge.
pub proof fn lemma_about(x: Single, num: int, den: int, k: int)
    requires
        about(x, num, den, k),
        ordinary(num, den),
        0 <= k <= 0x1000,
    ensures
        x.units() >= pow2(100),
        x.units() <= pow2(49 + 149),
        !x.negative(),
        !x.zero(),
{
    let u: int = crate::single::unit() as int;
    lemma_pow2_pos(149);
    lemma_pow2_pos(100);
    lemma2_to64();
    lemma_pow2_adds(32, 17);
    lemma_pow2_adds(49, 100);
    lemma_pow2_adds(49, 149);
    assert(pow2(49) == 0x2_0000_0000_0000);
    assert(pow2(49) * pow2(100) == 0x2_0000_0000_0000 * pow2(100)) by (nonlinear_arith)
        requires
            pow2(49) == 0x2_0000_0000_0000,
    ;
    assert(pow2(49) * u == 0x2_0000_0000_0000 * u) by (nonlinear_arith)
        requires
            pow2(49) == 0x2_0000_0000_0000,
    ;
    let (v, nu): (int, int) = (x.units(), num * u);
    let vd: int = v * den;
    assert(nu >= u) by (nonlinear_arith)
        requires
            nu == num * u,
            num > 0,
            u > 0,
    ;
    assert((0x80_0000 - k) * nu >= 0x7f_f000 * u) by (nonlinear_arith)
        requires
            nu >= u,
            0 <= k <= 0x1000,
            u > 0,
    ;
    let h: int = pow2(100) as int;
    assert(vd > 0x1_0000_0000_0000 * h);
    assert(v >= h) by (nonlinear_arith)
        requires
            vd == v * den,
            vd > 0x1_0000_0000_0000 * h,
            0 < den <= 0x1_0000_0000_0000,
            h > 0,
    ;
    assert(nu <= 0x1_0000_0000_0000 * u) by (nonlinear_arith)
        requires
            nu == num * u,
            num <= 0x1_0000_0000_0000,
            u > 0,
    ;
    assert((0x80_0000 + k) * nu <= 0x80_1000 * nu) by (nonlinear_arith)
        requires
            k <= 0x1000,
            nu >= 0,
    ;
    assert(v <= vd) by (nonlinear_arith)
        requires
            vd == v * den,
            den >= 1,
            v >= 0,
    ;
    lemma_not_zero(x);
}

/// A whole number rounds to about itself.
pub proof fn lemma_whole_about(n: int)
    requires
        0 < n <= 0x1_0000_0000,
    ensures
        about(Single::whole(n), n, 1, 1),
{
    reveal(Single::whole);
    let u: int = crate::single::unit() as int;
    lemma_pow2_pos(149);
    lemma2_to64();
    lemma_pow2_adds(32, 149);
    let num: nat = (n * u) as nat;
    assert(0 < n * u <= 0x1_0000_0000 * u) by (nonlinear_arith)
        requires
            0 < n <= 0x1_0000_0000,
            u > 0,
    ;
    crate::ocr::text::drawing::lemma_rounds_within(num, 1, 32);
    crate::bounds::lemma_rounded(n < 0, num, 1);
    crate::bounds::lemma_nearest_close(num, 1);
    let x: Single = Single::whole(n);
    let s: int = crate::single::step(crate::single::nearest(num, 1)) as int;
    assert(s * 1 == s);
    assert(n * u >= u) by (nonlinear_arith)
        requires
            n >= 1,
            u > 0,
    ;
    lemma_pow2_strictly_increases(23, 149);
    assert(x.units() == s);
    assert(s * 1 == s && 1 * (n * u) == n * u);
}

/// A product of numbers that are about two fractions is about their product.
pub proof fn lemma_product_about(
    a: Single,
    b: Single,
    n1: int,
    d1: int,
    k1: int,
    n2: int,
    d2: int,
    k2: int,
)
    requires
        about(a, n1, d1, k1),
        about(b, n2, d2, k2),
        ordinary(n1, d1),
        ordinary(n2, d2),
        ordinary(n1 * n2, d1 * d2),
        0 <= k1 <= 0x100,
        0 <= k2 <= 0x100,
    ensures
        about(Single::product(a, b), n1 * n2, d1 * d2, k1 + k2 + 1),
{
    let u: int = crate::single::unit() as int;
    lemma_pow2_pos(149);
    lemma_about(a, n1, d1, k1);
    lemma_about(b, n2, d2, k2);
    lemma2_to64();
    let (x, y): (int, int) = (a.units(), b.units());
    assert(crate::ocr::text::drawing::within(a, 49) && crate::ocr::text::drawing::within(b, 49));
    crate::ocr::text::drawing::lemma_area_within(a, b, 49);
    let p: Single = Single::product(a, b);
    lemma_product_close(a, b);
    let r: int = p.units();
    // the result is not tiny
    lemma_pow2_pos(100);
    lemma_pow2_adds(100, 100);
    lemma_pow2_adds(51, 149);
    lemma_pow2_adds(32, 19);
    assert(x * y >= pow2(51) * u) by {
        let h: int = pow2(100) as int;
        assert(x * y >= h * h) by (nonlinear_arith)
            requires
                x >= h,
                y >= h,
                h >= 0,
        ;
    }
    assert(pow2(51) == 0x8_0000_0000_0000);
    assert(pow2(51) * u == 0x8_0000_0000_0000 * u) by (nonlinear_arith)
        requires
            pow2(51) == 0x8_0000_0000_0000,
    ;
    let z: int = scale_of(p) as int;
    assert(z == r) by {
        lemma_signed_product(x, y);
        if r < 0x80_0000 {
            let (ru, zu, xy): (int, int, int) = (r * u, z * u, x * y);
            assert(ru <= 0x80_0000 * u && zu <= 0x80_0000 * u) by (nonlinear_arith)
                requires
                    ru == r * u,
                    zu == z * u,
                    r <= 0x80_0000,
                    z <= 0x80_0000,
                    u > 0,
            ;
            assert(false);
        }
    }
    lemma_about_product(x, y, r, u, n1, d1, k1, n2, d2, k2);
}

proof fn lemma_about_product(
    x: int,
    y: int,
    r: int,
    u: int,
    n1: int,
    d1: int,
    k1: int,
    n2: int,
    d2: int,
    k2: int,
)
    requires
        u > 0,
        x > 0,
        y > 0,
        r > 0,
        n1 > 0,
        n2 > 0,
        d1 > 0,
        d2 > 0,
        0 <= k1 <= 0x100,
        0 <= k2 <= 0x100,
        (0x80_0000 - k1) * (n1 * u) <= 0x80_0000 * (x * d1),
        0x80_0000 * (x * d1) <= (0x80_0000 + k1) * (n1 * u),
        (0x80_0000 - k2) * (n2 * u) <= 0x80_0000 * (y * d2),
        0x80_0000 * (y * d2) <= (0x80_0000 + k2) * (n2 * u),
        0x100_0000 * (r * u - x * y) <= r * u,
        0x100_0000 * (x * y - r * u) <= r * u,
    ensures
        (0x80_0000 - (k1 + k2 + 1)) * ((n1 * n2) * u) <= 0x80_0000 * (r * (d1 * d2)),
        0x80_0000 * (r * (d1 * d2)) <= (0x80_0000 + (k1 + k2 + 1)) * ((n1 * n2) * u),
{
    let e: int = 0x80_0000;
    let (a, b): (int, int) = (n1 * u, n2 * u);
    let (xd, yd): (int, int) = (x * d1, y * d2);
    lemma_positive_product(n1, u);
    lemma_positive_product(n2, u);
    lemma_positive_product(x, d1);
    lemma_positive_product(y, d2);
    lemma_positive_product(a, b);
    let (ab, w): (int, int) = (a * b, xd * yd);
    // the exact product of the two
    assert((e * e) * w <= ((e + k1) * (e + k2)) * ab) by (nonlinear_arith)
        requires
            w == xd * yd,
            ab == a * b,
            0 <= e * xd <= (e + k1) * a,
            0 <= e * yd <= (e + k2) * b,
    ;
    assert((e * e) * w >= ((e - k1) * (e - k2)) * ab) by (nonlinear_arith)
        requires
            w == xd * yd,
            ab == a * b,
            0 <= (e - k1) * a <= e * xd,
            0 <= (e - k2) * b <= e * yd,
    ;
    let (dd, xy, ru): (int, int, int) = (d1 * d2, x * y, r * u);
    lemma_positive_product(d1, d2);
    lemma_positive_product(r, dd);
    assert(w == xy * dd) by (nonlinear_arith)
        requires
            w == xd * yd,
            xd == x * d1,
            yd == y * d2,
            xy == x * y,
            dd == d1 * d2,
    ;
    let (rd, nn): (int, int) = (r * dd, n1 * n2);
    let (v, m): (int, int) = (rd * u, nn * u);
    assert(v == ru * dd) by (nonlinear_arith)
        requires
            v == rd * u,
            rd == r * dd,
            ru == r * u,
    ;
    assert(ab == m * u) by (nonlinear_arith)
        requires
            ab == a * b,
            a == n1 * u,
            b == n2 * u,
            nn == n1 * n2,
            m == nn * u,
    ;
    assert(0xff_ffff * v <= 0x100_0000 * w && 0x100_0001 * v >= 0x100_0000 * w)
        by (nonlinear_arith)
        requires
            v == ru * dd,
            w == xy * dd,
            0x100_0000 * (ru - xy) <= ru,
            0x100_0000 * (xy - ru) <= ru,
            dd > 0,
    ;
    // the allowances
    let k: int = k1 + k2 + 1;
    let (up, down): (int, int) = ((e + k1) * (e + k2), (e - k1) * (e - k2));
    assert(0x100_0000 * up <= (0xff_ffff * e) * (e + k)) by (nonlinear_arith)
        requires
            up == (e + k1) * (e + k2),
            e == 0x80_0000,
            k == k1 + k2 + 1,
            0 <= k1 <= 0x100,
            0 <= k2 <= 0x100,
    ;
    assert(0x100_0000 * down >= (0x100_0001 * e) * (e - k)) by (nonlinear_arith)
        requires
            down == (e - k1) * (e - k2),
            e == 0x80_0000,
            k == k1 + k2 + 1,
            0 <= k1 <= 0x100,
            0 <= k2 <= 0x100,
    ;
    // 0xffffff e e v <= 0x1000000 e e w <= 0x1000000 up ab <= 0xffffff e (e + k) ab
    assert(0xff_ffff * (e * (e * v)) <= 0xff_ffff * (e * ((e + k) * ab))) by (nonlinear_arith)
        requires
            0xff_ffff * v <= 0x100_0000 * w,
            (e * e) * w <= up * ab,
            0x100_0000 * up <= (0xff_ffff * e) * (e + k),
            ab > 0,
            e == 0x80_0000,
    ;
    assert(0x100_0001 * (e * (e * v)) >= 0x100_0001 * (e * ((e - k) * ab))) by (nonlinear_arith)
        requires
            0x100_0001 * v >= 0x100_0000 * w,
            (e * e) * w >= down * ab,
            0x100_0000 * down >= (0x100_0001 * e) * (e - k),
            ab > 0,
            e == 0x80_0000,
    ;
    let (s, t): (int, int) = ((e + k) * m, (e - k) * m);
    assert((e + k) * ab == s * u && (e - k) * ab == t * u) by (nonlinear_arith)
        requires
            ab == m * u,
            s == (e + k) * m,
            t == (e - k) * m,
    ;
    let er: int = e * rd;
    assert(e * v == er * u) by (nonlinear_arith)
        requires
            v == rd * u,
            er == e * rd,
    ;
    assert(er <= s && er >= t) by (nonlinear_arith)
        requires
            er * u <= s * u,
            er * u >= t * u,
            u > 0,
    ;
}

proof fn lemma_positive_product(a: int, b: int)
    requires
        a > 0,
        b > 0,
    ensures
        a * b > 0,
{
    assert(a * b > 0) by (nonlinear_arith)
        requires
            a > 0,
            b > 0,
    ;
}

/// A quotient of numbers that are about two fractions is about their quotient.
pub proof fn lemma_quotient_about(
    a: Single,
    b: Single,
    n1: int,
    d1: int,
    k1: int,
    n2: int,
    d2: int,
    k2: int,
)
    requires
        about(a, n1, d1, k1),
        about(b, n2, d2, k2),
        ordinary(n1, d1),
        ordinary(n2, d2),
        ordinary(n1 * d2, d1 * n2),
        0 <= k1 <= 0x100,
        0 <= k2 <= 0x100,
    ensures
        about(Single::quotient(a, b), n1 * d2, d1 * n2, k1 + k2 + 1),
{
    let u: int = crate::single::unit() as int;
    lemma_pow2_pos(149);
    lemma_about(a, n1, d1, k1);
    lemma_about(b, n2, d2, k2);
    lemma_pow2_pos(100);
    lemma2_to64();
    let (x, y): (int, int) = (a.units(), b.units());
    crate::bounds::lemma_quotient(a, b);
    // neither huge nor tiny
    lemma_pow2_adds(98, 100);
    lemma_pow2_adds(98, 149);
    let xu: nat = (x * u) as nat;
    let (h, g): (int, int) = (pow2(100) as int, pow2(49 + 149) as int);
    assert(0 <= x * u <= g * u && g * u <= pow2(98 + 149) * y) by {
        assert(0 <= x * u <= g * u) by (nonlinear_arith)
            requires
                0 <= x <= g,
                u > 0,
        ;
        lemma_pow2_adds(49 + 149, 149);
        lemma_pow2_adds(98 + 149, 100);
        let c: int = pow2(98 + 149) as int;
        assert(c * h <= c * y) by (nonlinear_arith)
            requires
                y >= h,
                c >= 0,
        ;
    }
    assert(crate::single::size(x) == x && crate::single::size(y) == y);
    crate::ocr::text::drawing::lemma_rounds_within(xu, y as nat, 98);
    let q: Single = Single::quotient(a, b);
    lemma_quotient_close(a, b);
    let r: int = q.units();
    let z: int = scale_of(q) as int;
    assert(z == r) by {
        if r < 0x80_0000 {
            // x u >= 2^249 and y <= 2^198, so the quotient is at least 2^51
            lemma_pow2_adds(100, 149);
            lemma_pow2_adds(51, 49 + 149);
            lemma_pow2_adds(32, 19);
            assert(x * u >= h * u) by (nonlinear_arith)
                requires
                    x >= h,
                    u > 0,
            ;
            let (ry, zy): (int, int) = (r * y, z * y);
            assert(ry <= 0x80_0000 * g && zy <= 0x80_0000 * g) by (nonlinear_arith)
                requires
                    ry == r * y,
                    zy == z * y,
                    r <= 0x80_0000,
                    0 <= z <= 0x80_0000,
                    0 < y <= g,
            ;
            assert(pow2(51) == 0x8_0000_0000_0000);
            assert(pow2(51) * g == 0x8_0000_0000_0000 * g) by (nonlinear_arith)
                requires
                    pow2(51) == 0x8_0000_0000_0000,
            ;
            assert(false);
        }
    }
    lemma_about_quotient(x, y, r, u, n1, d1, k1, n2, d2, k2);
}

proof fn lemma_about_quotient(
    x: int,
    y: int,
    r: int,
    u: int,
    n1: int,
    d1: int,
    k1: int,
    n2: int,
    d2: int,
    k2: int,
)
    requires
        u > 0,
        x > 0,
        y > 0,
        r > 0,
        n1 > 0,
        n2 > 0,
        d1 > 0,
        d2 > 0,
        0 <= k1 <= 0x100,
        0 <= k2 <= 0x100,
        (0x80_0000 - k1) * (n1 * u) <= 0x80_0000 * (x * d1),
        0x80_0000 * (x * d1) <= (0x80_0000 + k1) * (n1 * u),
        (0x80_0000 - k2) * (n2 * u) <= 0x80_0000 * (y * d2),
        0x80_0000 * (y * d2) <= (0x80_0000 + k2) * (n2 * u),
        0x100_0000 * (r * y - x * u) <= r * y,
        0x100_0000 * (x * u - r * y) <= r * y,
    ensures
        (0x80_0000 - (k1 + k2 + 1)) * ((n1 * d2) * u) <= 0x80_0000 * (r * (d1 * n2)),
        0x80_0000 * (r * (d1 * n2)) <= (0x80_0000 + (k1 + k2 + 1)) * ((n1 * d2) * u),
{
    let e: int = 0x80_0000;
    let (a, b): (int, int) = (n1 * u, n2 * u);
    let (xd, yd): (int, int) = (x * d1, y * d2);
    lemma_positive_product(n1, u);
    lemma_positive_product(n2, u);
    lemma_positive_product(x, d1);
    lemma_positive_product(y, d2);
    // times both denominators
    let (ry, xu): (int, int) = (r * y, x * u);
    let dd: int = d1 * d2;
    lemma_positive_product(d1, d2);
    let (v, w): (int, int) = ((r * d1) * yd, (d2 * u) * xd);
    assert(v == ry * dd) by (nonlinear_arith)
        requires
            v == (r * d1) * yd,
            yd == y * d2,
            ry == r * y,
            dd == d1 * d2,
    ;
    assert(w == xu * dd) by (nonlinear_arith)
        requires
            w == (d2 * u) * xd,
            xd == x * d1,
            xu == x * u,
            dd == d1 * d2,
    ;
    assert(0xff_ffff * v <= 0x100_0000 * w && 0x100_0001 * v >= 0x100_0000 * w)
        by (nonlinear_arith)
        requires
            v == ry * dd,
            w == xu * dd,
            0x100_0000 * (ry - xu) <= ry,
            0x100_0000 * (xu - ry) <= ry,
            dd > 0,
    ;
    let (rd, du): (int, int) = (r * d1, d2 * u);
    lemma_positive_product(r, d1);
    lemma_positive_product(d2, u);
    let (rb, da): (int, int) = (rd * b, du * a);
    // e v >= (e - k2) rd b, e w <= (e + k1) du a, and the other way
    assert((e - k2) * rb <= e * v && e * v <= (e + k2) * rb) by (nonlinear_arith)
        requires
            rb == rd * b,
            v == rd * yd,
            (e - k2) * b <= e * yd,
            e * yd <= (e + k2) * b,
            rd > 0,
    ;
    assert((e - k1) * da <= e * w && e * w <= (e + k1) * da) by (nonlinear_arith)
        requires
            da == du * a,
            w == du * xd,
            (e - k1) * a <= e * xd,
            e * xd <= (e + k1) * a,
            du > 0,
    ;
    lemma_positive_product(rd, b);
    lemma_positive_product(du, a);
    let k: int = k1 + k2 + 1;
    lemma_allowances(rb, da, e * v, e * w, k1, k2);
    // without the units
    let (s, t): (int, int) = (r * (d1 * n2), (n1 * d2) * u);
    assert(rb == s * u) by (nonlinear_arith)
        requires
            rb == rd * b,
            rd == r * d1,
            b == n2 * u,
            s == r * (d1 * n2),
    ;
    assert(da == t * u) by (nonlinear_arith)
        requires
            da == du * a,
            du == d2 * u,
            a == n1 * u,
            t == (n1 * d2) * u,
    ;
    assert(e * s <= (e + k) * t && e * s >= (e - k) * t) by (nonlinear_arith)
        requires
            e * (s * u) <= (e + k) * (t * u),
            e * (s * u) >= (e - k) * (t * u),
            u > 0,
    ;
}

proof fn lemma_allowances(rb: int, da: int, ev: int, ew: int, k1: int, k2: int)
    requires
        rb > 0,
        da > 0,
        0 <= k1 <= 0x100,
        0 <= k2 <= 0x100,
        (0x80_0000 - k2) * rb <= ev,
        ev <= (0x80_0000 + k2) * rb,
        (0x80_0000 - k1) * da <= ew,
        ew <= (0x80_0000 + k1) * da,
        0xff_ffff * ev <= 0x100_0000 * ew,
        0x100_0001 * ev >= 0x100_0000 * ew,
    ensures
        0x80_0000 * rb <= (0x80_0000 + (k1 + k2 + 1)) * da,
        0x80_0000 * rb >= (0x80_0000 - (k1 + k2 + 1)) * da,
{
    let (e, k): (int, int) = (0x80_0000, k1 + k2 + 1);
    let (lo2, hi2, lo1, hi1): (int, int, int, int) = (e - k2, e + k2, e - k1, e + k1);
    assert((0xff_ffff * lo2) * rb <= (0x100_0000 * hi1) * da) by (nonlinear_arith)
        requires
            lo2 * rb <= ev,
            ew <= hi1 * da,
            0xff_ffff * ev <= 0x100_0000 * ew,
    ;
    assert((0x100_0001 * hi2) * rb >= (0x100_0000 * lo1) * da) by (nonlinear_arith)
        requires
            hi2 * rb >= ev,
            ew >= lo1 * da,
            0x100_0001 * ev >= 0x100_0000 * ew,
    ;
    assert((0x100_0000 * hi1) * e <= (0xff_ffff * lo2) * (e + k)) by (nonlinear_arith)
        requires
            hi1 == e + k1,
            lo2 == e - k2,
            k == k1 + k2 + 1,
            e == 0x80_0000,
            0 <= k1 <= 0x100,
            0 <= k2 <= 0x100,
    ;
    assert((0x100_0000 * lo1) * e >= (0x100_0001 * hi2) * (e - k)) by (nonlinear_arith)
        requires
            lo1 == e - k1,
            hi2 == e + k2,
            k == k1 + k2 + 1,
            e == 0x80_0000,
            0 <= k1 <= 0x100,
            0 <= k2 <= 0x100,
    ;
    let (c, d): (int, int) = (0xff_ffff * lo2, 0x100_0001 * hi2);
    let (p, q): (int, int) = (0x100_0000 * hi1, 0x100_0000 * lo1);
    assert(e * rb <= (e + k) * da) by (nonlinear_arith)
        requires
            c * rb <= p * da,
            p * e <= c * (e + k),
            c > 0,
            da > 0,
            e > 0,
    ;
    assert(e * rb >= (e - k) * da) by (nonlinear_arith)
        requires
            d * rb >= q * da,
            q * e >= d * (e - k),
            d > 0,
            da > 0,
            e > 0,
    ;
}

/// A number that is not negative and at most `2^24` rounds off to a whole number that is at
/// most one half away; larger ones round off to `2^24` or more.
pub proof fn lemma_rounded_off(x: Single) -> (n: int)
    requires
        x.finite(),
        x.units() >= 0,
        x.units() <= pow2(49 + 149),
    ensures
        x.rounded_off().finite(),
        x.rounded_off().units() >= 0,
        n == x.rounded_off().to_whole(0, u32::MAX as int),
        n >= 0,
        x.units() <= 0x100_0000 * crate::single::unit() ==> 2 * (n * crate::single::unit()
            - x.units()) <= crate::single::unit() && 2 * (x.units() - n * crate::single::unit())
            <= crate::single::unit(),
        x.units() > 0x100_0000 * crate::single::unit() ==> n >= 0x100_0000,
{
    reveal(Single::rounded_off);
    reveal(Single::to_whole);
    let u: nat = crate::single::unit();
    lemma_pow2_pos(149);
    lemma2_to64();
    lemma_pow2_adds(49, 149);
    let z: nat = crate::single::size(x.units());
    let k: nat = (2 * z + u) / (2 * u);
    assert(2 * (k * u) <= 2 * z + u && 2 * z <= 2 * (k * u) + u) by (nonlinear_arith)
        requires
            k == (2 * z + u) / (2 * u),
            u > 0,
    ;
    let r: Single = x.rounded_off();
    crate::bounds::lemma_rounded(x.negative(), k * u, 1);
    lemma_not_zero(x);
    lemma_not_zero(r);
    lemma_pow2_adds(32, 17);
    assert(pow2(49) == 0x2_0000_0000_0000);
    assert(pow2(49) * u == 0x2_0000_0000_0000 * u) by (nonlinear_arith)
        requires
            pow2(49) == 0x2_0000_0000_0000,
    ;
    lemma_pow2_adds(1, 49 + 149);
    assert(pow2(1) * pow2(49 + 149) == 2 * pow2(49 + 149)) by (nonlinear_arith)
        requires
            pow2(1) == 2,
    ;
    assert(k * u <= pow2(50 + 149) * 1);
    crate::ocr::text::drawing::lemma_rounds_within(k * u, 1, 50);
    if x.zero() {
        assert(k == 0) by (nonlinear_arith)
            requires
                k == u / (2 * u),
                u > 0,
        ;
        assert(k * u == 0) by (nonlinear_arith)
            requires
                k == 0,
        ;
        crate::single::lemma_nearest_zero(1);
        assert(crate::single::step(0) == 0);
    }
    let s: nat = crate::single::size(r.units());
    if z <= 0x100_0000 * u {
        assert(k <= 0x100_0000) by (nonlinear_arith)
            requires
                k == (2 * z + u) / (2 * u),
                z <= 0x100_0000 * u,
                u > 0,
        ;
        let m: nat = crate::bounds::lemma_whole_on_scale(k);
        assert(s == k * u);
        assert(s / u == k) by (nonlinear_arith)
            requires
                s == k * u,
                u > 0,
        ;
    } else {
        assert(k >= 0x100_0000) by (nonlinear_arith)
            requires
                k == (2 * z + u) / (2 * u),
                z > 0x100_0000 * u,
                u > 0,
        ;
        let m: nat = crate::bounds::lemma_whole_on_scale(0x100_0000);
        assert(k * u >= 0x100_0000 * u) by (nonlinear_arith)
            requires
                k >= 0x100_0000,
        ;
        crate::bounds::lemma_nearest_at_least(k * u, 1, m);
        let n: nat = crate::single::nearest(k * u, 1);
        if m < n {
            crate::single::lemma_step_increases(m, n);
        }
        assert(s / u >= 0x100_0000) by (nonlinear_arith)
            requires
                s >= 0x100_0000 * u,
                u > 0,
        ;
    }
    x.rounded_off().to_whole(0, u32::MAX as int)
}

} // verus!
