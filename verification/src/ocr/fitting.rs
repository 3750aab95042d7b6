//! The sides at which pictures are fed, up to rounding, and what of a formula is ink.
use crate::close::{
    about, lemma_about, lemma_product_about, lemma_quotient_about, lemma_rounded_off,
    lemma_whole_about, ordinary,
};
use crate::ocr::formula::picture::{darkest, fitted_side, fitted_sides, ink, lightest};
use crate::ocr::text::line::line_width;
use crate::ocr::text::sizes::{
    enlargement, fed_sides, limited_side, longer, longest_side, scale_of, scaled_side, shorter,
    too_long,
};
use crate::single::Single;
use vstd::arithmetic::power2::*;
use vstd::prelude::*;

verus! {

/// What is about a fraction rounds off to a whole number near it: up to 4096 within 0.51,
/// beyond to at least 4000.
pub proof fn lemma_rounds_near(x: Single, num: int, den: int, k: int) -> (n: int)
    requires
        about(x, num, den, k),
        ordinary(num, den),
        0 <= k <= 16,
    ensures
        n == x.rounded_off().to_whole(0, u32::MAX as int),
        x.rounded_off().finite(),
        x.rounded_off().units() >= 0,
        n >= 0,
        num <= 4096 * den ==> 1000 * (n * den - num) <= 510 * den && 1000 * (num - n * den) <= 510
            * den,
        num > 4096 * den ==> n >= 4000,
{
    let u: int = crate::single::unit() as int;
    lemma_pow2_pos(149);
    lemma_about(x, num, den, k);
    let n: int = lemma_rounded_off(x);
    let v: int = x.units();
    let (vd, nu): (int, int) = (v * den, num * u);
    let (lo, hi): (int, int) = ((0x80_0000 - k) * nu, (0x80_0000 + k) * nu);
    assert(nu > 0) by (nonlinear_arith)
        requires
            nu == num * u,
            num > 0,
            u > 0,
    ;
    assert(lo >= 0x7f_fff0 * nu && hi <= 0x80_0010 * nu) by (nonlinear_arith)
        requires
            lo == (0x80_0000 - k) * nu,
            hi == (0x80_0000 + k) * nu,
            0 <= k <= 16,
            nu > 0,
    ;
    let du: int = den * u;
    if num <= 4096 * den {
        assert(nu <= 4096 * du) by (nonlinear_arith)
            requires
                nu == num * u,
                du == den * u,
                num <= 4096 * den,
                u > 0,
        ;
        assert(v <= 0x100_0000 * u) by (nonlinear_arith)
            requires
                vd == v * den,
                du == den * u,
                0x80_0000 * vd <= 0x80_0010 * (4096 * du),
                den > 0,
                u > 0,
        ;
        let nd: int = n * den;
        let ndu: int = nd * u;
        assert(2 * (ndu - vd) <= du && 2 * (vd - ndu) <= du) by (nonlinear_arith)
            requires
                ndu == nd * u,
                nd == n * den,
                vd == v * den,
                du == den * u,
                2 * (n * u - v) <= u,
                2 * (v - n * u) <= u,
                den > 0,
        ;
        assert(1000 * (nd - num) <= 510 * den) by (nonlinear_arith)
            requires
                1000 * (ndu - nu) <= 510 * du,
                ndu == nd * u,
                nu == num * u,
                du == den * u,
                u > 0,
        ;
        assert(1000 * (num - nd) <= 510 * den) by (nonlinear_arith)
            requires
                1000 * (nu - ndu) <= 510 * du,
                ndu == nd * u,
                nu == num * u,
                du == den * u,
                u > 0,
        ;
    } else if v <= 0x100_0000 * u {
        assert(nu > 4096 * du) by (nonlinear_arith)
            requires
                nu == num * u,
                du == den * u,
                num > 4096 * den,
                u > 0,
        ;
        assert(v >= 4001 * u) by (nonlinear_arith)
            requires
                vd == v * den,
                du == den * u,
                0x80_0000 * vd >= 0x7f_fff0 * (4096 * du),
                den > 0,
                u > 0,
        ;
        assert(n >= 4000) by (nonlinear_arith)
            requires
                2 * (v - n * u) <= u,
                v >= 4001 * u,
                u > 0,
        ;
    }
    n
}

/// A picture of a line is fed as wide as its sides at a height of 48 call for, up to 0.51 of a
/// pixel, and from 1 to 3200 pixels wide.
pub proof fn lemma_line_width(w: u32, h: u32)
    requires
        w >= 1,
        h >= 1,
    ensures
        ({
            let r = line_width(w, h);
            &&& 1 <= r <= 3200
            &&& r == 1 || 1000 * (r * h - 48 * w) <= 510 * h
            &&& r == 3200 || 1000 * (48 * w - r * h) <= 510 * h
        }),
{
    lemma_whole_about(48);
    lemma_whole_about(w as int);
    lemma_whole_about(h as int);
    let product: Single = Single::product(Single::whole(48), Single::whole(w as int));
    lemma_product_about(Single::whole(48), Single::whole(w as int), 48, 1, 1, w as int, 1, 1);
    assert(1int * 1 == 1);
    let num: int = 48 * w;
    lemma_quotient_about(product, Single::whole(h as int), num, 1, 3, h as int, 1, 1);
    assert(num * 1 == num && 1 * (h as int) == h);
    let n: int = lemma_rounds_near(
        Single::quotient(product, Single::whole(h as int)),
        num,
        h as int,
        5,
    );
    let r: int = line_width(w, h);
    let d: int = h as int;
    if n > 3200 {
        assert(r == 3200);
        if num <= 4096 * d {
            assert(n * d >= 3201 * d) by (nonlinear_arith)
                requires
                    n >= 3201,
                    d > 0,
            ;
        }
        assert(r * d == 3200 * d);
    } else if n >= 1 {
        assert(r == n);
    } else {
        assert(r == 1);
        if num <= 4096 * d {
            assert(n * d == 0) by (nonlinear_arith)
                requires
                    n == 0,
            ;
        }
        assert(r * d == d);
    }
}

/// The longer side of a formula is fed 384 pixels long and the other in proportion, up to 0.51
/// of a pixel, and at least 1 pixel long.
pub proof fn lemma_fitted(w: u32, h: u32)
    requires
        w >= 1,
        h >= 1,
    ensures
        ({
            let (a, b) = fitted_sides(w, h);
            let l = if w > h {
                w
            } else {
                h
            };
            &&& w == l ==> a == 384
            &&& h == l ==> b == 384
            &&& 1 <= a <= 384
            &&& 1 <= b <= 384
            &&& a == 1 || 1000 * (a * l - 384 * w) <= 510 * l
            &&& b == 1 || 1000 * (b * l - 384 * h) <= 510 * l
            &&& 1000 * (384 * w - a * l) <= 510 * l
            &&& 1000 * (384 * h - b * l) <= 510 * l
        }),
{
    let l: int = if w > h {
        w as int
    } else {
        h as int
    };
    let full: Single = Single::whole(384);
    lemma_whole_about(384);
    lemma_whole_about(w as int);
    lemma_whole_about(h as int);
    let (p, q): (Single, Single) = (
        Single::quotient(full, Single::whole(w as int)),
        Single::quotient(full, Single::whole(h as int)),
    );
    lemma_quotient_about(full, Single::whole(w as int), 384, 1, 1, w as int, 1, 1);
    lemma_quotient_about(full, Single::whole(h as int), 384, 1, 1, h as int, 1, 1);
    assert(384int * 1 == 384 && 1 * (w as int) == w && 1 * (h as int) == h);
    let scale: Single = Single::smaller(p, q);
    assert(about(scale, 384, l, 3)) by {
        lemma_about(p, 384, w as int, 3);
        lemma_about(q, 384, h as int, 3);
        let (x, y, a, b): (int, int, int, int) = (p.units(), q.units(), w as int, h as int);
        let s: int = scale.units();
        if w > h {
            assert(s * a <= x * a && y * b <= y * a) by (nonlinear_arith)
                requires
                    s <= x,
                    0 < b <= a,
                    y >= 0,
            ;
        } else {
            assert(s * b <= y * b && x * a <= x * b) by (nonlinear_arith)
                requires
                    s <= y,
                    0 < a <= b,
                    x >= 0,
            ;
        }
    }
    lemma_fitted_side(w, scale, l);
    lemma_fitted_side(h, scale, l);
}

proof fn lemma_fitted_side(side: u32, scale: Single, l: int)
    requires
        1 <= side <= l <= u32::MAX,
        about(scale, 384, l, 3),
    ensures
        ({
            let r = fitted_side(side, scale);
            &&& 1 <= r <= 384
            &&& side == l ==> r == 384
            &&& r == 1 || 1000 * (r * l - 384 * side) <= 510 * l
            &&& 1000 * (384 * side - r * l) <= 510 * l
        }),
{
    lemma_whole_about(side as int);
    lemma_product_about(Single::whole(side as int), scale, side as int, 1, 1, 384, l, 3);
    let num: int = side * 384;
    assert(1 * l == l);
    let n: int = lemma_rounds_near(Single::product(Single::whole(side as int), scale), num, l, 5);
    let r: int = fitted_side(side, scale);
    if n > 384 {
        assert(n * l >= 385 * l) by (nonlinear_arith)
            requires
                n >= 385,
                l > 0,
        ;
        assert(r * l == 384 * l);
    } else if n < 1 {
        assert(n * l == 0) by (nonlinear_arith)
            requires
                n == 0,
        ;
        assert(r * l == l);
    }
    if side == l {
        assert(n >= 384) by (nonlinear_arith)
            requires
                1000 * (384 * l - n * l) <= 510 * l,
                l > 0,
        ;
    }
}

/// A pixel of a formula is ink where its brightness above the darkest pixel is less than 200
/// of 255 parts of what the lightest one has. Where it is just that, rounding decides.
pub proof fn lemma_ink(v: u8, dark: u8, light: u8)
    requires
        dark <= v <= light,
        dark < light,
        51 * (v - dark) != 40 * (light - dark),
    ensures
        ink(v, dark, light) <==> 51 * (v - dark) < 40 * (light - dark),
{
    let u: int = crate::single::unit() as int;
    lemma_pow2_pos(149);
    let (a, b): (int, int) = (v - dark, light - dark);
    crate::bounds::lemma_whole(v as int);
    crate::bounds::lemma_whole(dark as int);
    crate::bounds::lemma_whole(light as int);
    let (x, y): (Single, Single) = (
        Single::difference(Single::whole(v as int), Single::whole(dark as int)),
        Single::difference(Single::whole(light as int), Single::whole(dark as int)),
    );
    crate::bounds::lemma_exact_difference(
        Single::whole(v as int),
        Single::whole(dark as int),
        v as int,
        dark as int,
    );
    crate::bounds::lemma_exact_difference(
        Single::whole(light as int),
        Single::whole(dark as int),
        light as int,
        dark as int,
    );
    let full: Single = Single { bits: crate::ocr::tensor::BYTE_MAX };
    let limit: Single = Single { bits: crate::ocr::formula::picture::INK_LIMIT };
    crate::ocr::decimals::lemma_constants();
    lemma_nearest_whole(crate::ocr::tensor::BYTE_MAX, 255);
    lemma_nearest_whole(crate::ocr::formula::picture::INK_LIMIT, 200);
    lemma_exact_about(y, b);
    lemma_exact_about(full, 255);
    let q: Single = Single::quotient(x, y);
    let p: Single = Single::product(q, full);
    if a == 0 {
        assert(0 * u == 0);
        lemma_about(y, b, 1, 0);
        lemma_pow2_pos(100);
        assert(0 * u <= pow2(0 + 149) * y.units()) by (nonlinear_arith)
            requires
                y.units() >= 0,
                pow2(0 + 149) >= 0,
        ;
        crate::close::lemma_quotient_within(x, y, 0);
        crate::close::lemma_quotient_close(x, y);
        lemma_about(full, 255, 1, 0);
        lemma2_to64();
        lemma_pow2_adds(8, 149);
        lemma_pow2_pos(8 + 149);
        crate::ocr::text::drawing::lemma_area_within(q, full, 8);
        crate::close::lemma_product_close(q, full);
        assert(0 * full.units() == 0);
    } else {
        lemma_exact_about(x, a);
        lemma_quotient_about(x, y, a, 1, 0, b, 1, 0);
        assert(a * 1 == a && 1 * b == b);
        lemma_product_about(q, full, a, b, 1, 255, 1, 0);
        assert(b * 1 == b);
        let (t, c): (int, int) = (p.units(), a * 255);
        let (tb, cu): (int, int) = (t * b, c * u);
        if 51 * a < 40 * b {
            assert(t < 200 * u) by (nonlinear_arith)
                requires
                    0x80_0000 * (t * b) <= (0x80_0000 + 2) * (c * u),
                    c <= 200 * b - 5,
                    0 < b <= 255,
                    u > 0,
            ;
        } else {
            assert(t > 200 * u) by (nonlinear_arith)
                requires
                    0x80_0000 * (t * b) >= (0x80_0000 - 2) * (c * u),
                    c >= 200 * b + 5,
                    0 < b <= 255,
                    u > 0,
            ;
        }
    }
}

pub proof fn lemma_nearest_whole(bits: u32, n: nat)
    requires
        crate::ocr::decimals::nearest_to(bits, n, 1),
        0 < n <= 0x1000,
    ensures
        crate::bounds::is_whole(Single { bits }, n as int),
{
    reveal(Single::whole);
    crate::bounds::lemma_whole(n as int);
    assert(Single::whole(n as int) == Single { bits });
}

proof fn lemma_exact_about(x: Single, n: int)
    requires
        crate::bounds::is_whole(x, n),
        n > 0,
    ensures
        about(x, n, 1, 0),
{
    assert(x.units() * 1 == n * crate::single::unit());
}

/// The darkest pixel is as dark as any, and the lightest as light.
pub proof fn lemma_darkest_and_lightest(data: Seq<u8>)
    requires
        data.len() > 0,
    ensures
        data.contains(darkest(data)),
        data.contains(lightest(data)),
        forall|i: int|
            0 <= i < data.len() ==> darkest(data) <= #[trigger] data[i] <= lightest(data),
    decreases data.len(),
{
    let rest: Seq<u8> = data.drop_last();
    assert(data.last() == data[data.len() - 1]);
    if rest.len() > 0 {
        lemma_darkest_and_lightest(rest);
        let i: int = choose|i: int| 0 <= i < rest.len() && rest[i] == darkest(rest);
        let j: int = choose|j: int| 0 <= j < rest.len() && rest[j] == lightest(rest);
        assert(data[i] == darkest(rest) && data[j] == lightest(rest));
        assert forall|k: int| 0 <= k < data.len() implies darkest(data) <= #[trigger] data[k]
            <= lightest(data) by {
            if k < rest.len() {
                assert(rest[k] == data[k]);
            }
        }
    } else {
        assert(data[0] == darkest(data) && data[0] == lightest(data));
    }
}

/// By how much a page is scaled, as a fraction: so that its shorter side has 736 pixels where
/// it has fewer, but no further than its longer side can have `max_side`.
pub open spec fn page_scale(w: int, h: int, max_side: int) -> (int, int) {
    let (s, l) = if w < h {
        (w, h)
    } else {
        (h, w)
    };
    let (a, b) = if s < 736 {
        (736, s)
    } else {
        (1, 1)
    };
    if l * a > max_side * b {
        (max_side, l)
    } else {
        (a, b)
    }
}

/// A page is fed with both sides scaled alike and rounded to a multiple of 32: each is off by
/// at most 16.32 pixels, except that it has at least 32 and at most as many as the largest
/// multiple of 32 within `max_side`.
pub proof fn lemma_fed_sides(w: u32, h: u32, max_side: u32)
    requires
        w >= 1,
        h >= 1,
        736 <= max_side <= 4000,
    ensures
        ({
            let (a, b) = fed_sides(w, h, max_side);
            let (num, den) = page_scale(w as int, h as int, max_side as int);
            let last = max_side - max_side % 32;
            &&& a % 32 == 0 && 32 <= a <= last
            &&& b % 32 == 0 && 32 <= b <= last
            &&& a == 32 || 1000 * (a * den - w * num) <= 16_320 * den
            &&& b == 32 || 1000 * (b * den - h * num) <= 16_320 * den
            &&& a == last || 1000 * (w * num - a * den) <= 16_320 * den
            &&& b == last || 1000 * (h * num - b * den) <= 16_320 * den
        }),
{
    let (num, den): (int, int) = page_scale(w as int, h as int, max_side as int);
    let scale: Single = scale_of(w, h, max_side);
    lemma_page_scale(w, h, max_side);
    let (s, l, m): (int, int, int) = (shorter(w, h) as int, longer(w, h) as int, max_side as int);
    assert(l * num <= m * den) by {
        assert(l * m == m * l) by (nonlinear_arith);
    }
    assert(w * num <= m * den && h * num <= m * den) by {
        let (x, y): (int, int) = (w as int, h as int);
        assert(x * num <= l * num && y * num <= l * num) by (nonlinear_arith)
            requires
                x <= l,
                y <= l,
                num > 0,
        ;
    }
    lemma_limited_side(w, scale, max_side, num, den);
    lemma_limited_side(h, scale, max_side, num, den);
}

proof fn lemma_limited_side(side: u32, scale: Single, max_side: u32, num: int, den: int)
    requires
        side >= 1,
        736 <= max_side <= 4000,
        about(scale, num, den, 9),
        0 < num <= 4000,
        0 < den <= u32::MAX,
        side * num <= max_side * den,
    ensures
        ({
            let r = limited_side(side, scale, max_side);
            let last = max_side - max_side % 32;
            &&& r % 32 == 0 && 32 <= r <= last
            &&& r == 32 || 1000 * (r * den - side * num) <= 16_320 * den
            &&& r == last || 1000 * (side * num - r * den) <= 16_320 * den
        }),
{
    let u: int = crate::single::unit() as int;
    lemma_pow2_pos(149);
    let x: int = side as int;
    let c: int = x * num;
    assert(0 < c <= 0xffff_ffff * 4000) by (nonlinear_arith)
        requires
            c == x * num,
            0 < x <= 0xffff_ffff,
            0 < num <= 4000,
    ;
    lemma_whole_about(x);
    lemma_product_about(Single::whole(x), scale, x, 1, 1, num, den, 9);
    assert(1 * den == den);
    let product: Single = Single::product(Single::whole(x), scale);
    let step: Single = Single { bits: crate::ocr::text::sizes::THIRTY_TWO };
    crate::ocr::decimals::lemma_constants();
    lemma_nearest_whole(crate::ocr::text::sizes::THIRTY_TWO, 32);
    lemma_exact_about(step, 32);
    lemma_quotient_about(product, step, c, den, 11, 32, 1, 0);
    assert(c * 1 == c);
    let q: Single = Single::quotient(product, step);
    let d: int = den * 32;
    let top: int = max_side as int;
    assert(c <= 4096 * d) by (nonlinear_arith)
        requires
            c <= top * den,
            top <= 4000,
            d == den * 32,
            den > 0,
    ;
    let n: int = lemma_rounds_near(q, c, d, 12);
    let count: Single = q.rounded_off();
    let one: Single = Single { bits: crate::single::ONE };
    crate::bounds::lemma_one();
    reveal(Single::to_whole);
    crate::close::lemma_not_zero(count);
    crate::close::lemma_not_zero(one);
    let v: int = count.units();
    assert(u / u == 1) by (nonlinear_arith)
        requires
            u > 0,
    ;
    if v < u {
        assert(v / u == 0) by (nonlinear_arith)
            requires
                0 <= v < u,
        ;
        assert(n == 0);
    } else {
        assert(v / u >= 1) by (nonlinear_arith)
            requires
                v >= u,
                u > 0,
        ;
        assert(n >= 1);
    }
    let k: int = if n < 1 {
        1
    } else {
        n
    };
    assert(scaled_side(side, scale) == k * 32);
    let last: int = top - top % 32;
    assert(longest_side(max_side) == last);
    let r: int = limited_side(side, scale, max_side);
    let (nd, rd): (int, int) = (n * d, r * den);
    assert(nd == (32 * n) * den) by (nonlinear_arith)
        requires
            nd == n * d,
            d == den * 32,
    ;
    if n < 1 {
        assert(nd == 0) by (nonlinear_arith)
            requires
                nd == n * d,
                n == 0,
        ;
        assert(rd >= 0) by (nonlinear_arith)
            requires
                rd == r * den,
                r >= 0,
                den > 0,
        ;
    } else if k * 32 >= last {
        let e: int = 32 * n;
        assert(e * den >= rd) by (nonlinear_arith)
            requires
                e >= r,
                rd == r * den,
                den > 0,
        ;
    }
}

proof fn lemma_page_scale(w: u32, h: u32, max_side: u32)
    requires
        w >= 1,
        h >= 1,
        736 <= max_side <= 4000,
    ensures
        ({
            let (num, den) = page_scale(w as int, h as int, max_side as int);
            &&& about(scale_of(w, h, max_side), num, den, 9)
            &&& 0 < num <= 4000
            &&& 0 < den <= u32::MAX
        }),
{
    let u: int = crate::single::unit() as int;
    lemma_pow2_pos(149);
    let (s, l, m): (int, int, int) = (shorter(w, h) as int, longer(w, h) as int, max_side as int);
    let (a, b): (int, int) = if s < 736 {
        (736, s)
    } else {
        (1, 1)
    };
    let e: Single = enlargement(w, h);
    assert(about(e, a, b, 3)) by {
        if s < 736 {
            lemma_whole_about(736);
            lemma_whole_about(s);
            lemma_quotient_about(Single::whole(736), Single::whole(s), 736, 1, 1, s, 1, 1);
            assert(1 * s == s);
        } else {
            crate::bounds::lemma_one();
            assert(1 * u == u);
        }
    }
    lemma_whole_about(l);
    lemma_product_about(Single::whole(l), e, l, 1, 1, a, b, 3);
    assert(1 * b == b);
    let p: Single = Single::product(Single::whole(l), e);
    crate::bounds::lemma_whole(m);
    lemma_whole_about(m);
    lemma_quotient_about(Single::whole(m), Single::whole(l), m, 1, 1, l, 1, 1);
    assert(m * 1 == m && 1 * l == l);
    let q: Single = Single::quotient(Single::whole(m), Single::whole(l));
    lemma_about(e, a, b, 3);
    lemma_about(q, m, l, 3);
    let (x, y, t): (int, int, int) = (e.units(), q.units(), p.units());
    let (la, mb): (int, int) = (l * a, m * b);
    if too_long(w, h, max_side) {
        if la <= mb {
            lemma_at_limit(y, t, m, l, a, b, u);
        }
    } else if la > mb {
        lemma_within_limit(x, t, m, l, a, b, u);
    }
}

/// What is just too long is scaled by as much as what is just not.
proof fn lemma_at_limit(y: int, t: int, m: int, l: int, a: int, b: int, u: int)
    requires
        u > 0,
        m > 0,
        l > 0,
        a > 0,
        b > 0,
        y >= 0,
        l * a <= m * b,
        t > m * u,
        0x80_0000 * (t * b) <= (0x80_0000 + 5) * ((l * a) * u),
        (0x80_0000 - 3) * (m * u) <= 0x80_0000 * (y * l),
        0x80_0000 * (y * l) <= (0x80_0000 + 3) * (m * u),
    ensures
        (0x80_0000 - 9) * (a * u) <= 0x80_0000 * (y * b),
        0x80_0000 * (y * b) <= (0x80_0000 + 9) * (a * u),
{
    let (la, mb): (int, int) = (l * a, m * b);
    assert(0x80_0000 * mb <= 0x80_0005 * la) by (nonlinear_arith)
        requires
            0x80_0000 * (t * b) <= 0x80_0005 * (la * u),
            t > m * u,
            mb == m * b,
            b > 0,
            u > 0,
    ;
    let (yl, mu, yb, au): (int, int, int, int) = (y * l, m * u, y * b, a * u);
    let (w, lau, mbu): (int, int, int) = (yl * b, la * u, mb * u);
    assert(0x7f_fffd * mbu <= 0x80_0000 * w && 0x80_0000 * w <= 0x80_0003 * mbu)
        by (nonlinear_arith)
        requires
            w == yl * b,
            mbu == mb * u,
            mb == m * b,
            mu == m * u,
            0x7f_fffd * mu <= 0x80_0000 * yl,
            0x80_0000 * yl <= 0x80_0003 * mu,
            b > 0,
    ;
    assert(lau <= mbu && 0x80_0000 * mbu <= 0x80_0005 * lau) by (nonlinear_arith)
        requires
            lau == la * u,
            mbu == mb * u,
            la <= mb,
            0x80_0000 * mb <= 0x80_0005 * la,
            u > 0,
    ;
    assert(lau > 0) by (nonlinear_arith)
        requires
            lau == la * u,
            la == l * a,
            l > 0,
            a > 0,
            u > 0,
    ;
    assert(w == yb * l && lau == au * l) by (nonlinear_arith)
        requires
            w == yl * b,
            yl == y * l,
            yb == y * b,
            lau == la * u,
            la == l * a,
            au == a * u,
    ;
    assert(0x80_0003 * mbu <= 0x80_0009 * lau) by (nonlinear_arith)
        requires
            0x80_0000 * mbu <= 0x80_0005 * lau,
            lau > 0,
    ;
    assert(0x80_0000 * w <= 0x80_0009 * lau && 0x80_0000 * w >= 0x7f_fff7 * lau);
    assert(0x80_0000 * yb <= 0x80_0009 * au && 0x80_0000 * yb >= 0x7f_fff7 * au)
        by (nonlinear_arith)
        requires
            0x80_0000 * (yb * l) <= 0x80_0009 * (au * l),
            0x80_0000 * (yb * l) >= 0x7f_fff7 * (au * l),
            l > 0,
    ;
}

proof fn lemma_within_limit(x: int, t: int, m: int, l: int, a: int, b: int, u: int)
    requires
        u > 0,
        m > 0,
        l > 0,
        a > 0,
        b > 0,
        x >= 0,
        l * a > m * b,
        t <= m * u,
        (0x80_0000 - 5) * ((l * a) * u) <= 0x80_0000 * (t * b),
        (0x80_0000 - 3) * (a * u) <= 0x80_0000 * (x * b),
        0x80_0000 * (x * b) <= (0x80_0000 + 3) * (a * u),
    ensures
        (0x80_0000 - 9) * (m * u) <= 0x80_0000 * (x * l),
        0x80_0000 * (x * l) <= (0x80_0000 + 9) * (m * u),
{
    let (la, mb): (int, int) = (l * a, m * b);
    assert(0x7f_fffb * la <= 0x80_0000 * mb) by (nonlinear_arith)
        requires
            0x7f_fffb * (la * u) <= 0x80_0000 * (t * b),
            t <= m * u,
            mb == m * b,
            b > 0,
            u > 0,
    ;
    let (xb, au, xl, mu): (int, int, int, int) = (x * b, a * u, x * l, m * u);
    let (w, lau, mbu): (int, int, int) = (xb * l, la * u, mb * u);
    assert(0x7f_fffd * lau <= 0x80_0000 * w && 0x80_0000 * w <= 0x80_0003 * lau)
        by (nonlinear_arith)
        requires
            w == xb * l,
            lau == la * u,
            la == l * a,
            au == a * u,
            0x7f_fffd * au <= 0x80_0000 * xb,
            0x80_0000 * xb <= 0x80_0003 * au,
            l > 0,
    ;
    assert(mbu <= lau && 0x7f_fffb * lau <= 0x80_0000 * mbu) by (nonlinear_arith)
        requires
            lau == la * u,
            mbu == mb * u,
            la >= mb,
            0x7f_fffb * la <= 0x80_0000 * mb,
            u > 0,
    ;
    assert(mbu > 0) by (nonlinear_arith)
        requires
            mbu == mb * u,
            mb == m * b,
            m > 0,
            b > 0,
            u > 0,
    ;
    assert(w == xl * b && mbu == mu * b) by (nonlinear_arith)
        requires
            w == xb * l,
            xb == x * b,
            xl == x * l,
            mbu == mb * u,
            mb == m * b,
            mu == m * u,
    ;
    assert(0x80_0000 * w <= 0x80_0009 * mbu && 0x80_0000 * w >= 0x7f_fff7 * mbu);
    assert(0x80_0000 * xl <= 0x80_0009 * mu && 0x80_0000 * xl >= 0x7f_fff7 * mu)
        by (nonlinear_arith)
        requires
            0x80_0000 * (xl * b) <= 0x80_0009 * (mu * b),
            0x80_0000 * (xl * b) >= 0x7f_fff7 * (mu * b),
            b > 0,
    ;
}

} // verus!
