//! What the models are fed, pixel by pixel.
use crate::ocr::decimals::{lemma_constants, nearest_to};
use crate::ocr::tensor::{fraction, fractions, normalised, planes, tones};
use crate::single::Single;
use vstd::arithmetic::power2::*;
use vstd::prelude::*;

verus! {

/// A colour picture's first plane holds its blue bytes, the second its green and the third
/// its red ones, each in the order of the pixels and looked up in the plane's table.
pub proof fn lemma_planes(data: Seq<u8>, plane: int, tables: Seq<Seq<Single>>, i: int)
    requires
        0 <= i < plane,
    ensures
        ({
            let r = planes(data, plane, tables);
            &&& r.len() == 3 * plane
            &&& r[i] == tables[0][data[3 * i + 2] as int]
            &&& r[plane + i] == tables[1][data[3 * i + 1] as int]
            &&& r[2 * plane + i] == tables[2][data[3 * i] as int]
        }),
{
    vstd::arithmetic::div_mod::lemma_fundamental_div_mod_converse(i, plane, 0, i);
    assert(1 * plane + i == plane + i);
    vstd::arithmetic::div_mod::lemma_fundamental_div_mod_converse(plane + i, plane, 1, i);
    vstd::arithmetic::div_mod::lemma_fundamental_div_mod_converse(2 * plane + i, plane, 2, i);
}

/// A byte's fraction is a 255th of it, up to three parts in `2^24`.
pub proof fn lemma_fraction_of(v: u8)
    ensures
        ({
            let f = fraction(v);
            let u = crate::single::unit();
            &&& f.finite()
            &&& 0 <= f.units() <= 2 * u
            &&& 0x100_0000 * (255 * f.units() - v * u) <= 765 * u
            &&& 0x100_0000 * (v * u - 255 * f.units()) <= 765 * u
        }),
{
    let u: int = crate::single::unit() as int;
    lemma_pow2_pos(149);
    lemma2_to64();
    lemma_pow2_adds(1, 149);
    lemma_pow2_strictly_increases(23, 149);
    let (a, b): (Single, Single) = (
        Single::whole(v as int),
        Single { bits: crate::ocr::tensor::BYTE_MAX },
    );
    crate::bounds::lemma_whole(v as int);
    assert(b.units() == 255 * u) by {
        crate::single::lemma_step_scaled(0xff_0000, 133);
        lemma_pow2_adds(16, 133);
        assert(0xff_0000 * pow2(133) == 255 * (0x1_0000 * pow2(133)));
        assert(pow2(16) * pow2(133) == 0x1_0000 * pow2(133)) by (nonlinear_arith)
            requires
                pow2(16) == 0x1_0000,
        ;
    }
    let n: int = v as int;
    let x: int = n * u;
    assert(0 <= x <= 255 * u) by (nonlinear_arith)
        requires
            x == n * u,
            0 <= n <= 255,
            u > 0,
    ;
    let p: int = 2 * u;
    assert(x * u <= p * (255 * u)) by (nonlinear_arith)
        requires
            x <= 255 * u,
            p == 2 * u,
            u > 0,
            x >= 0,
    ;
    crate::close::lemma_quotient_within(a, b, 1);
    crate::close::lemma_quotient_close(a, b);
    let f: int = fraction(v).units();
    let z: int = crate::close::scale_of(fraction(v)) as int;
    assert(0x100_0000 * (255 * f - x) <= 765 * u) by (nonlinear_arith)
        requires
            0x100_0000 * (f * (255 * u) - x * u) <= z * (255 * u),
            z <= 3 * u,
            u > 0,
    ;
    assert(0x100_0000 * (x - 255 * f) <= 765 * u) by (nonlinear_arith)
        requires
            0x100_0000 * (x * u - f * (255 * u)) <= z * (255 * u),
            z <= 3 * u,
            u > 0,
    ;
}

/// A normalised byte is its fraction less the mean, over the deviation, up to one part in
/// `2^20` before the division.
pub proof fn lemma_normalised(v: u8, mean: Single, deviation: Single)
    requires
        mean.finite(),
        deviation.finite(),
        0 <= mean.units() <= crate::single::unit(),
        0 < deviation.units() <= crate::single::unit(),
        16 * deviation.units() >= crate::single::unit(),
    ensures
        ({
            let r = normalised(v, mean, deviation);
            let u = crate::single::unit();
            let got = 255 * (r.units() * deviation.units());
            let want = (v * u - 255 * mean.units()) * u;
            &&& r.finite()
            &&& -64 * u <= r.units() <= 64 * u
            &&& 0x10_0000 * (got - want) <= 255 * (u * u)
            &&& 0x10_0000 * (want - got) <= 255 * (u * u)
        }),
{
    let u: int = crate::single::unit() as int;
    lemma_pow2_pos(149);
    lemma2_to64();
    lemma_pow2_adds(2, 149);
    lemma_pow2_adds(6, 149);
    lemma_pow2_strictly_increases(23, 149);
    lemma_fraction_of(v);
    let f: Single = fraction(v);
    assert(crate::ocr::text::drawing::within(f, 2) && crate::ocr::text::drawing::within(mean, 2));
    crate::ocr::text::drawing::lemma_difference_within(f, mean, 2);
    let d: Single = Single::difference(f, mean);
    crate::close::lemma_difference_close(f, mean);
    let (x, m, s): (int, int, int) = (d.units(), mean.units(), deviation.units());
    assert(-3 * u <= x <= 3 * u);
    let z: int = crate::single::size(x) as int;
    assert(z * u <= (64 * u) * s) by (nonlinear_arith)
        requires
            0 <= z <= 3 * u,
            16 * s >= u,
            u > 0,
    ;
    crate::close::lemma_quotient_within(d, deviation, 6);
    crate::close::lemma_quotient_close(d, deviation);
    let r: Single = normalised(v, mean, deviation);
    let (q, w): (int, int) = (r.units(), crate::close::scale_of(r) as int);
    let (qs, uu): (int, int) = (q * s, u * u);
    // the quotient times the deviation is at most four
    let a: int = crate::single::size(q) as int;
    assert(w * s <= a * s + uu) by (nonlinear_arith)
        requires
            w <= a + 0x80_0000,
            0 < s <= u,
            0x80_0000 <= u,
            uu == u * u,
    ;
    assert(-3 * uu <= x * u <= 3 * uu) by (nonlinear_arith)
        requires
            -3 * u <= x <= 3 * u,
            uu == u * u,
            u > 0,
    ;
    assert(a * s == qs || a * s == -qs) by (nonlinear_arith)
        requires
            a == q || a == -q,
            qs == q * s,
    ;
    assert(a * s >= 0) by (nonlinear_arith)
        requires
            a >= 0,
            s > 0,
    ;
    assert(uu > 0) by (nonlinear_arith)
        requires
            uu == u * u,
            u > 0,
    ;
    assert(w * s <= 5 * uu);
    // and so the errors add up
    let xu: int = x * u;
    let (vu, g): (int, int) = (v * u, f.units());
    assert(0x100_0000 * (255 * xu - (vu - 255 * m) * u) <= 1530 * uu) by (nonlinear_arith)
        requires
            xu == x * u,
            uu == u * u,
            0x100_0000 * (255 * x - (vu - 255 * m)) <= 1530 * u,
            u > 0,
    ;
    assert(0x100_0000 * ((vu - 255 * m) * u - 255 * xu) <= 1530 * uu) by (nonlinear_arith)
        requires
            xu == x * u,
            uu == u * u,
            0x100_0000 * ((vu - 255 * m) - 255 * x) <= 1530 * u,
            u > 0,
    ;
}

/// The number is the byte's fraction of 255 less `m / d`, over `s / d`, up to one part in `2^17`
/// before the division.
pub open spec fn tone(r: Single, v: u8, m: int, s: int, d: int) -> bool {
    let u = crate::single::unit() as int;
    &&& r.finite()
    &&& 0x2_0000 * (255 * (s * r.units()) - (d * v - 255 * m) * u) <= 255 * (d * u)
    &&& 0x2_0000 * ((d * v - 255 * m) * u - 255 * (s * r.units())) <= 255 * (d * u)
}

/// A number nearest to a fraction of at most one is at most one, and errs by at most one part
/// in `2^24`.
proof fn lemma_nearest_to(bits: u32, num: nat, den: nat)
    requires
        nearest_to(bits, num, den),
        0 < num <= den <= 0x1_0000,
    ensures
        ({
            let x = (Single { bits });
            let u = crate::single::unit() as int;
            &&& x.finite()
            &&& 0 < x.units() <= u
            &&& 0x100_0000 * (den * x.units() - num * u) <= den * x.units()
            &&& 0x100_0000 * (num * u - den * x.units()) <= den * x.units()
        }),
{
    let u: nat = crate::single::unit();
    lemma_pow2_pos(149);
    lemma2_to64();
    let nu: nat = num * u;
    assert(nu <= u * den) by (nonlinear_arith)
        requires
            nu == num * u,
            num <= den,
    ;
    lemma_pow2_adds(0, 149);
    assert(1 * u == u);
    crate::ocr::text::drawing::lemma_rounds_within(nu, den, 0);
    crate::bounds::lemma_rounded(false, nu, den);
    crate::bounds::lemma_nearest_close(nu, den);
    let x: int = (Single { bits }).units();
    // not tiny: at least a part in 2^17
    lemma_pow2_adds(125, 24);
    lemma_pow2_strictly_increases(23, 125);
    let h: int = pow2(125) as int;
    assert(pow2(125) * pow2(24) == 0x100_0000 * pow2(125)) by (nonlinear_arith)
        requires
            pow2(24) == 0x100_0000,
    ;
    assert(nu >= u) by (nonlinear_arith)
        requires
            nu == num * u,
            num >= 1,
    ;
    let xd: int = x * den;
    if x < 0x80_0000 {
        assert(xd <= 0x80_0000 * 0x1_0000) by (nonlinear_arith)
            requires
                xd == x * den,
                0 <= x <= 0x80_0000,
                den <= 0x1_0000,
        ;
        lemma_pow2_strictly_increases(64, 125);
        assert(false);
    }
    assert(x * den == den * x) by (nonlinear_arith);
}

/// A normalised byte, where mean and deviation are nearest to decimal fractions.
pub proof fn lemma_tone(v: u8, mean: Single, deviation: Single, m: nat, s: nat, d: nat)
    requires
        nearest_to(mean.bits, m, d),
        nearest_to(deviation.bits, s, d),
        0 < m <= d <= 10_000,
        s <= d <= 10 * s,
    ensures
        tone(normalised(v, mean, deviation), v, m as int, s as int, d as int),
{
    let u: int = crate::single::unit() as int;
    lemma_pow2_pos(149);
    lemma_nearest_to(mean.bits, m, d);
    lemma_nearest_to(deviation.bits, s, d);
    let (a, b): (int, int) = (mean.units(), deviation.units());
    assert(16 * b >= u) by (nonlinear_arith)
        requires
            0x100_0000 * (s * u - d * b) <= d * b,
            d <= 10 * s,
            d > 0,
            b > 0,
            u > 0,
    ;
    lemma_normalised(v, mean, deviation);
    let r: int = normalised(v, mean, deviation).units();
    lemma_tone_sums(r, a, b, v as int, m as int, s as int, d as int, u);
}

proof fn lemma_tone_sums(r: int, a: int, b: int, v: int, m: int, s: int, d: int, u: int)
    requires
        u > 0,
        0 < a <= u,
        0 < b <= u,
        0 < d,
        -64 * u <= r <= 64 * u,
        0x10_0000 * (255 * (r * b) - (v * u - 255 * a) * u) <= 255 * (u * u),
        0x10_0000 * ((v * u - 255 * a) * u - 255 * (r * b)) <= 255 * (u * u),
        0x100_0000 * (d * b - s * u) <= d * b,
        0x100_0000 * (s * u - d * b) <= d * b,
        0x100_0000 * (d * a - m * u) <= d * a,
        0x100_0000 * (m * u - d * a) <= d * a,
    ensures
        0x2_0000 * (255 * (s * r) - (d * v - 255 * m) * u) <= 255 * (d * u),
        0x2_0000 * ((d * v - 255 * m) * u - 255 * (s * r)) <= 255 * (d * u),
{
    let (uu, rb): (int, int) = (u * u, r * b);
    let duu: int = d * uu;
    let w: int = (v * u - 255 * a) * u;
    // all of it times d
    let (drb, dw): (int, int) = (d * rb, d * w);
    assert(0x10_0000 * (255 * drb - dw) <= 255 * duu && 0x10_0000 * (dw - 255 * drb) <= 255 * duu)
        by (nonlinear_arith)
        requires
            drb == d * rb,
            dw == d * w,
            duu == d * uu,
            0x10_0000 * (255 * rb - w) <= 255 * uu,
            0x10_0000 * (w - 255 * rb) <= 255 * uu,
            d > 0,
    ;
    // the deviation
    let (db, su): (int, int) = (d * b, s * u);
    let e: int = db - su;
    let du: int = d * u;
    assert(db <= du && d * a <= du) by (nonlinear_arith)
        requires
            db == d * b,
            du == d * u,
            0 < b <= u,
            0 < a <= u,
            d > 0,
    ;
    let re: int = r * e;
    assert(du * u == duu) by (nonlinear_arith)
        requires
            du == d * u,
            duu == d * uu,
            uu == u * u,
    ;
    assert(0x100_0000 * re <= 64 * duu && 0x100_0000 * re >= -64 * duu) by {
        let k: int = 0x100_0000 * e;
        assert(r * k <= 64 * (du * u) && r * k >= -64 * (du * u)) by (nonlinear_arith)
            requires
                -64 * u <= r <= 64 * u,
                -du <= k <= du,
                u > 0,
        ;
        assert(r * k == 0x100_0000 * re) by (nonlinear_arith)
            requires
                k == 0x100_0000 * e,
                re == r * e,
        ;
    }
    let rsu: int = (s * r) * u;
    assert(drb == rsu + re) by (nonlinear_arith)
        requires
            drb == d * rb,
            rb == r * b,
            rsu == (s * r) * u,
            re == r * e,
            e == db - su,
            db == d * b,
            su == s * u,
    ;
    // the mean
    let f: int = d * a - m * u;
    let fu: int = f * u;
    assert(0x100_0000 * fu <= duu && 0x100_0000 * fu >= -duu) by (nonlinear_arith)
        requires
            fu == f * u,
            0x100_0000 * f <= du,
            0x100_0000 * f >= -du,
            du * u == duu,
            u > 0,
    ;
    let want: int = (d * v - 255 * m) * u;
    let wu: int = want * u;
    assert(dw == wu - 255 * fu) by (nonlinear_arith)
        requires
            dw == d * w,
            w == (v * u - 255 * a) * u,
            wu == want * u,
            want == (d * v - 255 * m) * u,
            fu == f * u,
            f == d * a - m * u,
    ;
    assert(duu >= 0) by (nonlinear_arith)
        requires
            duu == d * uu,
            uu == u * u,
            d > 0,
            u > 0,
    ;
    // 255 rsu - wu = (255 drb - dw) - 255 re - 255 fu
    assert(0x100_0000 * (255 * rsu - wu) <= 255 * (16 + 64 + 1) * duu);
    assert(0x100_0000 * (wu - 255 * rsu) <= 255 * (16 + 64 + 1) * duu);
    let sr: int = s * r;
    assert(0x2_0000 * (255 * sr - want) <= 255 * du) by (nonlinear_arith)
        requires
            0x100_0000 * (255 * rsu - wu) <= 20655 * duu,
            rsu == sr * u,
            wu == want * u,
            duu == du * u,
            duu >= 0,
            u > 0,
    ;
    assert(0x2_0000 * (want - 255 * sr) <= 255 * du) by (nonlinear_arith)
        requires
            0x100_0000 * (wu - 255 * rsu) <= 20655 * duu,
            rsu == sr * u,
            wu == want * u,
            duu == du * u,
            duu >= 0,
            u > 0,
    ;
}

/// A page is fed as three planes: the blue bytes with mean 0.485 and deviation 0.229, the
/// green ones with 0.456 and 0.224, the red ones with 0.406 and 0.225.
pub proof fn lemma_page_fed(data: Seq<u8>, pixels: int, i: int)
    requires
        0 <= i < pixels,
        data.len() == 3 * pixels,
    ensures
        ({
            let r = crate::ocr::text::detection::page_planes(data, pixels);
            &&& r.len() == 3 * pixels
            &&& tone(r[i], data[3 * i + 2], 485, 229, 1000)
            &&& tone(r[pixels + i], data[3 * i + 1], 456, 224, 1000)
            &&& tone(r[2 * pixels + i], data[3 * i], 406, 225, 1000)
        }),
{
    let means: [u32; 3] = crate::ocr::text::detection::MEAN;
    let deviations: [u32; 3] = crate::ocr::text::detection::STD;
    let tables: Seq<Seq<Single>> = seq![
        tones(Single { bits: means[0] }, Single { bits: deviations[0] }),
        tones(Single { bits: means[1] }, Single { bits: deviations[1] }),
        tones(Single { bits: means[2] }, Single { bits: deviations[2] }),
    ];
    lemma_constants();
    lemma_planes(data, pixels, tables, i);
    let (red, green, blue): (u8, u8, u8) = (data[3 * i], data[3 * i + 1], data[3 * i + 2]);
    lemma_tone(blue, Single { bits: means[0] }, Single { bits: deviations[0] }, 485, 229, 1000);
    lemma_tone(green, Single { bits: means[1] }, Single { bits: deviations[1] }, 456, 224, 1000);
    lemma_tone(red, Single { bits: means[2] }, Single { bits: deviations[2] }, 406, 225, 1000);
}

/// A line is fed as three planes, blue, green and red, with mean and deviation one half.
pub proof fn lemma_line_fed(data: Seq<u8>, pixels: int, i: int)
    requires
        0 <= i < pixels,
        data.len() == 3 * pixels,
    ensures
        ({
            let r = crate::ocr::text::line::line_planes(data, pixels);
            &&& r.len() == 3 * pixels
            &&& tone(r[i], data[3 * i + 2], 1, 1, 2)
            &&& tone(r[pixels + i], data[3 * i + 1], 1, 1, 2)
            &&& tone(r[2 * pixels + i], data[3 * i], 1, 1, 2)
        }),
{
    let half: Single = Single { bits: crate::ocr::text::line::HALF };
    let table: Seq<Single> = tones(half, half);
    lemma_constants();
    lemma_planes(data, pixels, seq![table, table, table], i);
    lemma_tone(data[3 * i], half, half, 1, 1, 2);
    lemma_tone(data[3 * i + 1], half, half, 1, 1, 2);
    lemma_tone(data[3 * i + 2], half, half, 1, 1, 2);
}

/// The number is a 255th of the byte, up to three parts in `2^24`.
pub open spec fn part_of_255(r: Single, v: u8) -> bool {
    let u = crate::single::unit();
    &&& r.finite()
    &&& 0x100_0000 * (255 * r.units() - v * u) <= 765 * u
    &&& 0x100_0000 * (v * u - 255 * r.units()) <= 765 * u
}

/// A page is fed to the layout model as the fractions of its blue, green and red bytes.
pub proof fn lemma_layout_fed(data: Seq<u8>, i: int)
    requires
        0 <= i < 640_000,
        data.len() == 3 * 640_000,
    ensures
        ({
            let r = crate::ocr::layout::predictor::layout_planes(data);
            &&& r.len() == 3 * 640_000
            &&& part_of_255(r[i], data[3 * i + 2])
            &&& part_of_255(r[640_000 + i], data[3 * i + 1])
            &&& part_of_255(r[2 * 640_000 + i], data[3 * i])
        }),
{
    let table: Seq<Single> = fractions();
    lemma_planes(data, 640_000, seq![table, table, table], i);
    lemma_fraction_of(data[3 * i]);
    lemma_fraction_of(data[3 * i + 1]);
    lemma_fraction_of(data[3 * i + 2]);
}

/// A formula is fed as one plane of 384 by 384 numbers: the picture in the middle, a pixel more
/// to the right or below where that cannot be, on white, with mean 0.7931 and deviation 0.1738.
pub proof fn lemma_formula_fed(
    data: Seq<u8>,
    w: int,
    h: int,
    mean: Single,
    deviation: Single,
    x: int,
    y: int,
)
    requires
        mean.bits == crate::ocr::formula::recognition::DEFAULT_MEAN,
        deviation.bits == crate::ocr::formula::recognition::DEFAULT_STD,
        1 <= w <= 384,
        1 <= h <= 384,
        data.len() == w * h,
        0 <= x < 384,
        0 <= y < 384,
    ensures
        ({
            let r = crate::ocr::formula::picture::formula_plane(data, w, h, mean, deviation);
            let (left, top) = ((384 - w) / 2, (384 - h) / 2);
            let inside = left <= x < left + w && top <= y < top + h;
            &&& r.len() == 384 * 384
            &&& inside ==> tone(r[y * 384 + x], data[(y - top) * w + (x - left)], 7931, 1738, 10_000)
            &&& !inside ==> tone(r[y * 384 + x], 255, 7931, 1738, 10_000)
        }),
{
    lemma_constants();
    vstd::arithmetic::div_mod::lemma_fundamental_div_mod_converse(y * 384 + x, 384, y, x);
    let v: u8 = crate::ocr::formula::picture::centred(data, w, h, x, y);
    lemma_tone(v, mean, deviation, 7931, 1738, 10_000);
}

/// A picture of a line is fed at a height of 48 and the width that this calls for: three planes
/// of the scaled picture, blue, green and red, with mean and deviation one half.
pub proof fn lemma_line_input(
    image: crate::raster::RgbImage,
    input: crate::ocr::text::line::LineInput,
    i: int,
)
    requires
        crate::ocr::text::line::is_line_input(image, input),
        image.width >= 1,
        image.height >= 1,
        0 <= i < input.width * 48,
    ensures
        ({
            let n = input.width * 48;
            let r = input.data@;
            let picture = crate::raster::resampled_rgb(
                image.data@,
                image.width as int,
                image.height as int,
                input.width as int,
                48,
            );
            &&& r.len() == 3 * n
            &&& picture.len() == 3 * n ==> tone(r[i], picture[3 * i + 2], 1, 1, 2)
            &&& picture.len() == 3 * n ==> tone(r[n + i], picture[3 * i + 1], 1, 1, 2)
            &&& picture.len() == 3 * n ==> tone(r[2 * n + i], picture[3 * i], 1, 1, 2)
            &&& input.width == 1 || 1000 * (input.width * image.height - 48 * image.width) <= 510
                * image.height
            &&& input.width == 3200 || 1000 * (48 * image.width - input.width * image.height) <= 510
                * image.height
        }),
{
    crate::ocr::fitting::lemma_line_width(image.width, image.height);
    let picture: Seq<u8> = crate::raster::resampled_rgb(
        image.data@,
        image.width as int,
        image.height as int,
        input.width as int,
        48,
    );
    if picture.len() == 3 * (input.width * 48) {
        lemma_line_fed(picture, input.width * 48, i);
    }
}

} // verus!
