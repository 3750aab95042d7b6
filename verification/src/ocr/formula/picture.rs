//! Preparing the picture of a formula: its margins cut off, scaled to fit 384 by 384 pixels
//! and centred there on white.
use crate::raster::GrayImage;
use crate::single::Single;
use vstd::arithmetic::div_mod::*;
use vstd::prelude::*;

verus! {

/// The side of the picture that the model is fed.
pub const INPUT_SIZE: u32 = 384;

/// The bit pattern of 200.
pub const INK_LIMIT: u32 = 0x4348_0000;

/// The darkest of some pixels, 255 for none.
pub open spec fn darkest(data: Seq<u8>) -> u8
    decreases data.len(),
{
    if data.len() == 0 {
        255
    } else {
        let rest = darkest(data.drop_last());
        if data.last() < rest {
            data.last()
        } else {
            rest
        }
    }
}

/// The lightest of some pixels, 0 for none.
pub open spec fn lightest(data: Seq<u8>) -> u8
    decreases data.len(),
{
    if data.len() == 0 {
        0
    } else {
        let rest = lightest(data.drop_last());
        if data.last() > rest {
            data.last()
        } else {
            rest
        }
    }
}

/// A pixel is ink: stretched so that the darkest is 0 and the lightest is 255, it is below 200.
pub open spec fn ink(v: u8, dark: u8, light: u8) -> bool {
    Single::product(
        Single::quotient(
            Single::difference(Single::whole(v as int), Single::whole(dark as int)),
            Single::difference(Single::whole(light as int), Single::whole(dark as int)),
        ),
        Single { bits: crate::ocr::tensor::BYTE_MAX },
    ).below(Single { bits: INK_LIMIT })
}

/// The pixel in column `x` of row `y` is ink.
pub open spec fn ink_at(data: Seq<u8>, width: int, x: int, y: int) -> bool {
    ink(data[y * width + x], darkest(data), lightest(data))
}

/// The columns `b.0` to `b.2` and the rows `b.1` to `b.3` hold all ink, and no smaller box does.
pub open spec fn is_ink_box(data: Seq<u8>, width: int, height: int, b: (int, int, int, int)) -> bool {
    &&& 0 <= b.0 <= b.2 < width
    &&& 0 <= b.1 <= b.3 < height
    &&& forall|x: int, y: int|
        0 <= x < width && 0 <= y < height && #[trigger] ink_at(data, width, x, y) ==> b.0 <= x
            <= b.2 && b.1 <= y <= b.3
    &&& exists|y: int| 0 <= y < height && #[trigger] ink_at(data, width, b.0, y)
    &&& exists|y: int| 0 <= y < height && #[trigger] ink_at(data, width, b.2, y)
    &&& exists|x: int| 0 <= x < width && #[trigger] ink_at(data, width, x, b.1)
    &&& exists|x: int| 0 <= x < width && #[trigger] ink_at(data, width, x, b.3)
}

/// The smallest box that holds all ink.
pub open spec fn ink_box(data: Seq<u8>, width: int, height: int) -> (int, int, int, int) {
    choose|b: (int, int, int, int)| is_ink_box(data, width, height, b)
}

/// The picture has pixels of different brightness.
pub open spec fn has_contrast(data: Seq<u8>) -> bool {
    darkest(data) < lightest(data)
}

/// The sides and pixels of a picture without its margins: unchanged where all pixels are
/// alike or there are none.
pub open spec fn without_margin(data: Seq<u8>, width: int, height: int) -> (int, int, Seq<u8>) {
    let b = ink_box(data, width, height);
    if has_contrast(data) {
        (
            b.2 - b.0 + 1,
            b.3 - b.1 + 1,
            crate::raster::cut_bytes(
                data,
                1,
                width,
                b.0,
                b.1,
                b.2 - b.0 + 1,
                b.3 - b.1 + 1,
            ),
        )
    } else {
        (width, height, data)
    }
}

/// There is only one smallest box.
pub proof fn lemma_ink_box_unique(
    data: Seq<u8>,
    width: int,
    height: int,
    a: (int, int, int, int),
    b: (int, int, int, int),
)
    requires
        is_ink_box(data, width, height, a),
        is_ink_box(data, width, height, b),
    ensures
        a == b,
{
    let ya: int = choose|y: int| 0 <= y < height && #[trigger] ink_at(data, width, a.0, y);
    let yb: int = choose|y: int| 0 <= y < height && #[trigger] ink_at(data, width, b.0, y);
    let za: int = choose|y: int| 0 <= y < height && #[trigger] ink_at(data, width, a.2, y);
    let zb: int = choose|y: int| 0 <= y < height && #[trigger] ink_at(data, width, b.2, y);
    let xa: int = choose|x: int| 0 <= x < width && #[trigger] ink_at(data, width, x, a.1);
    let xb: int = choose|x: int| 0 <= x < width && #[trigger] ink_at(data, width, x, b.1);
    let wa: int = choose|x: int| 0 <= x < width && #[trigger] ink_at(data, width, x, a.3);
    let wb: int = choose|x: int| 0 <= x < width && #[trigger] ink_at(data, width, x, b.3);
    assert(ink_at(data, width, a.0, ya) && ink_at(data, width, b.0, yb));
    assert(ink_at(data, width, a.2, za) && ink_at(data, width, b.2, zb));
    assert(ink_at(data, width, xa, a.1) && ink_at(data, width, xb, b.1));
    assert(ink_at(data, width, wa, a.3) && ink_at(data, width, wb, b.3));
}

/// The darkest pixel of a picture with contrast is ink.
proof fn lemma_darkest_is_ink(dark: u8, light: u8)
    requires
        dark < light,
    ensures
        ink(dark, dark, light),
{
    let (d, l) = (Single::whole(dark as int), Single::whole(light as int));
    let u: nat = crate::single::unit();
    vstd::arithmetic::power2::lemma_pow2_pos(149);
    crate::bounds::lemma_whole(dark as int);
    crate::bounds::lemma_whole(light as int);
    crate::bounds::lemma_difference(d, d);
    crate::bounds::lemma_difference(l, d);
    crate::single::lemma_nearest_zero(1);
    let top: Single = Single::difference(d, d);
    let span: Single = Single::difference(l, d);
    assert(top.units() == 0 && top.magnitude() == 0);
    assert(light * u - dark * u == (light - dark) * u) by (nonlinear_arith);
    let m: nat = crate::bounds::lemma_whole_on_scale((light - dark) as nat);
    assert(span.magnitude() == m);
    assert((light - dark) * u > 0) by (nonlinear_arith)
        requires
            light > dark,
            u > 0,
    ;
    assert(crate::single::step(0) == 0);
    assert(!span.zero());
    crate::bounds::lemma_quotient(top, span);
    let q: Single = Single::quotient(top, span);
    let den: nat = crate::single::size(span.units());
    assert(0 * u == 0) by (nonlinear_arith);
    crate::single::lemma_nearest_zero(den);
    assert(q.magnitude() == 0);
    let full: Single = Single { bits: crate::ocr::tensor::BYTE_MAX };
    crate::bounds::lemma_product(q, full);
    let s: nat = crate::single::size(full.units());
    assert(0 * s == 0) by (nonlinear_arith);
    crate::single::lemma_nearest_zero(u);
    let p: Single = Single::product(q, full);
    assert(p.magnitude() == 0);
    let limit: Single = Single { bits: INK_LIMIT };
    crate::single::lemma_step_increases(0, limit.magnitude());
    assert(limit.units() > 0);
}

/// Extremes are among the pixels and bound them.
proof fn lemma_extremes(data: Seq<u8>)
    ensures
        forall|i: int|
            0 <= i < data.len() ==> darkest(data) <= #[trigger] data[i] <= lightest(data),
        data.len() > 0 ==> data.contains(darkest(data)),
    decreases data.len(),
{
    if data.len() > 0 {
        let rest: Seq<u8> = data.drop_last();
        lemma_extremes(rest);
        assert forall|i: int| 0 <= i < data.len() implies darkest(data) <= #[trigger] data[i]
            <= lightest(data) by {
            if i < data.len() - 1 {
                assert(rest[i] == data[i]);
            }
        }
        if rest.len() > 0 && darkest(data) == darkest(rest) {
            let k: int = choose|k: int| 0 <= k < rest.len() && rest[k] == darkest(rest);
            assert(data[k] == darkest(data));
        } else {
            assert(data[data.len() - 1] == darkest(data));
        }
    }
}

/// For every brightness whether it is ink.
fn ink_table(dark: u8, light: u8) -> (r: Vec<bool>)
    ensures
        r@.len() == 256,
        forall|v: int| 0 <= v < 256 ==> #[trigger] r@[v] == ink(v as u8, dark, light),
{
    let low: Single = Single::from_u64(dark as u64);
    let span: Single = Single::from_u64(light as u64).minus(low);
    let full: Single = Single::from_bits(crate::ocr::tensor::BYTE_MAX);
    let limit: Single = Single::from_bits(INK_LIMIT);
    let mut r: Vec<bool> = Vec::new();
    let mut v: usize = 0;
    while v < 256
        invariant
            v <= 256,
            r@.len() == v,
            low == Single::whole(dark as int),
            span == Single::difference(Single::whole(light as int), Single::whole(dark as int)),
            full.bits == crate::ocr::tensor::BYTE_MAX,
            limit.bits == INK_LIMIT,
            forall|k: int| 0 <= k < v ==> #[trigger] r@[k] == ink(k as u8, dark, light),
        decreases 256 - v,
    {
        let stretched: Single = Single::from_u64(v as u64).minus(low).over(span).times(full);
        r.push(stretched.lt(limit));
        v = v + 1;
    }
    r
}

/// The darkest and the lightest pixel.
fn brightness(data: &Vec<u8>) -> (r: (u8, u8))
    ensures
        r.0 == darkest(data@),
        r.1 == lightest(data@),
{
    let mut dark: u8 = 255;
    let mut light: u8 = 0;
    let mut i: usize = 0;
    assert(data@.take(0) =~= Seq::<u8>::empty());
    while i < data.len()
        invariant
            i <= data.len(),
            dark == darkest(data@.take(i as int)),
            light == lightest(data@.take(i as int)),
        decreases data.len() - i,
    {
        assert(data@.take(i + 1).drop_last() =~= data@.take(i as int));
        let v: u8 = data[i];
        if v < dark {
            dark = v;
        }
        if v > light {
            light = v;
        }
        i = i + 1;
    }
    assert(data@.take(i as int) =~= data@);
    (dark, light)
}

/// The columns and rows that the ink among the first `n` pixels spans, if any.
spec fn spans(data: Seq<u8>, width: int, height: int, n: int, found: bool, b: (int, int, int, int)) -> bool {
    &&& found ==> {
        &&& 0 <= b.0 <= b.2 < width
        &&& 0 <= b.1 <= b.3 < height
        &&& exists|y: int| 0 <= y < height && #[trigger] ink_at(data, width, b.0, y)
        &&& exists|y: int| 0 <= y < height && #[trigger] ink_at(data, width, b.2, y)
        &&& exists|x: int| 0 <= x < width && #[trigger] ink_at(data, width, x, b.1)
        &&& exists|x: int| 0 <= x < width && #[trigger] ink_at(data, width, x, b.3)
    }
    &&& forall|x: int, y: int|
        0 <= x < width && 0 <= y < height && y * width + x < n && #[trigger] ink_at(
            data,
            width,
            x,
            y,
        ) ==> found && b.0 <= x <= b.2 && b.1 <= y <= b.3
}

/// The smallest box that holds all ink, `None` where there is none.
fn find_ink(gray: &GrayImage, dark: u8, light: u8) -> (r: Option<(u32, u32, u32, u32)>)
    requires
        gray.wf(),
        dark == darkest(gray.data@),
        light == lightest(gray.data@),
    ensures
        r is None ==> forall|x: int, y: int|
            0 <= x < gray.width && 0 <= y < gray.height ==> !#[trigger] ink_at(gray.data@, gray.width as int, x, y),
        r matches Some(b) ==> is_ink_box(
            gray.data@,
            gray.width as int,
            gray.height as int,
            (b.0 as int, b.1 as int, b.2 as int, b.3 as int),
        ),
{
    let table: Vec<bool> = ink_table(dark, light);
    let mut found: bool = false;
    let mut b: (u32, u32, u32, u32) = (0, 0, 0, 0);
    let mut k: usize = 0;
    let mut x: u32 = 0;
    let mut y: u32 = 0;
    proof {
        let w: int = gray.width as int;
        let h: int = gray.height as int;
        assert(w * h > 0 ==> w > 0 && h > 0) by (nonlinear_arith)
            requires
                w >= 0,
                h >= 0,
        ;
        assert forall|x: int, y: int|
            0 <= x < gray.width && 0 <= y < gray.height && #[trigger] ink_at(gray.data@, gray.width as int, x, y) implies y * w + x
            >= 0 by {
            assert(y * w + x >= 0) by (nonlinear_arith)
                requires
                    x >= 0,
                    y >= 0,
                    w >= 0,
            ;
        }
    }
    while k < gray.data.len()
        invariant
            k <= gray.data.len(),
            gray.wf(),
            dark == darkest(gray.data@),
            light == lightest(gray.data@),
            table@.len() == 256,
            forall|v: int| 0 <= v < 256 ==> #[trigger] table@[v] == ink(v as u8, dark, light),
            k < gray.data.len() ==> x < gray.width && y < gray.height,
            k == y * gray.width + x,
            spans(
                gray.data@,
                gray.width as int,
                gray.height as int,
                k as int,
                found,
                (b.0 as int, b.1 as int, b.2 as int, b.3 as int),
            ),
        decreases gray.data.len() - k,
    {
        let ghost before: (int, int, int, int) = (b.0 as int, b.1 as int, b.2 as int, b.3 as int);
        let v: u8 = gray.data[k];
        proof {
            assert(gray.pixel(x as int, y as int) == v);
            assert(table@[v as int] == ink_at(gray.data@, gray.width as int, x as int, y as int));
        }
        if table[v as usize] {
            if found {
                b =
                (
                    if x < b.0 {
                        x
                    } else {
                        b.0
                    },
                    if y < b.1 {
                        y
                    } else {
                        b.1
                    },
                    if x > b.2 {
                        x
                    } else {
                        b.2
                    },
                    if y > b.3 {
                        y
                    } else {
                        b.3
                    },
                );
            } else {
                b = (x, y, x, y);
                found = true;
            }
        }
        proof {
            let w: int = gray.width as int;
            let h: int = gray.height as int;
            let (cx, cy): (int, int) = (x as int, y as int);
            assert forall|px: int, py: int|
                0 <= px < gray.width && 0 <= py < gray.height && py * w + px < k + 1
                    && #[trigger] ink_at(gray.data@, gray.width as int, px, py) implies found && b.0 <= px <= b.2 && b.1
                <= py <= b.3 by {
                if py * w + px == k {
                    lemma_fundamental_div_mod_converse(k as int, w, py, px);
                    lemma_fundamental_div_mod_converse(k as int, w, cy, cx);
                }
            }
            assert(spans(
                gray.data@,
                gray.width as int,
                gray.height as int,
                k + 1,
                found,
                (b.0 as int, b.1 as int, b.2 as int, b.3 as int),
            ));
            if cx + 1 == w {
                assert((cy + 1) * w == cy * w + w) by (nonlinear_arith);
                if k + 1 < w * h {
                    assert(cy + 1 < h) by (nonlinear_arith)
                        requires
                            (cy + 1) * w < w * h,
                            w > 0,
                    ;
                }
            }
        }
        k = k + 1;
        if x + 1 == gray.width {
            x = 0;
            y = y + 1;
        } else {
            x = x + 1;
        }
    }
    proof {
        let w: int = gray.width as int;
        let h: int = gray.height as int;
        assert forall|px: int, py: int|
            0 <= px < gray.width && 0 <= py < gray.height && #[trigger] ink_at(gray.data@, gray.width as int, px, py) implies py * w
            + px < w * h by {
            assert(py * w + px < w * h) by (nonlinear_arith)
                requires
                    0 <= px < w,
                    0 <= py < h,
            ;
        }
    }
    if found {
        Some(b)
    } else {
        None
    }
}

/// Cuts the margins of a picture off: what lies outside the smallest box around its ink. A
/// picture with contrast has such a box.
pub fn crop_margin(gray: &GrayImage) -> (r: GrayImage)
    requires
        gray.wf(),
    ensures
        r.wf(),
        (r.width as int, r.height as int, r.data@) == without_margin(
            gray.data@,
            gray.width as int,
            gray.height as int,
        ),
        r.width <= gray.width,
        r.height <= gray.height,
        has_contrast(gray.data@) ==> is_ink_box(
            gray.data@,
            gray.width as int,
            gray.height as int,
            ink_box(gray.data@, gray.width as int, gray.height as int),
        ),
{
    let (dark, light): (u8, u8) = brightness(&gray.data);
    if dark == light {
        return gray.clone();
    }
    proof {
        lemma_extremes(gray.data@);
    }
    match find_ink(gray, dark, light) {
        None => {
            proof {
                if gray.data@.len() > 0 {
                    let k: int = choose|k: int|
                        0 <= k < gray.data@.len() && gray.data@[k] == darkest(gray.data@);
                    let w: int = gray.width as int;
                    let h: int = gray.height as int;
                    assert(w > 0) by (nonlinear_arith)
                        requires
                            0 <= k < w * h,
                            w >= 0,
                    ;
                    lemma_fundamental_div_mod(k, w);
                    lemma_div_pos_is_pos(k, w);
                    let (x, y): (int, int) = (k % w, k / w);
                    assert(y * w + x == k) by (nonlinear_arith)
                        requires
                            k == w * y + x,
                    ;
                    assert(y < h) by (nonlinear_arith)
                        requires
                            y * w + x < w * h,
                            x >= 0,
                            w > 0,
                    ;
                    assert(gray.data@[k] <= lightest(gray.data@));
                    lemma_darkest_is_ink(dark, light);
                    assert(ink_at(gray.data@, gray.width as int, x, y));
                    assert(false);
                }
            }
            gray.clone()
        },
        Some(b) => {
            proof {
                let c: (int, int, int, int) = (b.0 as int, b.1 as int, b.2 as int, b.3 as int);
                assert(is_ink_box(gray.data@, gray.width as int, gray.height as int, c));
                lemma_ink_box_unique(
                    gray.data@,
                    gray.width as int,
                    gray.height as int,
                    c,
                    ink_box(gray.data@, gray.width as int, gray.height as int),
                );
                let y: int = choose|y: int| 0 <= y < gray.height && #[trigger] ink_at(gray.data@, gray.width as int, c.0, y);
                let w: int = gray.width as int;
                let h: int = gray.height as int;
                assert(w * h > 0) by (nonlinear_arith)
                    requires
                        w > 0,
                        h > 0,
                ;
                assert(gray.data@[0] <= lightest(gray.data@));
            }
            crate::raster::crop_gray(gray, b.0, b.1, b.2 - b.0 + 1, b.3 - b.1 + 1)
        },
    }
}

/// A side after scaling, between 1 and 384.
pub open spec fn fitted_side(side: u32, scale: Single) -> int {
    let n = Single::product(Single::whole(side as int), scale).rounded_off().to_whole(
        0,
        u32::MAX as int,
    );
    if n < 1 {
        1
    } else if n > INPUT_SIZE {
        INPUT_SIZE as int
    } else {
        n
    }
}

/// The sides of a picture scaled to fit 384 by 384 pixels.
pub open spec fn fitted_sides(w: u32, h: u32) -> (int, int) {
    let full = Single::whole(INPUT_SIZE as int);
    let scale = Single::smaller(
        Single::quotient(full, Single::whole(w as int)),
        Single::quotient(full, Single::whole(h as int)),
    );
    (fitted_side(w, scale), fitted_side(h, scale))
}

/// The sides of a picture scaled to fit 384 by 384 pixels.
pub fn fit(w: u32, h: u32) -> (r: (u32, u32))
    ensures
        (r.0 as int, r.1 as int) == fitted_sides(w, h),
        1 <= r.0 <= INPUT_SIZE,
        1 <= r.1 <= INPUT_SIZE,
{
    let full: Single = Single::from_u64(INPUT_SIZE as u64);
    let width: Single = Single::from_u64(w as u64);
    let height: Single = Single::from_u64(h as u64);
    let scale: Single = full.over(width).min(full.over(height));
    let rw: u32 = width.times(scale).round().to_u32();
    let rh: u32 = height.times(scale).round().to_u32();
    (
        if rw < 1 {
            1
        } else if rw > INPUT_SIZE {
            INPUT_SIZE
        } else {
            rw
        },
        if rh < 1 {
            1
        } else if rh > INPUT_SIZE {
            INPUT_SIZE
        } else {
            rh
        },
    )
}

/// The pixel in column `x` of row `y` of a picture `w` by `h` pixels, centred on white.
pub open spec fn centred(data: Seq<u8>, w: int, h: int, x: int, y: int) -> u8 {
    let (left, top) = ((INPUT_SIZE - w) / 2, (INPUT_SIZE - h) / 2);
    if left <= x < left + w && top <= y < top + h {
        data[(y - top) * w + (x - left)]
    } else {
        255
    }
}

/// What the model is fed for a picture that already fits, centred on white and normalised.
pub open spec fn formula_plane(data: Seq<u8>, w: int, h: int, mean: Single, deviation: Single) -> Seq<
    Single,
> {
    Seq::new(
        384 * 384,
        |k: int|
            crate::ocr::tensor::normalised(
                centred(data, w, h, k % 384, k / 384),
                mean,
                deviation,
            ),
    )
}

/// A white picture.
fn white() -> (r: GrayImage)
    ensures
        r.wf(),
        r.width == INPUT_SIZE,
        r.height == INPUT_SIZE,
        forall|x: int, y: int|
            0 <= x < INPUT_SIZE && 0 <= y < INPUT_SIZE ==> #[trigger] r.pixel(x, y) == 255,
{
    let mut data: Vec<u8> = Vec::new();
    let mut i: usize = 0;
    while i < 147_456
        invariant
            i <= 147_456,
            data@.len() == i,
            forall|k: int| 0 <= k < i ==> #[trigger] data@[k] == 255,
        decreases 147_456 - i,
    {
        data.push(255);
        i = i + 1;
    }
    let r: GrayImage = GrayImage { width: INPUT_SIZE, height: INPUT_SIZE, data };
    assert forall|x: int, y: int| 0 <= x < INPUT_SIZE && 0 <= y < INPUT_SIZE implies #[trigger] r.pixel(
        x,
        y,
    ) == 255 by {
        assert(0 <= y * 384 + x < 147_456);
    }
    r
}

/// What the model is fed for a picture that already fits: centred on white and normalised.
pub fn centre(resized: &GrayImage, mean: Single, deviation: Single) -> (r: Vec<Single>)
    requires
        resized.wf(),
        resized.width <= INPUT_SIZE,
        resized.height <= INPUT_SIZE,
    ensures
        r@ == formula_plane(
            resized.data@,
            resized.width as int,
            resized.height as int,
            mean,
            deviation,
        ),
{
    let mut canvas: GrayImage = white();
    let ghost blank: GrayImage = canvas;
    let left: u32 = (INPUT_SIZE - resized.width) / 2;
    let top: u32 = (INPUT_SIZE - resized.height) / 2;
    crate::raster::replace(&mut canvas, resized, left as i64, top as i64);
    let table: Vec<Single> = crate::ocr::tensor::tone_table(mean, deviation);
    let ghost want: Seq<Single> = formula_plane(
        resized.data@,
        resized.width as int,
        resized.height as int,
        mean,
        deviation,
    );
    let mut r: Vec<Single> = Vec::new();
    let mut k: usize = 0;
    while k < canvas.data.len()
        invariant
            k <= canvas.data.len(),
            canvas.data.len() == 147_456,
            canvas.width == 384,
            canvas.height == 384,
            resized.width <= 384,
            resized.height <= 384,
            left == (384 - resized.width) / 2,
            top == (384 - resized.height) / 2,
            table@ == crate::ocr::tensor::tones(mean, deviation),
            want == formula_plane(
                resized.data@,
                resized.width as int,
                resized.height as int,
                mean,
                deviation,
            ),
            forall|x: int, y: int|
                0 <= x < 384 && 0 <= y < 384 ==> #[trigger] blank.pixel(x, y) == 255,
            forall|x: int, y: int|
                0 <= x < 384 && 0 <= y < 384 ==> #[trigger] canvas.pixel(x, y)
                    == crate::raster::overlaid(blank, *resized, left as int, top as int, x, y),
            r@ == want.take(k as int),
        decreases canvas.data.len() - k,
    {
        proof {
            let (x, y): (int, int) = (k as int % 384, k as int / 384);
            assert(y * 384 + x == k);
            assert(0 <= x < 384 && 0 <= y < 384);
            assert(canvas.pixel(x, y) == canvas.data@[k as int]);
            assert(blank.pixel(x, y) == 255);
            assert(canvas.data@[k as int] == centred(
                resized.data@,
                resized.width as int,
                resized.height as int,
                x,
                y,
            ));
        }
        r.push(table[canvas.data[k] as usize]);
        assert(r@ =~= want.take(k + 1));
        k = k + 1;
    }
    assert(want.take(147_456) =~= want);
    r
}

} // verus!
