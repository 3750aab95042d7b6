//! Where a formula stands in what the model is fed and in what it answers.
use crate::ocr::formula::picture::{
    darkest, has_contrast, ink_at, ink_box, is_ink_box, lightest, without_margin,
};
use crate::ocr::formula::recognition::{
    formula_input, formula_inputs, gray_data, id_row, row_count,
};
use crate::raster::RgbImage;
use crate::single::Single;
use vstd::prelude::*;

verus! {

/// The formulas fed together stand one after another, 384 by 384 numbers each.
pub proof fn lemma_block(
    images: Seq<RgbImage>,
    from: int,
    to: int,
    mean: Single,
    std: Single,
    i: int,
    k: int,
)
    requires
        0 <= from <= i < to <= images.len(),
        0 <= k < 147_456,
    ensures
        ({
            let all = formula_inputs(images, from, to, mean, std);
            &&& all.len() == (to - from) * 147_456
            &&& 0 <= (i - from) * 147_456 + k < all.len()
            &&& all[(i - from) * 147_456 + k] == formula_input(images[i], mean, std)[k]
        }),
    decreases to - from,
{
    lemma_block_length(images, from, to, mean, std);
    lemma_block_length(images, from, to - 1, mean, std);
    if i < to - 1 {
        lemma_block(images, from, to - 1, mean, std, i, k);
    }
}

proof fn lemma_block_length(images: Seq<RgbImage>, from: int, to: int, mean: Single, std: Single)
    requires
        from <= to,
    ensures
        formula_inputs(images, from, to, mean, std).len() == (to - from) * 147_456,
    decreases to - from,
{
    if from < to {
        lemma_block_length(images, from, to - 1, mean, std);
    }
}

/// Row `i` of an answer holds the tokens from `i * length` on, and there are as many rows as
/// the tokens fill.
pub proof fn lemma_id_row(ids: Seq<i64>, length: i64, i: int, j: int)
    requires
        length >= 1,
        0 <= i < row_count(ids, length),
        0 <= j < length,
    ensures
        id_row(ids, length, i).len() == length,
        0 <= i * length + j < ids.len(),
        id_row(ids, length, i)[j] == ids[i * length + j],
        row_count(ids, length) * length <= ids.len() < (row_count(ids, length) + 1) * length,
{
    let (n, l, c): (int, int, int) = (ids.len() as int, length as int, row_count(ids, length));
    assert(c * l <= n < (c + 1) * l) by (nonlinear_arith)
        requires
            c == n / l,
            l >= 1,
    ;
    assert(0 <= i * l && i * l + l <= c * l) by (nonlinear_arith)
        requires
            0 <= i < c,
            l >= 1,
    ;
}

/// The grey of a pixel weighs its red with 2126, its green with 7152 and its blue with 722
/// parts in 10000, less what is beyond a whole number.
pub proof fn lemma_gray(data: Seq<u8>, pixels: int, i: int)
    requires
        0 <= i < pixels,
        data.len() == 3 * pixels,
    ensures
        ({
            let gray = gray_data(data, pixels)[i];
            let weighed = 2126 * data[3 * i] + 7152 * data[3 * i + 1] + 722 * data[3 * i + 2];
            &&& gray_data(data, pixels).len() == pixels
            &&& gray * 10_000 <= weighed < (gray + 1) * 10_000
        }),
{
    let weighed: int = 2126 * data[3 * i] + 7152 * data[3 * i + 1] + 722 * data[3 * i + 2];
    assert(0 <= weighed / 10_000 <= 255);
}

/// Without its margins a picture has the pixels from the first to the last column and row with
/// ink, at the same distances from each other.
pub proof fn lemma_margin_cut(data: Seq<u8>, width: int, height: int, x: int, y: int)
    requires
        data.len() == width * height,
        has_contrast(data),
        is_ink_box(data, width, height, ink_box(data, width, height)),
    ensures
        ({
            let (w, h, pixels) = without_margin(data, width, height);
            let (left, top, right, bottom) = ink_box(data, width, height);
            &&& w == right - left + 1
            &&& h == bottom - top + 1
            &&& pixels.len() == w * h
            &&& 0 <= x < w && 0 <= y < h ==> pixels[y * w + x] == data[(top + y) * width + (left
                + x)]
        }),
{
    let (left, top, right, bottom): (int, int, int, int) = ink_box(data, width, height);
    let (w, h): (int, int) = (right - left + 1, bottom - top + 1);
    assert(w * h >= 0) by (nonlinear_arith)
        requires
            w >= 1,
            h >= 1,
    ;
    if 0 <= x < w && 0 <= y < h {
        let i: int = y * w + x;
        assert(0 <= i < w * h) by (nonlinear_arith)
            requires
                i == y * w + x,
                0 <= x < w,
                0 <= y < h,
        ;
        assert(1 * w == w);
        vstd::arithmetic::div_mod::lemma_fundamental_div_mod_converse(i, w, y, x);
    }
}

/// The brightness of a pixel above the darkest one, in parts of 51 of what the lightest one has,
/// less than 40 of which are ink.
pub open spec fn clearly_ink(data: Seq<u8>, width: int, x: int, y: int) -> bool {
    51 * (data[y * width + x] - darkest(data)) < 40 * (lightest(data) - darkest(data))
}

/// No ink lies outside the box that holds it, and each side of the box has ink, or a pixel as
/// bright as ink can be.
pub proof fn lemma_ink_held(data: Seq<u8>, width: int, height: int, b: (int, int, int, int))
    requires
        data.len() == width * height,
        has_contrast(data),
        is_ink_box(data, width, height, b),
    ensures
        0 <= b.0 <= b.2 < width,
        0 <= b.1 <= b.3 < height,
        forall|x: int, y: int|
            0 <= x < width && 0 <= y < height && #[trigger] clearly_ink(data, width, x, y) ==> b.0
                <= x <= b.2 && b.1 <= y <= b.3,
        exists|y: int| 0 <= y < height && #[trigger] as_dark(data, width, b.0, y),
        exists|y: int| 0 <= y < height && #[trigger] as_dark(data, width, b.2, y),
        exists|x: int| 0 <= x < width && #[trigger] as_dark(data, width, x, b.1),
        exists|x: int| 0 <= x < width && #[trigger] as_dark(data, width, x, b.3),
{
    assert forall|x: int, y: int|
        0 <= x < width && 0 <= y < height && #[trigger] clearly_ink(data, width, x, y) implies b.0
        <= x <= b.2 && b.1 <= y <= b.3 by {
        lemma_pixel(data, width, height, x, y);
        assert(ink_at(data, width, x, y));
    }
    let y0: int = choose|y: int| 0 <= y < height && #[trigger] ink_at(data, width, b.0, y);
    let y1: int = choose|y: int| 0 <= y < height && #[trigger] ink_at(data, width, b.2, y);
    let x0: int = choose|x: int| 0 <= x < width && #[trigger] ink_at(data, width, x, b.1);
    let x1: int = choose|x: int| 0 <= x < width && #[trigger] ink_at(data, width, x, b.3);
    lemma_pixel(data, width, height, b.0, y0);
    lemma_pixel(data, width, height, b.2, y1);
    lemma_pixel(data, width, height, x0, b.1);
    lemma_pixel(data, width, height, x1, b.3);
    assert(as_dark(data, width, b.0, y0) && as_dark(data, width, b.2, y1));
    assert(as_dark(data, width, x0, b.1) && as_dark(data, width, x1, b.3));
}

/// The pixel is as dark as ink, or as bright as ink can be.
pub open spec fn as_dark(data: Seq<u8>, width: int, x: int, y: int) -> bool {
    51 * (data[y * width + x] - darkest(data)) <= 40 * (lightest(data) - darkest(data))
}

proof fn lemma_pixel(data: Seq<u8>, width: int, height: int, x: int, y: int)
    requires
        data.len() == width * height,
        has_contrast(data),
        0 <= x < width,
        0 <= y < height,
    ensures
        clearly_ink(data, width, x, y) ==> ink_at(data, width, x, y),
        ink_at(data, width, x, y) ==> as_dark(data, width, x, y),
{
    let k: int = y * width + x;
    assert(0 <= k < width * height) by (nonlinear_arith)
        requires
            k == y * width + x,
            0 <= x < width,
            0 <= y < height,
    ;
    crate::ocr::fitting::lemma_darkest_and_lightest(data);
    let (v, dark, light): (u8, u8, u8) = (data[k], darkest(data), lightest(data));
    assert(dark <= data[k] <= light);
    if 51 * (v - dark) != 40 * (light - dark) {
        crate::ocr::fitting::lemma_ink(v, dark, light);
    }
}

/// A formula is fed in grey, without its margins, scaled to fit, in the middle of white.
pub proof fn lemma_formula_input(
    image: RgbImage,
    mean: Single,
    std: Single,
    x: int,
    y: int,
    cut: (int, int, Seq<u8>),
    sides: (int, int),
)
    requires
        mean.bits == crate::ocr::formula::recognition::DEFAULT_MEAN,
        std.bits == crate::ocr::formula::recognition::DEFAULT_STD,
        cut == without_margin(
            gray_data(image.data@, image.width * image.height),
            image.width as int,
            image.height as int,
        ),
        1 <= cut.0 <= u32::MAX,
        1 <= cut.1 <= u32::MAX,
        sides == crate::ocr::formula::picture::fitted_sides(cut.0 as u32, cut.1 as u32),
        0 <= x < 384,
        0 <= y < 384,
    ensures
        ({
            let r = formula_input(image, mean, std);
            let (w, h) = sides;
            let picture = crate::raster::resampled_gray(cut.2, cut.0, cut.1, w, h);
            let (left, top) = ((384 - w) / 2, (384 - h) / 2);
            let inside = left <= x < left + w && top <= y < top + h;
            &&& r.len() == 384 * 384
            &&& picture.len() == w * h && inside ==> crate::ocr::planes::tone(
                r[y * 384 + x],
                picture[(y - top) * w + (x - left)],
                7931,
                1738,
                10_000,
            )
            &&& picture.len() == w * h && !inside ==> crate::ocr::planes::tone(
                r[y * 384 + x],
                255,
                7931,
                1738,
                10_000,
            )
        }),
{
    crate::ocr::fitting::lemma_fitted(cut.0 as u32, cut.1 as u32);
    let picture: Seq<u8> = crate::raster::resampled_gray(
        cut.2,
        cut.0,
        cut.1,
        sides.0,
        sides.1,
    );
    if picture.len() == sides.0 * sides.1 {
        crate::ocr::planes::lemma_formula_fed(picture, sides.0, sides.1, mean, std, x, y);
    }
}

} // verus!
