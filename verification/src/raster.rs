//! Pictures as rows of bytes, and what the `image` and `imageproc` crates do to them.
use vstd::prelude::*;

verus! {

/// A colour picture: three bytes per pixel, red, green, blue, row by row from the top.
#[derive(Debug)]
pub struct RgbImage {
    pub width: u32,
    pub height: u32,
    pub data: Vec<u8>,
}

/// A grey picture: one byte per pixel, row by row from the top.
#[derive(Debug)]
pub struct GrayImage {
    pub width: u32,
    pub height: u32,
    pub data: Vec<u8>,
}

impl RgbImage {
    /// There are as many bytes as the sides call for, and a row can be addressed.
    pub open spec fn wf(&self) -> bool {
        self.data@.len() == 3 * (self.width * self.height) && 3 * self.width <= usize::MAX
    }

    /// The picture has no pixel.
    pub open spec fn empty(&self) -> bool {
        self.width == 0 || self.height == 0
    }
}

impl GrayImage {
    /// There are as many bytes as the sides call for.
    pub open spec fn wf(&self) -> bool {
        self.data@.len() == self.width * self.height
    }

    /// The pixel in column `x` of row `y`.
    pub open spec fn pixel(&self, x: int, y: int) -> u8 {
        self.data@[y * self.width + x]
    }
}

impl Clone for RgbImage {
    fn clone(&self) -> (r: RgbImage)
        ensures
            r.width == self.width,
            r.height == self.height,
            r.data@ == self.data@,
    {
        RgbImage { width: self.width, height: self.height, data: self.data.clone() }
    }
}

impl Clone for GrayImage {
    fn clone(&self) -> (r: GrayImage)
        ensures
            r.width == self.width,
            r.height == self.height,
            r.data@ == self.data@,
    {
        GrayImage { width: self.width, height: self.height, data: self.data.clone() }
    }
}

/// The longest side that can be resampled to any other, and the longest to resample to. Up to
/// `2^21` every sample position is within half a pixel of the picture in binary32 arithmetic.
pub const LONGEST_SIDE: u32 = 0x20_0000;

/// The longest side that any side at least twice as long can be resampled to. Each sample then
/// covers more of the picture than its position is off in binary32 arithmetic.
pub const SAMPLED_SIDE: u32 = 0x1_0000;

/// A side can be resampled to the new length.
pub open spec fn sampleable(side: u32, new_side: u32) -> bool {
    side <= LONGEST_SIDE || new_side <= SAMPLED_SIDE && 2 * new_side <= side
}

/// A picture with these sides can be resampled to the new ones: it is empty, or each side can
/// be; and the intermediate picture of four binary32 channels and the result fit into memory.
pub open spec fn resizable(width: u32, height: u32, new_width: u32, new_height: u32) -> bool {
    &&& new_width <= LONGEST_SIDE
    &&& new_height <= LONGEST_SIDE
    &&& width == 0 || height == 0 || sampleable(width, new_width) && sampleable(height, new_height)
    &&& 16 * (width * new_height) <= isize::MAX
    &&& 3 * (new_width * new_height) <= isize::MAX
}

/// Whether a picture with these sides can be resampled to the new ones.
pub fn can_resize(width: u32, height: u32, new_width: u32, new_height: u32) -> (r: bool)
    ensures
        r == resizable(width, height, new_width, new_height),
{
    if new_width > LONGEST_SIDE || new_height > LONGEST_SIDE {
        return false;
    }
    let wide: bool = width <= LONGEST_SIDE || new_width <= SAMPLED_SIDE && 2 * new_width <= width;
    let high: bool = height <= LONGEST_SIDE || new_height <= SAMPLED_SIDE && 2 * new_height
        <= height;
    if width != 0 && height != 0 && !(wide && high) {
        return false;
    }
    proof {
        assert(0 <= width * new_height <= 0xffff_ffff * 0x20_0000) by (nonlinear_arith)
            requires
                0 <= width <= 0xffff_ffff,
                0 <= new_height <= 0x20_0000,
        ;
        assert(0 <= new_width * new_height <= 0x20_0000 * 0x20_0000) by (nonlinear_arith)
            requires
                0 <= new_width <= 0x20_0000,
                0 <= new_height <= 0x20_0000,
        ;
    }
    let limit: u64 = isize::MAX as u64;
    16 * (width as u64 * new_height as u64) <= limit && 3 * (new_width as u64 * new_height as u64)
        <= limit
}

/// What resampling a colour picture with a triangle filter gives, byte by byte.
pub uninterp spec fn resampled_rgb(
    data: Seq<u8>,
    width: int,
    height: int,
    new_width: int,
    new_height: int,
) -> Seq<u8>;

/// Calls `image::imageops::resize` with the triangle filter on a colour picture.
///
/// Not proved: that the result has the sides asked for and three bytes per pixel, and that
/// its bytes depend on the picture and the sides alone; they are `resampled_rgb`. What the
/// filter makes of the bytes is left unsaid.
#[verifier::external_body]
pub(crate) fn resize_rgb(image: &RgbImage, width: u32, height: u32) -> (r: RgbImage)
    requires
        image.wf(),
        resizable(image.width, image.height, width, height),
    ensures
        r.wf(),
        r.width == width,
        r.height == height,
        r.data@ == resampled_rgb(
            image.data@,
            image.width as int,
            image.height as int,
            width as int,
            height as int,
        ),
{
    let source = image::ImageBuffer::<image::Rgb<u8>, &[u8]>::from_raw(
        image.width,
        image.height,
        image.data.as_slice(),
    ).unwrap();
    let out = image::imageops::resize(&source, width, height, image::imageops::FilterType::Triangle);
    RgbImage { width: out.width(), height: out.height(), data: out.into_raw() }
}

/// What resampling a grey picture with a triangle filter gives, byte by byte.
pub uninterp spec fn resampled_gray(
    data: Seq<u8>,
    width: int,
    height: int,
    new_width: int,
    new_height: int,
) -> Seq<u8>;

/// Calls `image::imageops::resize` with the triangle filter on a grey picture.
///
/// Not proved: that the result has the sides asked for and one byte per pixel, and that
/// its bytes depend on the picture and the sides alone; they are `resampled_gray`. What the
/// filter makes of the bytes is left unsaid.
#[verifier::external_body]
pub(crate) fn resize_gray(image: &GrayImage, width: u32, height: u32) -> (r: GrayImage)
    requires
        image.wf(),
        resizable(image.width, image.height, width, height),
    ensures
        r.wf(),
        r.width == width,
        r.height == height,
        r.data@ == resampled_gray(
            image.data@,
            image.width as int,
            image.height as int,
            width as int,
            height as int,
        ),
{
    let source = image::ImageBuffer::<image::Luma<u8>, &[u8]>::from_raw(
        image.width,
        image.height,
        image.data.as_slice(),
    ).unwrap();
    let out = image::imageops::resize(&source, width, height, image::imageops::FilterType::Triangle);
    GrayImage { width: out.width(), height: out.height(), data: out.into_raw() }
}

/// The smaller of two whole numbers.
pub open spec fn smaller_of(a: int, b: int) -> int {
    if a < b {
        a
    } else {
        b
    }
}

/// How much of a stretch from `at` over `length` lies within `limit`.
pub open spec fn cut_length(at: int, length: int, limit: int) -> int {
    smaller_of(length, limit - smaller_of(at, limit))
}

/// The bytes of the `width` by `height` pixels whose top left one is in column `x` of
/// row `y`, in a picture `stride` pixels wide with `channels` bytes per pixel.
pub open spec fn cut_bytes(
    data: Seq<u8>,
    channels: int,
    stride: int,
    x: int,
    y: int,
    width: int,
    height: int,
) -> Seq<u8> {
    Seq::new(
        (channels * (width * height)) as nat,
        |i: int|
            data[channels * ((y + i / (channels * width)) * stride + x) + i % (channels * width)],
    )
}

/// Calls `image::imageops::crop_imm` on a colour picture and copies the part out.
///
/// Not proved: that the part is the rectangle asked for, as far as it lies within the
/// picture, pixel for pixel.
#[verifier::external_body]
pub(crate) fn crop_rgb(image: &RgbImage, x: u32, y: u32, width: u32, height: u32) -> (r: RgbImage)
    requires
        image.wf(),
    ensures
        r.wf(),
        r.width == cut_length(x as int, width as int, image.width as int),
        r.height == cut_length(y as int, height as int, image.height as int),
        r.data@ == cut_bytes(
            image.data@,
            3,
            image.width as int,
            x as int,
            y as int,
            r.width as int,
            r.height as int,
        ),
{
    let source = image::RgbImage::from_raw(image.width, image.height, image.data.clone()).unwrap();
    let out = image::imageops::crop_imm(&source, x, y, width, height).to_image();
    RgbImage { width: out.width(), height: out.height(), data: out.into_raw() }
}

/// Calls `image::imageops::crop_imm` on a grey picture and copies the part out.
///
/// Not proved: that the part is the rectangle asked for, as far as it lies within the
/// picture, pixel for pixel.
#[verifier::external_body]
pub(crate) fn crop_gray(image: &GrayImage, x: u32, y: u32, width: u32, height: u32) -> (r:
    GrayImage)
    requires
        image.wf(),
    ensures
        r.wf(),
        r.width == cut_length(x as int, width as int, image.width as int),
        r.height == cut_length(y as int, height as int, image.height as int),
        r.data@ == cut_bytes(
            image.data@,
            1,
            image.width as int,
            x as int,
            y as int,
            r.width as int,
            r.height as int,
        ),
{
    let source = image::GrayImage::from_raw(image.width, image.height, image.data.clone()).unwrap();
    let out = image::imageops::crop_imm(&source, x, y, width, height).to_image();
    GrayImage { width: out.width(), height: out.height(), data: out.into_raw() }
}

/// The brightness of a colour: weights 0.2126, 0.7152 and 0.0722, rounded down.
pub open spec fn luma(red: u8, green: u8, blue: u8) -> int {
    (2126 * red + 7152 * green + 722 * blue) / 10000
}

/// Calls `image::imageops::grayscale` on a colour picture.
///
/// Not proved: that the result has the same sides and each of its pixels is the
/// brightness of the pixel at the same place.
#[verifier::external_body]
pub(crate) fn grayscale(image: &RgbImage) -> (r: GrayImage)
    requires
        image.wf(),
    ensures
        r.wf(),
        r.width == image.width,
        r.height == image.height,
        forall|i: int|
            0 <= i < r.data@.len() ==> #[trigger] r.data@[i] == luma(
                image.data@[3 * i],
                image.data@[3 * i + 1],
                image.data@[3 * i + 2],
            ),
{
    let source = image::ImageBuffer::<image::Rgb<u8>, &[u8]>::from_raw(
        image.width,
        image.height,
        image.data.as_slice(),
    ).unwrap();
    let out = image::imageops::grayscale(&source);
    GrayImage { width: out.width(), height: out.height(), data: out.into_raw() }
}

/// The pixel in column `column` of row `row` of `bottom` after `top` is laid over it with
/// its top left corner at `x`, `y`.
pub open spec fn overlaid(
    bottom: GrayImage,
    top: GrayImage,
    x: int,
    y: int,
    column: int,
    row: int,
) -> u8 {
    if 0 <= column - x < top.width && 0 <= row - y < top.height {
        top.pixel(column - x, row - y)
    } else {
        bottom.pixel(column, row)
    }
}

/// Calls `image::imageops::replace` on two grey pictures.
///
/// Not proved: that the upper picture takes the place of the pixels it covers and that all
/// others stay.
#[verifier::external_body]
pub(crate) fn replace(bottom: &mut GrayImage, top: &GrayImage, x: i64, y: i64)
    requires
        old(bottom).wf(),
        top.wf(),
    ensures
        final(bottom).wf(),
        final(bottom).width == old(bottom).width,
        final(bottom).height == old(bottom).height,
        forall|column: int, row: int|
            0 <= column < old(bottom).width && 0 <= row < old(bottom).height
                ==> #[trigger] final(bottom).pixel(column, row) == overlaid(
                *old(bottom),
                *top,
                x as int,
                y as int,
                column,
                row,
            ),
{
    let mut below = image::GrayImage::from_raw(
        bottom.width,
        bottom.height,
        bottom.data.clone(),
    ).unwrap();
    let above = image::GrayImage::from_raw(top.width, top.height, top.data.clone()).unwrap();
    image::imageops::replace(&mut below, &above, x, y);
    bottom.data = below.into_raw();
}

/// The points of each border that `imageproc` finds in a mask, border by border.
pub uninterp spec fn borders(data: Seq<u8>, width: int, height: int) -> Seq<Seq<(i32, i32)>>;

/// The point sequences of the borders.
pub open spec fn border_points(found: Seq<Vec<(i32, i32)>>) -> Seq<Seq<(i32, i32)>> {
    found.map_values(|b: Vec<(i32, i32)>| b@)
}

/// The sides of a mask whose borders can be counted and addressed with `i32`.
pub open spec fn traceable(width: u32, height: u32) -> bool {
    width * height < i32::MAX && 4 * (width * height) <= isize::MAX
}

/// Calls `imageproc::contours::find_contours::<i32>`.
///
/// Not proved: that the borders depend on the mask alone, that each has a point, and that
/// every point lies within the mask, on a pixel that is not zero. Which of these pixels belong
/// to a border is left unsaid.
#[verifier::external_body]
pub(crate) fn find_contours(mask: &GrayImage) -> (r: Vec<Vec<(i32, i32)>>)
    requires
        mask.wf(),
        mask.width >= 1,
        mask.height >= 1,
        traceable(mask.width, mask.height),
    ensures
        border_points(r@) == borders(mask.data@, mask.width as int, mask.height as int),
        forall|b: int, i: int|
            0 <= b < r@.len() && 0 <= i < r@[b]@.len() ==> 0 <= (#[trigger] r@[b]@[i]).0
                < mask.width && 0 <= r@[b]@[i].1 < mask.height && mask.pixel(
                r@[b]@[i].0 as int,
                r@[b]@[i].1 as int,
            ) != 0,
        forall|b: int| 0 <= b < r@.len() ==> (#[trigger] r@[b])@.len() >= 1,
{
    let source = image::GrayImage::from_raw(mask.width, mask.height, mask.data.clone()).unwrap();
    let found = imageproc::contours::find_contours::<i32>(&source);
    found.into_iter().map(|c| c.points.into_iter().map(|p| (p.x, p.y)).collect()).collect()
}

/// The bytes of a grey picture after `imageproc` drew a filled polygon on it.
pub uninterp spec fn with_polygon(
    data: Seq<u8>,
    width: int,
    height: int,
    corners: Seq<(i32, i32)>,
    value: u8,
) -> Seq<u8>;

/// The farthest coordinate of a polygon's corner from zero. The outline is followed in steps
/// of one that are counted with `i32`, and may go a few hundred steps beyond a corner, as its
/// slope is rounded.
pub const FARTHEST: i32 = 0x7fff_f000;

/// The difference of two coordinates is an `i32`.
pub open spec fn apart(a: i32, b: i32) -> bool {
    i32::MIN <= b - a <= i32::MAX
}

/// The largest number up to which binary32 tells all whole numbers apart.
pub const TOLD_APART: i32 = 0x100_0000;

/// The coordinate can be counted up to, and a little beyond.
pub open spec fn reachable(v: i32) -> bool {
    -FARTHEST <= v <= FARTHEST
}

/// The edge of a polygon can be followed. A level one is followed along its row. Of any other
/// the distances between the ends are `i32`; it is followed along its column, or both rows and
/// columns are counted.
pub open spec fn followable(p: (i32, i32), q: (i32, i32)) -> bool {
    if p.1 == q.1 {
        reachable(p.0) && reachable(q.0)
    } else {
        &&& reachable(p.1) && reachable(q.1) && apart(p.1, q.1)
        &&& {
            ||| reachable(p.0) && reachable(q.0) && apart(p.0, q.0)
            ||| p.0 == q.0 && -TOLD_APART <= p.1 <= TOLD_APART && -TOLD_APART <= q.1 <= TOLD_APART
        }
    }
}

/// The polygon can be drawn: its first corner is not its last, and no number leaves the range
/// of `i32` on the way along its edges.
pub open spec fn drawable(corners: Seq<(i32, i32)>) -> bool {
    &&& corners.len() > 0 ==> corners.first() != corners.last() && followable(
        corners.last(),
        corners.first(),
    )
    &&& forall|i: int, j: int|
        0 <= i < corners.len() && j == i + 1 && j < corners.len() ==> followable(
            #[trigger] corners[i],
            #[trigger] corners[j],
        )
}

/// Calls `imageproc::drawing::draw_polygon_mut` on a grey picture.
///
/// Not proved: that the sides stay and that the bytes depend on the picture, the corners
/// and the value alone; they are `with_polygon`. Which pixels the polygon covers is left
/// unsaid.
#[verifier::external_body]
pub(crate) fn draw_polygon(mask: &mut GrayImage, corners: &Vec<(i32, i32)>, value: u8)
    requires
        old(mask).wf(),
        1 <= old(mask).width <= i32::MAX,
        1 <= old(mask).height <= i32::MAX,
        drawable(corners@),
    ensures
        final(mask).wf(),
        final(mask).width == old(mask).width,
        final(mask).height == old(mask).height,
        final(mask).data@ == with_polygon(
            old(mask).data@,
            old(mask).width as int,
            old(mask).height as int,
            corners@,
            value,
        ),
{
    let mut canvas = image::GrayImage::from_raw(mask.width, mask.height, mask.data.clone()).unwrap();
    let corners: Vec<imageproc::point::Point<i32>> = corners.iter().map(
        |c| imageproc::point::Point::new(c.0, c.1),
    ).collect();
    imageproc::drawing::draw_polygon_mut(&mut canvas, &corners, image::Luma([value]));
    mask.data = canvas.into_raw();
}

} // verus!
