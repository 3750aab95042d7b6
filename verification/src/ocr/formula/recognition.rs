//! Reading formulas.
//!
//! The model is fed grey pictures of 384 by 384 pixels and answers with a row of tokens for
//! each, which spell the formula in LaTeX.
use crate::raster::{GrayImage, RgbImage};
use crate::single::Single;
use vstd::arithmetic::div_mod::*;
use vstd::prelude::*;
use vstd::slice::slice_subrange;

verus! {

/// The bit pattern of 0.7931.
pub const DEFAULT_MEAN: u32 = 0x3f4b_089a;

/// The bit pattern of 0.1738.
pub const DEFAULT_STD: u32 = 0x3e31_f8a1;

/// How many formulas are fed at once unless set otherwise.
pub const BATCH_SIZE: usize = 1;

/// Reads formulas.
#[derive(Debug)]
pub struct FormulaRecognizer {
    /// The tokens: entry `i` is the spelling of token `i`.
    pub tokens: Vec<String>,
    /// What is taken from the brightness of a pixel, as a fraction of 255.
    pub mean: Single,
    /// What the rest is divided by.
    pub std: Single,
}

/// The answer of the model is not one row for each formula.
#[derive(Debug)]
pub struct UnexpectedShape {
    pub shape: Vec<i64>,
}

/// The brightness of every pixel of a colour picture.
pub open spec fn gray_data(data: Seq<u8>, pixels: int) -> Seq<u8> {
    Seq::new(
        pixels as nat,
        |i: int| crate::raster::luma(data[3 * i], data[3 * i + 1], data[3 * i + 2]) as u8,
    )
}

/// What the model is fed for a picture.
pub open spec fn formula_input(image: RgbImage, mean: Single, std: Single) -> Seq<Single> {
    let cut = crate::ocr::formula::picture::without_margin(
        gray_data(image.data@, image.width * image.height),
        image.width as int,
        image.height as int,
    );
    let sides = crate::ocr::formula::picture::fitted_sides(cut.0 as u32, cut.1 as u32);
    crate::ocr::formula::picture::formula_plane(
        crate::raster::resampled_gray(cut.2, cut.0, cut.1, sides.0, sides.1),
        sides.0,
        sides.1,
        mean,
        std,
    )
}

/// The picture can be scaled for the model.
pub open spec fn readable(image: RgbImage) -> bool {
    image.wf() && crate::raster::resizable(image.width, image.height, 384, 384)
}

/// The inputs for the pictures `from` to `to`, one after another.
pub open spec fn formula_inputs(
    images: Seq<RgbImage>,
    from: int,
    to: int,
    mean: Single,
    std: Single,
) -> Seq<Single>
    decreases to - from,
{
    if to <= from {
        Seq::empty()
    } else {
        formula_inputs(images, from, to - 1, mean, std) + formula_input(images[to - 1], mean, std)
    }
}

/// Which pictures are fed together: from the first of each pair up to the second.
pub open spec fn groups(from: int, count: int, size: int) -> Seq<(int, int)>
    decreases count - from,
{
    if size <= 0 || count <= from {
        Seq::empty()
    } else if count - from <= size {
        seq![(from, count)]
    } else {
        seq![(from, from + size)] + groups(from + size, count, size)
    }
}

/// Every picture is fed once, in order: the first group begins with the first picture, each
/// other group where the one before ends, and the last ends with the last picture. No group is
/// empty or has more than `size` pictures.
pub proof fn lemma_groups(from: int, count: int, size: int)
    requires
        size >= 1,
        from <= count,
    ensures
        ({
            let all = groups(from, count, size);
            &&& all.len() == 0 <==> from == count
            &&& all.len() > 0 ==> all.first().0 == from && all.last().1 == count
            &&& forall|k: int|
                0 <= k < all.len() ==> (#[trigger] all[k]).0 < all[k].1 <= all[k].0 + size
            &&& forall|k: int, j: int|
                0 <= k < all.len() && j == k + 1 && j < all.len() ==> (#[trigger] all[k]).1 == (
                #[trigger] all[j]).0
        }),
    decreases count - from,
{
    if count - from > size {
        lemma_groups(from + size, count, size);
        let rest: Seq<(int, int)> = groups(from + size, count, size);
        let all: Seq<(int, int)> = groups(from, count, size);
        assert forall|k: int| 0 <= k < all.len() implies (#[trigger] all[k]).0 < all[k].1
            <= all[k].0 + size by {
            if k > 0 {
                assert(all[k] == rest[k - 1]);
            }
        }
        assert forall|k: int, j: int| 0 <= k < all.len() && j == k + 1 && j < all.len() implies (
        #[trigger] all[k]).1 == (#[trigger] all[j]).0 by {
            assert(all[j] == rest[k]);
            if k > 0 {
                assert(all[k] == rest[k - 1]);
            }
        }
        assert(all.last() == rest.last());
    }
}

/// The pairs as whole numbers.
pub open spec fn whole_pairs(v: Seq<(usize, usize)>) -> Seq<(int, int)> {
    v.map_values(|p: (usize, usize)| (p.0 as int, p.1 as int))
}

/// The answer is one row for each of `count` formulas.
pub open spec fn expected_shape(shape: Seq<i64>, count: int) -> bool {
    shape.len() == 2 && shape[0] == count
}

/// How many rows of `length` tokens there are.
pub open spec fn row_count(ids: Seq<i64>, length: i64) -> int {
    if length <= 0 {
        0
    } else {
        ids.len() as int / length as int
    }
}

/// The tokens of row `i`.
pub open spec fn id_row(ids: Seq<i64>, length: i64, i: int) -> Seq<i64> {
    ids.subrange(i * length, i * length + length)
}

/// The bytes that row `i` stands for.
pub open spec fn row_bytes(tokens: Seq<Seq<char>>, ids: Seq<i64>, length: i64, i: int) -> Seq<u8> {
    crate::ocr::formula::bytes::bytes_of(
        crate::ocr::formula::bytes::spelling(tokens, id_row(ids, length, i)),
    )
}

impl FormulaRecognizer {
    /// A reader for a vocabulary with one token per line, and the normalisation that the
    /// model was made for.
    pub fn new(tokens: &str) -> (r: FormulaRecognizer)
        ensures
            crate::strings::texts(r.tokens@) == crate::strings::lines_of(tokens@),
            r.mean.bits == DEFAULT_MEAN,
            r.std.bits == DEFAULT_STD,
    {
        FormulaRecognizer {
            tokens: crate::strings::split_lines(tokens),
            mean: Single::from_bits(DEFAULT_MEAN),
            std: Single::from_bits(DEFAULT_STD),
        }
    }

    /// Sets the normalisation.
    pub fn with_normalization(self, mean: Single, std: Single) -> (r: FormulaRecognizer)
        ensures
            r == (FormulaRecognizer { mean, std, ..self }),
    {
        FormulaRecognizer { tokens: self.tokens, mean, std }
    }

    /// What the model is fed for a picture.
    pub fn preprocess(&self, image: &RgbImage) -> (r: Vec<Single>)
        requires
            readable(*image),
        ensures
            r@ == formula_input(*image, self.mean, self.std),
            r@.len() == 384 * 384,
    {
        let gray: GrayImage = crate::raster::grayscale(image);
        proof {
            let pixels: int = image.width * image.height;
            let want: Seq<u8> = gray_data(image.data@, pixels);
            assert forall|i: int| 0 <= i < gray.data@.len() implies gray.data@[i] == want[i] by {
                let (a, b, c) = (
                    image.data@[3 * i],
                    image.data@[3 * i + 1],
                    image.data@[3 * i + 2],
                );
                assert(0 <= crate::raster::luma(a, b, c) <= 255);
            }
            assert(gray.data@ =~= want);
        }
        let cut: GrayImage = crate::ocr::formula::picture::crop_margin(&gray);
        let sides: (u32, u32) = crate::ocr::formula::picture::fit(cut.width, cut.height);
        proof {
            let (w, h): (int, int) = (cut.width as int, sides.1 as int);
            let full: int = image.width as int;
            assert(w * h <= full * 384) by (nonlinear_arith)
                requires
                    0 <= w <= full,
                    0 <= h <= 384,
            ;
            let r: int = sides.0 as int;
            assert(r * h <= 384 * 384) by (nonlinear_arith)
                requires
                    0 <= r <= 384,
                    0 <= h <= 384,
            ;
        }
        let resized: GrayImage = crate::raster::resize_gray(&cut, sides.0, sides.1);
        crate::ocr::formula::picture::centre(&resized, self.mean, self.std)
    }

    /// What the model is fed for the pictures `from` to `to`.
    pub fn input(&self, images: &Vec<RgbImage>, from: usize, to: usize) -> (r: Vec<Single>)
        requires
            from <= to <= images@.len(),
            forall|i: int| from <= i < to ==> readable(#[trigger] images@[i]),
        ensures
            r@ == formula_inputs(images@, from as int, to as int, self.mean, self.std),
    {
        let mut r: Vec<Single> = Vec::new();
        let mut i: usize = from;
        while i < to
            invariant
                from <= i <= to <= images@.len(),
                forall|i: int| from <= i < to ==> readable(#[trigger] images@[i]),
                r@ == formula_inputs(images@, from as int, i as int, self.mean, self.std),
            decreases to - i,
        {
            let one: Vec<Single> = self.preprocess(&images[i]);
            r.extend_from_slice(one.as_slice());
            i = i + 1;
            assert(r@ =~= formula_inputs(images@, from as int, i as int, self.mean, self.std));
        }
        r
    }

    /// Which of `count` pictures are fed together, at most `batch_size` at once and at least
    /// one.
    pub fn plan(count: usize, batch_size: usize) -> (r: Vec<(usize, usize)>)
        ensures
            whole_pairs(r@) == groups(
                0,
                count as int,
                if batch_size < 1 {
                    1
                } else {
                    batch_size as int
                },
            ),
    {
        let size: usize = if batch_size < 1 {
            1
        } else {
            batch_size
        };
        let mut r: Vec<(usize, usize)> = Vec::new();
        let mut from: usize = 0;
        assert(whole_pairs(r@) + groups(0, count as int, size as int) =~= groups(
            0,
            count as int,
            size as int,
        ));
        while from < count
            invariant
                from <= count,
                size >= 1,
                whole_pairs(r@) + groups(from as int, count as int, size as int) == groups(
                    0,
                    count as int,
                    size as int,
                ),
            decreases count - from,
        {
            let to: usize = if count - from <= size {
                count
            } else {
                from + size
            };
            let ghost before: Seq<(int, int)> = whole_pairs(r@);
            let ghost rest: Seq<(int, int)> = groups(to as int, count as int, size as int);
            r.push((from, to));
            proof {
                assert(whole_pairs(r@) =~= before + seq![(from as int, to as int)]);
                assert(whole_pairs(r@) + rest =~= before + (seq![(from as int, to as int)] + rest));
                if to == count {
                    assert(seq![(from as int, to as int)] + rest =~= seq![(from as int, to as int)]);
                }
            }
            from = to;
        }
        assert(whole_pairs(r@) + groups(from as int, count as int, size as int) =~= whole_pairs(r@));
        r
    }

    /// The formulas that the answer for `count` pictures spells.
    ///
    /// An error where the answer is not one row for each picture.
    pub fn read(&self, shape: &Vec<i64>, ids: &Vec<i64>, count: usize) -> (r: Result<
        Vec<String>,
        UnexpectedShape,
    >)
        requires
            expected_shape(shape@, count as int) ==> shape@[1] != 0,
        ensures
            r is Ok <==> expected_shape(shape@, count as int),
            r matches Err(e) ==> e.shape@ == shape@,
            r matches Ok(texts) ==> {
                &&& texts@.len() == row_count(ids@, shape@[1])
                &&& forall|i: int|
                    0 <= i < texts@.len() ==> {
                        let bytes = row_bytes(
                            crate::strings::texts(self.tokens@),
                            ids@,
                            shape@[1],
                            i,
                        );
                        &&& (#[trigger] texts@[i])@ == crate::ocr::formula::bytes::lossy_text(bytes)
                        &&& vstd::utf8::valid_utf8(bytes) ==> texts@[i]@
                            == vstd::utf8::decode_utf8(bytes)
                    }
            },
            // one formula for each picture, where the answer is as long as its shape says
            r matches Ok(texts) ==> shape@[1] > 0 && ids@.len() == shape@[0] * shape@[1]
                ==> texts@.len() == count,
    {
        if shape.len() != 2 || shape[0] < 0 || shape[0] as u64 != count as u64 {
            return Err(UnexpectedShape { shape: shape.clone() });
        }
        let mut r: Vec<String> = Vec::new();
        proof {
            if shape@[1] > 0 && ids@.len() == shape@[0] * shape@[1] {
                lemma_div_multiples_vanish(count as int, shape@[1] as int);
            }
        }
        if shape[1] < 0 || shape[1] as u64 > usize::MAX as u64 {
            proof {
                if shape@[1] > 0 {
                    assert(ids.len() <= usize::MAX);
                    lemma_basic_div(ids@.len() as int, shape@[1] as int);
                }
            }
            return Ok(r);
        }
        let length: usize = shape[1] as usize;
        let ghost rows: int = row_count(ids@, shape@[1]);
        let mut i: usize = 0;
        let mut at: usize = 0;
        proof {
            lemma_fundamental_div_mod(ids@.len() as int, length as int);
        }
        while ids.len() - at >= length
            invariant
                length >= 1,
                length == shape@[1],
                rows == row_count(ids@, shape@[1]),
                at == i * length,
                at <= ids.len(),
                i <= ids.len(),
                r@.len() == i,
                forall|k: int|
                    0 <= k < i ==> {
                        let bytes = row_bytes(
                            crate::strings::texts(self.tokens@),
                            ids@,
                            shape@[1],
                            k,
                        );
                        &&& (#[trigger] r@[k])@ == crate::ocr::formula::bytes::lossy_text(bytes)
                        &&& vstd::utf8::valid_utf8(bytes) ==> r@[k]@ == vstd::utf8::decode_utf8(
                            bytes,
                        )
                    },
            decreases ids.len() - at,
        {
            let row: &[i64] = slice_subrange(ids.as_slice(), at, at + length);
            let text: String = crate::ocr::formula::bytes::decode(&self.tokens, row);
            assert(row@ =~= id_row(ids@, shape@[1], i as int));
            r.push(text);
            proof {
                let (k, l): (int, int) = (i as int, length as int);
                assert((k + 1) * l == k * l + l) by (nonlinear_arith);
                assert(k + 1 <= k * l + l) by (nonlinear_arith)
                    requires
                        k >= 0,
                        l >= 1,
                ;
            }
            i = i + 1;
            at = at + length;
        }
        proof {
            lemma_fundamental_div_mod_converse(
                ids@.len() as int,
                length as int,
                i as int,
                ids@.len() - at,
            );
        }
        Ok(r)
    }
}

} // verus!
