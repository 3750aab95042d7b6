//! The constants of the models, as decimal numbers.
use crate::single::Single;
use vstd::arithmetic::power2::*;
use vstd::prelude::*;

verus! {

/// The number is the one nearest to `num / den`.
pub open spec fn nearest_to(bits: u32, num: nat, den: nat) -> bool {
    Single { bits } == Single::rounded(false, num * crate::single::unit(), den)
}

/// A number of twenty-four bits that are all needed is nearest to a fraction where the fraction
/// lies between the midpoints around it.
proof fn lemma_decimal(bits: u32, f: nat, q: nat, num: nat, den: nat, scale: int)
    requires
        bits == f + q * 0x80_0000,
        0x80_0000 < f < 0xff_ffff,
        q <= 149,
        bits < 0x7f80_0000,
        scale == pow2((149 - q) as nat),
        den > 0,
        (2 * f - 1) * den < 2 * (num * scale) < (2 * f + 1) * den,
    ensures
        nearest_to(bits, num, den),
{
    let u: int = crate::single::unit() as int;
    let p: int = pow2(q) as int;
    lemma_pow2_pos(q);
    lemma_pow2_adds((149 - q) as nat, q);
    crate::single::lemma_step_scaled(f, q);
    crate::single::lemma_step_scaled(f + 1, q);
    crate::single::lemma_step_scaled((f - 1) as nat, q);
    let (a, b): (int, int) = (num * scale, num * u);
    assert(b == a * p) by (nonlinear_arith)
        requires
            a == num * scale,
            b == num * u,
            u == scale * p,
    ;
    assert(f * p + (f + 1) * p == (2 * f + 1) * p && (f - 1) * p + f * p == (2 * f - 1) * p)
        by (nonlinear_arith);
    let (s, t): (int, int) = ((2 * f + 1) * p, (2 * f - 1) * p);
    assert(2 * b < s * den) by (nonlinear_arith)
        requires
            b == a * p,
            s == (2 * f + 1) * p,
            2 * a < (2 * f + 1) * den,
            p > 0,
    ;
    assert(2 * b > t * den) by (nonlinear_arith)
        requires
            b == a * p,
            t == (2 * f - 1) * p,
            2 * a > (2 * f - 1) * den,
            p > 0,
    ;
    crate::single::lemma_nearest_is(bits as nat, num * crate::single::unit(), den);
}

/// A number that is a fraction is nearest to it.
proof fn lemma_fraction(bits: u32, f: nat, q: nat, num: nat, den: nat, scale: int)
    requires
        bits == f + q * 0x80_0000,
        0x80_0000 <= f <= 0xff_ffff,
        q <= 149,
        bits < 0x7f80_0000,
        scale == pow2((149 - q) as nat),
        den > 0,
        f * den == num * scale,
    ensures
        nearest_to(bits, num, den),
{
    let u: int = crate::single::unit() as int;
    let p: int = pow2(q) as int;
    lemma_pow2_pos(q);
    lemma_pow2_adds((149 - q) as nat, q);
    crate::single::lemma_step_scaled(f, q);
    assert(num * u == (f * p) * den) by (nonlinear_arith)
        requires
            f * den == num * scale,
            u == scale * p,
    ;
    crate::single::lemma_nearest_step(bits as nat, den);
}

/// The powers of two by which the constants are scaled.
proof fn lemma_scales()
    ensures
        pow2(16) == 0x1_0000,
        pow2(18) == 0x4_0000,
        pow2(20) == 0x10_0000,
        pow2(22) == 0x40_0000,
        pow2(23) == 0x80_0000,
        pow2(24) == 0x100_0000,
        pow2(25) == 0x200_0000,
        pow2(26) == 0x400_0000,
        pow2(43) == 0x800_0000_0000,
        pow2(50) == 0x4_0000_0000_0000,
{
    lemma2_to64();
    lemma_pow2_adds(32, 11);
    lemma_pow2_adds(32, 18);
}

/// The constants are the numbers nearest to their decimal fractions.
pub proof fn lemma_constants()
    ensures
        nearest_to(crate::ocr::text::detection::MEAN[0], 485, 1000),
        nearest_to(crate::ocr::text::detection::MEAN[1], 456, 1000),
        nearest_to(crate::ocr::text::detection::MEAN[2], 406, 1000),
        nearest_to(crate::ocr::text::detection::STD[0], 229, 1000),
        nearest_to(crate::ocr::text::detection::STD[1], 224, 1000),
        nearest_to(crate::ocr::text::detection::STD[2], 225, 1000),
        nearest_to(crate::ocr::text::detection::THRESH, 2, 10),
        nearest_to(crate::ocr::text::detection::BOX_THRESH, 4, 10),
        nearest_to(crate::ocr::text::detection::UNCLIP_RATIO, 14, 10),
        nearest_to(crate::pipeline::config::LAYOUT_THRESHOLD, 4, 10),
        nearest_to(crate::ocr::formula::recognition::DEFAULT_MEAN, 7931, 10000),
        nearest_to(crate::ocr::formula::recognition::DEFAULT_STD, 1738, 10000),
        nearest_to(crate::ocr::text::geometry::SHORTEST_EDGE, 1, 1000000),
        nearest_to(crate::ocr::text::geometry::PARALLEL, 1, 100000000),
        nearest_to(crate::single::ONE, 1, 1),
        nearest_to(crate::ocr::text::geometry::TWO, 2, 1),
        nearest_to(crate::ocr::text::detection::MIN_BOX_SIZE, 3, 1),
        nearest_to(crate::ocr::text::reading::SAME_BASELINE, 10, 1),
        nearest_to(crate::ocr::text::sizes::THIRTY_TWO, 32, 1),
        nearest_to(crate::ocr::formula::picture::INK_LIMIT, 200, 1),
        nearest_to(crate::ocr::tensor::BYTE_MAX, 255, 1),
        nearest_to(crate::ocr::text::line::HALF, 1, 2),
        nearest_to(crate::ocr::layout::predictor::DEFAULT_THRESHOLD, 1, 2),
{
    lemma_scales();
    lemma_decimal(crate::ocr::text::detection::MEAN[0], 0xf8_51ec, 124, 485, 1000, 0x200_0000);
    lemma_decimal(crate::ocr::text::detection::MEAN[1], 0xe9_78d5, 124, 456, 1000, 0x200_0000);
    lemma_decimal(crate::ocr::text::detection::MEAN[2], 0xcf_df3b, 124, 406, 1000, 0x200_0000);
    lemma_decimal(crate::ocr::text::detection::STD[0], 0xea_7efa, 123, 229, 1000, 0x400_0000);
    lemma_decimal(crate::ocr::text::detection::STD[1], 0xe5_6042, 123, 224, 1000, 0x400_0000);
    lemma_decimal(crate::ocr::text::detection::STD[2], 0xe6_6666, 123, 225, 1000, 0x400_0000);
    lemma_decimal(crate::ocr::text::detection::THRESH, 0xcc_cccd, 123, 2, 10, 0x400_0000);
    lemma_decimal(crate::ocr::text::detection::BOX_THRESH, 0xcc_cccd, 124, 4, 10, 0x200_0000);
    lemma_decimal(crate::ocr::text::detection::UNCLIP_RATIO, 0xb3_3333, 126, 14, 10, 0x80_0000);
    lemma_decimal(crate::pipeline::config::LAYOUT_THRESHOLD, 0xcc_cccd, 124, 4, 10, 0x200_0000);
    lemma_decimal(crate::ocr::formula::recognition::DEFAULT_MEAN, 0xcb_089a, 125, 7931, 10000, 0x100_0000);
    lemma_decimal(crate::ocr::formula::recognition::DEFAULT_STD, 0xb1_f8a1, 123, 1738, 10000, 0x400_0000);
    lemma_decimal(crate::ocr::text::geometry::SHORTEST_EDGE, 0x86_37bd, 106, 1, 1000000, 0x800_0000_0000);
    lemma_decimal(crate::ocr::text::geometry::PARALLEL, 0xab_cc77, 99, 1, 100000000, 0x4_0000_0000_0000);
    lemma_fraction(crate::single::ONE, 0x80_0000, 126, 1, 1, 0x80_0000);
    lemma_fraction(crate::ocr::text::geometry::TWO, 0x80_0000, 127, 2, 1, 0x40_0000);
    lemma_fraction(crate::ocr::text::detection::MIN_BOX_SIZE, 0xc0_0000, 127, 3, 1, 0x40_0000);
    lemma_fraction(crate::ocr::text::reading::SAME_BASELINE, 0xa0_0000, 129, 10, 1, 0x10_0000);
    lemma_fraction(crate::ocr::text::sizes::THIRTY_TWO, 0x80_0000, 131, 32, 1, 0x4_0000);
    lemma_fraction(crate::ocr::formula::picture::INK_LIMIT, 0xc8_0000, 133, 200, 1, 0x1_0000);
    lemma_fraction(crate::ocr::tensor::BYTE_MAX, 0xff_0000, 133, 255, 1, 0x1_0000);
    lemma_fraction(crate::ocr::text::line::HALF, 0x80_0000, 125, 1, 2, 0x100_0000);
    lemma_fraction(crate::ocr::layout::predictor::DEFAULT_THRESHOLD, 0x80_0000, 125, 1, 2, 0x100_0000);
}

/// The sizes that the models were made for.
pub proof fn lemma_sizes()
    ensures
        crate::ocr::text::sizes::LIMIT_SIDE_LEN == 736,
        crate::ocr::text::sizes::MAX_SIDE_LEN == 4000,
        crate::ocr::text::detection::DEFAULT_MAX_DET_SIDE == 1280,
        crate::ocr::text::line::INPUT_HEIGHT == 48,
        crate::ocr::text::line::MAX_INPUT_WIDTH == 3200,
        crate::ocr::text::line::DEFAULT_BATCH_SIZE == 8,
        crate::ocr::formula::bytes::EOS_TOKEN == 2,
        crate::ocr::formula::bytes::NUM_SPECIAL_TOKENS == 23,
        crate::ocr::formula::recognition::BATCH_SIZE == 1,
        crate::ocr::formula::picture::INPUT_SIZE == 384,
        crate::ocr::layout::predictor::INPUT_SIZE == 800,
        crate::pipeline::crops::FORMULA_PADDING == 8,
{
}

} // verus!
