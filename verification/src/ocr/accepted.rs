//! Maps and pictures of ordinary sizes can be worked on.
use crate::ocr::text::detection::map_wf;
use crate::raster::resizable;
use crate::single::Single;
use vstd::prelude::*;

verus! {

/// Every map of up to 16384 by 16384 pixels that has all of them can be read.
pub proof fn lemma_map_readable(pred: Seq<Single>, pw: usize, ph: usize)
    requires
        1 <= pw <= 16_384,
        1 <= ph <= 16_384,
        pw * ph <= pred.len(),
    ensures
        map_wf(pred, pw, ph),
{
    let (a, b): (int, int) = (pw + 2, ph + 2);
    assert(a * b <= 16_386 * 16_386) by (nonlinear_arith)
        requires
            0 <= a <= 16_386,
            0 <= b <= 16_386,
    ;
    assert(a as u32 * b as u32 == a * b);
}

/// Every page of up to 16384 by 16384 pixels can be scaled to what a model is fed.
pub proof fn lemma_page_scalable(w: u32, h: u32, to_w: u32, to_h: u32)
    requires
        w <= 16_384,
        h <= 16_384,
        to_w <= 4000,
        to_h <= 4000,
    ensures
        resizable(w, h, to_w, to_h),
{
    assert(w * to_h <= 16_384 * 4000 && to_w * to_h <= 4000 * 4000) by (nonlinear_arith)
        requires
            w <= 16_384,
            to_w <= 4000,
            to_h <= 4000,
    ;
}

} // verus!
