//! Reading order in pixels: downward, and from left to right on one baseline.
use crate::ocr::text::detection::TextLine;
use crate::ocr::text::reading::{
    in_reading_order, lemma_in_reading_order, may_precede, reversed, sortable, SAME_BASELINE,
};
use crate::single::Single;
use vstd::arithmetic::power2::*;
use vstd::prelude::*;

verus! {

/// How far apart two edges are, in units.
pub open spec fn gap(a: Single, b: Single) -> int {
    if a.units() < b.units() {
        b.units() - a.units()
    } else {
        a.units() - b.units()
    }
}

/// Tops less than ten pixels apart share a baseline; where they are less than one part in
/// `2^24` from ten pixels apart, rounding decides.
pub proof fn lemma_same_baseline(a: Single, b: Single)
    requires
        a.finite(),
        b.finite(),
    ensures
        ({
            let same = Single::difference(a, b).unsigned().below(Single { bits: SAME_BASELINE });
            let u = crate::single::unit();
            &&& gap(a, b) >= 10 * u ==> !same
            &&& 0x100_0000 * gap(a, b) < 0xff_ffff * (10 * u) ==> same
        }),
{
    let u: nat = crate::single::unit();
    lemma_pow2_pos(149);
    let ten: Single = Single { bits: SAME_BASELINE };
    let m: nat = 0x4120_0000;
    assert(ten.units() == 10 * u && crate::single::step(m) == 10 * u) by {
        lemma2_to64();
        crate::single::lemma_step_scaled(0xa0_0000, 129);
        lemma_pow2_adds(20, 129);
        assert(pow2(20) * pow2(129) == 0x10_0000 * pow2(129)) by (nonlinear_arith)
            requires
                pow2(20) == 0x10_0000,
        ;
    }
    crate::bounds::lemma_difference(a, b);
    let n: nat = crate::single::size(a.units() - b.units());
    assert(n == gap(a, b));
    let k: nat = crate::single::nearest(n, 1);
    let d: Single = Single::difference(a, b);
    assert(d.unsigned().units() == crate::single::step(k));
    if n >= 10 * u {
        crate::bounds::lemma_nearest_at_least(n, 1, m);
        if m < k {
            crate::single::lemma_step_increases(m, k);
        }
    } else if 0x100_0000 * n < 0xff_ffff * (10 * u) {
        crate::bounds::lemma_nearest_at_most(n, 1, m);
        crate::bounds::lemma_nearest_close(n, 1);
        lemma_pow2_strictly_increases(23, 149);
        lemma2_to64();
        if k == m {
            assert(false);
        }
        crate::single::lemma_step_increases(k, m);
    }
}

/// In reading order no line comes before one whose top is ten pixels higher or more, and of
/// two neighbours whose tops are less than ten pixels apart the left one comes first.
pub proof fn lemma_lines_ordered(lines: Seq<TextLine>)
    requires
        lines.len() <= usize::MAX,
        forall|i: int|
            0 <= i < lines.len() ==> (#[trigger] lines[i]).bbox[0].finite()
                && lines[i].bbox[1].finite(),
    ensures
        ({
            let r = in_reading_order(lines);
            let u = crate::single::unit();
            &&& r.to_multiset() == lines.to_multiset()
            &&& r.len() == lines.len()
            &&& forall|i: int, j: int|
                0 <= i < j < r.len() ==> (#[trigger] r[i]).bbox[1].units() < (
                #[trigger] r[j]).bbox[1].units() + 10 * u
            &&& forall|k: int|
                0 <= k < r.len() - 1 && 0x100_0000 * gap(
                    (#[trigger] r[k]).bbox[1],
                    r[k + 1].bbox[1],
                ) < 0xff_ffff * (10 * u) ==> r[k].bbox[0].units() <= r[k + 1].bbox[0].units()
        }),
{
    let r: Seq<TextLine> = in_reading_order(lines);
    let u: nat = crate::single::unit();
    lemma_pow2_pos(149);
    assert(sortable(lines));
    lemma_in_reading_order(lines);
    broadcast use vstd::seq_lib::group_to_multiset_ensures;

    assert(r.len() == r.to_multiset().len() && lines.len() == lines.to_multiset().len());
    assert forall|i: int| 0 <= i < r.len() implies (#[trigger] r[i]).bbox[0].finite()
        && r[i].bbox[1].finite() by {
        assert(r.to_multiset().count(r[i]) > 0);
        assert(lines.to_multiset().count(r[i]) > 0);
        assert(lines.contains(r[i]));
        let k: int = choose|k: int| 0 <= k < lines.len() && lines[k] == r[i];
        assert(lines[k].bbox[0].finite());
    }
    assert forall|i: int, j: int| 0 <= i < j < r.len() implies (#[trigger] r[i]).bbox[1].units() < (
    #[trigger] r[j]).bbox[1].units() + 10 * u by {
        assert(may_precede(r[i], r[j]));
        lemma_same_baseline(r[i].bbox[1], r[j].bbox[1]);
    }
    assert forall|k: int|
        0 <= k < r.len() - 1 && 0x100_0000 * gap((#[trigger] r[k]).bbox[1], r[k + 1].bbox[1])
            < 0xff_ffff * (10 * u) implies r[k].bbox[0].units() <= r[k + 1].bbox[0].units() by {
        assert(r[k + 1].bbox[1].finite());
        assert(!reversed(r[k], r[k + 1]));
        lemma_same_baseline(r[k + 1].bbox[1], r[k].bbox[1]);
    }
}

} // verus!
