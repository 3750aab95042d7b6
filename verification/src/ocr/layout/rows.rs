//! Which rows of the layout model's answer give regions, and which regions they give.
use crate::ocr::layout::predictor::{box_of, boxes_of, counted, LayoutBox, LABELS};
use crate::single::Single;
use vstd::arithmetic::power2::*;
use vstd::prelude::*;

verus! {

/// The nearest value from zero to `limit`.
pub open spec fn moved(v: int, limit: int) -> int {
    if v < 0 {
        0
    } else if v > limit {
        limit
    } else {
        v
    }
}

/// Two opposite edges leave something of a box on a page: the far one lies beyond the near
/// one after both are moved onto it. Edges that are "not a number" do not drop a box.
pub open spec fn leaves(near: Single, far: Single, limit: int) -> bool {
    near.nan() || far.nan() || moved(near.units(), limit) < moved(far.units(), limit)
}

/// A row gives a region exactly where its score is not below the threshold, its class is one
/// of the twenty, and something of its box is on the page. The region has the class whose
/// number is the whole part of the first value, the score of the row, and its box with every
/// edge moved onto the page.
pub proof fn lemma_row_read(threshold: Single, ow: u32, oh: u32, row: Seq<Single>)
    requires
        row.len() == 6,
    ensures
        ({
            let (w, h) = (Single::whole(ow as int).units(), Single::whole(oh as int).units());
            let u = crate::single::unit() as int;
            let class = if row[0].nan() {
                0
            } else {
                row[0].units()
            };
            let r = box_of(threshold, ow, oh, row);
            &&& r is Some <==> {
                &&& !row[1].below(threshold)
                &&& class < 20 * u
                &&& leaves(row[2], row[4], w)
                &&& leaves(row[3], row[5], h)
            }
            &&& r matches Some(region) ==> {
                &&& region.label_id < 20
                &&& class >= 0 ==> region.label_id * u <= class < (region.label_id + 1) * u
                &&& class < 0 ==> region.label_id == 0
                &&& region.label == LABELS@[region.label_id as int]
                &&& region.score == row[1]
                &&& forall|k: int|
                    0 <= k < 4 ==> {
                        let edge = #[trigger] region.bbox@[k];
                        let limit = if k % 2 == 0 {
                            w
                        } else {
                            h
                        };
                        &&& edge.nan() <==> row[2 + k].nan()
                        &&& !edge.nan() ==> edge.units() == moved(row[2 + k].units(), limit)
                        &&& row[2 + k].nan() || 0 <= row[2 + k].units() <= limit ==> edge == row[2
                            + k]
                    }
            }
        }),
{
    reveal(box_of);
    reveal(Single::to_whole);
    let u: nat = crate::single::unit();
    lemma_pow2_pos(149);
    crate::bounds::lemma_whole_ordered(0, ow as nat);
    crate::bounds::lemma_whole_ordered(0, oh as nat);
    assert((Single { bits: 0 }).units() == 0);
    let x: Single = row[0];
    crate::close::lemma_not_zero(x);
    let s: nat = crate::single::size(x.units());
    let part: nat = s / u;
    assert(part * u <= s && s < (part + 1) * u) by (nonlinear_arith)
        requires
            part == s / u,
            u > 0,
    ;
    assert(s < 20 * u <==> part < 20) by (nonlinear_arith)
        requires
            part * u <= s,
            s < (part + 1) * u,
            u > 0,
    ;
    if x.zero() {
        assert(s == 0);
    }
    let r: Option<LayoutBox> = box_of(threshold, ow, oh, row);
    if r is Some {
        let b: Seq<Single> = r->Some_0.bbox@;
        assert(b.len() == 4);
        assert(b[0] == crate::ocr::layout::predictor::clipped(row[2], ow));
        assert(b[1] == crate::ocr::layout::predictor::clipped(row[3], oh));
        assert(b[2] == crate::ocr::layout::predictor::clipped(row[4], ow));
        assert(b[3] == crate::ocr::layout::predictor::clipped(row[5], oh));
    }
}

/// A row with a score that is not below the threshold, the whole number of any of the twenty
/// classes, and a box within the page gives the region with that class, score and box.
pub proof fn lemma_row_kept(threshold: Single, ow: u32, oh: u32, row: Seq<Single>, class: int)
    requires
        row.len() == 6,
        0 <= class < 20,
        !row[0].nan(),
        row[0].units() == class * crate::single::unit(),
        !row[1].below(threshold),
        forall|k: int| 2 <= k < 6 ==> !(#[trigger] row[k]).nan(),
        0 <= row[2].units() < row[4].units() <= Single::whole(ow as int).units(),
        0 <= row[3].units() < row[5].units() <= Single::whole(oh as int).units(),
    ensures
        ({
            let r = box_of(threshold, ow, oh, row);
            &&& r is Some
            &&& r->Some_0.label_id == class
            &&& r->Some_0.label == LABELS@[class]
            &&& r->Some_0.score == row[1]
            &&& r->Some_0.bbox@ == seq![row[2], row[3], row[4], row[5]]
        }),
{
    let u: int = crate::single::unit() as int;
    lemma_pow2_pos(149);
    lemma_row_read(threshold, ow, oh, row);
    assert(0 <= class * u && class * u < 20 * u) by (nonlinear_arith)
        requires
            0 <= class < 20,
            u > 0,
    ;
    let r: LayoutBox = box_of(threshold, ow, oh, row)->Some_0;
    let id: int = r.label_id as int;
    assert(id == class) by (nonlinear_arith)
        requires
            id * u <= class * u,
            class * u < (id + 1) * u,
            u > 0,
    ;
    let b: Seq<Single> = r.bbox@;
    assert(b[0] == row[2] && b[1] == row[3] && b[2] == row[4] && b[3] == row[5]);
    assert(b =~= seq![row[2], row[3], row[4], row[5]]);
}

/// Every row is read, and the regions stay in the order of their rows.
pub proof fn lemma_rows_read(threshold: Single, ow: u32, oh: u32, data: Seq<Single>, n: nat)
    requires
        6 * n <= data.len(),
    ensures
        boxes_of(threshold, ow, oh, data, n) == Seq::new(n, |i: int| i).filter_map(
            |i: int|
                box_of(
                    threshold,
                    ow,
                    oh,
                    seq![
                        data[6 * i],
                        data[6 * i + 1],
                        data[6 * i + 2],
                        data[6 * i + 3],
                        data[6 * i + 4],
                        data[6 * i + 5],
                    ],
                ),
        ),
    decreases n,
{
    let rows: Seq<int> = Seq::new(n, |i: int| i);
    if n > 0 {
        lemma_rows_read(threshold, ow, oh, data, (n - 1) as nat);
        assert(rows.drop_last() =~= Seq::new((n - 1) as nat, |i: int| i));
        let i: int = n - 1;
        assert(data.subrange(6 * i, 6 * i + 6) =~= seq![
            data[6 * i],
            data[6 * i + 1],
            data[6 * i + 2],
            data[6 * i + 3],
            data[6 * i + 4],
            data[6 * i + 5],
        ]);
        assert(rows.last() == i);
    }
}

/// The model's number of regions counts where there are as many rows or more, and all rows
/// count where it gives no number, a negative one or too large a one.
pub proof fn lemma_counted(n: i32, rows: usize)
    ensures
        counted(None, rows) == rows,
        0 <= n <= rows ==> counted(Some(n), rows) == n,
        n < 0 || n > rows ==> counted(Some(n), rows) == rows,
{
}

/// A side of a page is fed 800 pixels long: the model is told by how much that is longer, up to
/// three parts in `2^23`.
pub proof fn lemma_scale_told(side: u32)
    requires
        side >= 1,
    ensures
        crate::close::about(
            Single::quotient(Single::whole(800), Single::whole(side as int)),
            800,
            side as int,
            3,
        ),
{
    crate::close::lemma_whole_about(800);
    crate::close::lemma_whole_about(side as int);
    crate::close::lemma_quotient_about(
        Single::whole(800),
        Single::whole(side as int),
        800,
        1,
        1,
        side as int,
        1,
        1,
    );
    assert(1 * (side as int) == side);
}

} // verus!
