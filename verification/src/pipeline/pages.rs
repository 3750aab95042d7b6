//! What becomes of a page as a whole.
use crate::ocr::layout::predictor::LayoutBox;
use crate::pipeline::config::LayoutClassConfig;
use crate::pipeline::crops::{text_content, Cut};
use crate::pipeline::engine::{failure, LayoutAnswer, LineAnswer};
use crate::pipeline::homes::lemma_all_enabled;
use crate::pipeline::labels::markdown;
use crate::pipeline::parts::lemma_texts_kept;
use crate::pipeline::regions::{enabled_regions, lemma_reading_order, selected};
use crate::single::Single;
use crate::strings::{joined, trimmed};
use vstd::prelude::*;

verus! {

/// The paragraphs of a page are all regions whose class is recognised, from top to bottom and,
/// where their tops are level, from left to right.
pub proof fn lemma_selected(boxes: Seq<LayoutBox>, classes: LayoutClassConfig)
    requires
        boxes.len() <= usize::MAX,
        forall|i: int|
            0 <= i < boxes.len() ==> !(#[trigger] boxes[i]).bbox[0].nan() && !boxes[i].bbox[1].nan(),
    ensures
        ({
            let r = selected(boxes, classes);
            let kept = boxes.filter(|b: LayoutBox| classes.enables(b.label@));
            &&& r.to_multiset() == kept.to_multiset()
            &&& r.len() == kept.len()
            &&& forall|i: int, j: int|
                0 <= i < j < r.len() ==> {
                    let (a, b) = ((#[trigger] r[i]).bbox, (#[trigger] r[j]).bbox);
                    a[1].units() < b[1].units() || a[1].units() == b[1].units() && a[0].units()
                        <= b[0].units()
                }
        }),
{
    let kept: Seq<LayoutBox> = enabled_regions(boxes, classes);
    lemma_all_enabled(boxes, classes);
    crate::pipeline::regions::lemma_enabled(boxes, classes);
    assert forall|i: int| 0 <= i < kept.len() implies !(#[trigger] kept[i]).bbox[1].nan()
        && !kept[i].bbox[0].nan() by {
        assert(boxes.contains(kept[i]));
        let k: int = choose|k: int| 0 <= k < boxes.len() && boxes[k] == kept[i];
        assert(!boxes[k].bbox[0].nan());
    }
    lemma_reading_order(kept);
}

/// The content of a region with text is written from the texts of all its parts that are sure
/// enough and hold more than white space, trimmed and in order.
pub proof fn lemma_content(
    regions: Seq<LayoutBox>,
    cuts: Seq<Cut>,
    readings: Seq<(Seq<char>, Single)>,
    threshold: Single,
    place: usize,
)
    requires
        cuts.len() == readings.len(),
    ensures
        text_content(regions, cuts, readings, threshold, place) == markdown(
            regions[place as int].label@,
            Seq::new(cuts.len(), |k: int| k).filter(
                |k: int|
                    cuts[k].owner == place && !readings[k].1.nan() && !threshold.nan()
                        && readings[k].1.units() >= threshold.units() && exists|i: int|
                        0 <= i < readings[k].0.len() && !crate::strings::white_space(
                            #[trigger] readings[k].0[i],
                        ),
            ).map_values(|k: int| trimmed(readings[k].0)),
        ),
{
    lemma_texts_kept(cuts, readings, threshold, place, cuts.len());
}

/// A page is read where both the layout model and the one that finds lines answered; else what
/// the first of them to fail said is said, and of a thread that did not end that it failed.
pub proof fn lemma_page_read(layout: LayoutAnswer, lines: LineAnswer)
    ensures
        failure(layout, lines) is None <==> layout is Some && layout->Some_0 is Ok && lines is Ok,
        layout is None ==> failure(layout, lines) == Some("layout thread panicked"@),
        layout is Some && layout->Some_0 is Err ==> failure(layout, lines) == Some(
            layout->Some_0->Err_0@,
        ),
        layout is Some && layout->Some_0 is Ok && lines is Err ==> failure(layout, lines) == Some(
            lines->Err_0@,
        ),
{
}

/// A single text is written as it is, and none as nothing.
pub proof fn lemma_joined_one(text: Seq<char>, separator: Seq<char>)
    ensures
        joined(seq![text], separator) == text,
        joined(Seq::empty(), separator) == Seq::<char>::empty(),
{
    reveal_with_fuel(joined, 3);
    assert(joined(seq![text], separator) =~= text);
}

} // verus!
