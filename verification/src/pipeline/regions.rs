//! Regions in reading order, and which region each text line belongs to.
use crate::ocr::layout::predictor::LayoutBox;
use crate::ocr::text::detection::TextLine;
use crate::ocr::text::geometry::Point;
use crate::pipeline::config::LayoutClassConfig;
use crate::pipeline::labels::is_text_label;
use crate::single::Single;
use vstd::prelude::*;

verus! {

/// The regions whose class is recognised.
pub open spec fn enabled_regions(boxes: Seq<LayoutBox>, classes: LayoutClassConfig) -> Seq<
    LayoutBox,
>
    decreases boxes.len(),
{
    if boxes.len() == 0 {
        Seq::empty()
    } else {
        let rest = enabled_regions(boxes.drop_last(), classes);
        if classes.enables(boxes.last().label@) {
            rest.push(boxes.last())
        } else {
            rest
        }
    }
}

/// The keys by which regions are sorted: first by their top, then by their left.
pub open spec fn region_keys(regions: Seq<LayoutBox>) -> Seq<(i64, i64)> {
    regions.map_values(|r: LayoutBox| (r.bbox[1].key() as i64, r.bbox[0].key() as i64))
}

/// The regions by their top, then by their left, the first of equals first.
pub open spec fn in_reading_order(regions: Seq<LayoutBox>) -> Seq<LayoutBox> {
    crate::order::stable_order_of(region_keys(regions)).map_values(|i: usize| regions[i as int])
}

/// The tops and lefts of the regions are numbers, unless there is nothing to sort.
pub open spec fn sortable(regions: Seq<LayoutBox>) -> bool {
    regions.len() >= 2 ==> forall|i: int|
        0 <= i < regions.len() ==> !(#[trigger] regions[i]).bbox[1].nan()
            && !regions[i].bbox[0].nan()
}

/// The regions to recognise, in reading order.
pub open spec fn selected(boxes: Seq<LayoutBox>, classes: LayoutClassConfig) -> Seq<LayoutBox> {
    in_reading_order(enabled_regions(boxes, classes))
}

/// Sorting keeps the regions, and no region stands before one whose top is higher, or whose
/// top is level and whose left is further left.
pub proof fn lemma_reading_order(regions: Seq<LayoutBox>)
    requires
        regions.len() <= usize::MAX,
        sortable(regions),
    ensures
        in_reading_order(regions).to_multiset() == regions.to_multiset(),
        in_reading_order(regions).len() == regions.len(),
        forall|i: int, j: int|
            0 <= i < j < regions.len() ==> {
                let (a, b) = (
                    (#[trigger] in_reading_order(regions)[i]).bbox,
                    (#[trigger] in_reading_order(regions)[j]).bbox,
                );
                a[1].units() < b[1].units() || a[1].units() == b[1].units() && a[0].units()
                    <= b[0].units()
            },
{
    let keys: Seq<(i64, i64)> = region_keys(regions);
    let order: Seq<usize> = crate::order::stable_order_of(keys);
    crate::order::lemma_stable_order(keys);
    crate::order::lemma_order_multiset(keys, order, regions);
    assert forall|i: int, j: int| 0 <= i < j < regions.len() implies {
        let (a, b) = (
            (#[trigger] in_reading_order(regions)[i]).bbox,
            (#[trigger] in_reading_order(regions)[j]).bbox,
        );
        a[1].units() < b[1].units() || a[1].units() == b[1].units() && a[0].units() <= b[0].units()
    } by {
        assert(crate::order::precedes(keys, order[i] as int, order[j] as int));
        let (a, b) = (regions[order[i] as int].bbox, regions[order[j] as int].bbox);
        Single::lemma_key_orders(a[1], b[1]);
        Single::lemma_key_orders(a[0], b[0]);
    }
}

/// Every region that is kept belongs to a class that is recognised.
pub proof fn lemma_enabled(boxes: Seq<LayoutBox>, classes: LayoutClassConfig)
    ensures
        enabled_regions(boxes, classes).len() <= boxes.len(),
        forall|i: int|
            0 <= i < enabled_regions(boxes, classes).len() ==> classes.enables(
                (#[trigger] enabled_regions(boxes, classes)[i]).label@,
            ) && boxes.contains(enabled_regions(boxes, classes)[i]),
    decreases boxes.len(),
{
    if boxes.len() > 0 {
        let fewer: Seq<LayoutBox> = boxes.drop_last();
        lemma_enabled(fewer, classes);
        let rest: Seq<LayoutBox> = enabled_regions(fewer, classes);
        let all: Seq<LayoutBox> = enabled_regions(boxes, classes);
        assert forall|i: int| 0 <= i < all.len() implies classes.enables(
            (#[trigger] all[i]).label@,
        ) && boxes.contains(all[i]) by {
            if i < rest.len() {
                assert(all[i] == rest[i]);
                let k: int = choose|k: int| 0 <= k < fewer.len() && fewer[k] == rest[i];
                assert(boxes[k] == rest[i]);
            } else {
                assert(boxes[boxes.len() - 1] == all[i]);
            }
        }
    }
}

/// Keeps the regions whose class is recognised.
pub fn keep_enabled(boxes: &Vec<LayoutBox>, classes: &LayoutClassConfig) -> (r: Vec<LayoutBox>)
    ensures
        r@ == enabled_regions(boxes@, *classes),
{
    let mut r: Vec<LayoutBox> = Vec::new();
    let mut i: usize = 0;
    assert(boxes@.take(0) =~= Seq::<LayoutBox>::empty());
    while i < boxes.len()
        invariant
            i <= boxes.len(),
            r@ == enabled_regions(boxes@.take(i as int), *classes),
        decreases boxes.len() - i,
    {
        assert(boxes@.take(i + 1).drop_last() =~= boxes@.take(i as int));
        if classes.is_enabled(boxes[i].label) {
            r.push(boxes[i]);
        }
        i = i + 1;
    }
    assert(boxes@.take(i as int) =~= boxes@);
    r
}

/// Whether the regions can be sorted.
pub fn can_sort(regions: &Vec<LayoutBox>) -> (r: bool)
    ensures
        r == sortable(regions@),
{
    if regions.len() < 2 {
        return true;
    }
    let mut i: usize = 0;
    while i < regions.len()
        invariant
            i <= regions.len(),
            regions.len() >= 2,
            forall|k: int|
                0 <= k < i ==> !(#[trigger] regions@[k]).bbox[1].nan() && !regions@[k].bbox[0].nan(),
        decreases regions.len() - i,
    {
        if regions[i].bbox[1].is_nan() || regions[i].bbox[0].is_nan() {
            assert(regions@[i as int].bbox[1].nan() || regions@[i as int].bbox[0].nan());
            return false;
        }
        i = i + 1;
    }
    true
}

/// The regions by their top, then by their left.
pub fn sort_regions(regions: &Vec<LayoutBox>) -> (r: Vec<LayoutBox>)
    requires
        sortable(regions@),
    ensures
        r@ == in_reading_order(regions@),
        r@.len() == regions@.len(),
{
    let mut keys: Vec<(i64, i64)> = Vec::new();
    if regions.len() < 2 {
        let mut r: Vec<LayoutBox> = Vec::new();
        if regions.len() == 1 {
            r.push(regions[0]);
        }
        proof {
            lemma_short(regions@);
            assert(r@ =~= regions@);
        }
        return r;
    }
    let mut i: usize = 0;
    while i < regions.len()
        invariant
            i <= regions.len(),
            regions.len() >= 2,
            sortable(regions@),
            keys@ =~= region_keys(regions@).take(i as int),
        decreases regions.len() - i,
    {
        keys.push((regions[i].bbox[1].order_key(), regions[i].bbox[0].order_key()));
        i = i + 1;
    }
    assert(keys@ =~= region_keys(regions@));
    let order: Vec<usize> = crate::order::stable_order(&keys);
    let mut r: Vec<LayoutBox> = Vec::new();
    let mut k: usize = 0;
    while k < order.len()
        invariant
            k <= order.len(),
            crate::order::is_stable_order(region_keys(regions@), order@),
            order@ == crate::order::stable_order_of(region_keys(regions@)),
            r@ =~= in_reading_order(regions@).take(k as int),
        decreases order.len() - k,
    {
        r.push(regions[order[k]]);
        k = k + 1;
    }
    assert(in_reading_order(regions@).take(k as int) =~= in_reading_order(regions@));
    r
}

proof fn lemma_short(regions: Seq<LayoutBox>)
    requires
        regions.len() < 2,
    ensures
        in_reading_order(regions) == regions,
{
    let keys: Seq<(i64, i64)> = region_keys(regions);
    let only: Seq<usize> = if regions.len() == 1 {
        seq![0usize]
    } else {
        Seq::empty()
    };
    assert(crate::order::is_stable_order(keys, only));
    crate::order::lemma_order_unique(keys, only, crate::order::stable_order_of(keys));
    assert(in_reading_order(regions) =~= regions);
}

/// The places of the regions that hold text, among the first `n`.
pub open spec fn text_places(regions: Seq<LayoutBox>, n: nat) -> Seq<usize>
    decreases n,
{
    if n == 0 {
        Seq::empty()
    } else {
        let rest = text_places(regions, (n - 1) as nat);
        if crate::pipeline::labels::holds_text(regions[n - 1].label@) {
            rest.push((n - 1) as usize)
        } else {
            rest
        }
    }
}

/// The places of the regions that hold text.
pub open spec fn text_regions(regions: Seq<LayoutBox>) -> Seq<usize> {
    text_places(regions, regions.len())
}

/// The places that occur are places of regions that hold text, in order.
pub proof fn lemma_text_places(regions: Seq<LayoutBox>, n: nat)
    requires
        n <= regions.len() <= usize::MAX,
    ensures
        forall|k: int|
            0 <= k < text_places(regions, n).len() ==> (#[trigger] text_places(regions, n)[k]) < n
                && crate::pipeline::labels::holds_text(
                regions[text_places(regions, n)[k] as int].label@,
            ),
        forall|j: int, k: int|
            0 <= j < k < text_places(regions, n).len() ==> (#[trigger] text_places(regions, n)[j])
                < (#[trigger] text_places(regions, n)[k]),
        forall|i: usize|
            i < n && crate::pipeline::labels::holds_text(regions[i as int].label@) ==> text_places(
                regions,
                n,
            ).contains(i),
    decreases n,
{
    if n > 0 {
        lemma_text_places(regions, (n - 1) as nat);
        let rest: Seq<usize> = text_places(regions, (n - 1) as nat);
        let all: Seq<usize> = text_places(regions, n);
        assert forall|i: usize|
            i < n && crate::pipeline::labels::holds_text(
                regions[i as int].label@,
            ) implies all.contains(i) by {
            if i < n - 1 {
                assert(rest.contains(i));
                let k: int = choose|k: int| 0 <= k < rest.len() && rest[k] == i;
                assert(all[k] == i);
            } else {
                assert(all[rest.len() as int] == i);
            }
        }
    }
}

/// The places of the regions that hold text.
pub fn find_text_regions(regions: &Vec<LayoutBox>) -> (r: Vec<usize>)
    ensures
        r@ == text_regions(regions@),
        forall|k: int| 0 <= k < r@.len() ==> (#[trigger] r@[k]) < regions@.len(),
{
    let mut r: Vec<usize> = Vec::new();
    let mut i: usize = 0;
    while i < regions.len()
        invariant
            i <= regions.len(),
            r@ == text_places(regions@, i as nat),
        decreases regions.len() - i,
    {
        if is_text_label(regions[i].label) {
            r.push(i);
        }
        i = i + 1;
    }
    proof {
        lemma_text_places(regions@, regions@.len());
    }
    r
}

/// The middle between two coordinates.
pub open spec fn middle(a: Single, b: Single) -> Single {
    Single::quotient(Single::sum(a, b), Single { bits: crate::ocr::text::geometry::TWO })
}

/// The centre of a box.
pub open spec fn centre(bbox: [Single; 4]) -> Point {
    (middle(bbox[0], bbox[2]), middle(bbox[1], bbox[3]))
}

/// The point lies within the box or on its edge.
pub open spec fn contains(bbox: [Single; 4], p: Point) -> bool {
    bbox[0].at_most(p.0) && p.0.at_most(bbox[2]) && bbox[1].at_most(p.1) && p.1.at_most(bbox[3])
}

/// The area of a box.
pub open spec fn area_of(bbox: [Single; 4]) -> Single {
    Single::product(Single::difference(bbox[2], bbox[0]), Single::difference(bbox[3], bbox[1]))
}

/// Whether the point lies within the box or on its edge.
pub fn inside(x: Single, y: Single, bbox: [Single; 4]) -> (r: bool)
    ensures
        r == contains(bbox, (x, y)),
{
    bbox[0].le(x) && x.le(bbox[2]) && bbox[1].le(y) && y.le(bbox[3])
}

/// The area of a box.
pub fn area(bbox: [Single; 4]) -> (r: Single)
    ensures
        r == area_of(bbox),
{
    bbox[2].minus(bbox[0]).times(bbox[3].minus(bbox[1]))
}

/// Of the regions at the first `n` places the smallest that contains the point, the first of
/// equals.
pub open spec fn smallest_around(
    regions: Seq<LayoutBox>,
    places: Seq<usize>,
    p: Point,
    n: nat,
) -> Option<usize>
    decreases n,
{
    if n == 0 {
        None
    } else {
        let rest = smallest_around(regions, places, p, (n - 1) as nat);
        let place = places[n - 1];
        if !contains(regions[place as int].bbox, p) {
            rest
        } else {
            match rest {
                Some(best) => if area_of(regions[place as int].bbox).below(
                    area_of(regions[best as int].bbox),
                ) {
                    Some(place)
                } else {
                    rest
                },
                None => Some(place),
            }
        }
    }
}

/// The place of the region that a line belongs to: the smallest region with text that
/// contains its centre.
pub open spec fn home(regions: Seq<LayoutBox>, line: TextLine) -> Option<usize> {
    let places = text_regions(regions);
    smallest_around(regions, places, centre(line.bbox), places.len())
}

/// Where two regions contain the centre of a line, their areas are numbers.
pub open spec fn comparable(regions: Seq<LayoutBox>, line: TextLine) -> bool {
    forall|a: int, b: int|
        0 <= a < text_regions(regions).len() && 0 <= b < text_regions(regions).len() && a != b
            && contains(
            regions[#[trigger] text_regions(regions)[a] as int].bbox,
            centre(line.bbox),
        ) && contains(
            regions[#[trigger] text_regions(regions)[b] as int].bbox,
            centre(line.bbox),
        ) ==> !area_of(regions[text_regions(regions)[a] as int].bbox).nan()
}

/// The region that is found contains the point, is one of those asked about, and none of
/// these that contains the point is smaller.
pub proof fn lemma_smallest(regions: Seq<LayoutBox>, places: Seq<usize>, p: Point, n: nat)
    requires
        n <= places.len(),
        forall|a: int, b: int|
            0 <= a < n && 0 <= b < n && a != b && contains(
                regions[#[trigger] places[a] as int].bbox,
                p,
            ) && contains(regions[#[trigger] places[b] as int].bbox, p) ==> !area_of(
                regions[places[a] as int].bbox,
            ).nan(),
    ensures
        match smallest_around(regions, places, p, n) {
            Some(best) => {
                &&& exists|k: int| 0 <= k < n && #[trigger] places[k] == best
                &&& contains(regions[best as int].bbox, p)
                &&& forall|k: int|
                    0 <= k < n && contains(regions[#[trigger] places[k] as int].bbox, p)
                        ==> !area_of(regions[places[k] as int].bbox).below(
                        area_of(regions[best as int].bbox),
                    )
            },
            None => forall|k: int|
                0 <= k < n ==> !contains(regions[#[trigger] places[k] as int].bbox, p),
        },
    decreases n,
{
    if n > 0 {
        lemma_smallest(regions, places, p, (n - 1) as nat);
        let rest: Option<usize> = smallest_around(regions, places, p, (n - 1) as nat);
        let last: usize = places[n - 1];
        let now: Option<usize> = smallest_around(regions, places, p, n);
        if now is Some && now != rest {
            assert(places[n - 1] == now->Some_0);
            if rest is Some {
                let best: usize = rest->Some_0;
                let j: int = choose|j: int| 0 <= j < n - 1 && #[trigger] places[j] == best;
                assert(!area_of(regions[places[j] as int].bbox).nan());
                assert forall|k: int|
                    0 <= k < n && contains(
                        regions[#[trigger] places[k] as int].bbox,
                        p,
                    ) implies !area_of(regions[places[k] as int].bbox).below(
                    area_of(regions[last as int].bbox),
                ) by {
                }
            }
        }
    }
}

/// The place of the region that a line belongs to.
pub fn find_home(regions: &Vec<LayoutBox>, places: &Vec<usize>, line: &TextLine) -> (r: Option<
    usize,
>)
    requires
        places@ == text_regions(regions@),
        forall|k: int| 0 <= k < places@.len() ==> (#[trigger] places@[k]) < regions@.len(),
    ensures
        r == home(regions@, *line),
        r matches Some(place) ==> place < regions@.len(),
{
    let two: Single = Single::from_bits(crate::ocr::text::geometry::TWO);
    let x: Single = line.bbox[0].plus(line.bbox[2]).over(two);
    let y: Single = line.bbox[1].plus(line.bbox[3]).over(two);
    let ghost p: Point = centre(line.bbox);
    let mut best: Option<usize> = None;
    let mut n: usize = 0;
    while n < places.len()
        invariant
            n <= places.len(),
            p == (x, y),
            forall|k: int| 0 <= k < places@.len() ==> (#[trigger] places@[k]) < regions@.len(),
            best == smallest_around(regions@, places@, p, n as nat),
            best matches Some(place) ==> place < regions@.len(),
        decreases places.len() - n,
    {
        let place: usize = places[n];
        if inside(x, y, regions[place].bbox) {
            match best {
                Some(found) => {
                    if area(regions[place].bbox).lt(area(regions[found].bbox)) {
                        best = Some(place);
                    }
                },
                None => {
                    best = Some(place);
                },
            }
        }
        n = n + 1;
    }
    best
}

/// The places of the lines among the first `n` that belong to the region at `place`.
pub open spec fn lines_at(
    regions: Seq<LayoutBox>,
    lines: Seq<TextLine>,
    place: usize,
    n: nat,
) -> Seq<usize>
    decreases n,
{
    if n == 0 {
        Seq::empty()
    } else {
        let rest = lines_at(regions, lines, place, (n - 1) as nat);
        if home(regions, lines[n - 1]) == Some(place) {
            rest.push((n - 1) as usize)
        } else {
            rest
        }
    }
}

/// For every region the places of the lines that belong to it.
pub fn assign_lines(regions: &Vec<LayoutBox>, places: &Vec<usize>, lines: &Vec<TextLine>) -> (r: Vec<
    Vec<usize>,
>)
    requires
        places@ == text_regions(regions@),
        forall|k: int| 0 <= k < places@.len() ==> (#[trigger] places@[k]) < regions@.len(),
    ensures
        r@.len() == regions@.len(),
        forall|k: int|
            0 <= k < r@.len() ==> (#[trigger] r@[k])@ == lines_at(
                regions@,
                lines@,
                k as usize,
                lines@.len(),
            ),
{
    let mut r: Vec<Vec<usize>> = Vec::new();
    let mut i: usize = 0;
    while i < regions.len()
        invariant
            i <= regions.len(),
            r@.len() == i,
            forall|k: int| 0 <= k < i ==> (#[trigger] r@[k])@ == Seq::<usize>::empty(),
        decreases regions.len() - i,
    {
        let none: Vec<usize> = Vec::new();
        r.push(none);
        i = i + 1;
    }
    let mut n: usize = 0;
    while n < lines.len()
        invariant
            n <= lines.len(),
            r@.len() == regions@.len(),
            places@ == text_regions(regions@),
            forall|k: int| 0 <= k < places@.len() ==> (#[trigger] places@[k]) < regions@.len(),
            forall|k: int|
                0 <= k < r@.len() ==> (#[trigger] r@[k])@ == lines_at(
                    regions@,
                    lines@,
                    k as usize,
                    n as nat,
                ),
        decreases lines.len() - n,
    {
        let ghost before: Seq<Vec<usize>> = r@;
        let found: Option<usize> = find_home(regions, places, &lines[n]);
        match found {
            Some(place) => {
                r[place].push(n);
            },
            None => {},
        }
        proof {
            assert(regions.len() <= usize::MAX);
            assert forall|k: int| 0 <= k < r@.len() implies (#[trigger] r@[k])@ == lines_at(
                regions@,
                lines@,
                k as usize,
                (n + 1) as nat,
            ) by {
                assert(before[k]@ == lines_at(regions@, lines@, k as usize, n as nat));
                if found == Some(k as usize) {
                    assert(r@[k]@ == before[k]@.push(n));
                } else {
                    assert(r@[k] == before[k]);
                }
            }
        }
        n = n + 1;
    }
    r
}

/// Whether two regions with text that contain the centre of the line have areas that are
/// numbers.
pub fn can_compare(regions: &Vec<LayoutBox>, line: &TextLine) -> (r: bool)
    ensures
        r == comparable(regions@, *line),
{
    let places: Vec<usize> = find_text_regions(regions);
    let two: Single = Single::from_bits(crate::ocr::text::geometry::TWO);
    let x: Single = line.bbox[0].plus(line.bbox[2]).over(two);
    let y: Single = line.bbox[1].plus(line.bbox[3]).over(two);
    let mut a: usize = 0;
    while a < places.len()
        invariant
            a <= places.len(),
            places@ == text_regions(regions@),
            forall|k: int| 0 <= k < places@.len() ==> (#[trigger] places@[k]) < regions@.len(),
            (x, y) == centre(line.bbox),
            forall|i: int, j: int|
                0 <= i < a && 0 <= j < places@.len() && i != j && contains(
                    regions@[#[trigger] places@[i] as int].bbox,
                    (x, y),
                ) && contains(regions@[#[trigger] places@[j] as int].bbox, (x, y)) ==> !area_of(
                    regions@[places@[i] as int].bbox,
                ).nan(),
        decreases places.len() - a,
    {
        let first: [Single; 4] = regions[places[a]].bbox;
        if inside(x, y, first) && area(first).is_nan() {
            let mut b: usize = 0;
            while b < places.len()
                invariant
                    b <= places.len(),
                    a < places.len(),
                    places@ == text_regions(regions@),
                    forall|k: int|
                        0 <= k < places@.len() ==> (#[trigger] places@[k]) < regions@.len(),
                    (x, y) == centre(line.bbox),
                    first == regions@[places@[a as int] as int].bbox,
                    contains(first, (x, y)),
                    area_of(first).nan(),
                    forall|j: int|
                        0 <= j < b && j != a ==> !contains(
                            regions@[#[trigger] places@[j] as int].bbox,
                            (x, y),
                        ),
                decreases places.len() - b,
            {
                if b != a && inside(x, y, regions[places[b]].bbox) {
                    proof {
                        let t: Seq<usize> = text_regions(regions@);
                        assert(contains(regions@[t[a as int] as int].bbox, centre(line.bbox)));
                        assert(contains(regions@[t[b as int] as int].bbox, centre(line.bbox)));
                    }
                    return false;
                }
                b = b + 1;
            }
        }
        a = a + 1;
    }
    true
}

/// Areas of boxes within a page are numbers.
proof fn lemma_area(bbox: [Single; 4], ow: u32, oh: u32)
    requires
        !bbox[0].nan(),
        !bbox[1].nan(),
        !bbox[2].nan(),
        !bbox[3].nan(),
        0 <= bbox[0].units() <= Single::whole(ow as int).units(),
        0 <= bbox[1].units() <= Single::whole(oh as int).units(),
        0 <= bbox[2].units() <= Single::whole(ow as int).units(),
        0 <= bbox[3].units() <= Single::whole(oh as int).units(),
    ensures
        !area_of(bbox).nan(),
{
    lemma_span(bbox[0], bbox[2], ow);
    lemma_span(bbox[1], bbox[3], oh);
    crate::bounds::lemma_product(
        Single::difference(bbox[2], bbox[0]),
        Single::difference(bbox[3], bbox[1]),
    );
}

/// The distance of two coordinates within a page is finite.
proof fn lemma_span(a: Single, b: Single, limit: u32)
    requires
        !a.nan(),
        !b.nan(),
        0 <= a.units() <= Single::whole(limit as int).units(),
        0 <= b.units() <= Single::whole(limit as int).units(),
    ensures
        Single::difference(b, a).finite(),
{
    let edge: Single = Single::whole(limit as int);
    crate::bounds::lemma_whole_ordered(0, limit as nat);
    crate::bounds::lemma_below_infinity(edge);
    crate::bounds::lemma_finite(a);
    crate::bounds::lemma_finite(b);
    crate::bounds::lemma_difference(b, a);
    let total: nat = crate::single::size(b.units() - a.units());
    assert(total * 1 == total);
    crate::bounds::lemma_nearest_at_most(total, 1, edge.magnitude());
}

/// Regions as the layout model leaves them can be compared around any line.
pub proof fn lemma_kept_comparable(
    regions: Seq<LayoutBox>,
    line: TextLine,
    threshold: Single,
    ow: u32,
    oh: u32,
)
    requires
        regions.len() <= usize::MAX,
        forall|i: int|
            0 <= i < regions.len() ==> crate::ocr::layout::predictor::kept(
                #[trigger] regions[i],
                threshold,
                ow,
                oh,
            ),
    ensures
        comparable(regions, line),
{
    lemma_text_places(regions, regions.len());
    let places: Seq<usize> = text_regions(regions);
    assert forall|a: int, b: int|
        0 <= a < places.len() && 0 <= b < places.len() && a != b && contains(
            regions[#[trigger] places[a] as int].bbox,
            centre(line.bbox),
        ) && contains(
            regions[#[trigger] places[b] as int].bbox,
            centre(line.bbox),
        ) implies !area_of(regions[places[a] as int].bbox).nan() by {
        let region: LayoutBox = regions[places[a] as int];
        assert(crate::ocr::layout::predictor::kept(region, threshold, ow, oh));
        lemma_area(region.bbox, ow, oh);
    }
}

} // verus!
