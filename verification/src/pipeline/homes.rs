//! Which region a line of text belongs to.
use crate::ocr::layout::predictor::LayoutBox;
use crate::ocr::text::detection::TextLine;
use crate::pipeline::regions::{
    area_of, centre, comparable, contains, enabled_regions, home, lines_at, middle,
    smallest_around, text_places, text_regions,
};
use crate::single::Single;
use vstd::arithmetic::power2::*;
use vstd::prelude::*;

verus! {

/// Twice the point between two coordinates is their sum, up to one part in `2^21` of their
/// size, and one unit.
pub proof fn lemma_middle(a: Single, b: Single, size: int)
    requires
        a.finite(),
        b.finite(),
        -size <= a.units() <= size,
        -size <= b.units() <= size,
        size <= pow2(100 + 149),
    ensures
        middle(a, b).finite(),
        0x20_0000 * (2 * middle(a, b).units() - (a.units() + b.units())) <= size + 0x20_0000,
        0x20_0000 * ((a.units() + b.units()) - 2 * middle(a, b).units()) <= size + 0x20_0000,
{
    let u: int = crate::single::unit() as int;
    lemma_pow2_pos(149);
    let two: Single = Single { bits: crate::ocr::text::geometry::TWO };
    crate::close::lemma_two();
    let s: Single = Single::sum(a, b);
    crate::ocr::text::drawing::lemma_sum_within(a, b, 100);
    crate::close::lemma_sum_close(a, b);
    crate::close::lemma_not_zero(two);
    crate::bounds::lemma_quotient(s, two);
    let sz: nat = crate::single::size(s.units());
    lemma_pow2_adds(1, 100 + 149);
    lemma2_to64();
    let (n, p, uu): (nat, nat, nat) = (
        sz * crate::single::unit(),
        pow2(101 + 149),
        crate::single::unit(),
    );
    assert(n <= p * (2 * uu)) by (nonlinear_arith)
        requires
            n == sz * uu,
            sz <= p,
    ;
    crate::ocr::text::drawing::lemma_rounds_within(n, 2 * uu, 101);
    let q: Single = Single::quotient(s, two);
    crate::close::lemma_quotient_close(s, two);
    let (x, y, z): (int, int, int) = (q.units(), s.units(), crate::close::scale_of(q) as int);
    assert(0x100_0000 * (2 * x - y) <= 2 * z && 0x100_0000 * (y - 2 * x) <= 2 * z)
        by (nonlinear_arith)
        requires
            0x100_0000 * (x * (2 * u) - y * u) <= z * (2 * u),
            0x100_0000 * (y * u - x * (2 * u)) <= z * (2 * u),
            u > 0,
    ;
}

/// The area of a box is its width times its height, up to one part in `2^21`, and one unit.
pub proof fn lemma_area(bbox: [Single; 4])
    requires
        forall|k: int|
            0 <= k < 4 ==> (#[trigger] bbox@[k]).finite() && crate::single::size(bbox@[k].units())
                <= pow2(40 + 149),
        bbox@[0].units() <= bbox@[2].units(),
        bbox@[1].units() <= bbox@[3].units(),
    ensures
        ({
            let u = crate::single::unit() as int;
            let exact = (bbox@[2].units() - bbox@[0].units()) * (bbox@[3].units()
                - bbox@[1].units());
            let area = area_of(bbox);
            &&& area.finite()
            &&& area.units() >= 0
            &&& 0x20_0000 * (area.units() * u - exact) <= exact + 0x20_0000 * u
            &&& 0x20_0000 * (exact - area.units() * u) <= exact + 0x20_0000 * u
        }),
{
    let u: int = crate::single::unit() as int;
    lemma_pow2_pos(149);
    let (a, b, c, d): (Single, Single, Single, Single) = (bbox@[0], bbox@[1], bbox@[2], bbox@[3]);
    assert(crate::ocr::text::drawing::within(a, 40) && crate::ocr::text::drawing::within(b, 40));
    assert(crate::ocr::text::drawing::within(c, 40) && crate::ocr::text::drawing::within(d, 40));
    let (w, h): (Single, Single) = (Single::difference(c, a), Single::difference(d, b));
    crate::ocr::text::drawing::lemma_difference_within(c, a, 40);
    crate::ocr::text::drawing::lemma_difference_within(d, b, 40);
    crate::close::lemma_difference_close(c, a);
    crate::close::lemma_difference_close(d, b);
    crate::ocr::text::drawing::lemma_area_within(w, h, 41);
    crate::close::lemma_product_close(w, h);
    lemma_area_bounds(
        c.units() - a.units(),
        d.units() - b.units(),
        w.units(),
        h.units(),
        area_of(bbox).units(),
        crate::close::scale_of(area_of(bbox)) as int,
        u,
    );
}

proof fn lemma_near_products(p: int, e: int)
    requires
        p >= 0,
        e >= 0,
        0xffff_fe00_0001 * p <= 0x1_0000_0000_0000 * e,
        0x1_0000_0200_0001 * p >= 0x1_0000_0000_0000 * e,
    ensures
        0x40_0000 * (p - e) <= e,
        0x40_0000 * (e - p) <= e,
{
}

proof fn lemma_area_bounds(w: int, h: int, rw: int, rh: int, a: int, z: int, u: int)
    requires
        w >= 0,
        h >= 0,
        rw >= 0,
        rh >= 0,
        u > 0,
        rw * rh >= 0 ==> a >= 0,
        z == 0x80_0000 || z == (if a < 0 {
            -a
        } else {
            a
        }),
        0x100_0000 * (rw - w) <= rw,
        0x100_0000 * (w - rw) <= rw,
        0x100_0000 * (rh - h) <= rh,
        0x100_0000 * (h - rh) <= rh,
        0x100_0000 * (a * u - rw * rh) <= z * u,
        0x100_0000 * (rw * rh - a * u) <= z * u,
    ensures
        a >= 0,
        0x20_0000 * (a * u - w * h) <= w * h + 0x20_0000 * u,
        0x20_0000 * (w * h - a * u) <= w * h + 0x20_0000 * u,
{
    let (p, e): (int, int) = (rw * rh, w * h);
    assert(p >= 0 && e >= 0) by (nonlinear_arith)
        requires
            p == rw * rh,
            e == w * h,
            w >= 0,
            h >= 0,
            rw >= 0,
            rh >= 0,
    ;
    // the product of the rounded sides
    assert(0xff_ffff * rw <= 0x100_0000 * w && 0xff_ffff * rh <= 0x100_0000 * h);
    assert(0x100_0001 * rw >= 0x100_0000 * w && 0x100_0001 * rh >= 0x100_0000 * h);
    assert(0xffff_fe00_0001 * p <= 0x1_0000_0000_0000 * e) by (nonlinear_arith)
        requires
            p == rw * rh,
            e == w * h,
            0 <= 0xff_ffff * rw <= 0x100_0000 * w,
            0 <= 0xff_ffff * rh <= 0x100_0000 * h,
    ;
    assert(0x1_0000_0200_0001 * p >= 0x1_0000_0000_0000 * e) by (nonlinear_arith)
        requires
            p == rw * rh,
            e == w * h,
            0x100_0001 * rw >= 0x100_0000 * w,
            0x100_0001 * rh >= 0x100_0000 * h,
            w >= 0,
            h >= 0,
    ;
    lemma_near_products(p, e);
    let (au, zu): (int, int) = (a * u, z * u);
    assert(au >= 0) by (nonlinear_arith)
        requires
            au == a * u,
            a >= 0,
            u > 0,
    ;
    if z == a {
        assert(zu == au);
    }
}

/// The region holds text and has the point within it or on its edge.
pub open spec fn surrounds(region: LayoutBox, p: crate::ocr::text::geometry::Point) -> bool {
    let b = region.bbox@;
    &&& crate::pipeline::labels::holds_text(region.label@)
    &&& !p.0.nan() && !p.1.nan() && !b[0].nan() && !b[1].nan() && !b[2].nan() && !b[3].nan()
    &&& b[0].units() <= p.0.units() <= b[2].units()
    &&& b[1].units() <= p.1.units() <= b[3].units()
}

/// The region that a line belongs to holds text and has the centre of the line within it or on
/// its edge. Of all such regions none is smaller, and those before it in order are larger. A
/// line belongs to no region only where there is none of these.
pub proof fn lemma_home(regions: Seq<LayoutBox>, line: TextLine)
    requires
        regions.len() <= usize::MAX,
        comparable(regions, line),
    ensures
        ({
            let p = centre(line.bbox);
            match home(regions, line) {
                Some(place) => {
                    &&& place < regions.len()
                    &&& surrounds(regions[place as int], p)
                    &&& forall|k: int|
                        0 <= k < regions.len() && #[trigger] surrounds(regions[k], p) ==> !area_of(
                            regions[k].bbox,
                        ).below(area_of(regions[place as int].bbox))
                    &&& forall|k: int|
                        0 <= k < place && #[trigger] surrounds(regions[k], p) ==> area_of(
                            regions[place as int].bbox,
                        ).below(area_of(regions[k].bbox))
                },
                None => forall|k: int| 0 <= k < regions.len() ==> !#[trigger] surrounds(regions[k], p),
            }
        }),
{
    let p: crate::ocr::text::geometry::Point = centre(line.bbox);
    let places: Seq<usize> = text_regions(regions);
    crate::pipeline::regions::lemma_text_places(regions, regions.len());
    lemma_first_smallest(regions, places, p, places.len());
    assert forall|k: int| 0 <= k < regions.len() && #[trigger] surrounds(regions[k], p) implies exists|j: int|
        0 <= j < places.len() && #[trigger] places[j] == k && contains(regions[k].bbox, p) by {
        assert(places.contains(k as usize));
        let j: int = choose|j: int| 0 <= j < places.len() && places[j] == k as usize;
        assert(places[j] == k);
    }
    match home(regions, line) {
        Some(place) => {
            let i: int = choose|i: int|
                {
                    &&& 0 <= i < places.len()
                    &&& #[trigger] places[i] == place
                    &&& forall|j: int|
                        0 <= j < i && contains(regions[#[trigger] places[j] as int].bbox, p)
                            ==> area_of(regions[place as int].bbox).below(
                            area_of(regions[places[j] as int].bbox),
                        )
                };
            assert forall|k: int| 0 <= k < regions.len() && #[trigger] surrounds(regions[k], p) implies !area_of(
                regions[k].bbox,
            ).below(area_of(regions[place as int].bbox)) by {
                let j: int = choose|j: int| 0 <= j < places.len() && #[trigger] places[j] == k;
                assert(contains(regions[places[j] as int].bbox, p));
            }
            assert forall|k: int| 0 <= k < place && #[trigger] surrounds(regions[k], p) implies area_of(
                regions[place as int].bbox,
            ).below(area_of(regions[k].bbox)) by {
                let j: int = choose|j: int| 0 <= j < places.len() && #[trigger] places[j] == k;
                if j >= i {
                    assert(j != i);
                    assert(places[i] < places[j]);
                }
                assert(contains(regions[places[j] as int].bbox, p));
            }
        },
        None => {
            assert forall|k: int| 0 <= k < regions.len() implies !#[trigger] surrounds(regions[k], p) by {
                if surrounds(regions[k], p) {
                    let j: int = choose|j: int| 0 <= j < places.len() && #[trigger] places[j] == k;
                    assert(contains(regions[places[j] as int].bbox, p));
                }
            }
        },
    }
}

/// The region that is found is the first of the smallest.
proof fn lemma_first_smallest(
    regions: Seq<LayoutBox>,
    places: Seq<usize>,
    p: crate::ocr::text::geometry::Point,
    n: nat,
)
    requires
        n <= places.len(),
        forall|a: int, b: int|
            0 <= a < n && 0 <= b < n && a != b && contains(
                regions[#[trigger] places[a] as int].bbox,
                p,
            ) && contains(regions[#[trigger] places[b] as int].bbox, p) ==> !area_of(
                regions[places[a] as int].bbox,
            ).nan(),
    ensures
        match smallest_around(regions, places, p, n) {
            Some(best) => {
                &&& contains(regions[best as int].bbox, p)
                &&& exists|i: int|
                    {
                        &&& 0 <= i < n
                        &&& #[trigger] places[i] == best
                        &&& forall|j: int|
                            0 <= j < i && contains(regions[#[trigger] places[j] as int].bbox, p)
                                ==> area_of(regions[best as int].bbox).below(
                                area_of(regions[places[j] as int].bbox),
                            )
                    }
                &&& forall|k: int|
                    0 <= k < n && contains(regions[#[trigger] places[k] as int].bbox, p)
                        ==> !area_of(regions[places[k] as int].bbox).below(
                        area_of(regions[best as int].bbox),
                    )
            },
            None => forall|k: int|
                0 <= k < n ==> !contains(regions[#[trigger] places[k] as int].bbox, p),
        },
    decreases n,
{
    if n > 0 {
        lemma_first_smallest(regions, places, p, (n - 1) as nat);
        let rest: Option<usize> = smallest_around(regions, places, p, (n - 1) as nat);
        let now: Option<usize> = smallest_around(regions, places, p, n);
        let last: usize = places[n - 1];
        if now is Some && contains(regions[last as int].bbox, p) {
            if rest is Some {
                let best: usize = rest->Some_0;
                let i: int = choose|i: int|
                    {
                        &&& 0 <= i < n - 1
                        &&& #[trigger] places[i] == best
                        &&& forall|j: int|
                            0 <= j < i && contains(regions[#[trigger] places[j] as int].bbox, p)
                                ==> area_of(regions[best as int].bbox).below(
                                area_of(regions[places[j] as int].bbox),
                            )
                    };
                assert(contains(regions[places[i] as int].bbox, p));
                assert(!area_of(regions[places[i] as int].bbox).nan());
                if area_of(regions[last as int].bbox).below(area_of(regions[best as int].bbox)) {
                    assert(places[n - 1] == last);
                    assert forall|j: int|
                        0 <= j < n - 1 && contains(
                            regions[#[trigger] places[j] as int].bbox,
                            p,
                        ) implies area_of(regions[last as int].bbox).below(
                        area_of(regions[places[j] as int].bbox),
                    ) by {
                        assert(contains(regions[places[n - 1] as int].bbox, p));
                    }
                } else {
                    assert(places[i] == now->Some_0);
                }
            } else {
                assert(places[n - 1] == last);
            }
        } else if now is Some {
            let best: usize = rest->Some_0;
            let i: int = choose|i: int|
                {
                    &&& 0 <= i < n - 1
                    &&& #[trigger] places[i] == best
                    &&& forall|j: int|
                        0 <= j < i && contains(regions[#[trigger] places[j] as int].bbox, p)
                            ==> area_of(regions[best as int].bbox).below(
                            area_of(regions[places[j] as int].bbox),
                        )
                };
            assert(places[i] == best);
        }
    }
}

/// The midpoint between two edges lies between two others, at least a sixty-fourth of a pixel
/// from each.
pub open spec fn well_between(a: Single, b: Single, low: Single, high: Single) -> bool {
    let (twice, u) = (a.units() + b.units(), crate::single::unit() as int);
    &&& 32 * (twice - 2 * low.units()) >= u
    &&& 32 * (2 * high.units() - twice) >= u
}

/// The midpoint between two edges lies outside two others, by at least a sixty-fourth of a
/// pixel.
pub open spec fn well_outside(a: Single, b: Single, low: Single, high: Single) -> bool {
    let (twice, u) = (a.units() + b.units(), crate::single::unit() as int);
    ||| 32 * (2 * low.units() - twice) >= u
    ||| 32 * (twice - 2 * high.units()) >= u
}

/// The box is that of a page whose sides are below `2^15` pixels.
pub open spec fn on_moderate_page(bbox: [Single; 4]) -> bool {
    forall|k: int|
        0 <= k < 4 ==> (#[trigger] bbox@[k]).finite() && 0 <= bbox@[k].units() <= 0x8000
            * crate::single::unit()
}

/// A line goes to a region with text whenever the midpoint of its box is within the region and
/// every other region with text that the midpoint is within is larger.
pub proof fn lemma_goes_home(regions: Seq<LayoutBox>, line: TextLine, place: usize)
    requires
        regions.len() <= usize::MAX,
        place < regions.len(),
        on_moderate_page(line.bbox),
        forall|k: int| 0 <= k < regions.len() ==> on_moderate_page((#[trigger] regions[k]).bbox),
        crate::pipeline::labels::holds_text(regions[place as int].label@),
        ({
            let b = regions[place as int].bbox@;
            &&& well_between(line.bbox@[0], line.bbox@[2], b[0], b[2])
            &&& well_between(line.bbox@[1], line.bbox@[3], b[1], b[3])
        }),
        forall|k: int|
            0 <= k < regions.len() && k != place && crate::pipeline::labels::holds_text(
                (#[trigger] regions[k]).label@,
            ) ==> {
                let b = regions[k].bbox@;
                ||| well_outside(line.bbox@[0], line.bbox@[2], b[0], b[2])
                ||| well_outside(line.bbox@[1], line.bbox@[3], b[1], b[3])
                ||| area_of(regions[place as int].bbox).below(area_of(regions[k].bbox))
            },
        comparable(regions, line),
    ensures
        home(regions, line) == Some(place),
{
    let u: int = crate::single::unit() as int;
    lemma_pow2_pos(149);
    lemma2_to64();
    lemma_pow2_adds(15, 149);
    lemma_pow2_strictly_increases(15 + 149, 100 + 149);
    let l: Seq<Single> = line.bbox@;
    assert(l[0].finite() && l[1].finite() && l[2].finite() && l[3].finite());
    lemma_middle(l[0], l[2], 0x8000 * u);
    lemma_middle(l[1], l[3], 0x8000 * u);
    assert(u >= 0x80_0000) by {
        lemma_pow2_strictly_increases(23, 149);
    }
    let p: crate::ocr::text::geometry::Point = centre(line.bbox);
    lemma_home(regions, line);
    let b: Seq<Single> = regions[place as int].bbox@;
    assert(on_moderate_page(regions[place as int].bbox));
    assert(b[0].finite() && b[1].finite() && b[2].finite() && b[3].finite());
    assert(surrounds(regions[place as int], p));
    match home(regions, line) {
        Some(found) => {
            assert(surrounds(regions[found as int], p));
            if found != place {
                let c: Seq<Single> = regions[found as int].bbox@;
                assert(crate::pipeline::labels::holds_text(regions[found as int].label@));
                assert(!area_of(regions[place as int].bbox).below(
                    area_of(regions[found as int].bbox),
                ));
                assert(false);
            }
        },
        None => {},
    }
}

/// The regions that are recognised are all those whose class is, in order.
pub proof fn lemma_all_enabled(
    boxes: Seq<LayoutBox>,
    classes: crate::pipeline::config::LayoutClassConfig,
)
    ensures
        enabled_regions(boxes, classes) == boxes.filter(
            |b: LayoutBox| classes.enables(b.label@),
        ),
    decreases boxes.len(),
{
    reveal(Seq::filter);
    if boxes.len() > 0 {
        lemma_all_enabled(boxes.drop_last(), classes);
    }
}

/// The regions with text are listed by their places, all of them and in order.
pub proof fn lemma_all_text_places(regions: Seq<LayoutBox>, n: nat)
    requires
        n <= regions.len() <= usize::MAX,
    ensures
        text_places(regions, n) == Seq::new(n, |i: int| i as usize).filter(
            |i: usize| crate::pipeline::labels::holds_text(regions[i as int].label@),
        ),
    decreases n,
{
    reveal(Seq::filter);
    if n > 0 {
        lemma_all_text_places(regions, (n - 1) as nat);
        assert(Seq::new(n, |i: int| i as usize).drop_last() =~= Seq::new(
            (n - 1) as nat,
            |i: int| i as usize,
        ));
    }
}

/// The lines of a region are all those that belong to it, in order.
pub proof fn lemma_all_lines(
    regions: Seq<LayoutBox>,
    lines: Seq<TextLine>,
    place: usize,
    n: nat,
)
    requires
        n <= lines.len() <= usize::MAX,
    ensures
        lines_at(regions, lines, place, n) == Seq::new(n, |i: int| i as usize).filter(
            |i: usize| home(regions, lines[i as int]) == Some(place),
        ),
    decreases n,
{
    reveal(Seq::filter);
    if n > 0 {
        lemma_all_lines(regions, lines, place, (n - 1) as nat);
        assert(Seq::new(n, |i: int| i as usize).drop_last() =~= Seq::new(
            (n - 1) as nat,
            |i: int| i as usize,
        ));
    }
}

} // verus!
