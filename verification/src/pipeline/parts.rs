//! The parts of a page that are read, region by region, and how their texts are put together.
use crate::ocr::layout::predictor::{LayoutBox, LABELS};
use crate::ocr::text::detection::TextLine;
use crate::pipeline::crops::{
    all_cuts, cuts_at, cuts_for, formula_places, is_crop, texts_at, Cut,
};
use crate::pipeline::labels::{holds_text, markdown, single_line};
use crate::pipeline::regions::{home, text_regions};
use crate::raster::RgbImage;
use crate::single::Single;
use crate::strings::{joined, trimmed};
use vstd::arithmetic::power2::*;
use vstd::prelude::*;

verus! {

/// No two classes have the same name: each is told by how long it is and how it begins.
pub proof fn lemma_names_apart()
    ensures
        forall|i: int, j: int|
            0 <= i < j < 20 ==> (#[trigger] LABELS@[i])@ != (#[trigger] LABELS@[j])@,
{
    let key = |i: int| (LABELS@[i]@.len(), LABELS@[i]@[0]);
    reveal_strlit("paragraph_title");
    reveal_strlit("image");
    reveal_strlit("text");
    reveal_strlit("number");
    reveal_strlit("abstract");
    reveal_strlit("content");
    reveal_strlit("figure_title");
    reveal_strlit("formula");
    reveal_strlit("table");
    reveal_strlit("reference");
    reveal_strlit("doc_title");
    reveal_strlit("footnote");
    reveal_strlit("header");
    reveal_strlit("algorithm");
    reveal_strlit("footer");
    reveal_strlit("seal");
    reveal_strlit("chart");
    reveal_strlit("formula_number");
    reveal_strlit("aside_text");
    reveal_strlit("reference_content");
    assert(key(0) == (15nat, 'p'));
    assert(key(1) == (5nat, 'i'));
    assert(key(2) == (4nat, 't'));
    assert(key(3) == (6nat, 'n'));
    assert(key(4) == (8nat, 'a'));
    assert(key(5) == (7nat, 'c'));
    assert(key(6) == (12nat, 'f'));
    assert(key(7) == (7nat, 'f'));
    assert(key(8) == (5nat, 't'));
    assert(key(9) == (9nat, 'r'));
    assert(key(10) == (9nat, 'd'));
    assert(key(11) == (8nat, 'f'));
    assert(key(12) == (6nat, 'h'));
    assert(key(13) == (9nat, 'a'));
    assert(key(14) == (6nat, 'f'));
    assert(key(15) == (4nat, 's'));
    assert(key(16) == (5nat, 'c'));
    assert(key(17) == (14nat, 'f'));
    assert(key(18) == (10nat, 'a'));
    assert(key(19) == (17nat, 'r'));
    assert forall|i: int, j: int| 0 <= i < j < 20 implies (#[trigger] LABELS@[i])@ != (
    #[trigger] LABELS@[j])@ by {
        assert(key(i) != key(j));
    }
}

/// All classes but images, formulas, tables, seals and charts hold text. Those of titles,
/// numbers, footnotes, headers, algorithms and footers hold a single line.
pub proof fn lemma_text_classes(class: int)
    requires
        0 <= class < 20,
    ensures
        holds_text(LABELS@[class]@) <==> class != 1 && class != 7 && class != 8 && class != 15
            && class != 16,
        single_line(LABELS@[class]@) <==> class == 0 || class == 3 || class == 10 || class == 11
            || class == 12 || class == 13 || class == 14 || class == 17,
        crate::pipeline::labels::multiline_text(LABELS@[class]@) <==> holds_text(LABELS@[class]@)
            && !single_line(LABELS@[class]@),
{
    lemma_names_apart();
    let name: Seq<char> = LABELS@[class]@;
    assert(LABELS@[0]@ == "paragraph_title"@ && LABELS@[2]@ == "text"@ && LABELS@[3]@ == "number"@);
    assert(LABELS@[4]@ == "abstract"@ && LABELS@[5]@ == "content"@);
    assert(LABELS@[6]@ == "figure_title"@ && LABELS@[9]@ == "reference"@);
    assert(LABELS@[10]@ == "doc_title"@ && LABELS@[11]@ == "footnote"@);
    assert(LABELS@[12]@ == "header"@ && LABELS@[13]@ == "algorithm"@ && LABELS@[14]@ == "footer"@);
    assert(LABELS@[17]@ == "formula_number"@ && LABELS@[18]@ == "aside_text"@);
    assert(LABELS@[19]@ == "reference_content"@);
}

/// Only regions of the twenty classes hold text.
pub proof fn lemma_text_class_known(label: Seq<char>)
    requires
        holds_text(label),
    ensures
        exists|class: int| 0 <= class < 20 && #[trigger] LABELS@[class]@ == label,
{
    crate::pipeline::config::lemma_known(label);
}

/// The parts of one region go to it.
proof fn lemma_cuts_owned(regions: Seq<LayoutBox>, lines: Seq<TextLine>, place: usize)
    ensures
        forall|k: int|
            0 <= k < cuts_at(regions, lines, place).len() ==> (#[trigger] cuts_at(
                regions,
                lines,
                place,
            )[k]).owner == place,
{
}

/// Among the parts of the first `n` regions with text those that go to a region are its own.
proof fn lemma_cuts_of(
    regions: Seq<LayoutBox>,
    lines: Seq<TextLine>,
    places: Seq<usize>,
    n: nat,
    place: usize,
)
    requires
        n <= places.len(),
        forall|i: int, j: int|
            0 <= i < j < places.len() ==> (#[trigger] places[i]) < (#[trigger] places[j]),
    ensures
        cuts_for(regions, lines, places, n).filter(|c: Cut| c.owner == place) == (if places.take(
            n as int,
        ).contains(place) {
            cuts_at(regions, lines, place)
        } else {
            Seq::<Cut>::empty()
        }),
    decreases n,
{
    reveal(Seq::filter);
    let own = |c: Cut| c.owner == place;
    let now: Seq<usize> = places.take(n as int);
    if n > 0 {
        lemma_cuts_of(regions, lines, places, (n - 1) as nat, place);
        let before: Seq<usize> = places.take(n - 1);
        let last: usize = places[n - 1];
        let (a, b): (Seq<Cut>, Seq<Cut>) = (
            cuts_for(regions, lines, places, (n - 1) as nat),
            cuts_at(regions, lines, last),
        );
        Seq::<Cut>::filter_distributes_over_add(a, b, own);
        lemma_cuts_owned(regions, lines, last);
        if last == place {
            assert forall|i: int| 0 <= i < before.len() implies before[i] != place by {
                assert(places[i] < places[n - 1]);
            }
            assert(now[n - 1] == place);
            lemma_all_kept(b, own);
            assert(a.filter(own) + b.filter(own) =~= b);
        } else {
            lemma_none_kept(b, own);
            assert(a.filter(own) + b.filter(own) =~= a.filter(own));
            if before.contains(place) {
                let i: int = choose|i: int| 0 <= i < before.len() && before[i] == place;
                assert(now[i] == place);
            }
            if now.contains(place) {
                let i: int = choose|i: int| 0 <= i < now.len() && now[i] == place;
                assert(before[i] == place);
            }
        }
    } else {
        assert(!now.contains(place));
        assert(cuts_for(regions, lines, places, 0).len() == 0);
    }
}

proof fn lemma_all_kept(s: Seq<Cut>, keep: spec_fn(Cut) -> bool)
    requires
        forall|k: int| 0 <= k < s.len() ==> keep(#[trigger] s[k]),
    ensures
        s.filter(keep) == s,
    decreases s.len(),
{
    reveal(Seq::filter);
    if s.len() > 0 {
        let rest: Seq<Cut> = s.drop_last();
        assert forall|k: int| 0 <= k < rest.len() implies keep(#[trigger] rest[k]) by {
            assert(rest[k] == s[k]);
        }
        lemma_all_kept(rest, keep);
        assert(keep(s[s.len() - 1]));
        assert(rest.push(s.last()) =~= s);
    }
}

proof fn lemma_none_kept(s: Seq<Cut>, keep: spec_fn(Cut) -> bool)
    requires
        forall|k: int| 0 <= k < s.len() ==> !keep(#[trigger] s[k]),
    ensures
        s.filter(keep) == Seq::<Cut>::empty(),
    decreases s.len(),
{
    reveal(Seq::filter);
    if s.len() > 0 {
        let rest: Seq<Cut> = s.drop_last();
        assert forall|k: int| 0 <= k < rest.len() implies !keep(#[trigger] rest[k]) by {
            assert(rest[k] == s[k]);
        }
        lemma_none_kept(rest, keep);
        assert(!keep(s[s.len() - 1]));
    } else {
        assert(s.filter(keep) =~= Seq::<Cut>::empty());
    }
}

/// A region that holds a single line, or that no line belongs to, is read as a whole. Any other
/// region with text is read line by line: all lines that belong to it, in order. Nothing is
/// read for a region without text.
pub proof fn lemma_parts_read(regions: Seq<LayoutBox>, lines: Seq<TextLine>, place: usize)
    requires
        regions.len() <= usize::MAX,
        lines.len() <= usize::MAX,
        place < regions.len(),
    ensures
        ({
            let region = regions[place as int];
            let own = Seq::new(lines.len(), |i: int| i as usize).filter(
                |i: usize| home(regions, lines[i as int]) == Some(place),
            );
            all_cuts(regions, lines).filter(|c: Cut| c.owner == place) == (if !holds_text(
                region.label@,
            ) {
                Seq::<Cut>::empty()
            } else if single_line(region.label@) || own.len() == 0 {
                seq![Cut { bbox: region.bbox, owner: place }]
            } else {
                own.map_values(|i: usize| Cut { bbox: lines[i as int].bbox, owner: place })
            })
        }),
{
    let places: Seq<usize> = text_regions(regions);
    crate::pipeline::regions::lemma_text_places(regions, regions.len());
    lemma_cuts_of(regions, lines, places, places.len(), place);
    crate::pipeline::homes::lemma_all_lines(regions, lines, place, lines.len());
    assert(places.take(places.len() as int) =~= places);
    if places.contains(place) {
        let k: int = choose|k: int| 0 <= k < places.len() && places[k] == place;
        assert(holds_text(regions[places[k] as int].label@));
    }
}

/// The parts to read go from region to region, in the order of the regions.
pub proof fn lemma_parts_in_order(regions: Seq<LayoutBox>, lines: Seq<TextLine>)
    requires
        regions.len() <= usize::MAX,
    ensures
        forall|i: int, j: int|
            0 <= i < j < all_cuts(regions, lines).len() ==> (#[trigger] all_cuts(
                regions,
                lines,
            )[i]).owner <= (#[trigger] all_cuts(regions, lines)[j]).owner,
{
    let places: Seq<usize> = text_regions(regions);
    crate::pipeline::regions::lemma_text_places(regions, regions.len());
    lemma_owners_ordered(regions, lines, places, places.len());
}

proof fn lemma_owners_ordered(
    regions: Seq<LayoutBox>,
    lines: Seq<TextLine>,
    places: Seq<usize>,
    n: nat,
)
    requires
        n <= places.len(),
        forall|i: int, j: int|
            0 <= i < j < places.len() ==> (#[trigger] places[i]) < (#[trigger] places[j]),
    ensures
        forall|i: int, j: int|
            0 <= i < j < cuts_for(regions, lines, places, n).len() ==> (#[trigger] cuts_for(
                regions,
                lines,
                places,
                n,
            )[i]).owner <= (#[trigger] cuts_for(regions, lines, places, n)[j]).owner,
        forall|i: int|
            0 <= i < cuts_for(regions, lines, places, n).len() ==> n > 0 && (#[trigger] cuts_for(
                regions,
                lines,
                places,
                n,
            )[i]).owner <= places[n - 1],
    decreases n,
{
    if n > 0 {
        lemma_owners_ordered(regions, lines, places, (n - 1) as nat);
        let a: Seq<Cut> = cuts_for(regions, lines, places, (n - 1) as nat);
        let b: Seq<Cut> = cuts_at(regions, lines, places[n - 1]);
        let all: Seq<Cut> = cuts_for(regions, lines, places, n);
        lemma_cuts_owned(regions, lines, places[n - 1]);
        assert forall|i: int| 0 <= i < all.len() implies (#[trigger] all[i]).owner <= places[n
            - 1] by {
            if i < a.len() {
                assert(all[i] == a[i]);
                assert(a[i].owner <= places[n - 2]);
                assert(places[n - 2] < places[n - 1]);
            } else {
                assert(all[i] == b[i - a.len()]);
            }
        }
        assert forall|i: int, j: int| 0 <= i < j < all.len() implies (#[trigger] all[i]).owner <= (
        #[trigger] all[j]).owner by {
            if j < a.len() {
                assert(all[i] == a[i] && all[j] == a[j]);
            } else {
                assert(all[j] == b[j - a.len()]);
                assert(all[i].owner <= places[n - 1]);
            }
        }
    }
}

/// The texts that count for a region are those of all its parts whose confidence is not below
/// the threshold and that hold more than white space, trimmed and in order.
pub proof fn lemma_texts_kept(
    cuts: Seq<Cut>,
    readings: Seq<(Seq<char>, Single)>,
    threshold: Single,
    place: usize,
    n: nat,
)
    requires
        n <= cuts.len(),
        n <= readings.len(),
    ensures
        texts_at(cuts, readings, threshold, place, n) == Seq::new(n, |k: int| k).filter(
            |k: int|
                cuts[k].owner == place && !readings[k].1.nan() && !threshold.nan()
                    && readings[k].1.units() >= threshold.units() && exists|i: int|
                    0 <= i < readings[k].0.len() && !crate::strings::white_space(
                        #[trigger] readings[k].0[i],
                    ),
        ).map_values(|k: int| trimmed(readings[k].0)),
    decreases n,
{
    reveal(Seq::filter);
    let all: Seq<int> = Seq::new(n, |k: int| k);
    let keep = |k: int|
        cuts[k].owner == place && !readings[k].1.nan() && !threshold.nan()
            && readings[k].1.units() >= threshold.units() && exists|i: int|
            0 <= i < readings[k].0.len() && !crate::strings::white_space(
                #[trigger] readings[k].0[i],
            );
    let text = |k: int| trimmed(readings[k].0);
    if n > 0 {
        lemma_texts_kept(cuts, readings, threshold, place, (n - 1) as nat);
        let rest: Seq<int> = Seq::new((n - 1) as nat, |k: int| k);
        assert(all.drop_last() =~= rest);
        lemma_trimmed(readings[n - 1].0);
        if keep(n - 1) {
            assert(all.filter(keep).map_values(text) =~= rest.filter(keep).map_values(text).push(
                text(n - 1),
            ));
        }
    } else {
        assert(all.filter(keep).map_values(text) =~= Seq::<Seq<char>>::empty());
    }
}

/// Trimming a text takes white space from its ends, and all of it.
pub proof fn lemma_trimmed(s: Seq<char>) -> (ends: (int, int))
    ensures
        0 <= ends.0 <= ends.1 <= s.len(),
        trimmed(s) == s.subrange(ends.0, ends.1),
        forall|i: int|
            0 <= i < ends.0 || ends.1 <= i < s.len() ==> crate::strings::white_space(
                #[trigger] s[i],
            ),
        ends.0 < ends.1 ==> !crate::strings::white_space(s[ends.0])
            && !crate::strings::white_space(s[ends.1 - 1]),
        trimmed(s).len() > 0 <==> exists|i: int|
            0 <= i < s.len() && !crate::strings::white_space(#[trigger] s[i]),
    decreases s.len(),
{
    if s.len() > 0 && crate::strings::white_space(s.first()) {
        let rest: Seq<char> = s.drop_first();
        let r: (int, int) = lemma_trimmed(rest);
        assert(rest.subrange(r.0, r.1) =~= s.subrange(r.0 + 1, r.1 + 1));
        assert forall|i: int|
            0 <= i < r.0 + 1 || r.1 + 1 <= i < s.len() implies crate::strings::white_space(
            #[trigger] s[i],
        ) by {
            if i > 0 {
                assert(crate::strings::white_space(rest[i - 1]));
            }
        }
        if r.0 < r.1 {
            assert(s[r.0 + 1] == rest[r.0]);
        }
        (r.0 + 1, r.1 + 1)
    } else if s.len() > 0 && crate::strings::white_space(s.last()) {
        let rest: Seq<char> = s.drop_last();
        let r: (int, int) = lemma_trimmed(rest);
        assert(rest.subrange(r.0, r.1) =~= s.subrange(r.0, r.1));
        assert forall|i: int|
            0 <= i < r.0 || r.1 <= i < s.len() implies crate::strings::white_space(
            #[trigger] s[i],
        ) by {
            if i < rest.len() {
                assert(crate::strings::white_space(rest[i]));
            }
        }
        if r.0 < r.1 {
            assert(s[r.0] == rest[r.0]);
        }
        r
    } else {
        assert(s.subrange(0, s.len() as int) =~= s);
        if s.len() > 0 {
            assert(!crate::strings::white_space(s[0]));
        }
        (0, s.len() as int)
    }
}

/// Texts are put together with the separator between the first ones and the others, and
/// nowhere else.
pub proof fn lemma_joined(first: Seq<Seq<char>>, rest: Seq<Seq<char>>, separator: Seq<char>)
    ensures
        first.len() > 0 && rest.len() > 0 ==> joined(first + rest, separator) == joined(
            first,
            separator,
        ) + separator + joined(rest, separator),
        first.len() == 1 ==> joined(first, separator) == first[0],
        first.len() == 0 ==> joined(first, separator) == Seq::<char>::empty(),
    decreases rest.len(),
{
    if first.len() > 0 && rest.len() > 0 {
        let all: Seq<Seq<char>> = first + rest;
        assert(all.last() == rest.last());
        assert(all.drop_last() =~= first + rest.drop_last());
        if rest.len() == 1 {
            assert(first + rest.drop_last() =~= first);
            assert(rest.last() == rest[0]);
        } else {
            lemma_joined(first, rest.drop_last(), separator);
            assert(joined(all, separator) =~= joined(first, separator) + separator + joined(
                rest,
                separator,
            ));
        }
    }
}

/// The title of a page is written on one line behind one mark, that of a section behind two,
/// and all other text line by line. Without lines nothing is written.
pub proof fn lemma_markdown(class: int, lines: Seq<Seq<char>>)
    requires
        0 <= class < 20,
    ensures
        ({
            let r = markdown(LABELS@[class]@, lines);
            &&& lines.len() == 0 ==> r == Seq::<char>::empty()
            &&& lines.len() > 0 && class == 10 ==> r == seq!['#', ' '] + joined(lines, seq![' '])
            &&& lines.len() > 0 && class == 0 ==> r == seq!['#', '#', ' '] + joined(
                lines,
                seq![' '],
            )
            &&& lines.len() > 0 && class != 0 && class != 10 ==> r == joined(lines, seq!['\n'])
        }),
{
    lemma_names_apart();
    assert(LABELS@[0]@ == "paragraph_title"@ && LABELS@[10]@ == "doc_title"@);
    reveal_strlit("# ");
    reveal_strlit("## ");
    reveal_strlit(" ");
    reveal_strlit("\n");
    assert("# "@ =~= seq!['#', ' ']);
    assert("## "@ =~= seq!['#', '#', ' ']);
    assert(" "@ =~= seq![' ']);
    assert("\n"@ =~= seq!['\n']);
}

/// A formula is written between two lines of marks, without the white space around it.
pub proof fn lemma_formula_block(latex: Seq<char>)
    ensures
        crate::pipeline::labels::formula_block(latex) == seq!['$', '$', '\n'] + trimmed(latex)
            + seq!['\n', '$', '$'],
{
    reveal_strlit("$$\n");
    reveal_strlit("\n$$");
    assert("$$\n"@ =~= seq!['$', '$', '\n']);
    assert("\n$$"@ =~= seq!['\n', '$', '$']);
}

/// The formulas of a page are all regions of their class, in order.
pub proof fn lemma_all_formulas(regions: Seq<LayoutBox>, n: nat)
    requires
        n <= regions.len() <= usize::MAX,
    ensures
        formula_places(regions, n) == Seq::new(n, |i: int| i as usize).filter(
            |i: usize| regions[i as int].label@ == LABELS@[7]@,
        ),
    decreases n,
{
    reveal(Seq::filter);
    assert(LABELS@[7]@ == "formula"@);
    if n > 0 {
        lemma_all_formulas(regions, (n - 1) as nat);
        assert(Seq::new(n, |i: int| i as usize).drop_last() =~= Seq::new(
            (n - 1) as nat,
            |i: int| i as usize,
        ));
    }
}

/// The whole part of a coordinate is told by the pixel it lies in.
proof fn lemma_whole_part(v: Single, n: int)
    requires
        v.finite(),
        0 <= n <= 0x4000_0000,
        n * crate::single::unit() <= v.units() < (n + 1) * crate::single::unit(),
    ensures
        crate::pipeline::crops::whole_i32(v) == n,
{
    reveal(Single::to_whole);
    let u: int = crate::single::unit() as int;
    lemma_pow2_pos(149);
    crate::close::lemma_not_zero(v);
    assert(n * u >= 0) by (nonlinear_arith)
        requires
            n >= 0,
            u > 0,
    ;
    let s: int = crate::single::size(v.units()) as int;
    assert(s / u == n) by (nonlinear_arith)
        requires
            n * u <= s,
            s < (n + 1) * u,
            u > 0,
    ;
}

/// The part of a page around a box begins with the pixel that the left and top edges of the box
/// lie in and ends before the one that its right and bottom edges lie in, both moved outward by
/// the padding as far as the page reaches; it is at least one pixel wide and high. Its pixels
/// are those of the page.
pub proof fn lemma_part_cut(
    image: RgbImage,
    bbox: [Single; 4],
    padding: u32,
    r: RgbImage,
    x1: int,
    y1: int,
    x2: int,
    y2: int,
)
    requires
        is_crop(image, bbox, padding, r),
        image.wf(),
        image.width <= 0x4000_0000,
        image.height <= 0x4000_0000,
        padding <= 0x100_0000,
        forall|k: int| 0 <= k < 4 ==> (#[trigger] bbox@[k]).finite(),
        0 <= x1 <= x2 <= image.width,
        0 <= y1 <= y2 <= image.height,
        x1 < image.width,
        y1 < image.height,
        x1 * crate::single::unit() <= bbox@[0].units() < (x1 + 1) * crate::single::unit(),
        y1 * crate::single::unit() <= bbox@[1].units() < (y1 + 1) * crate::single::unit(),
        x2 * crate::single::unit() <= bbox@[2].units() < (x2 + 1) * crate::single::unit(),
        y2 * crate::single::unit() <= bbox@[3].units() < (y2 + 1) * crate::single::unit(),
    ensures
        ({
            let left = if x1 < padding {
                0
            } else {
                x1 - padding
            };
            let top = if y1 < padding {
                0
            } else {
                y1 - padding
            };
            let right = if x2 + padding > image.width {
                image.width as int
            } else {
                x2 + padding
            };
            let bottom = if y2 + padding > image.height {
                image.height as int
            } else {
                y2 + padding
            };
            &&& r.width == (if right - left < 1 {
                1
            } else {
                right - left
            })
            &&& r.height == (if bottom - top < 1 {
                1
            } else {
                bottom - top
            })
            &&& r.data@.len() == 3 * (r.width * r.height)
            &&& forall|x: int, y: int, c: int|
                0 <= x < r.width && 0 <= y < r.height && 0 <= c < 3 ==> #[trigger] r.data@[3 * (y
                    * r.width + x) + c] == image.data@[3 * ((top + y) * image.width + (left + x))
                    + c]
        }),
{
    assert(bbox@[0].finite() && bbox@[1].finite() && bbox@[2].finite() && bbox@[3].finite());
    lemma_whole_part(bbox@[0], x1);
    lemma_whole_part(bbox@[1], y1);
    lemma_whole_part(bbox@[2], x2);
    lemma_whole_part(bbox@[3], y2);
    let left: int = if x1 < padding {
        0
    } else {
        x1 - padding
    };
    let top: int = if y1 < padding {
        0
    } else {
        y1 - padding
    };
    assert(crate::pipeline::crops::start_of(bbox[0], padding) == left);
    assert(crate::pipeline::crops::start_of(bbox[1], padding) == top);
    let (w, h): (int, int) = (r.width as int, r.height as int);
    assert forall|x: int, y: int, c: int|
        0 <= x < r.width && 0 <= y < r.height && 0 <= c < 3 implies #[trigger] r.data@[3 * (y
        * r.width + x) + c] == image.data@[3 * ((top + y) * image.width + (left + x)) + c] by {
        let i: int = 3 * (y * w + x) + c;
        let row: int = 3 * w;
        assert(i == y * row + (3 * x + c)) by (nonlinear_arith)
            requires
                i == 3 * (y * w + x) + c,
                row == 3 * w,
        ;
        vstd::arithmetic::div_mod::lemma_fundamental_div_mod_converse(i, row, y, 3 * x + c);
        assert(0 <= i < 3 * (w * h)) by (nonlinear_arith)
            requires
                i == 3 * (y * w + x) + c,
                0 <= x < w,
                0 <= y < h,
                0 <= c < 3,
        ;
        let (s, t): (int, int) = (image.width as int, top + y);
        assert(3 * (t * s + left) + (3 * x + c) == 3 * (t * s + (left + x)) + c);
    }
}

} // verus!
