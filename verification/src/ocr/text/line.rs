//! Reading text lines.
//!
//! The model is fed pictures of lines, all 48 pixels high, and answers with a class for
//! every step along the line. Class 0 stands for a blank between characters; a class that
//! repeats without a blank is one character.
use crate::raster::RgbImage;
use crate::single::Single;
use vstd::prelude::*;
use vstd::string::*;

verus! {

/// The largest value of a row and its place: the first of equals, and place 0 with negative
/// infinity where nothing is above that.
pub open spec fn best(row: Seq<Single>) -> (int, Single)
    decreases row.len(),
{
    if row.len() == 0 {
        (0, Single { bits: crate::single::NEG_INFINITY })
    } else {
        let rest = best(row.drop_last());
        if rest.1.below(row.last()) {
            (row.len() - 1, row.last())
        } else {
            rest
        }
    }
}

/// The largest value of a row is exceeded by none. It is the value at its place and exceeds all
/// values before, unless nothing in the row is above negative infinity.
pub proof fn lemma_best(row: Seq<Single>)
    ensures
        !best(row).1.nan(),
        forall|i: int| 0 <= i < row.len() ==> !best(row).1.below(#[trigger] row[i]),
        best(row).1.bits == crate::single::NEG_INFINITY && best(row).0 == 0 || {
            &&& 0 <= best(row).0 < row.len()
            &&& row[best(row).0] == best(row).1
            &&& forall|i: int|
                0 <= i < best(row).0 && !(#[trigger] row[i]).nan() ==> row[i].below(best(row).1)
        },
    decreases row.len(),
{
    if row.len() > 0 {
        let rest: Seq<Single> = row.drop_last();
        lemma_best(rest);
        assert forall|i: int| 0 <= i < row.len() implies !best(row).1.below(
            #[trigger] row[i],
        ) by {
            if i < rest.len() {
                assert(!best(rest).1.below(rest[i]));
            }
        }
        assert forall|i: int|
            0 <= i < best(row).0 && !(#[trigger] row[i]).nan() implies row[i].below(
            best(row).1,
        ) by {
            assert(rest[i] == row[i]);
        }
    }
}

/// The classes with those that repeat the one before left out.
pub open spec fn merged(ids: Seq<int>) -> Seq<int>
    decreases ids.len(),
{
    if ids.len() == 0 {
        Seq::empty()
    } else {
        let rest = merged(ids.drop_last());
        if rest.len() > 0 && rest.last() == ids.last() {
            rest
        } else {
            rest.push(ids.last())
        }
    }
}

/// The dictionary entries of the classes, one after another; blanks and classes that the
/// dictionary lacks have none.
pub open spec fn spelled(dict: Seq<Seq<char>>, ids: Seq<int>) -> Seq<char>
    decreases ids.len(),
{
    if ids.len() == 0 {
        Seq::empty()
    } else {
        let rest = spelled(dict, ids.drop_last());
        if 1 <= ids.last() <= dict.len() {
            rest + dict[ids.last() - 1]
        } else {
            rest
        }
    }
}

/// Merging keeps the last class.
proof fn lemma_merged_last(ids: Seq<int>)
    requires
        ids.len() > 0,
    ensures
        merged(ids).len() > 0,
        merged(ids).last() == ids.last(),
{
}

/// Decoding first merges repeats, and then drops the blanks: a blank between two steps of one
/// class keeps both.
pub proof fn lemma_merge_then_drop(dict: Seq<Seq<char>>, ids: Seq<int>, n: nat)
    requires
        n <= ids.len(),
    ensures
        shown_text(dict, ids, n) == spelled(dict, merged(ids.take(n as int))),
    decreases n,
{
    let some: Seq<int> = ids.take(n as int);
    if n > 0 {
        lemma_merge_then_drop(dict, ids, (n - 1) as nat);
        let rest: Seq<int> = ids.take(n - 1);
        assert(some.drop_last() =~= rest);
        assert(some.last() == ids[n - 1]);
        if n > 1 {
            lemma_merged_last(rest);
            assert(rest.last() == ids[n - 2]);
        } else {
            assert(merged(rest) =~= Seq::<int>::empty());
        }
        let pushed: Seq<int> = merged(rest).push(ids[n - 1]);
        assert(pushed.drop_last() =~= merged(rest));
        assert(pushed.last() == ids[n - 1]);
    } else {
        assert(merged(some) =~= Seq::<int>::empty());
    }
}

/// Step `k` shows a character: not a blank, not the class of the step before, and a class
/// that the dictionary holds.
pub open spec fn shows(ids: Seq<int>, k: int, size: nat) -> bool {
    &&& ids[k] != 0
    &&& k > 0 ==> ids[k] != ids[k - 1]
    &&& 1 <= ids[k] <= size
}

/// The text that the first `n` steps show.
pub open spec fn shown_text(dict: Seq<Seq<char>>, ids: Seq<int>, n: nat) -> Seq<char>
    decreases n,
{
    if n == 0 {
        Seq::empty()
    } else {
        let rest = shown_text(dict, ids, (n - 1) as nat);
        if shows(ids, n - 1, dict.len()) {
            rest + dict[ids[n - 1] - 1]
        } else {
            rest
        }
    }
}

/// The sum of the probabilities of the characters that the first `n` steps show.
pub open spec fn shown_sum(size: nat, ids: Seq<int>, probs: Seq<Single>, n: nat) -> Single
    decreases n,
{
    if n == 0 {
        Single { bits: 0 }
    } else {
        let rest = shown_sum(size, ids, probs, (n - 1) as nat);
        if shows(ids, n - 1, size) {
            Single::sum(rest, probs[n - 1])
        } else {
            rest
        }
    }
}

/// How many characters the first `n` steps show.
pub open spec fn shown_count(size: nat, ids: Seq<int>, n: nat) -> nat
    decreases n,
{
    if n == 0 {
        0
    } else {
        shown_count(size, ids, (n - 1) as nat) + (if shows(ids, n - 1, size) {
            1nat
        } else {
            0nat
        })
    }
}

/// The mean probability of the characters that the first `n` steps show, zero for none.
pub open spec fn confidence(size: nat, ids: Seq<int>, probs: Seq<Single>, n: nat) -> Single {
    if shown_count(size, ids, n) > 0 {
        Single::quotient(
            shown_sum(size, ids, probs, n),
            Single::whole(shown_count(size, ids, n) as int),
        )
    } else {
        Single { bits: 0 }
    }
}

/// The classes of `steps` rows of `classes` values: in each the place of the largest.
pub open spec fn best_ids(logits: Seq<Single>, steps: int, classes: int) -> Seq<int> {
    Seq::new(
        steps as nat,
        |i: int| best(logits.subrange(i * classes, i * classes + classes)).0,
    )
}

/// The probabilities of `steps` rows of `classes` values: in each the largest.
pub open spec fn best_probs(logits: Seq<Single>, steps: int, classes: int) -> Seq<Single> {
    Seq::new(
        steps as nat,
        |i: int| best(logits.subrange(i * classes, i * classes + classes)).1,
    )
}

/// The text and the confidence of some steps.
pub open spec fn decoded(dict: Seq<Seq<char>>, ids: Seq<int>, probs: Seq<Single>) -> (
    Seq<char>,
    Single,
) {
    let n = if ids.len() < probs.len() {
        ids.len()
    } else {
        probs.len()
    };
    (shown_text(dict, ids, n), confidence(dict.len(), ids, probs, n))
}

/// The classes as whole numbers.
pub open spec fn whole_ids(ids: Seq<i64>) -> Seq<int> {
    ids.map_values(|id: i64| id as int)
}

/// The largest value of a part of a row and its place there.
fn best_between(logits: &[Single], from: usize, to: usize) -> (r: (usize, Single))
    requires
        from <= to <= logits.len(),
    ensures
        r.0 == best(logits@.subrange(from as int, to as int)).0,
        r.1 == best(logits@.subrange(from as int, to as int)).1,
        r.0 <= to - from,
{
    let ghost row: Seq<Single> = logits@.subrange(from as int, to as int);
    let mut at: usize = 0;
    let mut top: Single = Single::from_bits(crate::single::NEG_INFINITY);
    let mut i: usize = from;
    assert(row.take(0) =~= Seq::<Single>::empty());
    while i < to
        invariant
            from <= i <= to <= logits.len(),
            row == logits@.subrange(from as int, to as int),
            at as int == best(row.take(i - from)).0,
            top == best(row.take(i - from)).1,
            at <= i - from,
        decreases to - i,
    {
        let v: Single = logits[i];
        assert(row.take(i + 1 - from).drop_last() =~= row.take(i - from));
        if top.lt(v) {
            top = v;
            at = i - from;
        }
        i = i + 1;
    }
    assert(row.take(to - from) =~= row);
    (at, top)
}

/// What is known after some steps.
struct Progress {
    text: String,
    sum: Single,
    count: usize,
    prev: i128,
}

impl Progress {
    /// Nothing has been seen.
    fn new() -> (r: Progress)
        ensures
            r.text@ == Seq::<char>::empty(),
            r.sum.bits == 0,
            r.count == 0,
            r.prev == 0,
    {
        Progress { text: String::new(), sum: Single::from_bits(0), count: 0, prev: 0 }
    }

    /// The first `n` steps have been seen.
    spec fn after(&self, dict: Seq<Seq<char>>, ids: Seq<int>, probs: Seq<Single>, n: nat) -> bool {
        &&& self.text@ == shown_text(dict, ids, n)
        &&& self.sum == shown_sum(dict.len(), ids, probs, n)
        &&& self.count == shown_count(dict.len(), ids, n)
        &&& self.count <= n
        &&& self.prev == (if n == 0 {
            0
        } else {
            ids[n - 1]
        })
    }

    /// Takes in one more step.
    fn step(
        &mut self,
        dict: &Vec<String>,
        id: i128,
        prob: Single,
        Ghost(ids): Ghost<Seq<int>>,
        Ghost(probs): Ghost<Seq<Single>>,
        Ghost(n): Ghost<nat>,
    )
        requires
            old(self).after(crate::strings::texts(dict@), ids, probs, n),
            n < ids.len(),
            n < probs.len(),
            n < usize::MAX,
            ids[n as int] == id,
            probs[n as int] == prob,
        ensures
            final(self).after(crate::strings::texts(dict@), ids, probs, n + 1),
    {
        let ghost size: nat = dict@.len();
        let ghost at: int = n as int;
        assert(crate::strings::texts(dict@).len() == size);
        assert((at + 1) as nat == n + 1 && (n + 1 - 1) as nat == n);
        if id != 0 && id != self.prev && 1 <= id && id <= dict.len() as i128 {
            assert(shows(ids, at, size));
            let place: usize = (id - 1) as usize;
            assert(crate::strings::texts(dict@)[ids[at] - 1] == dict@[place as int]@);
            self.text.append(dict[place].as_str());
            self.sum = self.sum.plus(prob);
            self.count = self.count + 1;
        } else {
            assert(!shows(ids, at, size));
        }
        self.prev = id;
    }

    /// The text and the mean probability of its characters.
    fn finish(self) -> (r: (String, Single))
        ensures
            r.0@ == self.text@,
            r.1 == (if self.count > 0 {
                Single::quotient(self.sum, Single::whole(self.count as int))
            } else {
                Single { bits: 0 }
            }),
    {
        let conf: Single = if self.count > 0 {
            self.sum.over(Single::from_u64(self.count as u64))
        } else {
            Single::from_bits(0)
        };
        (self.text, conf)
    }
}

/// Reads a line from the probabilities of all classes at every step: the likeliest class
/// counts. Returns the text and the mean probability of its characters.
pub fn ctc_decode(dict: &Vec<String>, logits: &[Single], steps: usize, num_classes: usize) -> (r: (
    String,
    Single,
))
    requires
        steps * num_classes <= logits.len(),
    ensures
        (r.0@, r.1) == decoded(
            crate::strings::texts(dict@),
            best_ids(logits@, steps as int, num_classes as int),
            best_probs(logits@, steps as int, num_classes as int),
        ),
{
    let ghost ids: Seq<int> = best_ids(logits@, steps as int, num_classes as int);
    let ghost probs: Seq<Single> = best_probs(logits@, steps as int, num_classes as int);
    let mut progress: Progress = Progress::new();
    let mut i: usize = 0;
    while i < steps
        invariant
            i <= steps,
            steps * num_classes <= logits.len(),
            ids == best_ids(logits@, steps as int, num_classes as int),
            probs == best_probs(logits@, steps as int, num_classes as int),
            progress.after(crate::strings::texts(dict@), ids, probs, i as nat),
        decreases steps - i,
    {
        proof {
            let (c, s, k): (int, int, int) = (num_classes as int, steps as int, i as int);
            assert(0 <= k * c && k * c + c <= s * c) by (nonlinear_arith)
                requires
                    0 <= k,
                    k + 1 <= s,
                    c >= 0,
            ;
        }
        let from: usize = i * num_classes;
        let found: (usize, Single) = best_between(logits, from, from + num_classes);
        progress.step(dict, found.0 as i128, found.1, Ghost(ids), Ghost(probs), Ghost(i as nat));
        i = i + 1;
    }
    progress.finish()
}

/// Reads a line from the likeliest class at every step and its probability. Returns the
/// text and the mean probability of its characters.
pub fn ctc_decode_compact(dict: &Vec<String>, ids: &[i64], probs: &[Single]) -> (r: (String, Single))
    ensures
        (r.0@, r.1) == decoded(crate::strings::texts(dict@), whole_ids(ids@), probs@),
{
    let ghost all: Seq<int> = whole_ids(ids@);
    let n: usize = if ids.len() < probs.len() {
        ids.len()
    } else {
        probs.len()
    };
    let mut progress: Progress = Progress::new();
    let mut i: usize = 0;
    while i < n
        invariant
            i <= n,
            n <= ids.len(),
            n <= probs.len(),
            all == whole_ids(ids@),
            progress.after(crate::strings::texts(dict@), all, probs@, i as nat),
        decreases n - i,
    {
        progress.step(dict, ids[i] as i128, probs[i], Ghost(all), Ghost(probs@), Ghost(i as nat));
        i = i + 1;
    }
    progress.finish()
}

/// The height of the pictures that the model is fed.
pub const INPUT_HEIGHT: u32 = 48;

/// The greatest width of the pictures that the model is fed.
pub const MAX_INPUT_WIDTH: u32 = 3200;

/// How many pictures the model is fed at once unless set otherwise.
pub const DEFAULT_BATCH_SIZE: usize = 8;

/// The bit pattern of one half.
pub const HALF: u32 = 0x3f00_0000;

/// The width of a picture scaled to a height of 48, between 1 and 3200.
pub open spec fn line_width(w: u32, h: u32) -> int {
    let width = Single::quotient(
        Single::product(Single::whole(INPUT_HEIGHT as int), Single::whole(w as int)),
        Single::whole(h as int),
    ).rounded_off().to_whole(0, u32::MAX as int);
    if width < 1 {
        1
    } else if width > MAX_INPUT_WIDTH {
        MAX_INPUT_WIDTH as int
    } else {
        width
    }
}

/// The width of a picture scaled to a height of 48, between 1 and 3200.
pub fn scaled_width(w: u32, h: u32) -> (r: u32)
    ensures
        r == line_width(w, h),
        1 <= r <= MAX_INPUT_WIDTH,
{
    let width: u32 = Single::from_u64(INPUT_HEIGHT as u64).times(Single::from_u64(w as u64)).over(
        Single::from_u64(h as u64),
    ).round().to_u32();
    if width < 1 {
        1
    } else if width > MAX_INPUT_WIDTH {
        MAX_INPUT_WIDTH
    } else {
        width
    }
}

/// The planes of a picture that already has the size the model is fed.
pub open spec fn line_planes(data: Seq<u8>, pixels: int) -> Seq<Single> {
    let table = crate::ocr::tensor::tones(Single { bits: HALF }, Single { bits: HALF });
    crate::ocr::tensor::planes(data, pixels, seq![table, table, table])
}

/// The planes of a picture that already has the size the model is fed.
pub fn normalise_line(resized: &RgbImage) -> (r: Vec<Single>)
    requires
        resized.wf(),
    ensures
        r@ == line_planes(resized.data@, resized.width * resized.height),
{
    let half: Single = Single::from_bits(HALF);
    let table: Vec<Single> = crate::ocr::tensor::tone_table(half, half);
    let plane: usize = resized.data.len() / 3;
    crate::ocr::tensor::to_planes(&resized.data, plane, &table, &table, &table)
}

/// A picture as the model is fed it: three planes of 48 rows.
#[derive(Debug)]
pub struct LineInput {
    pub width: usize,
    pub data: Vec<Single>,
}

impl LineInput {
    /// There are as many numbers as the width calls for.
    pub open spec fn wf(&self) -> bool {
        &&& 1 <= self.width <= MAX_INPUT_WIDTH
        &&& self.data@.len() == 144 * self.width
    }
}

/// The picture can be scaled for the model.
pub open spec fn readable(image: RgbImage) -> bool {
    &&& image.wf()
    &&& image.empty() || crate::raster::resizable(
        image.width,
        image.height,
        line_width(image.width, image.height) as u32,
        INPUT_HEIGHT,
    )
}

/// The picture scaled and normalised.
pub open spec fn is_line_input(image: RgbImage, input: LineInput) -> bool {
    let width = line_width(image.width, image.height);
    &&& input.wf()
    &&& input.width == width
    &&& input.data@ == line_planes(
        crate::raster::resampled_rgb(
            image.data@,
            image.width as int,
            image.height as int,
            width,
            48,
        ),
        width * 48,
    )
}

/// What the model is fed for a picture of a line.
pub fn resize_norm(image: &RgbImage) -> (r: LineInput)
    requires
        !image.empty(),
        readable(*image),
    ensures
        is_line_input(*image, r),
{
    let width: u32 = scaled_width(image.width, image.height);
    let resized: RgbImage = crate::raster::resize_rgb(image, width, INPUT_HEIGHT);
    let data: Vec<Single> = normalise_line(&resized);
    LineInput { width: width as usize, data }
}

/// What the model is fed for each picture, `None` for one without pixels.
pub open spec fn is_prepared(images: Seq<RgbImage>, inputs: Seq<Option<LineInput>>) -> bool {
    &&& inputs.len() == images.len()
    &&& forall|i: int|
        0 <= i < images.len() ==> match #[trigger] inputs[i] {
            Some(input) => !images[i].empty() && is_line_input(images[i], input),
            None => images[i].empty(),
        }
}

/// What the model is fed for each picture, `None` for one without pixels.
pub fn prepare(images: &Vec<RgbImage>) -> (r: Vec<Option<LineInput>>)
    requires
        forall|i: int| 0 <= i < images@.len() ==> readable(#[trigger] images@[i]),
    ensures
        is_prepared(images@, r@),
{
    let mut r: Vec<Option<LineInput>> = Vec::new();
    let mut i: usize = 0;
    while i < images.len()
        invariant
            i <= images.len(),
            forall|i: int| 0 <= i < images@.len() ==> readable(#[trigger] images@[i]),
            r@.len() == i,
            forall|k: int|
                0 <= k < i ==> match #[trigger] r@[k] {
                    Some(input) => !images@[k].empty() && is_line_input(images@[k], input),
                    None => images@[k].empty(),
                },
        decreases images.len() - i,
    {
        if images[i].width == 0 || images[i].height == 0 {
            r.push(None);
        } else {
            r.push(Some(resize_norm(&images[i])));
        }
        i = i + 1;
    }
    r
}

} // verus!
