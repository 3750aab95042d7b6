//! A picture that is read alone is read as in a batch of one.
use crate::ocr::text::batch::Batch;
use crate::ocr::text::line::LineInput;
use crate::ocr::text::recognition::LineOutput;
use crate::raster::RgbImage;
use crate::single::Single;
use vstd::arithmetic::div_mod::*;
use vstd::prelude::*;

verus! {

/// The answer holds the row of a picture, and what comes after it shows no character of a
/// dictionary of `size` entries.
pub open spec fn one_row(size: nat, output: LineOutput) -> bool {
    &&& output.answers(1)
    &&& output matches LineOutput::Compact { steps, ids, probs } ==> forall|k: int|
        steps <= k < ids@.len() && k < probs@.len() ==> !#[trigger] crate::ocr::text::line::shows(
            crate::ocr::text::line::whole_ids(ids@),
            k,
            size,
        )
}

/// The first `s` steps alone show what the first `n` do, where the others show nothing.
proof fn lemma_first_steps(
    dict: Seq<Seq<char>>,
    ids: Seq<int>,
    probs: Seq<Single>,
    s: nat,
    n: nat,
)
    requires
        s <= ids.len(),
        s <= probs.len(),
        forall|k: int| s <= k < n ==> !#[trigger] crate::ocr::text::line::shows(ids, k, dict.len()),
    ensures
        ({
            let (some, few) = (ids.take(s as int), probs.take(s as int));
            let m = if n < s {
                n
            } else {
                s
            };
            &&& crate::ocr::text::line::shown_text(dict, ids, n)
                == crate::ocr::text::line::shown_text(dict, some, m)
            &&& crate::ocr::text::line::shown_sum(dict.len(), ids, probs, n)
                == crate::ocr::text::line::shown_sum(dict.len(), some, few, m)
            &&& crate::ocr::text::line::shown_count(dict.len(), ids, n)
                == crate::ocr::text::line::shown_count(dict.len(), some, m)
        }),
    decreases n,
{
    if n > 0 {
        lemma_first_steps(dict, ids, probs, s, (n - 1) as nat);
        if n <= s {
            assert(crate::ocr::text::line::shows(ids, n - 1, dict.len())
                == crate::ocr::text::line::shows(ids.take(s as int), n - 1, dict.len()));
        } else {
            assert(!crate::ocr::text::line::shows(ids, n - 1, dict.len()));
        }
    }
}

/// The row of the first picture says what the whole answer says, where nothing after it
/// shows a character.
pub proof fn lemma_only_row(dict: Seq<Seq<char>>, output: LineOutput)
    requires
        one_row(dict.len(), output),
    ensures
        crate::ocr::text::recognition::row_reading(dict, output, 0)
            == crate::ocr::text::recognition::single_reading(dict, output),
{
    match output {
        LineOutput::Compact { steps, ids, probs } => {
            let (all, s): (Seq<int>, nat) = (crate::ocr::text::line::whole_ids(ids@), steps as nat);
            let n: nat = if ids@.len() < probs@.len() {
                ids@.len()
            } else {
                probs@.len()
            };
            assert(0 * steps == 0 && 1 * steps == steps);
            lemma_first_steps(dict, all, probs@, s, n);
            assert(crate::ocr::text::line::whole_ids(ids@.subrange(0, 0 + steps)) =~= all.take(
                s as int,
            ));
            assert(probs@.subrange(0, 0 + steps) =~= probs@.take(s as int));
        },
        LineOutput::Full { steps, classes, logits } => {
            let (s, c): (int, int) = (steps as int, classes as int);
            let size: int = s * c;
            assert(0 * size == 0 && 1 * size == size);
            assert(0 <= size) by (nonlinear_arith)
                requires
                    size == s * c,
                    s >= 0,
                    c >= 0,
            ;
            let row: Seq<Single> = logits@.subrange(0, size);
            assert forall|i: int| 0 <= i < s implies #[trigger] row.subrange(i * c, i * c + c)
                == logits@.subrange(i * c, i * c + c) by {
                assert(0 <= i * c && i * c + c <= size) by (nonlinear_arith)
                    requires
                        0 <= i,
                        i + 1 <= s,
                        c >= 0,
                        size == s * c,
                ;
                assert(row.subrange(i * c, i * c + c) =~= logits@.subrange(i * c, i * c + c));
            }
            assert(crate::ocr::text::line::best_ids(row, s, c)
                =~= crate::ocr::text::line::best_ids(logits@, s, c));
            assert(crate::ocr::text::line::best_probs(row, s, c)
                =~= crate::ocr::text::line::best_probs(logits@, s, c));
        },
    }
}

/// A single picture is the only one in the queue.
proof fn lemma_queue_of_one(inputs: Seq<Option<LineInput>>, size: nat)
    requires
        inputs.len() == 1,
        inputs[0] is Some,
        size >= 1,
    ensures
        crate::ocr::text::batch::queue(inputs) == seq![0usize],
        crate::ocr::text::batch::chunks(crate::ocr::text::batch::queue(inputs), size) == seq![
            seq![0usize],
        ],
{
    assert(crate::ocr::text::batch::present(inputs, 0) =~= Seq::<usize>::empty());
    assert(crate::ocr::text::batch::present(inputs, 1) =~= seq![0usize]);
    let keys: Seq<(i64, i64)> = crate::ocr::text::batch::width_keys(inputs);
    let only: Seq<usize> = seq![0usize];
    assert(crate::order::is_stable_order(keys, only));
    crate::order::lemma_order_unique(keys, only, crate::order::stable_order_of(keys));
    assert(crate::ocr::text::batch::queue(inputs) =~= only);
}

/// The padded picture of a batch of one is the picture.
proof fn lemma_padded_one(inputs: Seq<Option<LineInput>>)
    requires
        inputs.len() == 1,
        inputs[0] is Some,
        inputs[0]->Some_0.wf(),
    ensures
        crate::ocr::text::batch::widest(inputs, seq![0usize]) == inputs[0]->Some_0.width,
        crate::ocr::text::batch::padded(
            inputs,
            seq![0usize],
            inputs[0]->Some_0.width as nat,
        ) == inputs[0]->Some_0.data@,
{
    let input: LineInput = inputs[0]->Some_0;
    let places: Seq<usize> = seq![0usize];
    let w: int = input.width as int;
    assert(places.drop_last() =~= Seq::<usize>::empty());
    assert(crate::ocr::text::batch::widest(inputs, places.drop_last()) == 0);
    let all: Seq<Single> = crate::ocr::text::batch::padded(inputs, places, w as nat);
    assert(all.len() == input.data@.len());
    assert forall|k: int| 0 <= k < all.len() implies all[k] == input.data@[k] by {
        lemma_fundamental_div_mod(k, w);
        lemma_div_pos_is_pos(k, w);
        let row: int = k / w;
        assert(row < 144) by (nonlinear_arith)
            requires
                k == w * row + k % w,
                k < 144 * w,
                0 <= k % w,
                w > 0,
        ;
        assert(row / 144 == 0 && row % 144 == row);
        assert(row * w + k % w == k) by (nonlinear_arith)
            requires
                k == w * row + k % w,
        ;
    }
    assert(all =~= input.data@);
}

/// A picture that is read alone is fed as it is in a batch of one, and where the model
/// answers alike, with a row for one picture, it is read alike: with the reading of its answer,
/// or, where it has no pixels, with no text and no confidence, and without being fed at all.
pub proof fn lemma_alone_as_in_batch(
    dict: Seq<Seq<char>>,
    image: RgbImage,
    inputs: Seq<Option<LineInput>>,
    size: nat,
    output: LineOutput,
)
    requires
        crate::ocr::text::line::is_prepared(seq![image], inputs),
        size >= 1,
        image.empty() || one_row(dict.len(), output),
    ensures
        ({
            let groups = crate::ocr::text::batch::chunks(
                crate::ocr::text::batch::queue(inputs),
                size,
            );
            let r = crate::ocr::text::recognition::with_batches(
                dict,
                1,
                groups,
                seq![output],
                groups.len(),
            );
            if image.empty() {
                &&& groups.len() == 0
                &&& r == seq![crate::ocr::text::recognition::unread()]
            } else {
                &&& groups == seq![seq![0usize]]
                &&& forall|batch: Batch, alone: LineInput| #[trigger]
                    crate::ocr::text::batch::is_batch(inputs, batch) && batch.members@ == groups[0]
                        && #[trigger] crate::ocr::text::line::is_line_input(image, alone)
                        ==> batch.width == alone.width && batch.data@ == alone.data@
                &&& r == seq![crate::ocr::text::recognition::single_reading(dict, output)]
            }
        }),
{
    assert(seq![image][0] == image);
    assert(inputs[0] is None <==> image.empty());
    if image.empty() {
        assert(crate::ocr::text::batch::present(inputs, 0) =~= Seq::<usize>::empty());
        assert(crate::ocr::text::batch::present(inputs, 1) =~= Seq::<usize>::empty());
        let keys: Seq<(i64, i64)> = crate::ocr::text::batch::width_keys(inputs);
        assert(keys.len() == 0);
        crate::order::lemma_stable_order(keys);
        assert(crate::ocr::text::batch::queue(inputs).len() == 0);
        assert(crate::ocr::text::recognition::with_batches(dict, 1, Seq::empty(), seq![output], 0)
            =~= seq![crate::ocr::text::recognition::unread()]);
    } else {
        lemma_queue_of_one(inputs, size);
        lemma_padded_one(inputs);
        lemma_only_row(dict, output);
        let groups: Seq<Seq<usize>> = seq![seq![0usize]];
        reveal_with_fuel(crate::ocr::text::recognition::with_members, 2);
        reveal_with_fuel(crate::ocr::text::recognition::with_batches, 2);
        assert(crate::ocr::text::recognition::with_batches(dict, 1, groups, seq![output], 1)
            =~= seq![crate::ocr::text::recognition::single_reading(dict, output)]);
    }
}

} // verus!
