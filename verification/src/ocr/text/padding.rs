//! Where the numbers of a picture stand in a batch and its answer in the batch's answer.
use crate::ocr::text::batch::{padded, widest};
use crate::ocr::text::line::{best, decoded, LineInput};
use crate::ocr::text::recognition::{row_reading, LineOutput};
use crate::single::Single;
use vstd::prelude::*;

verus! {

/// A batch is as wide as the widest of its pictures.
pub proof fn lemma_widest(inputs: Seq<Option<LineInput>>, places: Seq<usize>)
    ensures
        forall|m: int|
            0 <= m < places.len() ==> inputs[#[trigger] places[m] as int]->Some_0.width <= widest(
                inputs,
                places,
            ),
        places.len() > 0 ==> exists|m: int|
            0 <= m < places.len() && inputs[#[trigger] places[m] as int]->Some_0.width == widest(
                inputs,
                places,
            ),
        places.len() == 0 ==> widest(inputs, places) == 0,
    decreases places.len(),
{
    if places.len() > 0 {
        let rest: Seq<usize> = places.drop_last();
        lemma_widest(inputs, rest);
        assert forall|m: int| 0 <= m < places.len() implies inputs[
            #[trigger] places[m] as int
        ]->Some_0.width <= widest(inputs, places) by {
            if m < rest.len() {
                assert(rest[m] == places[m]);
            }
        }
        let width: nat = inputs[places.last() as int]->Some_0.width as nat;
        if width > widest(inputs, rest) || rest.len() == 0 {
            assert(places[places.len() - 1] == places.last());
        } else {
            let m: int = choose|m: int|
                0 <= m < rest.len() && inputs[#[trigger] rest[m] as int]->Some_0.width == widest(
                    inputs,
                    rest,
                );
            assert(places[m] == rest[m]);
        }
    }
}

/// Row `row` of the three planes of picture `m` of a batch holds that row of the picture, and
/// zeros where the picture is not as wide as the batch.
pub proof fn lemma_padded(
    inputs: Seq<Option<LineInput>>,
    places: Seq<usize>,
    width: nat,
    m: int,
    row: int,
    column: int,
)
    requires
        0 <= m < places.len(),
        0 <= row < 144,
        0 <= column < width,
    ensures
        ({
            let input = inputs[places[m] as int]->Some_0;
            let all = padded(inputs, places, width);
            let at = (m * 144 + row) * width + column;
            &&& all.len() == places.len() * 144 * width
            &&& 0 <= at < all.len()
            &&& column < input.width ==> all[at] == input.data@[row * input.width + column]
            &&& column >= input.width ==> all[at].bits == 0
        }),
{
    let (w, n): (int, int) = (width as int, places.len() as int);
    let line: int = m * 144 + row;
    let at: int = line * w + column;
    assert(0 <= at && at < (n * 144) * w) by (nonlinear_arith)
        requires
            at == line * w + column,
            0 <= line < n * 144,
            0 <= column < w,
    ;
    vstd::arithmetic::div_mod::lemma_fundamental_div_mod_converse(at, w, line, column);
    vstd::arithmetic::div_mod::lemma_fundamental_div_mod_converse(line, 144, m, row);
}

/// Picture `m` of a batch reads what its own steps say: steps `m * steps` to `m * steps + steps`
/// of a compact answer.
pub proof fn lemma_compact_row(
    dict: Seq<Seq<char>>,
    steps: usize,
    ids: Vec<i64>,
    probs: Vec<Single>,
    m: int,
)
    requires
        m >= 0,
        (m + 1) * steps <= ids@.len(),
        (m + 1) * steps <= probs@.len(),
    ensures
        row_reading(dict, LineOutput::Compact { steps, ids, probs }, m) == decoded(
            dict,
            Seq::new(steps as nat, |j: int| ids@[m * steps + j] as int),
            Seq::new(steps as nat, |j: int| probs@[m * steps + j]),
        ),
{
    let n: int = steps as int;
    assert((m + 1) * n == m * n + n && m * n >= 0) by (nonlinear_arith)
        requires
            m >= 0,
            n >= 0,
    ;
    let from: int = m * steps;
    assert(crate::ocr::text::line::whole_ids(ids@.subrange(from, from + steps)) =~= Seq::new(
        steps as nat,
        |j: int| ids@[m * steps + j] as int,
    ));
    assert(probs@.subrange(from, from + steps) =~= Seq::new(
        steps as nat,
        |j: int| probs@[m * steps + j],
    ));
}

/// Picture `m` of a batch reads what its own steps say: of each step in a full answer the class
/// with the largest value, and that value.
pub proof fn lemma_full_row(
    dict: Seq<Seq<char>>,
    steps: usize,
    classes: usize,
    logits: Vec<Single>,
    m: int,
)
    requires
        m >= 0,
        (m + 1) * (steps * classes) <= logits@.len(),
    ensures
        ({
            let row = |j: int|
                Seq::new(classes as nat, |c: int| logits@[(m * steps + j) * classes + c]);
            row_reading(dict, LineOutput::Full { steps, classes, logits }, m) == decoded(
                dict,
                Seq::new(steps as nat, |j: int| best(row(j)).0),
                Seq::new(steps as nat, |j: int| best(row(j)).1),
            )
        }),
{
    let (s, k): (int, int) = (steps as int, classes as int);
    let size: int = s * k;
    assert(size >= 0 && m * size >= 0 && (m + 1) * size == m * size + size) by (nonlinear_arith)
        requires
            size == s * k,
            s >= 0,
            k >= 0,
            m >= 0,
    ;
    let row = |j: int| Seq::new(classes as nat, |c: int| logits@[(m * steps + j) * classes + c]);
    let part: Seq<Single> = logits@.subrange(m * size, m * size + size);
    assert forall|j: int| 0 <= j < s implies part.subrange(j * k, j * k + k) == #[trigger] row(j) by {
        assert(0 <= j * k && j * k + k <= size) by (nonlinear_arith)
            requires
                0 <= j < s,
                k >= 0,
                size == s * k,
        ;
        assert((m * s + j) * k == m * size + j * k) by (nonlinear_arith)
            requires
                size == s * k,
        ;
        assert(part.subrange(j * k, j * k + k) =~= row(j));
    }
    assert(crate::ocr::text::line::best_ids(part, s, k) =~= Seq::new(
        steps as nat,
        |j: int| best(row(j)).0,
    ));
    assert(crate::ocr::text::line::best_probs(part, s, k) =~= Seq::new(
        steps as nat,
        |j: int| best(row(j)).1,
    ));
}

} // verus!
