//! What a line is read as: which steps show a character, and what the confidence is a mean of.
use crate::ocr::text::line::{
    best_ids, best_probs, decoded, shown_count, shown_sum, shown_text,
};
use crate::ocr::text::mean::{all_between, total};
use crate::single::Single;
use vstd::arithmetic::power2::*;
use vstd::prelude::*;

verus! {

/// The steps below `n` that show a character: those whose class is that of an entry, counted
/// from one, of a dictionary of `size` entries, and not the class of the step before.
pub open spec fn showing(ids: Seq<int>, size: nat, n: nat) -> Seq<int> {
    Seq::new(n, |k: int| k).filter(
        |k: int| 1 <= ids[k] <= size && (k > 0 ==> ids[k - 1] != ids[k]),
    )
}

/// The steps that show a character are listed in order, each once, and no others.
pub proof fn lemma_showing(ids: Seq<int>, size: nat, n: nat)
    ensures
        forall|k: int|
            0 <= k < n && 1 <= ids[k] <= size && (k > 0 ==> ids[k - 1] != ids[k])
                <==> #[trigger] showing(ids, size, n).contains(k),
        forall|i: int, j: int|
            0 <= i < j < showing(ids, size, n).len() ==> (#[trigger] showing(ids, size, n)[i]) < (
            #[trigger] showing(ids, size, n)[j]),
    decreases n,
{
    reveal(Seq::filter);
    let all: Seq<int> = Seq::new(n, |k: int| k);
    let keep = |k: int| 1 <= ids[k] <= size && (k > 0 ==> ids[k - 1] != ids[k]);
    let found: Seq<int> = showing(ids, size, n);
    if n > 0 {
        lemma_showing(ids, size, (n - 1) as nat);
        assert(all.drop_last() =~= Seq::new((n - 1) as nat, |k: int| k));
        let rest: Seq<int> = showing(ids, size, (n - 1) as nat);
        assert(found == (if keep(n - 1) {
            rest.push(n - 1)
        } else {
            rest
        }));
        assert forall|k: int| #[trigger] found.contains(k) implies rest.contains(k) || k == n - 1
            && keep(k) by {
            let i: int = choose|i: int| 0 <= i < found.len() && found[i] == k;
            if i < rest.len() {
                assert(rest[i] == k);
            }
        }
        assert forall|k: int| 0 <= k < n && keep(k) implies #[trigger] found.contains(k) by {
            if k < n - 1 {
                assert(rest.contains(k));
                let i: int = choose|i: int| 0 <= i < rest.len() && rest[i] == k;
                assert(found[i] == k);
            } else {
                assert(found[rest.len() as int] == k);
            }
        }
        assert forall|i: int, j: int| 0 <= i < j < found.len() implies (#[trigger] found[i]) < (
        #[trigger] found[j]) by {
            if j == rest.len() {
                assert(rest.contains(rest[i]));
            }
        }
    } else {
        assert(all.len() == 0);
        assert(found.len() == 0);
    }
}

/// The text of some steps is the entries of all steps that show a character, one after
/// another; as many are counted, and exactly their probabilities are added up.
pub proof fn lemma_shown(dict: Seq<Seq<char>>, ids: Seq<int>, probs: Seq<Single>, n: nat)
    requires
        n <= ids.len(),
        n <= probs.len(),
    ensures
        shown_text(dict, ids, n) == showing(ids, dict.len(), n).map_values(
            |k: int| dict[ids[k] - 1],
        ).flatten(),
        shown_count(dict.len(), ids, n) == showing(ids, dict.len(), n).len(),
        shown_sum(dict.len(), ids, probs, n) == total(
            showing(ids, dict.len(), n).map_values(|k: int| probs[k]),
        ),
    decreases n,
{
    reveal(Seq::filter);
    let size: nat = dict.len();
    let all: Seq<int> = Seq::new(n, |k: int| k);
    let keep = |k: int| 1 <= ids[k] <= size && (k > 0 ==> ids[k - 1] != ids[k]);
    let (entry, prob) = (|k: int| dict[ids[k] - 1], |k: int| probs[k]);
    let found: Seq<int> = showing(ids, size, n);
    if n > 0 {
        lemma_shown(dict, ids, probs, (n - 1) as nat);
        assert(all.drop_last() =~= Seq::new((n - 1) as nat, |k: int| k));
        let rest: Seq<int> = showing(ids, size, (n - 1) as nat);
        if keep(n - 1) {
            assert(found == rest.push(n - 1));
            let (entries, parts): (Seq<Seq<char>>, Seq<Single>) = (
                rest.map_values(entry),
                rest.map_values(prob),
            );
            assert(found.map_values(entry) =~= entries.push(dict[ids[n - 1] - 1]));
            entries.lemma_flatten_push(dict[ids[n - 1] - 1]);
            assert(found.map_values(prob) =~= parts.push(probs[n - 1]));
            assert(parts.push(probs[n - 1]).drop_last() =~= parts);
        } else {
            assert(found == rest);
        }
    } else {
        assert(found.len() == 0);
        assert(found.map_values(entry) =~= Seq::<Seq<char>>::empty());
        assert(found.map_values(prob) =~= Seq::<Single>::empty());
    }
}

/// The confidence is the mean of the probabilities of all characters shown: where these lie
/// between two bounds, so does it, up to one part in `2^23` for each of them, and one unit.
/// It is zero where no character is shown. As many steps count as there are both classes and
/// probabilities for.
pub proof fn lemma_confidence(
    dict: Seq<Seq<char>>,
    ids: Seq<int>,
    probs: Seq<Single>,
    n: nat,
    low: int,
    high: int,
)
    requires
        n <= ids.len(),
        n <= probs.len(),
        n == ids.len() || n == probs.len(),
        showing(ids, dict.len(), n).len() <= 0x40_0000,
        forall|k: int| #[trigger]
            showing(ids, dict.len(), n).contains(k) ==> probs[k].finite() && low
                <= probs[k].units() <= high,
        0 <= low <= high <= pow2(64 + 149),
    ensures
        ({
            let count = showing(ids, dict.len(), n).len() as int;
            let c = decoded(dict, ids, probs).1;
            &&& c.finite()
            &&& count == 0 ==> c.bits == 0
            &&& count > 0 ==> 0x80_0000 * c.units() <= high * (0x80_0000 + count + 1) + 0x80_0000
            &&& count > 0 ==> 0x80_0000 * c.units() + 0x80_0000 >= low * (0x80_0000 - count - 1)
            // the mean itself
            &&& count > 0 ==> c == Single::quotient(
                total(showing(ids, dict.len(), n).map_values(|k: int| probs[k])),
                Single::whole(count),
            )
        }),
{
    let found: Seq<int> = showing(ids, dict.len(), n);
    lemma_shown(dict, ids, probs, n);
    let values: Seq<Single> = found.map_values(|k: int| probs[k]);
    assert forall|i: int| 0 <= i < values.len() implies (#[trigger] values[i]).finite() && low
        <= values[i].units() <= high by {
        assert(showing(ids, dict.len(), n).contains(found[i]));
        assert(values[i] == probs[found[i]]);
    }
    assert(all_between(values, low, high));
    assert((Single { bits: 0 }).finite());
    if found.len() > 0 {
        crate::ocr::text::mean::lemma_mean(values, low, high);
    }
}

/// The text that is read is the entries of the steps that show a character, and the steps
/// beyond the shorter of the two lists show nothing.
pub proof fn lemma_text_read(dict: Seq<Seq<char>>, ids: Seq<int>, probs: Seq<Single>)
    ensures
        ids.len() <= probs.len() ==> decoded(dict, ids, probs).0 == showing(
            ids,
            dict.len(),
            ids.len(),
        ).map_values(|k: int| dict[ids[k] - 1]).flatten(),
        probs.len() <= ids.len() ==> decoded(dict, ids, probs).0 == showing(
            ids,
            dict.len(),
            probs.len(),
        ).map_values(|k: int| dict[ids[k] - 1]).flatten(),
{
    if ids.len() <= probs.len() {
        lemma_shown(dict, ids, probs, ids.len());
    }
    if probs.len() <= ids.len() {
        lemma_shown(dict, ids, probs, probs.len());
    }
}

/// At each step the class is the place of the largest of the values that the model gave for
/// it, the first of equals, and the probability is that value.
pub proof fn lemma_likeliest(logits: Seq<Single>, steps: int, classes: int, i: int)
    requires
        0 <= i < steps,
        classes >= 0,
        steps * classes <= logits.len(),
    ensures
        ({
            let at = i * classes;
            let (id, prob) = (
                best_ids(logits, steps, classes)[i],
                best_probs(logits, steps, classes)[i],
            );
            &&& best_ids(logits, steps, classes).len() == steps
            &&& best_probs(logits, steps, classes).len() == steps
            &&& forall|c: int| 0 <= c < classes ==> !prob.below(#[trigger] logits[at + c])
            &&& prob.bits == crate::single::NEG_INFINITY && id == 0 || {
                &&& 0 <= id < classes
                &&& prob == logits[at + id]
                &&& forall|c: int|
                    0 <= c < id && !(#[trigger] logits[at + c]).nan() ==> logits[at + c].below(prob)
            }
        }),
{
    let at: int = i * classes;
    assert(0 <= at && at + classes <= steps * classes) by (nonlinear_arith)
        requires
            at == i * classes,
            0 <= i < steps,
            classes >= 0,
    ;
    let row: Seq<Single> = logits.subrange(at, at + classes);
    crate::ocr::text::line::lemma_best(row);
    let prob: Single = best_probs(logits, steps, classes)[i];
    assert forall|c: int| 0 <= c < classes implies !prob.below(#[trigger] logits[at + c]) by {
        assert(row[c] == logits[at + c]);
    }
    let id: int = best_ids(logits, steps, classes)[i];
    assert forall|c: int|
        0 <= c < id && id < classes && !(#[trigger] logits[at + c]).nan() && !(prob.bits
            == crate::single::NEG_INFINITY && id == 0) implies logits[at + c].below(prob) by {
        assert(row[c] == logits[at + c]);
    }
}

} // verus!
