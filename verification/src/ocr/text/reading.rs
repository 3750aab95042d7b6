//! The order in which text lines are read: from top to bottom, and from left to right
//! where lines stand on nearly the same baseline.
use crate::ocr::text::detection::TextLine;
use crate::single::Single;
use vstd::prelude::*;

verus! {

/// The bit pattern of ten: lines whose tops are closer than this share a baseline.
pub const SAME_BASELINE: u32 = 0x4120_0000;

/// The keys by which lines are sorted: first by their top, then by their left.
pub open spec fn line_keys(lines: Seq<TextLine>) -> Seq<(i64, i64)> {
    lines.map_values(|l: TextLine| (l.bbox[1].key() as i64, l.bbox[0].key() as i64))
}

/// The lines by their top, then by their left.
pub open spec fn sorted_lines(lines: Seq<TextLine>) -> Seq<TextLine> {
    crate::order::stable_order_of(line_keys(lines)).map_values(|i: usize| lines[i as int])
}

/// The two lines, one below the other in the list, share a baseline and stand in the
/// wrong order.
pub open spec fn reversed(upper: TextLine, lower: TextLine) -> bool {
    &&& Single::difference(lower.bbox[1], upper.bbox[1]).unsigned().below(
        Single { bits: SAME_BASELINE },
    )
    &&& lower.bbox[0].below(upper.bbox[0])
}

/// The list with the entries `j` and `j + 1` exchanged.
pub open spec fn exchanged(lines: Seq<TextLine>, j: int) -> Seq<TextLine> {
    lines.update(j, lines[j + 1]).update(j + 1, lines[j])
}

/// The list after entry `j + 1` moved up as long as it and the one above are reversed.
pub open spec fn raised(lines: Seq<TextLine>, j: int) -> Seq<TextLine>
    decreases j + 1,
{
    if 0 <= j && reversed(lines[j], lines[j + 1]) {
        raised(exchanged(lines, j), j - 1)
    } else {
        lines
    }
}

/// The list after the entries `1` to `n` moved up one by one.
pub open spec fn settled_lines(lines: Seq<TextLine>, n: nat) -> Seq<TextLine>
    decreases n,
{
    if n == 0 {
        lines
    } else {
        raised(settled_lines(lines, (n - 1) as nat), n - 1)
    }
}

/// The lines in reading order.
pub open spec fn in_reading_order(lines: Seq<TextLine>) -> Seq<TextLine> {
    if lines.len() == 0 {
        lines
    } else {
        settled_lines(sorted_lines(lines), (lines.len() - 1) as nat)
    }
}

/// The tops and lefts of the lines are numbers.
pub open spec fn sortable(lines: Seq<TextLine>) -> bool {
    lines.len() >= 2 ==> forall|i: int|
        0 <= i < lines.len() ==> !(#[trigger] lines[i]).bbox[1].nan() && !lines[i].bbox[0].nan()
}

proof fn lemma_exchanged(lines: Seq<TextLine>, j: int)
    requires
        0 <= j,
        j + 1 < lines.len(),
    ensures
        exchanged(lines, j).len() == lines.len(),
        exchanged(lines, j).to_multiset() == lines.to_multiset(),
{
    broadcast use vstd::seq_lib::group_to_multiset_ensures;

    let (a, b) = (lines[j], lines[j + 1]);
    let once: Seq<TextLine> = lines.update(j, b);
    assert(once.to_multiset() =~= lines.to_multiset().insert(b).remove(a));
    assert(exchanged(lines, j).to_multiset() =~= once.to_multiset().insert(a).remove(b));
    assert(exchanged(lines, j).to_multiset() =~= lines.to_multiset());
}

/// Moving an entry up keeps the entries.
proof fn lemma_raised(lines: Seq<TextLine>, j: int)
    requires
        j + 1 < lines.len(),
    ensures
        raised(lines, j).len() == lines.len(),
        raised(lines, j).to_multiset() == lines.to_multiset(),
        forall|k: int| j + 1 < k < lines.len() ==> #[trigger] raised(lines, j)[k] == lines[k],
    decreases j + 1,
{
    if 0 <= j && reversed(lines[j], lines[j + 1]) {
        lemma_exchanged(lines, j);
        lemma_raised(exchanged(lines, j), j - 1);
    }
}

/// The first `n` neighbours of the list stand in the right order.
pub open spec fn ordered_to(lines: Seq<TextLine>, n: int) -> bool {
    forall|k: int| 0 <= k < n ==> !#[trigger] reversed(lines[k], lines[k + 1])
}

/// Moving an entry up puts it in order with its new neighbours.
proof fn lemma_raised_ordered(lines: Seq<TextLine>, j: int, top: int)
    requires
        -1 <= j <= top,
        top + 1 < lines.len(),
        forall|k: int|
            0 <= k < top && k != j ==> !#[trigger] reversed(lines[k], lines[k + 1]),
        j < top ==> !reversed(lines[j + 1], lines[j + 2]),
        j < top ==> (0 <= j ==> !reversed(lines[j], lines[j + 2])),
        forall|k: int| j < k <= top ==> !#[trigger] reversed(lines[k], lines[k + 1]),
    ensures
        ordered_to(raised(lines, j), top + 1),
    decreases j + 1,
{
    if 0 <= j && reversed(lines[j], lines[j + 1]) {
        let next: Seq<TextLine> = exchanged(lines, j);
        let (a, b) = (lines[j], lines[j + 1]);
        assert(next[j] == b && next[j + 1] == a);
        // the raised entry lies left of the one it passed
        assert(b.bbox[0].below(a.bbox[0]));
        assert(!reversed(b, a));
        assert forall|k: int| j - 1 < k <= top implies !#[trigger] reversed(
            next[k],
            next[k + 1],
        ) by {
            if k == j {
            } else if k == j + 1 {
                assert(next[k + 1] == lines[j + 2]);
            } else {
                assert(reversed(lines[k], lines[k + 1]) == reversed(next[k], next[k + 1]));
            }
        }
        assert forall|k: int| 0 <= k < top && k != j - 1 implies !#[trigger] reversed(
            next[k],
            next[k + 1],
        ) by {
            if k < j - 1 {
                assert(reversed(lines[k], lines[k + 1]) == reversed(next[k], next[k + 1]));
            }
        }
        if 0 <= j - 1 {
            let k: int = j - 1;
            assert(!reversed(lines[k], lines[k + 1]));
            assert(next[j - 1] == lines[j - 1] && next[j + 1] == lines[j]);
        }
        lemma_raised_ordered(next, j - 1, top);
    } else {
        assert forall|k: int| 0 <= k < top + 1 implies !#[trigger] reversed(
            lines[k],
            lines[k + 1],
        ) by {
        }
    }
}

proof fn lemma_settled_lines(lines: Seq<TextLine>, n: nat)
    requires
        n < lines.len(),
    ensures
        settled_lines(lines, n).len() == lines.len(),
        settled_lines(lines, n).to_multiset() == lines.to_multiset(),
        ordered_to(settled_lines(lines, n), n as int),
    decreases n,
{
    if n > 0 {
        let rest: Seq<TextLine> = settled_lines(lines, (n - 1) as nat);
        lemma_settled_lines(lines, (n - 1) as nat);
        lemma_raised(rest, n - 1);
        lemma_raised_ordered(rest, n - 1, n - 1);
    }
}

/// The first line is not below the second, or they share a baseline.
pub open spec fn may_precede(first: TextLine, second: TextLine) -> bool {
    ||| first.bbox[1].at_most(second.bbox[1])
    ||| Single::difference(first.bbox[1], second.bbox[1]).unsigned().below(
        Single { bits: SAME_BASELINE },
    )
}

/// No line comes before one that is above it, unless they share a baseline.
pub open spec fn downward(lines: Seq<TextLine>) -> bool {
    forall|i: int, j: int|
        0 <= i < j < lines.len() ==> #[trigger] may_precede(lines[i], lines[j])
}

/// Exchanging two neighbours that share a baseline puts no line before one above it.
proof fn lemma_exchanged_downward(lines: Seq<TextLine>, j: int)
    requires
        downward(lines),
        0 <= j,
        j + 1 < lines.len(),
        reversed(lines[j], lines[j + 1]),
    ensures
        downward(exchanged(lines, j)),
{
    let next: Seq<TextLine> = exchanged(lines, j);
    assert forall|i: int, k: int| 0 <= i < k < next.len() implies #[trigger] may_precede(
        next[i],
        next[k],
    ) by {
        let from = |n: int|
            if n == j {
                j + 1
            } else if n == j + 1 {
                j
            } else {
                n
            };
        if !(i == j && k == j + 1) {
            assert(next[i] == lines[from(i)] && next[k] == lines[from(k)]);
            assert(may_precede(lines[from(i)], lines[from(k)]));
        }
    }
}

proof fn lemma_raised_downward(lines: Seq<TextLine>, j: int)
    requires
        downward(lines),
        j + 1 < lines.len(),
    ensures
        downward(raised(lines, j)),
    decreases j + 1,
{
    if 0 <= j && reversed(lines[j], lines[j + 1]) {
        lemma_exchanged_downward(lines, j);
        lemma_raised_downward(exchanged(lines, j), j - 1);
    }
}

proof fn lemma_settled_downward(lines: Seq<TextLine>, n: nat)
    requires
        downward(lines),
        n < lines.len(),
    ensures
        downward(settled_lines(lines, n)),
    decreases n,
{
    if n > 0 {
        lemma_settled_lines(lines, (n - 1) as nat);
        lemma_settled_downward(lines, (n - 1) as nat);
        lemma_raised_downward(settled_lines(lines, (n - 1) as nat), n - 1);
    }
}

/// Sorting by top puts no line before one above it.
proof fn lemma_sorted_downward(lines: Seq<TextLine>)
    requires
        sortable(lines),
        crate::order::is_stable_order(
            line_keys(lines),
            crate::order::stable_order_of(line_keys(lines)),
        ),
    ensures
        downward(sorted_lines(lines)),
{
    let keys: Seq<(i64, i64)> = line_keys(lines);
    let order: Seq<usize> = crate::order::stable_order_of(keys);
    let sorted: Seq<TextLine> = sorted_lines(lines);
    assert forall|i: int, j: int| 0 <= i < j < sorted.len() implies #[trigger] may_precede(
        sorted[i],
        sorted[j],
    ) by {
        assert(crate::order::precedes(keys, order[i] as int, order[j] as int));
        let (a, b): (TextLine, TextLine) = (lines[order[i] as int], lines[order[j] as int]);
        assert(sorted[i] == a && sorted[j] == b);
        Single::lemma_key_orders(a.bbox[1], b.bbox[1]);
        Single::lemma_key_orders(b.bbox[1], a.bbox[1]);
    }
}

/// In reading order the lines are the same, no line comes before one that is above it unless
/// they share a baseline, and no two neighbours on one baseline stand in the wrong order.
pub proof fn lemma_in_reading_order(lines: Seq<TextLine>)
    requires
        sortable(lines),
        lines.len() <= usize::MAX,
    ensures
        in_reading_order(lines).to_multiset() == lines.to_multiset(),
        downward(in_reading_order(lines)),
        ordered_to(in_reading_order(lines), in_reading_order(lines).len() - 1),
{
    if lines.len() < 2 {
        lemma_short(lines);
    } else {
        crate::order::lemma_stable_order(line_keys(lines));
        lemma_sorted_lines(lines);
        lemma_sorted_downward(lines);
        let n: nat = (lines.len() - 1) as nat;
        lemma_settled_lines(sorted_lines(lines), n);
        lemma_settled_downward(sorted_lines(lines), n);
    }
}

/// Sorts text lines into reading order.
///
/// The lines stay the same, no line comes before one that is above it unless they share a
/// baseline, and no two neighbours on one baseline stand in the wrong order.
pub fn sort_reading_order(lines: &mut Vec<TextLine>)
    requires
        sortable(old(lines)@),
    ensures
        final(lines)@ == in_reading_order(old(lines)@),
        final(lines)@.to_multiset() == old(lines)@.to_multiset(),
        downward(final(lines)@),
        ordered_to(final(lines)@, final(lines)@.len() - 1),
{
    let ghost before: Seq<TextLine> = lines@;
    proof {
        assert(lines.len() <= usize::MAX);
        lemma_in_reading_order(before);
    }
    if lines.len() < 2 {
        proof {
            lemma_short(before);
        }
        return;
    }
    let mut keys: Vec<(i64, i64)> = Vec::new();
    let mut i: usize = 0;
    while i < lines.len()
        invariant
            i <= lines.len(),
            lines@ == before,
            before.len() >= 2,
            sortable(before),
            keys@ =~= line_keys(before).take(i as int),
        decreases lines.len() - i,
    {
        keys.push((lines[i].bbox[1].order_key(), lines[i].bbox[0].order_key()));
        i = i + 1;
    }
    assert(keys@ =~= line_keys(before));
    let order: Vec<usize> = crate::order::stable_order(&keys);
    let mut sorted: Vec<TextLine> = Vec::new();
    let mut k: usize = 0;
    while k < order.len()
        invariant
            k <= order.len(),
            lines@ == before,
            crate::order::is_stable_order(line_keys(before), order@),
            order@ == crate::order::stable_order_of(line_keys(before)),
            sorted@ =~= sorted_lines(before).take(k as int),
        decreases order.len() - k,
    {
        sorted.push(lines[order[k]]);
        k = k + 1;
    }
    assert(sorted@ =~= sorted_lines(before));
    proof {
        lemma_sorted_lines(before);
        lemma_settled_lines(sorted_lines(before), (before.len() - 1) as nat);
    }
    let n: usize = sorted.len() - 1;
    let mut i: usize = 0;
    while i < n
        invariant
            i <= n,
            n + 1 == sorted.len(),
            sorted.len() == before.len(),
            sorted_lines(before).len() == before.len(),
            sorted@ == settled_lines(sorted_lines(before), i as nat),
        decreases n - i,
    {
        raise(&mut sorted, i);
        i = i + 1;
    }
    *lines = sorted;
}

/// Moves entry `at + 1` up as long as it and the one above are reversed.
fn raise(lines: &mut Vec<TextLine>, at: usize)
    requires
        at + 1 < old(lines).len(),
    ensures
        final(lines)@ == raised(old(lines)@, at as int),
        final(lines).len() == old(lines).len(),
{
    let ghost target: Seq<TextLine> = raised(lines@, at as int);
    proof {
        lemma_raised(lines@, at as int);
    }
    let mut j: usize = at + 1;
    while j > 0 && lines[j].bbox[1].minus(lines[j - 1].bbox[1]).abs().lt(
        Single::from_bits(SAME_BASELINE),
    ) && lines[j].bbox[0].lt(lines[j - 1].bbox[0])
        invariant
            j < lines.len(),
            raised(lines@, j - 1) == target,
        ensures
            lines@ == target,
        decreases j,
    {
        let ghost before: Seq<TextLine> = lines@;
        let (upper, lower) = (lines[j - 1], lines[j]);
        lines.set(j - 1, lower);
        lines.set(j, upper);
        assert(lines@ =~= exchanged(before, j - 1));
        j = j - 1;
    }
}

proof fn lemma_short(lines: Seq<TextLine>)
    requires
        lines.len() < 2,
    ensures
        in_reading_order(lines) == lines,
{
    if lines.len() == 1 {
        let keys: Seq<(i64, i64)> = line_keys(lines);
        let only: Seq<usize> = seq![0usize];
        assert(crate::order::is_stable_order(keys, only));
        crate::order::lemma_order_unique(keys, only, crate::order::stable_order_of(keys));
        assert(sorted_lines(lines) =~= lines);
    }
}

/// Sorting keeps the lines.
proof fn lemma_sorted_lines(lines: Seq<TextLine>)
    requires
        exists|order: Seq<usize>| crate::order::is_stable_order(line_keys(lines), order),
    ensures
        sorted_lines(lines).len() == lines.len(),
        sorted_lines(lines).to_multiset() == lines.to_multiset(),
{
    let keys: Seq<(i64, i64)> = line_keys(lines);
    let order: Seq<usize> = crate::order::stable_order_of(keys);
    assert(crate::order::is_stable_order(keys, order));
    crate::order::lemma_order_multiset(keys, order, lines);
}

} // verus!
