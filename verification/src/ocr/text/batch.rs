//! Grouping the pictures of lines for the reading model.
//!
//! Pictures go in order of their width, so that those fed together need little padding.
use crate::ocr::text::line::LineInput;
use crate::single::Single;
use vstd::arithmetic::div_mod::*;
use vstd::prelude::*;

verus! {

/// The places of the pictures that have pixels, among the first `n`.
pub open spec fn present(inputs: Seq<Option<LineInput>>, n: nat) -> Seq<usize>
    decreases n,
{
    if n == 0 {
        Seq::empty()
    } else {
        let rest = present(inputs, (n - 1) as nat);
        if inputs[n - 1] is Some {
            rest.push((n - 1) as usize)
        } else {
            rest
        }
    }
}

/// The keys by which pictures are sorted: their widths.
pub open spec fn width_keys(inputs: Seq<Option<LineInput>>) -> Seq<(i64, i64)> {
    present(inputs, inputs.len()).map_values(
        |i: usize| (inputs[i as int]->Some_0.width as i64, 0i64),
    )
}

/// The places of the pictures that have pixels, by width, the first of equals first.
pub open spec fn queue(inputs: Seq<Option<LineInput>>) -> Seq<usize> {
    crate::order::stable_order_of(width_keys(inputs)).map_values(
        |k: usize| present(inputs, inputs.len())[k as int],
    )
}

/// The sequence in pieces of `size`; the last may be shorter.
pub open spec fn chunks(s: Seq<usize>, size: nat) -> Seq<Seq<usize>>
    decreases s.len(),
{
    if s.len() == 0 || size == 0 {
        Seq::empty()
    } else if s.len() <= size {
        seq![s]
    } else {
        seq![s.take(size as int)] + chunks(s.skip(size as int), size)
    }
}

/// The greatest width of the pictures at some places.
pub open spec fn widest(inputs: Seq<Option<LineInput>>, places: Seq<usize>) -> nat
    decreases places.len(),
{
    if places.len() == 0 {
        0
    } else {
        let rest = widest(inputs, places.drop_last());
        let width = inputs[places.last() as int]->Some_0.width as nat;
        if width > rest {
            width
        } else {
            rest
        }
    }
}

/// The number in column `column` of row `row` of a picture, zero beyond its width. The rows
/// of its three planes are counted through.
pub open spec fn cell(input: LineInput, row: int, column: int) -> Single {
    if column < input.width {
        input.data@[row * input.width + column]
    } else {
        Single { bits: 0 }
    }
}

/// The pictures at some places one after another, each padded with zeros to `width`.
pub open spec fn padded(inputs: Seq<Option<LineInput>>, places: Seq<usize>, width: nat) -> Seq<
    Single,
> {
    Seq::new(
        places.len() * 144 * width,
        |k: int|
            {
                let row = k / width as int;
                cell(inputs[places[row / 144] as int]->Some_0, row % 144, k % width as int)
            },
    )
}

/// Pictures that are fed together.
#[derive(Debug)]
pub struct Batch {
    /// The places of the pictures.
    pub members: Vec<usize>,
    /// The width that all of them are padded to.
    pub width: usize,
    /// Three planes of 48 rows for each.
    pub data: Vec<Single>,
}

/// Every picture that has pixels is as the model needs it.
pub open spec fn well_formed(inputs: Seq<Option<LineInput>>) -> bool {
    forall|i: int|
        0 <= i < inputs.len() ==> (#[trigger] inputs[i] matches Some(input) ==> input.wf())
}

/// The batch holds the padded pictures of its members.
pub open spec fn is_batch(inputs: Seq<Option<LineInput>>, batch: Batch) -> bool {
    &&& batch.width == widest(inputs, batch.members@)
    &&& batch.data@ == padded(inputs, batch.members@, batch.width as nat)
}

/// The places that occur have pictures.
proof fn lemma_present(inputs: Seq<Option<LineInput>>, n: nat)
    requires
        n <= inputs.len() <= usize::MAX,
    ensures
        present(inputs, n).len() <= n,
        present(inputs, n).no_duplicates(),
        forall|k: int|
            0 <= k < present(inputs, n).len() ==> 0 <= #[trigger] present(inputs, n)[k] < n
                && inputs[present(inputs, n)[k] as int] is Some,
        forall|i: usize| i < n && inputs[i as int] is Some ==> present(inputs, n).contains(i),
    decreases n,
{
    if n > 0 {
        lemma_present(inputs, (n - 1) as nat);
        let rest: Seq<usize> = present(inputs, (n - 1) as nat);
        assert forall|i: usize| i < n && inputs[i as int] is Some implies present(
            inputs,
            n,
        ).contains(i) by {
            if i < n - 1 {
                assert(rest.contains(i));
                let k: int = choose|k: int| 0 <= k < rest.len() && rest[k] == i;
                assert(present(inputs, n)[k] == i);
            } else {
                assert(present(inputs, n)[rest.len() as int] == i);
            }
        }
    }
}

/// The queue lists every picture that has pixels once, and wider ones later.
pub proof fn lemma_queue(inputs: Seq<Option<LineInput>>)
    requires
        well_formed(inputs),
        inputs.len() <= usize::MAX,
    ensures
        queue(inputs).to_multiset() == present(inputs, inputs.len()).to_multiset(),
        queue(inputs).len() == present(inputs, inputs.len()).len(),
        forall|i: usize|
            i < inputs.len() && inputs[i as int] is Some <==> #[trigger] queue(inputs).contains(i),
        queue(inputs).no_duplicates(),
        forall|j: int, k: int|
            0 <= j < k < queue(inputs).len() ==> inputs[#[trigger] queue(
                inputs,
            )[j] as int]->Some_0.width <= inputs[#[trigger] queue(
                inputs,
            )[k] as int]->Some_0.width,
{
    broadcast use vstd::seq_lib::group_to_multiset_ensures;

    let all: Seq<usize> = present(inputs, inputs.len());
    let keys: Seq<(i64, i64)> = width_keys(inputs);
    let order: Seq<usize> = crate::order::stable_order_of(keys);
    lemma_present(inputs, inputs.len());
    crate::order::lemma_stable_order(keys);
    crate::order::lemma_order_multiset(keys, order, all);
    let line: Seq<usize> = queue(inputs);
    assert(line =~= order.map_values(|i: usize| all[i as int]));
    assert forall|j: int, k: int| 0 <= j < k < line.len() implies inputs[#[trigger] line[j] as int]->Some_0.width
        <= inputs[#[trigger] line[k] as int]->Some_0.width by {
        assert(crate::order::precedes(keys, order[j] as int, order[k] as int));
        let (a, b) = (all[order[j] as int], all[order[k] as int]);
        assert(inputs[a as int]->Some_0.wf() && inputs[b as int]->Some_0.wf());
    }
    assert forall|i: usize| i < inputs.len() && inputs[i as int] is Some
        <==> #[trigger] line.contains(i) by {
        if line.contains(i) {
            let k: int = choose|k: int| 0 <= k < line.len() && line[k] == i;
            assert(all[order[k] as int] == i);
        }
        if i < inputs.len() && inputs[i as int] is Some {
            assert(all.contains(i));
            let p: int = choose|p: int| 0 <= p < all.len() && all[p] == i;
            crate::order::lemma_order_complete(keys, order, p as usize);
            let k: int = choose|k: int| 0 <= k < order.len() && order[k] == p as usize;
            assert(line[k] == i);
        }
    }
    assert forall|j: int, k: int|
        0 <= j < line.len() && 0 <= k < line.len() && j != k implies line[j] != line[k] by {
        if j < k {
            assert(crate::order::precedes(keys, order[j] as int, order[k] as int));
        } else {
            assert(crate::order::precedes(keys, order[k] as int, order[j] as int));
        }
    }
}

/// How many pieces of at most `size` entries `n` entries make, and one more for `size` more.
proof fn lemma_chunk_count(n: nat, size: nat)
    requires
        size > 0,
    ensures
        n == 0 ==> (n + size - 1) / size as int == 0,
        0 < n <= size ==> (n + size - 1) / size as int == 1,
        n > size ==> (n + size - 1) / size as int == (n - size + size - 1) / size as int + 1,
{
    let z: int = size as int;
    if n == 0 {
        vstd::arithmetic::div_mod::lemma_basic_div(z - 1, z);
    } else if n <= size {
        vstd::arithmetic::div_mod::lemma_fundamental_div_mod_converse(n + z - 1, z, 1, n - 1);
    } else {
        vstd::arithmetic::div_mod::lemma_div_plus_one(n - 1, z);
    }
}

/// The pieces of a sequence are not empty, hold at most `size` entries, are as few as that
/// allows, and put together are the sequence.
pub proof fn lemma_chunks(s: Seq<usize>, size: nat)
    requires
        size > 0,
    ensures
        forall|k: int|
            0 <= k < chunks(s, size).len() ==> 1 <= (#[trigger] chunks(s, size)[k]).len() <= size,
        chunks(s, size).flatten() == s,
        chunks(s, size).len() == (s.len() + size - 1) / size as int,
    decreases s.len(),
{
    lemma_chunk_count(s.len(), size);
    let all: Seq<Seq<usize>> = chunks(s, size);
    if s.len() == 0 {
        assert(all.flatten() =~= s);
    } else if s.len() <= size {
        seq![s].lemma_flatten_one_element();
    } else {
        let rest: Seq<Seq<usize>> = chunks(s.skip(size as int), size);
        lemma_chunks(s.skip(size as int), size);
        assert(all.drop_first() =~= rest);
        assert forall|k: int| 0 <= k < all.len() implies 1 <= (#[trigger] all[k]).len()
            <= size by {
            if k > 0 {
                assert(all[k] == rest[k - 1]);
            }
        }
        assert(all.flatten() =~= all.first() + rest.flatten());
        assert(s =~= s.take(size as int) + s.skip(size as int));
    }
}

/// The places of the pictures that have pixels, by width.
fn queue_up(inputs: &Vec<Option<LineInput>>) -> (r: Vec<usize>)
    requires
        well_formed(inputs@),
    ensures
        r@ == queue(inputs@),
        forall|k: int|
            0 <= k < r@.len() ==> (#[trigger] r@[k]) < inputs@.len() && inputs@[r@[k] as int]
                is Some,
{
    let mut all: Vec<usize> = Vec::new();
    let mut keys: Vec<(i64, i64)> = Vec::new();
    let mut i: usize = 0;
    while i < inputs.len()
        invariant
            i <= inputs.len(),
            well_formed(inputs@),
            all@ == present(inputs@, i as nat),
            keys@ =~= all@.map_values(|i: usize| (inputs@[i as int]->Some_0.width as i64, 0i64)),
        decreases inputs.len() - i,
    {
        match &inputs[i] {
            Some(input) => {
                assert(inputs@[i as int]->Some_0.wf());
                all.push(i);
                keys.push((input.width as i64, 0));
            },
            None => {},
        }
        i = i + 1;
    }
    proof {
        lemma_present(inputs@, inputs@.len());
    }
    assert(keys@ =~= width_keys(inputs@));
    let order: Vec<usize> = crate::order::stable_order(&keys);
    let mut r: Vec<usize> = Vec::new();
    let mut k: usize = 0;
    while k < order.len()
        invariant
            k <= order.len(),
            all@ == present(inputs@, inputs@.len()),
            crate::order::is_stable_order(width_keys(inputs@), order@),
            order@ == crate::order::stable_order_of(width_keys(inputs@)),
            width_keys(inputs@).len() == all@.len(),
            forall|k: int|
                0 <= k < all@.len() ==> 0 <= #[trigger] all@[k] < inputs@.len()
                    && inputs@[all@[k] as int] is Some,
            r@ =~= queue(inputs@).take(k as int),
            forall|k: int|
                0 <= k < r@.len() ==> (#[trigger] r@[k]) < inputs@.len() && inputs@[r@[k] as int]
                    is Some,
        decreases order.len() - k,
    {
        r.push(all[order[k]]);
        k = k + 1;
    }
    assert(queue(inputs@).take(k as int) =~= queue(inputs@));
    r
}

/// Appends one picture, padded to `width`.
fn push_padded(out: &mut Vec<Single>, input: &LineInput, width: usize)
    requires
        input.wf(),
        input.width <= width,
    ensures
        final(out)@ == old(out)@ + Seq::new(
            (144 * width) as nat,
            |k: int| cell(*input, k / width as int, k % width as int),
        ),
{
    let ghost before: Seq<Single> = out@;
    let ghost want: Seq<Single> = Seq::new(
        (144 * width) as nat,
        |k: int| cell(*input, k / width as int, k % width as int),
    );
    let mut row: usize = 0;
    assert(want.take(0) =~= Seq::<Single>::empty());
    assert(before + want.take(0) =~= before);
    while row < 144
        invariant
            row <= 144,
            input.wf(),
            input.width <= width,
            want == Seq::new(
                (144 * width) as nat,
                |k: int| cell(*input, k / width as int, k % width as int),
            ),
            out@ == before + want.take(row * width),
        decreases 144 - row,
    {
        let mut column: usize = 0;
        assert(row * width + 0 == row * width);
        while column < width
            invariant
                column <= width,
                row < 144,
                input.wf(),
                input.width <= width,
                want == Seq::new(
                    (144 * width) as nat,
                    |k: int| cell(*input, k / width as int, k % width as int),
                ),
                out@ == before + want.take(row * width + column),
            decreases width - column,
        {
            let ghost k: int = row * width + column;
            proof {
                let (r, w, c, iw): (int, int, int, int) = (
                    row as int,
                    width as int,
                    column as int,
                    input.width as int,
                );
                lemma_fundamental_div_mod_converse(k, w, r, c);
                assert(0 <= r * w && r * w + w <= 144 * w) by (nonlinear_arith)
                    requires
                        0 <= r,
                        r + 1 <= 144,
                        w >= 0,
                ;
                assert(0 <= r * iw && r * iw + iw <= 144 * iw) by (nonlinear_arith)
                    requires
                        0 <= r,
                        r + 1 <= 144,
                        iw >= 0,
                ;
            }
            if column < input.width {
                out.push(input.data[row * input.width + column]);
            } else {
                out.push(Single::from_bits(0));
            }
            assert(out@ =~= before + want.take(k + 1));
            column = column + 1;
        }
        proof {
            let (r, w): (int, int) = (row as int, width as int);
            assert((r + 1) * w == r * w + w) by (nonlinear_arith);
        }
        row = row + 1;
    }
    assert(want.take(144 * width) =~= want);
}

/// One more picture at the end of padded pictures.
proof fn lemma_padded(inputs: Seq<Option<LineInput>>, places: Seq<usize>, width: nat)
    requires
        places.len() > 0,
        width > 0,
    ensures
        padded(inputs, places, width) == padded(inputs, places.drop_last(), width) + Seq::new(
            144 * width,
            |k: int|
                cell(
                    inputs[places.last() as int]->Some_0,
                    k / width as int,
                    k % width as int,
                ),
        ),
{
    let n: int = places.len() - 1;
    let w: int = width as int;
    let head: Seq<Single> = padded(inputs, places.drop_last(), width);
    let whole: Seq<Single> = padded(inputs, places, width);
    let tail: Seq<Single> = Seq::new(
        144 * width,
        |k: int|
            cell(inputs[places.last() as int]->Some_0, k / width as int, k % width as int),
    );
    assert((n + 1) * 144 * w == n * 144 * w + 144 * w) by (nonlinear_arith);
    assert forall|k: int| 0 <= k < whole.len() implies whole[k] == (head + tail)[k] by {
        let row: int = k / w;
        lemma_fundamental_div_mod(k, w);
        lemma_div_pos_is_pos(k, w);
        assert(0 <= k % w < w);
        if k < head.len() {
            assert(row < n * 144) by (nonlinear_arith)
                requires
                    k == w * row + k % w,
                    k < n * 144 * w,
                    0 <= k % w,
                    w > 0,
            ;
            assert(row / 144 < n);
            assert(places.drop_last()[row / 144] == places[row / 144]);
        } else {
            let j: int = k - n * 144 * w;
            assert(k == w * (n * 144) + j) by (nonlinear_arith)
                requires
                    j == k - n * 144 * w,
            ;
            lemma_fundamental_div_mod(j, w);
            lemma_div_pos_is_pos(j, w);
            let r: int = j / w;
            assert(k == (n * 144 + r) * w + j % w) by (nonlinear_arith)
                requires
                    k == w * (n * 144) + j,
                    j == w * r + j % w,
            ;
            lemma_fundamental_div_mod_converse(k, w, n * 144 + r, j % w);
            assert(r < 144) by (nonlinear_arith)
                requires
                    j == w * r + j % w,
                    j < 144 * w,
                    0 <= j % w,
                    w > 0,
            ;
            lemma_fundamental_div_mod_converse(n * 144 + r, 144, n, r);
        }
    }
    assert(whole =~= head + tail);
}

/// The greatest width is that of no picture that is wider.
proof fn lemma_widest(inputs: Seq<Option<LineInput>>, places: Seq<usize>, k: int)
    requires
        0 <= k < places.len(),
    ensures
        inputs[places[k] as int]->Some_0.width <= widest(inputs, places),
    decreases places.len(),
{
    if k < places.len() - 1 {
        lemma_widest(inputs, places.drop_last(), k);
    }
}

/// The batch of the pictures at some places.
fn make_batch(inputs: &Vec<Option<LineInput>>, members: Vec<usize>) -> (r: Batch)
    requires
        well_formed(inputs@),
        members@.len() > 0,
        forall|k: int|
            0 <= k < members@.len() ==> (#[trigger] members@[k]) < inputs@.len()
                && inputs@[members@[k] as int] is Some,
    ensures
        r.members@ == members@,
        is_batch(inputs@, r),
{
    let mut width: usize = 0;
    let mut i: usize = 0;
    assert(members@.take(0) =~= Seq::<usize>::empty());
    while i < members.len()
        invariant
            i <= members.len(),
            forall|k: int|
                0 <= k < members@.len() ==> (#[trigger] members@[k]) < inputs@.len()
                    && inputs@[members@[k] as int] is Some,
            width == widest(inputs@, members@.take(i as int)),
        decreases members.len() - i,
    {
        assert(members@.take(i + 1).drop_last() =~= members@.take(i as int));
        match &inputs[members[i]] {
            Some(input) => {
                if input.width > width {
                    width = input.width;
                }
            },
            None => {},
        }
        i = i + 1;
    }
    assert(members@.take(i as int) =~= members@);
    proof {
        lemma_widest(inputs@, members@, 0);
        assert(inputs@[members@[0] as int]->Some_0.wf());
    }
    let mut data: Vec<Single> = Vec::new();
    let mut j: usize = 0;
    proof {
        let none: nat = members@.take(0).len();
        assert(none * 144 * width as nat == 0) by (nonlinear_arith)
            requires
                none == 0,
        ;
        assert(padded(inputs@, members@.take(0), width as nat) =~= data@);
    }
    while j < members.len()
        invariant
            j <= members.len(),
            well_formed(inputs@),
            width >= 1,
            width == widest(inputs@, members@),
            forall|k: int|
                0 <= k < members@.len() ==> (#[trigger] members@[k]) < inputs@.len()
                    && inputs@[members@[k] as int] is Some,
            data@ == padded(inputs@, members@.take(j as int), width as nat),
        decreases members.len() - j,
    {
        proof {
            lemma_widest(inputs@, members@, j as int);
            lemma_padded(inputs@, members@.take(j + 1), width as nat);
            assert(members@.take(j + 1).drop_last() =~= members@.take(j as int));
        }
        match &inputs[members[j]] {
            Some(input) => {
                assert(inputs@[members@[j as int] as int]->Some_0.wf());
                push_padded(&mut data, input, width);
            },
            None => {},
        }
        j = j + 1;
    }
    assert(members@.take(j as int) =~= members@);
    Batch { members, width, data }
}

/// The places of the members of batches.
pub open spec fn members_of(batches: Seq<Batch>) -> Seq<Seq<usize>> {
    batches.map_values(|b: Batch| b.members@)
}

/// Groups the pictures that have pixels, by width, into batches of at most `batch_size`.
pub fn plan_batches(inputs: &Vec<Option<LineInput>>, batch_size: usize) -> (r: Vec<Batch>)
    requires
        well_formed(inputs@),
        batch_size >= 1,
    ensures
        members_of(r@) == chunks(queue(inputs@), batch_size as nat),
        r@.len() == (queue(inputs@).len() + batch_size - 1) / batch_size as int,
        forall|k: int| 0 <= k < r@.len() ==> is_batch(inputs@, #[trigger] r@[k]),
        forall|k: int, m: int|
            0 <= k < r@.len() && 0 <= m < r@[k].members@.len() ==> (#[trigger] r@[k].members@[m])
                < inputs@.len(),
{
    let line: Vec<usize> = queue_up(inputs);
    let mut r: Vec<Batch> = Vec::new();
    let mut at: usize = 0;
    assert(line@.skip(0) =~= line@);
    assert(members_of(r@) + chunks(line@, batch_size as nat) =~= chunks(line@, batch_size as nat));
    while at < line.len()
        invariant
            at <= line.len(),
            batch_size >= 1,
            well_formed(inputs@),
            forall|k: int|
                0 <= k < line@.len() ==> (#[trigger] line@[k]) < inputs@.len()
                    && inputs@[line@[k] as int] is Some,
            members_of(r@) + chunks(line@.skip(at as int), batch_size as nat) == chunks(
                line@,
                batch_size as nat,
            ),
            forall|k: int| 0 <= k < r@.len() ==> is_batch(inputs@, #[trigger] r@[k]),
            forall|k: int, m: int|
                0 <= k < r@.len() && 0 <= m < r@[k].members@.len() ==> (
                #[trigger] r@[k].members@[m]) < inputs@.len(),
        decreases line.len() - at,
    {
        let end: usize = if line.len() - at <= batch_size {
            line.len()
        } else {
            at + batch_size
        };
        let mut members: Vec<usize> = Vec::new();
        let mut i: usize = at;
        while i < end
            invariant
                at <= i <= end <= line.len(),
                members@ =~= line@.subrange(at as int, i as int),
            decreases end - i,
        {
            members.push(line[i]);
            i = i + 1;
        }
        let ghost rest: Seq<usize> = line@.skip(at as int);
        let ghost before: Seq<Seq<usize>> = members_of(r@);
        let batch: Batch = make_batch(inputs, members);
        r.push(batch);
        proof {
            let after: Seq<Seq<usize>> = chunks(line@.skip(end as int), batch_size as nat);
            assert(members_of(r@) =~= before + seq![batch.members@]);
            if rest.len() <= batch_size {
                assert(batch.members@ =~= rest);
                assert(line@.skip(end as int) =~= Seq::<usize>::empty());
                assert(members_of(r@) + after =~= before + seq![rest]);
            } else {
                assert(batch.members@ =~= rest.take(batch_size as int));
                assert(rest.skip(batch_size as int) =~= line@.skip(end as int));
                assert(members_of(r@) + after =~= before + (seq![batch.members@] + after));
            }
        }
        at = end;
    }
    proof {
        assert(line@.skip(at as int) =~= Seq::<usize>::empty());
        assert(members_of(r@) + chunks(line@.skip(at as int), batch_size as nat) =~= members_of(r@));
        lemma_chunks(line@, batch_size as nat);
    }
    r
}

} // verus!
