//! What the tokens of a formula spell, and which byte each character stands for.
use crate::ocr::formula::bytes::{byte_of, nth_hidden, printable, spelling};
use vstd::prelude::*;

verus! {

/// The spelling of a row of tokens is that of its first part and then that of the rest, where
/// the first part holds no end mark (token 2).
pub proof fn lemma_parts_spelled(tokens: Seq<Seq<char>>, first: Seq<i64>, rest: Seq<i64>)
    requires
        !first.contains(2),
    ensures
        spelling(tokens, first + rest) == spelling(tokens, first) + spelling(tokens, rest),
        spelling(tokens, first + rest).len() == spelling(tokens, first).len() + spelling(
            tokens,
            rest,
        ).len(),
    decreases first.len(),
{
    if first.len() == 0 {
        assert(first + rest =~= rest);
        assert(spelling(tokens, first) + spelling(tokens, rest) =~= spelling(tokens, rest));
    } else {
        let tail: Seq<i64> = first.drop_first();
        assert(first.contains(first[0]));
        assert forall|i: int| 0 <= i < tail.len() implies tail[i] != 2 by {
            assert(first.contains(first[i + 1]));
        }
        lemma_parts_spelled(tokens, tail, rest);
        assert((first + rest).drop_first() =~= tail + rest);
        assert(spelling(tokens, first + rest) =~= spelling(tokens, first) + spelling(tokens, rest));
    }
}

/// The end mark and all tokens behind it add nothing.
pub proof fn lemma_nothing_after_end(tokens: Seq<Seq<char>>, first: Seq<i64>, rest: Seq<i64>)
    requires
        !first.contains(2),
    ensures
        spelling(tokens, first + seq![2i64] + rest) == spelling(tokens, first),
{
    let end: Seq<i64> = seq![2i64] + rest;
    assert(end.first() == 2);
    assert(first + seq![2i64] + rest =~= first + end);
    lemma_parts_spelled(tokens, first, end);
    assert(spelling(tokens, end) =~= Seq::<char>::empty());
    assert(spelling(tokens, first) + spelling(tokens, end) =~= spelling(tokens, first));
}

/// A token from 23 on that the vocabulary holds adds its entry; the special tokens below 23 and
/// those beyond the vocabulary add nothing.
pub proof fn lemma_token_spelled(tokens: Seq<Seq<char>>, id: i64)
    ensures
        id >= 23 && id < tokens.len() ==> spelling(tokens, seq![id]) == tokens[id as int],
        id < 23 || id >= tokens.len() ==> spelling(tokens, seq![id]) == Seq::<char>::empty(),
{
    let row: Seq<i64> = seq![id];
    assert(row.drop_first() =~= Seq::<i64>::empty());
    assert(spelling(tokens, row.drop_first()) =~= Seq::<char>::empty());
    if id >= 23 && id < tokens.len() {
        assert(spelling(tokens, row) =~= tokens[id as int]);
    } else {
        assert(spelling(tokens, row) =~= Seq::<char>::empty());
    }
}

/// The spelling of a row of tokens is the entries of all its tokens up to the end mark that
/// are from 23 on and held by the vocabulary, one after another.
pub proof fn lemma_all_spelled(tokens: Seq<Seq<char>>, ids: Seq<i64>, end: int)
    requires
        0 <= end <= ids.len(),
        forall|i: int| 0 <= i < end ==> ids[i] != 2,
        end < ids.len() ==> ids[end] == 2,
    ensures
        spelling(tokens, ids) == ids.take(end).filter(
            |id: i64| 23 <= id && id < tokens.len(),
        ).map_values(|id: i64| tokens[id as int]).flatten(),
{
    let row: Seq<i64> = ids.take(end);
    assert(!row.contains(2));
    if end < ids.len() {
        let rest: Seq<i64> = ids.skip(end + 1);
        assert(ids =~= row + seq![2i64] + rest);
        lemma_nothing_after_end(tokens, row, rest);
    } else {
        assert(ids =~= row);
    }
    lemma_row_spelled(tokens, row);
}

proof fn lemma_row_spelled(tokens: Seq<Seq<char>>, row: Seq<i64>)
    requires
        !row.contains(2),
    ensures
        spelling(tokens, row) == row.filter(|id: i64| 23 <= id && id < tokens.len()).map_values(
            |id: i64| tokens[id as int],
        ).flatten(),
    decreases row.len(),
{
    reveal(Seq::filter);
    let keep = |id: i64| 23 <= id && id < tokens.len();
    let entry = |id: i64| tokens[id as int];
    if row.len() == 0 {
        assert(row.filter(keep).map_values(entry) =~= Seq::<Seq<char>>::empty());
        assert(row.filter(keep).map_values(entry).flatten() =~= spelling(tokens, row));
    } else {
        let (rest, last) = (row.drop_last(), row.last());
        assert forall|i: int| 0 <= i < rest.len() implies rest[i] != 2 by {
            assert(row.contains(row[i]));
        }
        lemma_row_spelled(tokens, rest);
        assert(row =~= rest + seq![last]);
        lemma_parts_spelled(tokens, rest, seq![last]);
        lemma_token_spelled(tokens, last);
        let kept: Seq<Seq<char>> = rest.filter(keep).map_values(entry);
        if keep(last) {
            assert(row.filter(keep).map_values(entry) =~= kept.push(entry(last)));
            kept.lemma_flatten_push(entry(last));
        } else {
            assert(row.filter(keep) =~= rest.filter(keep));
            assert(spelling(tokens, row) =~= spelling(tokens, rest));
        }
    }
}

/// Of bytes that are not written as themselves, each is the next.
proof fn lemma_hidden_run(n: int, from: int, to: int)
    requires
        0 <= from <= to <= 256,
        n >= 0,
        forall|b: int| from <= b < to ==> !#[trigger] printable(b),
    ensures
        nth_hidden(n, from) == (if n < to - from {
            from + n
        } else {
            nth_hidden(n - (to - from), to)
        }),
    decreases to - from,
{
    if from < to {
        assert(!printable(from));
        if n > 0 {
            lemma_hidden_run(n - 1, from + 1, to);
        }
    }
}

/// Bytes that are written as themselves are passed over.
proof fn lemma_shown_run(n: int, from: int, to: int)
    requires
        0 <= from <= to <= 256,
        forall|b: int| from <= b < to ==> #[trigger] printable(b),
    ensures
        nth_hidden(n, from) == nth_hidden(n, to),
    decreases to - from,
{
    if from < to {
        assert(printable(from));
        lemma_shown_run(n, from + 1, to);
    }
}

/// Which byte a character stands for: below 256 its own number, the 68 characters from 256 on
/// the bytes 0 to 32, 127 to 160 and 173 in this order, and any other character zero.
pub proof fn lemma_bytes_told(c: char)
    ensures
        (c as int) < 256 ==> byte_of(c) == c as int,
        256 <= c as int && (c as int) < 289 ==> byte_of(c) == c as int - 256,
        289 <= c as int && (c as int) < 323 ==> byte_of(c) == c as int - 162,
        c as int == 323 ==> byte_of(c) == 173,
        c as int > 323 ==> byte_of(c) == 0,
{
    if c as int >= 256 {
        let n: int = c as int - 256;
        lemma_hidden_run(n, 0, 33);
        if n >= 33 {
            lemma_shown_run(n - 33, 33, 127);
            lemma_hidden_run(n - 33, 127, 161);
            if n >= 67 {
                lemma_shown_run(n - 67, 161, 173);
                lemma_hidden_run(n - 67, 173, 174);
                if n > 67 {
                    lemma_shown_run(n - 68, 174, 256);
                }
            }
        }
    }
}

/// Every character of a text stands for one byte, in order.
pub proof fn lemma_bytes_in_order(text: Seq<char>, i: int)
    requires
        0 <= i < text.len(),
    ensures
        crate::ocr::formula::bytes::bytes_of(text).len() == text.len(),
        crate::ocr::formula::bytes::bytes_of(text)[i] == byte_of(text[i]) as u8,
{
}

/// A formula is spelled from its own row of the answer.
pub proof fn lemma_row_of_answer(tokens: Seq<Seq<char>>, ids: Seq<i64>, length: i64, i: int)
    requires
        length >= 1,
        0 <= i < crate::ocr::formula::recognition::row_count(ids, length),
    ensures
        crate::ocr::formula::recognition::row_bytes(tokens, ids, length, i)
            == crate::ocr::formula::bytes::bytes_of(
            spelling(tokens, Seq::new(length as nat, |j: int| ids[i * length + j])),
        ),
{
    crate::ocr::formula::blocks::lemma_id_row(ids, length, i, 0);
    let row: Seq<i64> = crate::ocr::formula::recognition::id_row(ids, length, i);
    assert forall|j: int| 0 <= j < length implies row[j] == ids[i * length + j] by {
        crate::ocr::formula::blocks::lemma_id_row(ids, length, i, j);
    }
    assert(row =~= Seq::new(length as nat, |j: int| ids[i * length + j]));
}

} // verus!
