//! How a text falls into lines.
use crate::strings::{line_end, lines_of, white_space};
use vstd::prelude::*;

verus! {

proof fn lemma_line_end_at(line: Seq<char>, rest: Seq<char>)
    requires
        !line.contains('\n'),
        rest.len() == 0 || rest[0] == '\n',
    ensures
        line_end(line + rest) == line.len(),
    decreases line.len(),
{
    let s: Seq<char> = line + rest;
    if line.len() == 0 {
        if rest.len() > 0 {
            assert(s[0] == '\n');
        }
    } else {
        let tail: Seq<char> = line.drop_first();
        assert(s.drop_first() =~= tail + rest);
        assert(line[0] != '\n') by {
            assert(line.contains(line[0]));
        }
        assert(!tail.contains('\n')) by {
            if tail.contains('\n') {
                let k: int = choose|k: int| 0 <= k < tail.len() && tail[k] == '\n';
                assert(line[k + 1] == '\n');
            }
        }
        lemma_line_end_at(tail, rest);
    }
}

/// A line that ends in a line feed, with or without a carriage return before it, comes before
/// the lines of what follows.
pub proof fn lemma_first_line(line: Seq<char>, rest: Seq<char>)
    requires
        !line.contains('\n'),
        line.len() > 0 ==> line.last() != '\r',
    ensures
        lines_of(line.push('\n') + rest) == seq![line] + lines_of(rest),
        lines_of(line.push('\r').push('\n') + rest) == seq![line] + lines_of(rest),
{
    let end: Seq<char> = seq!['\n'] + rest;
    let s: Seq<char> = line.push('\n') + rest;
    assert(s =~= line + end);
    lemma_line_end_at(line, end);
    assert(s.take(line.len() as int) =~= line);
    assert(s.skip(line.len() as int + 1) =~= rest);
    let long: Seq<char> = line.push('\r');
    let t: Seq<char> = line.push('\r').push('\n') + rest;
    assert(t =~= long + end);
    assert(!long.contains('\n')) by {
        if long.contains('\n') {
            let k: int = choose|k: int| 0 <= k < long.len() && long[k] == '\n';
            assert(k < line.len() && line[k] == '\n');
        }
    }
    lemma_line_end_at(long, end);
    assert(t.take(long.len() as int) =~= long);
    assert(long.drop_last() =~= line);
    assert(t.skip(long.len() as int + 1) =~= rest);
}

/// What follows the last line feed is a line as it is, and no line where nothing follows.
pub proof fn lemma_last_line(line: Seq<char>)
    requires
        !line.contains('\n'),
    ensures
        line.len() > 0 ==> lines_of(line) == seq![line],
        line.len() == 0 ==> lines_of(line).len() == 0,
{
    if line.len() > 0 {
        lemma_line_end_at(line, Seq::empty());
        assert(line + Seq::<char>::empty() =~= line);
    }
}

/// White space are the characters from 9 to 13, 32, 133, 160, 5760, from 8192 to 8202, 8232,
/// 8233, 8239, 8287 and 12288.
pub proof fn lemma_white_space(c: char)
    ensures
        white_space(c) <==> {
            let n = c as int;
            ||| 9 <= n <= 13
            ||| n == 32
            ||| n == 133
            ||| n == 160
            ||| n == 5760
            ||| 8192 <= n <= 8202
            ||| n == 8232
            ||| n == 8233
            ||| n == 8239
            ||| n == 8287
            ||| n == 12288
        },
{
}

} // verus!
