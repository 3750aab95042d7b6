//! Text: lines, trimming and joining.
use vstd::prelude::*;
use vstd::string::*;

verus! {

/// `String::push`. Not proved: that it appends the character.
pub assume_specification[ String::push ](s: &mut String, ch: char)
    ensures
        final(s)@ == old(s)@.push(ch),
;

/// The characters with the Unicode property `White_Space`.
pub open spec fn white_space(c: char) -> bool {
    ||| '\u{9}' <= c <= '\u{d}'
    ||| c == ' '
    ||| c == '\u{85}'
    ||| c == '\u{a0}'
    ||| c == '\u{1680}'
    ||| '\u{2000}' <= c <= '\u{200a}'
    ||| c == '\u{2028}'
    ||| c == '\u{2029}'
    ||| c == '\u{202f}'
    ||| c == '\u{205f}'
    ||| c == '\u{3000}'
}

/// The text from its first to its last character that is not white space.
pub open spec fn trimmed(s: Seq<char>) -> Seq<char>
    decreases s.len(),
{
    if s.len() > 0 && white_space(s.first()) {
        trimmed(s.drop_first())
    } else if s.len() > 0 && white_space(s.last()) {
        trimmed(s.drop_last())
    } else {
        s
    }
}

/// `str::trim`. Not proved: that it removes the white space at both ends.
pub assume_specification[ str::trim ](s: &str) -> (r: &str)
    ensures
        r@ == trimmed(s@),
;

/// Whether two texts are the same.
pub fn same_text(a: &str, b: &str) -> (r: bool)
    ensures
        r == (a@ == b@),
{
    a.to_owned() == b.to_owned()
}

/// Where the first line ends: the place of its line feed, or the end.
pub open spec fn line_end(s: Seq<char>) -> nat
    decreases s.len(),
{
    if s.len() == 0 || s.first() == '\n' {
        0
    } else {
        1 + line_end(s.drop_first())
    }
}

/// A line without the carriage return before its line feed.
pub open spec fn without_return(s: Seq<char>) -> Seq<char> {
    if s.len() > 0 && s.last() == '\r' {
        s.drop_last()
    } else {
        s
    }
}

/// The lines of a text. Each ends before a line feed, a carriage return before that left
/// out; the text after the last line feed is a line of its own unless it is empty.
pub open spec fn lines_of(s: Seq<char>) -> Seq<Seq<char>>
    decreases s.len(),
{
    if s.len() == 0 {
        Seq::empty()
    } else if line_end(s) >= s.len() {
        seq![s]
    } else {
        seq![without_return(s.take(line_end(s) as int))] + lines_of(s.skip(line_end(s) as int + 1))
    }
}

/// The characters of texts.
pub open spec fn texts(v: Seq<String>) -> Seq<Seq<char>> {
    v.map_values(|s: String| s@)
}

/// The line feed that ends the first line of `s.skip(from)` is at `end`.
proof fn lemma_line_end(s: Seq<char>, from: int, end: int)
    requires
        0 <= from <= end <= s.len(),
        end < s.len() ==> s[end] == '\n',
        forall|i: int| from <= i < end ==> s[i] != '\n',
    ensures
        line_end(s.skip(from)) == end - from,
    decreases end - from,
{
    if from < end {
        lemma_line_end(s, from + 1, end);
        assert(s.skip(from).drop_first() =~= s.skip(from + 1));
    }
}

/// The characters from one place to another as a text.
fn text_between(chars: &Vec<char>, from: usize, to: usize) -> (r: String)
    requires
        from <= to <= chars.len(),
    ensures
        r@ == chars@.subrange(from as int, to as int),
{
    let mut r: String = String::new();
    let mut i: usize = from;
    while i < to
        invariant
            from <= i <= to <= chars.len(),
            r@ =~= chars@.subrange(from as int, i as int),
        decreases to - i,
    {
        r.push(chars[i]);
        i = i + 1;
    }
    r
}

/// The characters of a text.
pub fn chars_of(text: &str) -> (r: Vec<char>)
    ensures
        r@ == text@,
{
    let mut r: Vec<char> = Vec::new();
    for c in it: text.chars()
        invariant
            it.seq() == text@,
            r@ == it.seq().take(it.index() as int),
    {
        r.push(c);
        assert(r@ =~= it.seq().take(it.index() + 1));
    }
    r
}

/// The lines of a text.
pub fn split_lines(text: &str) -> (r: Vec<String>)
    ensures
        texts(r@) == lines_of(text@),
{
    let chars: Vec<char> = chars_of(text);
    let mut r: Vec<String> = Vec::new();
    let mut from: usize = 0;
    assert(chars@.skip(0) =~= chars@);
    assert(texts(r@) + lines_of(chars@) =~= lines_of(chars@));
    while from < chars.len()
        invariant
            from <= chars.len(),
            texts(r@) + lines_of(chars@.skip(from as int)) == lines_of(chars@),
        decreases chars.len() - from,
    {
        let mut end: usize = from;
        while end < chars.len() && chars[end] != '\n'
            invariant
                from <= end <= chars.len(),
                forall|i: int| from <= i < end ==> chars@[i] != '\n',
            ensures
                end < chars.len() ==> chars@[end as int] == '\n',
            decreases chars.len() - end,
        {
            end = end + 1;
        }
        let ghost rest: Seq<char> = chars@.skip(from as int);
        let ghost before: Seq<Seq<char>> = texts(r@);
        proof {
            lemma_line_end(chars@, from as int, end as int);
        }
        if end == chars.len() {
            let line: String = text_between(&chars, from, end);
            r.push(line);
            proof {
                assert(chars@.subrange(from as int, end as int) =~= rest);
                assert(texts(r@) =~= before + seq![rest]);
                assert(chars@.skip(end as int) =~= Seq::<char>::empty());
                assert(texts(r@) + lines_of(chars@.skip(end as int)) =~= before + lines_of(rest));
            }
            from = end;
        } else {
            let stop: usize = if end > from && chars[end - 1] == '\r' {
                end - 1
            } else {
                end
            };
            let line: String = text_between(&chars, from, stop);
            r.push(line);
            proof {
                let first: Seq<char> = rest.take(end - from);
                assert(without_return(first) =~= chars@.subrange(from as int, stop as int));
                assert(texts(r@) =~= before + seq![without_return(first)]);
                assert(rest.skip(end - from + 1) =~= chars@.skip(end + 1));
                assert(texts(r@) + lines_of(chars@.skip(end + 1)) =~= before + (seq![
                    without_return(first),
                ] + lines_of(chars@.skip(end + 1))));
            }
            from = end + 1;
        }
    }
    proof {
        assert(chars@.skip(from as int) =~= Seq::<char>::empty());
        assert(texts(r@) + lines_of(chars@.skip(from as int)) =~= texts(r@));
    }
    r
}

/// The texts one after another with a separator between.
pub open spec fn joined(parts: Seq<Seq<char>>, separator: Seq<char>) -> Seq<char>
    decreases parts.len(),
{
    if parts.len() == 0 {
        Seq::empty()
    } else if parts.len() == 1 {
        parts[0]
    } else {
        joined(parts.drop_last(), separator) + separator + parts.last()
    }
}

/// The texts one after another with a separator between.
pub fn join(parts: &Vec<String>, separator: &str) -> (r: String)
    ensures
        r@ == joined(texts(parts@), separator@),
{
    let ghost all: Seq<Seq<char>> = texts(parts@);
    let mut r: String = String::new();
    let mut i: usize = 0;
    while i < parts.len()
        invariant
            i <= parts.len(),
            all == texts(parts@),
            r@ == joined(all.take(i as int), separator@),
        decreases parts.len() - i,
    {
        proof {
            assert(all.take(i + 1).drop_last() =~= all.take(i as int));
            assert(all.take(i + 1).last() == parts@[i as int]@);
        }
        if i > 0 {
            r.append(separator);
        }
        r.append(parts[i].as_str());
        assert(r@ =~= joined(all.take(i + 1), separator@));
        i = i + 1;
    }
    assert(all.take(i as int) =~= all);
    r
}

} // verus!
