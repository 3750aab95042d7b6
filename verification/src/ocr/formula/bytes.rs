//! The alphabet in which the formula model spells its tokens.
//!
//! Every byte is written as one character: the printable ones as themselves, the others as
//! the characters from 256 on, in order. Reading a token turns its characters back into
//! bytes, and these are the text in UTF-8.
use vstd::prelude::*;
use vstd::string::*;
use vstd::utf8::*;

verus! {

/// The byte is written as itself.
pub open spec fn printable(b: int) -> bool {
    33 <= b <= 126 || 161 <= b <= 172 || 174 <= b <= 255
}

/// How many bytes below `b` are not written as themselves.
pub open spec fn hidden_below(b: nat) -> nat
    decreases b,
{
    if b == 0 {
        0
    } else {
        hidden_below((b - 1) as nat) + (if printable(b - 1) {
            0nat
        } else {
            1nat
        })
    }
}

/// The character that a byte is written as.
pub open spec fn written(b: u8) -> int {
    if printable(b as int) {
        b as int
    } else {
        256 + hidden_below(b as nat) as int
    }
}

/// The byte from `b` on that is the `n`th one not written as itself, zero where there is none.
pub open spec fn nth_hidden(n: int, b: int) -> int
    decreases 256 - b,
{
    if b >= 256 {
        0
    } else if printable(b) {
        nth_hidden(n, b + 1)
    } else if n == 0 {
        b
    } else {
        nth_hidden(n - 1, b + 1)
    }
}

/// The byte that a character stands for, zero for one that stands for none.
pub open spec fn byte_of(c: char) -> int {
    if (c as int) < 256 {
        c as int
    } else {
        nth_hidden(c as int - 256, 0)
    }
}

proof fn lemma_nth_hidden(k: int, b: int)
    requires
        0 <= k <= b < 256,
        !printable(b),
    ensures
        nth_hidden(hidden_below(b as nat) - hidden_below(k as nat), k) == b,
        hidden_below(k as nat) <= hidden_below(b as nat),
    decreases b - k,
{
    if k < b {
        lemma_nth_hidden(k + 1, b);
    }
}

proof fn lemma_hidden_few(b: nat)
    ensures
        hidden_below(b) <= b,
    decreases b,
{
    if b > 0 {
        lemma_hidden_few((b - 1) as nat);
    }
}

/// Reading the character that a byte is written as gives the byte back.
pub proof fn lemma_bytes_come_back(b: u8)
    ensures
        0 <= written(b) < 512,
        byte_of(written(b) as char) == b,
{
    lemma_hidden_few(b as nat);
    if !printable(b as int) {
        lemma_nth_hidden(0, b as int);
    }
}

/// The byte that a character stands for.
pub fn byte_level_decode_char(c: char) -> (r: u8)
    ensures
        r == byte_of(c),
{
    let cp: u32 = c as u32;
    if cp < 256 {
        return cp as u8;
    }
    let mut n: u32 = cp - 256;
    let mut b: u32 = 0;
    while b < 256
        invariant
            b <= 256,
            nth_hidden(n as int, b as int) == byte_of(c),
        decreases 256 - b,
    {
        let shown: bool = (33 <= b && b <= 126) || (161 <= b && b <= 172) || (174 <= b && b <= 255);
        if !shown {
            if n == 0 {
                return b as u8;
            }
            n = n - 1;
        }
        b = b + 1;
    }
    0
}

/// The token that ends a formula.
pub const EOS_TOKEN: i64 = 2;

/// Tokens below this are marks of the model, not text.
pub const NUM_SPECIAL_TOKENS: i64 = 23;

/// The spelling of some tokens up to the end mark; marks and unknown tokens are left out.
pub open spec fn spelling(tokens: Seq<Seq<char>>, ids: Seq<i64>) -> Seq<char>
    decreases ids.len(),
{
    if ids.len() == 0 || ids.first() == EOS_TOKEN {
        Seq::empty()
    } else {
        (if NUM_SPECIAL_TOKENS <= ids.first() < tokens.len() {
            tokens[ids.first() as int]
        } else {
            Seq::empty()
        }) + spelling(tokens, ids.drop_first())
    }
}

/// The bytes that some characters stand for.
pub open spec fn bytes_of(text: Seq<char>) -> Seq<u8> {
    text.map_values(|c: char| byte_of(c) as u8)
}

/// How some bytes are written.
pub open spec fn written_bytes(bytes: Seq<u8>) -> Seq<char> {
    bytes.map_values(|b: u8| written(b) as char)
}

/// What `String::from_utf8_lossy` makes of some bytes.
pub uninterp spec fn lossy_text(bytes: Seq<u8>) -> Seq<char>;

/// Calls `String::from_utf8_lossy`.
///
/// Not proved: that the text depends on the bytes alone, and that it is the text that they
/// encode where they are valid UTF-8. What stands in for invalid bytes is left unsaid.
#[verifier::external_body]
fn from_utf8_lossy(bytes: &Vec<u8>) -> (r: String)
    ensures
        r@ == lossy_text(bytes@),
        valid_utf8(bytes@) ==> r@ == decode_utf8(bytes@),
{
    String::from_utf8_lossy(bytes).into_owned()
}

/// The bytes that some characters stand for.
pub fn to_bytes(text: &str) -> (r: Vec<u8>)
    ensures
        r@ == bytes_of(text@),
{
    let chars: Vec<char> = crate::strings::chars_of(text);
    let mut r: Vec<u8> = Vec::new();
    let mut i: usize = 0;
    while i < chars.len()
        invariant
            i <= chars.len(),
            chars@ == text@,
            r@ =~= bytes_of(text@).take(i as int),
        decreases chars.len() - i,
    {
        r.push(byte_level_decode_char(chars[i]));
        i = i + 1;
    }
    assert(bytes_of(text@).take(i as int) =~= bytes_of(text@));
    r
}

/// The spelling of some tokens up to the end mark.
pub fn spell(tokens: &Vec<String>, ids: &[i64]) -> (r: String)
    ensures
        r@ == spelling(crate::strings::texts(tokens@), ids@),
{
    let ghost all: Seq<Seq<char>> = crate::strings::texts(tokens@);
    let mut r: String = String::new();
    let mut i: usize = 0;
    assert(ids@.skip(0) =~= ids@);
    assert(r@ + spelling(all, ids@) =~= spelling(all, ids@));
    while i < ids.len() && ids[i] != EOS_TOKEN
        invariant
            i <= ids.len(),
            all == crate::strings::texts(tokens@),
            r@ + spelling(all, ids@.skip(i as int)) == spelling(all, ids@),
        ensures
            r@ == spelling(all, ids@),
        decreases ids.len() - i,
    {
        let id: i64 = ids[i];
        let ghost before: Seq<char> = r@;
        let ghost rest: Seq<i64> = ids@.skip(i as int);
        proof {
            assert(rest.drop_first() =~= ids@.skip(i + 1));
        }
        if id >= NUM_SPECIAL_TOKENS && (id as u64) < tokens.len() as u64 {
            r.append(tokens[id as usize].as_str());
            assert(all[id as int] == tokens@[id as int]@);
            assert(r@ + spelling(all, ids@.skip(i + 1)) =~= before + spelling(all, rest));
        } else {
            assert(before + spelling(all, ids@.skip(i + 1)) =~= before + spelling(all, rest));
        }
        i = i + 1;
        proof {
            if i == ids.len() || ids@[i as int] == EOS_TOKEN {
                assert(spelling(all, ids@.skip(i as int)) =~= Seq::<char>::empty());
                assert(r@ + spelling(all, ids@.skip(i as int)) =~= r@);
            }
        }
    }
    r
}

/// The text of some tokens up to the end mark.
///
/// Where their characters stand for valid UTF-8, it is the text encoded so.
pub fn decode(tokens: &Vec<String>, ids: &[i64]) -> (r: String)
    ensures
        ({
            let bytes = bytes_of(spelling(crate::strings::texts(tokens@), ids@));
            &&& r@ == lossy_text(bytes)
            &&& valid_utf8(bytes) ==> r@ == decode_utf8(bytes)
        }),
{
    let spelled: String = spell(tokens, ids);
    let bytes: Vec<u8> = to_bytes(spelled.as_str());
    from_utf8_lossy(&bytes)
}

/// A text that was written byte by byte stands for its own UTF-8 encoding.
pub proof fn lemma_text_comes_back(text: Seq<char>)
    ensures
        bytes_of(written_bytes(encode_utf8(text))) == encode_utf8(text),
        valid_utf8(bytes_of(written_bytes(encode_utf8(text)))),
        decode_utf8(bytes_of(written_bytes(encode_utf8(text)))) == text,
{
    let bytes: Seq<u8> = encode_utf8(text);
    assert forall|i: int| 0 <= i < bytes.len() implies bytes_of(written_bytes(bytes))[i]
        == bytes[i] by {
        lemma_bytes_come_back(bytes[i]);
    }
    assert(bytes_of(written_bytes(bytes)) =~= bytes);
    encode_utf8_valid_utf8(text);
    encode_utf8_decode_utf8(text);
}

} // verus!
