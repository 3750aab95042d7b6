//! Pictures as model inputs: one plane of numbers per colour, blue first.
use crate::single::Single;
use vstd::arithmetic::div_mod::*;
use vstd::prelude::*;

verus! {

/// The bit pattern of 255.
pub const BYTE_MAX: u32 = 0x437f_0000;

/// A byte as a fraction of 255.
pub open spec fn fraction(v: u8) -> Single {
    Single::quotient(Single::whole(v as int), Single { bits: BYTE_MAX })
}

/// A byte as a fraction of 255, less the mean, over the deviation.
pub open spec fn normalised(v: u8, mean: Single, deviation: Single) -> Single {
    Single::quotient(Single::difference(fraction(v), mean), deviation)
}

/// The fraction of every byte.
pub open spec fn fractions() -> Seq<Single> {
    Seq::new(256, |v: int| fraction(v as u8))
}

/// The normalised value of every byte.
pub open spec fn tones(mean: Single, deviation: Single) -> Seq<Single> {
    Seq::new(256, |v: int| normalised(v as u8, mean, deviation))
}

/// The planes of a colour picture of `plane` pixels: blue, green, red, each pixel's byte
/// replaced by its entry in the plane's table.
pub open spec fn planes(data: Seq<u8>, plane: int, tables: Seq<Seq<Single>>) -> Seq<Single> {
    Seq::new(
        (3 * plane) as nat,
        |k: int| tables[k / plane][data[3 * (k % plane) + 2 - k / plane] as int],
    )
}

/// The fraction of every byte.
pub fn fraction_table() -> (r: Vec<Single>)
    ensures
        r@ == fractions(),
{
    let mut r: Vec<Single> = Vec::new();
    let mut v: usize = 0;
    while v < 256
        invariant
            v <= 256,
            r@ =~= fractions().take(v as int),
        decreases 256 - v,
    {
        r.push(Single::from_u64(v as u64).over(Single::from_bits(BYTE_MAX)));
        v = v + 1;
    }
    r
}

/// The normalised value of every byte.
pub fn tone_table(mean: Single, deviation: Single) -> (r: Vec<Single>)
    ensures
        r@ == tones(mean, deviation),
{
    let mut r: Vec<Single> = Vec::new();
    let mut v: usize = 0;
    while v < 256
        invariant
            v <= 256,
            r@ =~= tones(mean, deviation).take(v as int),
        decreases 256 - v,
    {
        let f: Single = Single::from_u64(v as u64).over(Single::from_bits(BYTE_MAX));
        r.push(f.minus(mean).over(deviation));
        v = v + 1;
    }
    r
}

/// Appends the plane of one colour.
fn push_plane(out: &mut Vec<Single>, data: &Vec<u8>, plane: usize, channel: usize, table: &Vec<Single>)
    requires
        data.len() == 3 * plane,
        channel < 3,
        table@.len() == 256,
    ensures
        final(out)@ == old(out)@ + Seq::new(
            plane as nat,
            |i: int| table@[data@[3 * i + channel] as int],
        ),
{
    let ghost before: Seq<Single> = out@;
    let ghost want: Seq<Single> = Seq::new(
        plane as nat,
        |i: int| table@[data@[3 * i + channel] as int],
    );
    let mut i: usize = 0;
    while i < plane
        invariant
            i <= plane,
            data.len() == 3 * plane,
            channel < 3,
            table@.len() == 256,
            want == Seq::new(plane as nat, |i: int| table@[data@[3 * i + channel] as int]),
            out@ =~= before + want.take(i as int),
        decreases plane - i,
    {
        let at: usize = 3 * i + channel;
        out.push(table[data[at] as usize]);
        i = i + 1;
    }
    assert(want.take(i as int) =~= want);
}

/// The planes of a colour picture: blue, green, red.
pub fn to_planes(
    data: &Vec<u8>,
    plane: usize,
    blue: &Vec<Single>,
    green: &Vec<Single>,
    red: &Vec<Single>,
) -> (r: Vec<Single>)
    requires
        data.len() == 3 * plane,
        blue@.len() == 256,
        green@.len() == 256,
        red@.len() == 256,
    ensures
        r@ == planes(data@, plane as int, seq![blue@, green@, red@]),
{
    let mut r: Vec<Single> = Vec::new();
    push_plane(&mut r, data, plane, 2, blue);
    push_plane(&mut r, data, plane, 1, green);
    push_plane(&mut r, data, plane, 0, red);
    proof {
        let want: Seq<Single> = planes(data@, plane as int, seq![blue@, green@, red@]);
        let p: int = plane as int;
        assert forall|k: int| 0 <= k < want.len() implies r@[k] == want[k] by {
            if k < p {
                lemma_basic_div(k, p);
                lemma_small_mod(k as nat, p as nat);
            } else if k < 2 * p {
                lemma_fundamental_div_mod_converse(k, p, 1, k - p);
            } else {
                lemma_fundamental_div_mod_converse(k, p, 2, k - 2 * p);
            }
        }
        assert(r@ =~= want);
    }
    r
}

} // verus!
