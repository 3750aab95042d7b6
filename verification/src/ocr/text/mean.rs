//! Sums and means of numbers, added one by one and rounded at each step.
use crate::single::Single;
use vstd::arithmetic::power2::*;
use vstd::prelude::*;

verus! {

/// The numbers added one by one, from zero.
pub open spec fn total(values: Seq<Single>) -> Single {
    values.fold_left(Single { bits: 0 }, |a: Single, b: Single| Single::sum(a, b))
}

/// The numbers are finite and from `low` to `high` units.
pub open spec fn all_between(values: Seq<Single>, low: int, high: int) -> bool {
    forall|i: int|
        0 <= i < values.len() ==> (#[trigger] values[i]).finite() && low <= values[i].units()
            <= high
}

/// A sum of at most `2^22` numbers lies between that many times two bounds of the numbers, up
/// to one part in `2^23` for each of them.
pub proof fn lemma_total(values: Seq<Single>, low: int, high: int)
    requires
        all_between(values, low, high),
        0 <= low <= high <= pow2(64 + 149),
        values.len() <= 0x40_0000,
    ensures
        ({
            let (t, n) = (total(values), values.len() as int);
            &&& t.finite()
            &&& 0x80_0000 * t.units() <= (n * high) * (0x80_0000 + n)
            &&& 0x80_0000 * t.units() >= (n * low) * (0x80_0000 - n)
            &&& 0 <= t.units() <= pow2(88 + 149)
        }),
    decreases values.len(),
{
    let n: int = values.len() as int;
    lemma_pow2_pos(88 + 149);
    if n == 0 {
        assert((Single { bits: 0 }).units() == 0);
        assert((0 * high) * (0x80_0000 + 0) == 0 && (0 * low) * (0x80_0000 - 0) == 0)
            by (nonlinear_arith);
    } else {
        let rest: Seq<Single> = values.drop_last();
        assert forall|i: int| 0 <= i < rest.len() implies (#[trigger] rest[i]).finite() && low
            <= rest[i].units() <= high by {
            assert(rest[i] == values[i]);
        }
        lemma_total(rest, low, high);
        let (t, v): (Single, Single) = (total(rest), values[n - 1]);
        let r: Single = Single::sum(t, v);
        assert(total(values) == r);
        lemma_more(t.units(), v.units(), n - 1, low, high);
        lemma_bound(n, high);
        let exact: int = t.units() + v.units();
        lemma_exact_bound(exact, n, high);
        crate::bounds::lemma_sum(t, v);
        assert(pow2(87 + 149) * 1 == pow2(87 + 149));
        crate::ocr::text::drawing::lemma_rounds_within(exact as nat, 1, 87);
        assert(r.finite());
        crate::close::lemma_sum_close(t, v);
        lemma_rounded_up(r.units(), exact, n, high);
        lemma_rounded_down(r.units(), exact, n, low);
        lemma_pow2_strictly_increases(87 + 149, 88 + 149);
    }
}

/// One more number.
proof fn lemma_more(t: int, v: int, k: int, low: int, high: int)
    requires
        0 <= k < 0x40_0000,
        0 <= low <= v <= high,
        0x80_0000 * t <= (k * high) * (0x80_0000 + k),
        0x80_0000 * t >= (k * low) * (0x80_0000 - k),
    ensures
        0x80_0000 * (t + v) <= ((k + 1) * high) * (0x80_0000 + k),
        0x80_0000 * (t + v) >= ((k + 1) * low) * (0x80_0000 - k),
{
    let e: int = 0x80_0000;
    assert(((k + 1) * high) * (e + k) == (k * high) * (e + k) + high * e + high * k)
        by (nonlinear_arith);
    assert(((k + 1) * low) * (e - k) == (k * low) * (e - k) + low * e - low * k)
        by (nonlinear_arith);
    assert(high * k >= 0 && low * k >= 0) by (nonlinear_arith)
        requires
            high >= 0,
            low >= 0,
            k >= 0,
    ;
}

proof fn lemma_rounded_up(r: int, exact: int, n: int, high: int)
    requires
        r >= 0,
        high >= 0,
        1 <= n <= 0x40_0000,
        0x100_0000 * (r - exact) <= r,
        0x80_0000 * exact <= (n * high) * (0x80_0000 + n - 1),
    ensures
        0x80_0000 * r <= (n * high) * (0x80_0000 + n),
{
    let (e, m): (int, int) = (0x80_0000, n * high);
    assert(m >= 0) by (nonlinear_arith)
        requires
            m == n * high,
            n >= 1,
            high >= 0,
    ;
    // 2 e (e + n - 1) <= (2 e - 1) (e + n)
    let (x, y): (int, int) = (m * (e + n - 1), m * (e + n));
    assert(0x100_0000 * x <= 0xff_ffff * y) by (nonlinear_arith)
        requires
            x == m * (e + n - 1),
            y == m * (e + n),
            m >= 0,
            e == 0x80_0000,
            1 <= n <= 0x40_0000,
    ;
    assert(0xff_ffff * (e * r) <= 0x100_0000 * x);
}

proof fn lemma_rounded_down(r: int, exact: int, n: int, low: int)
    requires
        r >= 0,
        low >= 0,
        1 <= n <= 0x40_0000,
        0x100_0000 * (exact - r) <= r,
        0x80_0000 * exact >= (n * low) * (0x80_0000 - (n - 1)),
    ensures
        0x80_0000 * r >= (n * low) * (0x80_0000 - n),
{
    let (e, m): (int, int) = (0x80_0000, n * low);
    assert(m >= 0) by (nonlinear_arith)
        requires
            m == n * low,
            n >= 1,
            low >= 0,
    ;
    let (x, y): (int, int) = (m * (e - (n - 1)), m * (e - n));
    assert(0x100_0000 * x >= 0x100_0001 * y) by (nonlinear_arith)
        requires
            x == m * (e - (n - 1)),
            y == m * (e - n),
            m >= 0,
            e == 0x80_0000,
            1 <= n <= 0x40_0000,
    ;
    assert(0x100_0001 * (e * r) >= 0x100_0000 * x);
}

/// How large a sum can be.
proof fn lemma_bound(n: int, high: int)
    requires
        0 <= n <= 0x40_0000,
        0 <= high <= pow2(64 + 149),
    ensures
        (n * high) * (0x80_0000 + n) <= 0x80_0000 * pow2(87 + 149),
{
    lemma2_to64();
    lemma_pow2_adds(23, 64 + 149);
    let (p, m): (int, int) = (pow2(64 + 149) as int, n * high);
    assert(0 <= m <= 0x40_0000 * p) by (nonlinear_arith)
        requires
            m == n * high,
            0 <= n <= 0x40_0000,
            0 <= high <= p,
    ;
    assert(m * (0x80_0000 + n) <= m * 0x100_0000) by (nonlinear_arith)
        requires
            m >= 0,
            0 <= n <= 0x40_0000,
    ;
}

proof fn lemma_exact_bound(exact: int, n: int, high: int)
    requires
        1 <= n,
        high >= 0,
        0x80_0000 * exact <= (n * high) * (0x80_0000 + n - 1),
        (n * high) * (0x80_0000 + n) <= 0x80_0000 * pow2(87 + 149),
    ensures
        exact <= pow2(87 + 149),
{
    let m: int = n * high;
    assert(m >= 0) by (nonlinear_arith)
        requires
            m == n * high,
            n >= 1,
            high >= 0,
    ;
    assert(m * (0x80_0000 + n) == m * (0x80_0000 + n - 1) + m) by (nonlinear_arith);
}

/// The mean of at most `2^22` numbers, their sum divided by how many they are, lies between
/// two bounds of the numbers, up to one part in `2^23` for each of them, and one unit.
pub proof fn lemma_mean(values: Seq<Single>, low: int, high: int)
    requires
        all_between(values, low, high),
        0 <= low <= high <= pow2(64 + 149),
        1 <= values.len() <= 0x40_0000,
    ensures
        ({
            let n = values.len() as int;
            let mean = Single::quotient(total(values), Single::whole(n));
            &&& mean.finite()
            &&& 0x80_0000 * mean.units() <= high * (0x80_0000 + n + 1) + 0x80_0000
            &&& 0x80_0000 * mean.units() + 0x80_0000 >= low * (0x80_0000 - n - 1)
        }),
{
    let n: int = values.len() as int;
    let (t, w): (Single, Single) = (total(values), Single::whole(n));
    let u: int = crate::single::unit() as int;
    lemma_pow2_pos(149);
    lemma_total(values, low, high);
    crate::bounds::lemma_whole(n);
    let nu: int = n * u;
    assert(nu >= u) by (nonlinear_arith)
        requires
            nu == n * u,
            n >= 1,
            u > 0,
    ;
    crate::close::lemma_not_zero(w);
    crate::bounds::lemma_quotient(t, w);
    let tu: int = t.units() * u;
    let p: int = pow2(88 + 149) as int;
    assert(0 <= tu <= p * nu) by (nonlinear_arith)
        requires
            tu == t.units() * u,
            0 <= t.units() <= p,
            u <= nu,
            u > 0,
    ;
    crate::ocr::text::drawing::lemma_rounds_within(tu as nat, nu as nat, 88);
    let q: Single = Single::quotient(t, w);
    assert(q.finite());
    crate::close::lemma_quotient_close(t, w);
    let (x, y): (int, int) = (q.units(), t.units());
    let z: int = crate::close::scale_of(q) as int;
    assert(x * nu == (x * n) * u) by (nonlinear_arith)
        requires
            nu == n * u,
    ;
    assert(z * nu == (z * n) * u) by (nonlinear_arith)
        requires
            nu == n * u,
    ;
    let (xn, zn): (int, int) = (x * n, z * n);
    assert(0x100_0000 * (xn - y) <= zn && 0x100_0000 * (y - xn) <= zn) by (nonlinear_arith)
        requires
            0x100_0000 * (xn * u - y * u) <= zn * u,
            0x100_0000 * (y * u - xn * u) <= zn * u,
            u > 0,
    ;
    lemma_mean_bounds(x, y, z, n, low, high);
}

proof fn lemma_mean_bounds(x: int, y: int, z: int, n: int, low: int, high: int)
    requires
        1 <= n <= 0x40_0000,
        0 <= low <= high,
        x >= 0,
        z == 0x80_0000 || z == x,
        0x100_0000 * (x * n - y) <= z * n,
        0x100_0000 * (y - x * n) <= z * n,
        0x80_0000 * y <= (n * high) * (0x80_0000 + n),
        0x80_0000 * y >= (n * low) * (0x80_0000 - n),
    ensures
        0x80_0000 * x <= high * (0x80_0000 + n + 1) + 0x80_0000,
        0x80_0000 * x + 0x80_0000 >= low * (0x80_0000 - n - 1),
{
    let e: int = 0x80_0000;
    let (hh, ll): (int, int) = (high * (e + n), low * (e - n));
    assert((n * high) * (e + n) == n * hh && (n * low) * (e - n) == n * ll) by (nonlinear_arith)
        requires
            hh == high * (e + n),
            ll == low * (e - n),
    ;
    // the rounding of the quotient, without the number of values
    let ex: int = e * x;
    assert(e * (x * n) == n * ex) by (nonlinear_arith)
        requires
            ex == e * x,
    ;
    let zn: int = z * n;
    assert(e * zn == n * (e * z)) by (nonlinear_arith)
        requires
            zn == z * n,
    ;
    let ez: int = e * z;
    assert(0x100_0000 * (n * ex - n * hh) <= n * ez);
    assert(0x100_0000 * (n * ll - n * ex) <= n * ez);
    assert(0x100_0000 * (ex - hh) <= ez) by (nonlinear_arith)
        requires
            0x100_0000 * (n * ex - n * hh) <= n * ez,
            n >= 1,
    ;
    assert(0x100_0000 * (ll - ex) <= ez) by (nonlinear_arith)
        requires
            0x100_0000 * (n * ll - n * ex) <= n * ez,
            n >= 1,
    ;
    assert(high * (e + n + 1) == hh + high && low * (e - n - 1) == ll - low) by (nonlinear_arith)
        requires
            hh == high * (e + n),
            ll == low * (e - n),
    ;
    assert(hh <= 0xff_ffff * high && ll <= e * low) by (nonlinear_arith)
        requires
            hh == high * (e + n),
            ll == low * (e - n),
            1 <= n <= 0x40_0000,
            e == 0x80_0000,
            high >= 0,
            low >= 0,
    ;
    assert(hh >= 0 && ll >= 0) by (nonlinear_arith)
        requires
            hh == high * (e + n),
            ll == low * (e - n),
            1 <= n <= 0x40_0000,
            e == 0x80_0000,
            high >= 0,
            low >= 0,
    ;
}

} // verus!
