//! Sums, products and quotients are the numbers nearest to the exact ones.
use crate::single::{is_nearest, nearest, size, step, Single};
use vstd::arithmetic::power2::*;
use vstd::prelude::*;

verus! {

/// No value of the scale is nearer to a fraction than the one it rounds to; where another is as
/// near, the one it rounds to is even.
pub proof fn lemma_nearest_of_all(num: nat, den: nat, m: nat)
    requires
        den > 0,
        m <= 0x7f80_0000,
    ensures
        ({
            let n = nearest(num, den);
            let (got, other) = (size(step(n) * den - num), size(step(m) * den - num));
            got <= other && (got == other && n != m ==> n % 2 == 0)
        }),
{
    let n: nat = nearest(num, den);
    crate::single::lemma_nearest(num, den);
    assert(is_nearest(n, num, den));
    let (s, t): (int, int) = (step(n) as int, step(m) as int);
    if m > n {
        let next: int = step(n + 1) as int;
        if m > n + 1 {
            crate::single::lemma_step_increases(n + 1, m);
        }
        crate::single::lemma_step_increases(n, n + 1);
        lemma_above(num as int, den as int, s, next, t);
    } else if m < n {
        let prev: int = step((n - 1) as nat) as int;
        if m < n - 1 {
            crate::single::lemma_step_increases(m, (n - 1) as nat);
        }
        crate::single::lemma_step_increases((n - 1) as nat, n);
        lemma_below(num as int, den as int, s, prev, t);
    }
}

proof fn lemma_above(num: int, den: int, s: int, next: int, t: int)
    requires
        den > 0,
        s < next <= t,
        2 * num <= (s + next) * den,
    ensures
        size(s * den - num) <= size(t * den - num),
        2 * num < (s + next) * den ==> size(s * den - num) < size(t * den - num),
{
    let (a, b, c): (int, int, int) = (s * den, next * den, t * den);
    assert(a < b && b <= c && a + b == (s + next) * den) by (nonlinear_arith)
        requires
            a == s * den,
            b == next * den,
            c == t * den,
            s < next <= t,
            den > 0,
    ;
}

proof fn lemma_below(num: int, den: int, s: int, prev: int, t: int)
    requires
        den > 0,
        t <= prev < s,
        2 * num >= (prev + s) * den,
    ensures
        size(s * den - num) <= size(t * den - num),
        2 * num > (prev + s) * den ==> size(s * den - num) < size(t * den - num),
{
    let (a, b, c): (int, int, int) = (s * den, prev * den, t * den);
    assert(a > b && b >= c && b + a == (prev + s) * den) by (nonlinear_arith)
        requires
            a == s * den,
            b == prev * den,
            c == t * den,
            t <= prev < s,
            den > 0,
    ;
}

/// What a fraction of a sign rounds to is nearest to it among the numbers of either sign.
proof fn lemma_signed(r: Single, y: Single, exact: int, den: int)
    requires
        den > 0,
        !r.nan(),
        r.magnitude() == nearest(size(exact), den as nat),
        r.magnitude() <= 0x7f80_0000,
        exact >= 0 ==> r.units() >= 0,
        exact <= 0 ==> r.units() <= 0,
        y.finite(),
    ensures
        size(r.units() * den - exact) <= size(y.units() * den - exact),
        size(r.units() * den - exact) == size(y.units() * den - exact) && r.units() != y.units()
            ==> r.bits % 2 == 0,
{
    let n: nat = size(exact);
    let m: nat = y.magnitude();
    lemma_nearest_of_all(n, den as nat, m);
    lemma_nearest_of_all(n, den as nat, 0);
    assert(step(0) == 0);
    let (a, b): (int, int) = (step(r.magnitude()) as int, step(m) as int);
    assert(0 * den == 0);
    assert((-a) * den == -(a * den) && (-b) * den == -(b * den)) by (nonlinear_arith);
    assert(b * den >= 0 && a * den >= 0) by (nonlinear_arith)
        requires
            a >= 0,
            b >= 0,
            den > 0,
    ;
    if r.magnitude() != m {
        if r.magnitude() < m {
            crate::single::lemma_step_increases(r.magnitude(), m);
        } else {
            crate::single::lemma_step_increases(m, r.magnitude());
        }
    }
    if m > 0 {
        crate::single::lemma_step_increases(0, m);
        assert(b * den > 0) by (nonlinear_arith)
            requires
                b > 0,
                den > 0,
        ;
    }
    assert(r.bits % 2 == (r.magnitude() % 2) as u32);
}

/// A sum is the number nearest to the exact sum, and the even one of two that are as near.
pub proof fn lemma_sum_nearest(a: Single, b: Single, y: Single)
    requires
        a.finite(),
        b.finite(),
        y.finite(),
    ensures
        ({
            let r = Single::sum(a, b);
            let exact = a.units() + b.units();
            &&& !r.nan()
            &&& size(r.units() - exact) <= size(y.units() - exact)
            &&& size(r.units() - exact) == size(y.units() - exact) && r.units() != y.units()
                ==> r.bits % 2 == 0
        }),
{
    crate::bounds::lemma_sum(a, b);
    let r: Single = Single::sum(a, b);
    lemma_signed(r, y, a.units() + b.units(), 1);
    assert(r.units() * 1 == r.units() && y.units() * 1 == y.units());
}

/// A product is the number nearest to the exact product, and the even one of two that are as
/// near.
pub proof fn lemma_product_nearest(a: Single, b: Single, y: Single)
    requires
        a.finite(),
        b.finite(),
        y.finite(),
    ensures
        ({
            let r = Single::product(a, b);
            let exact = a.units() * b.units();
            let u = crate::single::unit();
            &&& !r.nan()
            &&& size(r.units() * u - exact) <= size(y.units() * u - exact)
            &&& size(r.units() * u - exact) == size(y.units() * u - exact) && r.units() != y.units()
                ==> r.bits % 2 == 0
        }),
{
    let u: int = crate::single::unit() as int;
    lemma_pow2_pos(149);
    crate::bounds::lemma_product(a, b);
    let r: Single = Single::product(a, b);
    let (x, z): (int, int) = (a.units(), b.units());
    crate::close::lemma_signed_product(x, z);
    lemma_zero_rounds(u as nat);
    crate::close::lemma_not_zero(a);
    crate::close::lemma_not_zero(b);
    lemma_signed(r, y, x * z, u);
}

proof fn lemma_zero_rounds(den: nat)
    requires
        den > 0,
    ensures
        nearest(0, den) == 0,
        step(0) == 0,
{
    crate::single::lemma_nearest_zero(den);
}

/// A quotient is the number nearest to the exact quotient, and the even one of two that are as
/// near.
pub proof fn lemma_quotient_nearest(a: Single, b: Single, y: Single)
    requires
        a.finite(),
        b.finite(),
        b.units() > 0,
        y.finite(),
    ensures
        ({
            let r = Single::quotient(a, b);
            let exact = a.units() * crate::single::unit();
            let l = b.units();
            &&& !r.nan()
            &&& size(r.units() * l - exact) <= size(y.units() * l - exact)
            &&& size(r.units() * l - exact) == size(y.units() * l - exact) && r.units() != y.units()
                ==> r.bits % 2 == 0
        }),
{
    let u: int = crate::single::unit() as int;
    lemma_pow2_pos(149);
    crate::close::lemma_not_zero(a);
    crate::close::lemma_not_zero(b);
    crate::bounds::lemma_quotient(a, b);
    let r: Single = Single::quotient(a, b);
    let (x, l): (int, int) = (a.units(), b.units());
    crate::close::lemma_signed_product(x, u);
    lemma_zero_rounds(l as nat);
    assert(x == 0 ==> size(x) * u == 0);
    lemma_signed(r, y, x * u, l);
}

/// Nothing comes of "not a number" but the same, nor of opposite infinities, of zero times
/// infinity, of zero over zero or of infinity over infinity. Over zero all else is infinite,
/// and over infinity all else is zero.
pub proof fn lemma_limits(a: Single, b: Single)
    ensures
        a.nan() || b.nan() ==> Single::sum(a, b).nan() && Single::product(a, b).nan()
            && Single::quotient(a, b).nan(),
        a.infinite() && b.infinite() && a.negative() != b.negative() ==> Single::sum(a, b).nan(),
        a.infinite() && b.infinite() && a.negative() == b.negative() ==> Single::sum(a, b) == a,
        a.infinite() && b.finite() ==> Single::sum(a, b) == a && Single::sum(b, a) == a,
        a.infinite() && b.zero() ==> Single::product(a, b).nan() && Single::product(b, a).nan(),
        a.zero() && b.zero() ==> Single::quotient(a, b).nan(),
        a.infinite() && b.infinite() ==> Single::quotient(a, b).nan(),
        a.finite() && !a.zero() && b.zero() ==> Single::quotient(a, b).infinite()
            && Single::quotient(a, b).negative() == (a.negative() != b.negative()),
        a.finite() && b.infinite() ==> Single::quotient(a, b).zero(),
{
    reveal(Single::sum);
    reveal(Single::product);
    reveal(Single::quotient);
}

/// The length of a vector is the number nearest to the exact one: the root of the sum of the
/// squares lies on its side of the midpoint between it and any other number.
pub proof fn lemma_hypotenuse_nearest(a: Single, b: Single, y: Single)
    requires
        a.finite(),
        b.finite(),
        y.finite(),
        y.units() >= 0,
    ensures
        ({
            let r = Single::hypotenuse(a, b);
            let exact = a.units() * a.units() + b.units() * b.units();
            let twice = r.units() + y.units();
            &&& !r.nan()
            &&& r.units() >= 0
            &&& y.units() > r.units() ==> twice * twice >= 4 * exact
            &&& y.units() < r.units() ==> twice * twice <= 4 * exact
        }),
{
    reveal(Single::hypotenuse);
    let (x, z): (int, int) = (a.units(), b.units());
    assert(x * x >= 0 && z * z >= 0) by (nonlinear_arith);
    let n: nat = (x * x + z * z) as nat;
    let k: nat = crate::single::nearest_root(n);
    crate::root::lemma_nearest_root(n);
    let r: Single = Single::hypotenuse(a, b);
    assert(r.magnitude() == k && !r.negative());
    let m: nat = y.magnitude();
    if y.negative() && m > 0 {
        crate::single::lemma_step_increases(0, m);
    }
    assert(step(0) == 0);
    let (s, t): (int, int) = (step(k) as int, step(m) as int);
    if t > s {
        if m <= k {
            if m < k {
                crate::single::lemma_step_increases(m, k);
            }
            assert(false);
        }
        let next: int = step(k + 1) as int;
        if m > k + 1 {
            crate::single::lemma_step_increases(k + 1, m);
        }
        assert((s + t) * (s + t) >= (s + next) * (s + next)) by (nonlinear_arith)
            requires
                t >= next,
                s >= 0,
                next >= 0,
        ;
    } else if t < s {
        if m >= k {
            if m > k {
                crate::single::lemma_step_increases(k, m);
            }
            assert(false);
        }
        let prev: int = step((k - 1) as nat) as int;
        if m < k - 1 {
            crate::single::lemma_step_increases(m, (k - 1) as nat);
        }
        assert((s + t) * (s + t) <= (prev + s) * (prev + s)) by (nonlinear_arith)
            requires
                0 <= t <= prev,
                s >= 0,
        ;
    }
}

} // verus!
