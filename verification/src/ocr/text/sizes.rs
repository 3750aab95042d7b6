//! At which size a page is fed to the model that finds text lines.
//!
//! Pages with a short side are enlarged, pages with a long side are shrunk, and both sides
//! become multiples of 32, none above the limit for the longer side.
use crate::single::Single;
use vstd::arithmetic::power2::*;
use vstd::prelude::*;

verus! {

/// Pages whose shorter side is below this are enlarged.
pub const LIMIT_SIDE_LEN: u32 = 736;

/// No side the model is fed is longer than this.
pub const MAX_SIDE_LEN: u32 = 4000;

/// The bit pattern of 32.
pub const THIRTY_TWO: u32 = 0x4200_0000;

/// The smaller of two sides.
pub open spec fn shorter(w: u32, h: u32) -> u32 {
    if w < h {
        w
    } else {
        h
    }
}

/// The larger of two sides.
pub open spec fn longer(w: u32, h: u32) -> u32 {
    if w > h {
        w
    } else {
        h
    }
}

/// By how much a page is enlarged: what takes its shorter side to the limit.
pub open spec fn enlargement(w: u32, h: u32) -> Single {
    if shorter(w, h) < LIMIT_SIDE_LEN {
        Single::quotient(
            Single::whole(LIMIT_SIDE_LEN as int),
            Single::whole(shorter(w, h) as int),
        )
    } else {
        Single { bits: crate::single::ONE }
    }
}

/// The longer side of the enlarged page exceeds `max_side`.
pub open spec fn too_long(w: u32, h: u32, max_side: u32) -> bool {
    Single::whole(max_side as int).below(
        Single::product(Single::whole(longer(w, h) as int), enlargement(w, h)),
    )
}

/// By how much a page is scaled: up where its shorter side is below the limit, down
/// where its longer side would exceed `max_side`.
pub open spec fn scale_of(w: u32, h: u32, max_side: u32) -> Single {
    if too_long(w, h, max_side) {
        Single::quotient(Single::whole(max_side as int), Single::whole(longer(w, h) as int))
    } else {
        enlargement(w, h)
    }
}

/// A side after scaling, rounded to a multiple of 32 and at least 32.
pub open spec fn scaled_side(side: u32, scale: Single) -> int {
    let count = Single::quotient(
        Single::product(Single::whole(side as int), scale),
        Single { bits: THIRTY_TWO },
    ).rounded_off();
    Single::larger(count, Single { bits: crate::single::ONE }).to_whole(0, u32::MAX as int) * 32
}

/// The longest multiple of 32 that does not exceed `max_side`, and at least 32.
pub open spec fn longest_side(max_side: u32) -> int {
    if max_side < 32 {
        32
    } else {
        max_side as int / 32 * 32
    }
}

/// A side after scaling, rounded to a multiple of 32 within the limit.
pub open spec fn limited_side(side: u32, scale: Single, max_side: u32) -> int {
    if scaled_side(side, scale) < longest_side(max_side) {
        scaled_side(side, scale)
    } else {
        longest_side(max_side)
    }
}

/// A side after shrinking, cut to a multiple of 32 and at least 32.
pub open spec fn shrunk_side(side: int, scale: Single) -> int {
    let count = Single::product(Single::whole(side), scale).to_whole(0, u32::MAX as int) / 32;
    (if count < 1 { 1 } else { count }) * 32
}

/// The sides at which a page is fed to the model.
pub open spec fn fed_sides(w: u32, h: u32, max_side: u32) -> (int, int) {
    let scale = scale_of(w, h, max_side);
    let (rw, rh) = (limited_side(w, scale, max_side), limited_side(h, scale, max_side));
    let top = if rw > rh {
        rw
    } else {
        rh
    };
    if top > MAX_SIDE_LEN {
        let shrink = Single::quotient(Single::whole(MAX_SIDE_LEN as int), Single::whole(top));
        (shrunk_side(rw, shrink), shrunk_side(rh, shrink))
    } else {
        (rw, rh)
    }
}

/// A length that fits within `c + 1` comes out as at most `(c + 17) / 32` steps of 32.
proof fn lemma_scaled_side(side: u32, scale: Single, c: nat)
    requires
        c < 0x40_0000,
        ({
            let p = Single::product(Single::whole(side as int), scale);
            &&& p.finite()
            &&& !p.negative()
            &&& p.units() <= (c + 1) * crate::single::unit()
        }),
    ensures
        32 <= scaled_side(side, scale) <= (c + 17) / 32 * 32 || scaled_side(side, scale) == 32,
        scaled_side(side, scale) % 32 == 0,
{
    let u: nat = crate::single::unit();
    let p: Single = Single::product(Single::whole(side as int), scale);
    let thirty_two: Single = Single { bits: THIRTY_TWO };
    lemma2_to64();
    lemma_pow2_pos(149);
    lemma_pow2_pos(144);
    lemma_pow2_adds(5, 144);
    assert(u == 32 * pow2(144));
    // the constants
    assert(thirty_two.units() == 32 * u) by {
        crate::single::lemma_step_scaled(0x80_0000, 131);
        lemma_pow2_adds(23, 131);
        lemma_pow2_adds(5, 149);
    }
    let one: Single = Single { bits: crate::single::ONE };
    assert(one.units() == u) by {
        crate::single::lemma_step_scaled(0x80_0000, 126);
        lemma_pow2_adds(23, 126);
    }
    let x: Single = Single::quotient(p, thirty_two);
    crate::bounds::lemma_quotient(p, thirty_two);
    let h: nat = pow2(144);
    assert((c + 1) * h <= 0x100_0000 * h) by (nonlinear_arith)
        requires
            c < 0x40_0000,
    ;
    lemma_pow2_adds(24, 144);
    lemma_pow2_strictly_increases(168, 277);
    let m: nat = crate::bounds::lemma_on_scale(c + 1, 144);
    let pu: nat = p.units() as nat;
    assert(pu * u <= ((c + 1) * h) * (32 * u)) by (nonlinear_arith)
        requires
            pu <= (c + 1) * u,
            u == 32 * h,
    ;
    crate::bounds::lemma_nearest_at_most(pu * u, 32 * u, m);
    let xm: nat = x.magnitude();
    if xm < m {
        crate::single::lemma_step_increases(xm, m);
    }
    crate::bounds::lemma_top();
    if m >= 0x7f80_0000 {
        assert(false);
    }
    let xu: nat = x.units() as nat;
    assert(xu <= (c + 1) * h);
    // rounding off
    let n: nat = (2 * xu + u) / (2 * u);
    assert(n <= (c + 17) / 32) by (nonlinear_arith)
        requires
            n == (2 * xu + u) / (2 * u),
            xu <= (c + 1) * h,
            u == 32 * h,
            h > 0,
            c >= 0,
    ;
    let r: Single = x.rounded_off();
    reveal(Single::rounded_off);
    assert(0 <= n <= 0x100_0000);
    let mn: nat = crate::bounds::lemma_whole_on_scale(n);
    crate::bounds::lemma_rounded(x.negative(), n * u, 1);
    assert(r.units() == n * u);
    // at least one
    let l: Single = Single::larger(r, one);
    let k: nat = if n < 1 { 1nat } else { n };
    assert(l.units() == k * u) by {
        assert(1 * u == u);
        assert(n >= 1 ==> n * u >= u) by (nonlinear_arith)
            requires
                u > 0,
        ;
        assert(n < 1 ==> n * u == 0) by (nonlinear_arith)
            requires
                n >= 0,
        ;
    }
    assert(!l.nan() && !l.negative());
    reveal(Single::to_whole);
    assert((k * u) / u == k) by (nonlinear_arith)
        requires
            u > 0,
    ;
    assert(scaled_side(side, scale) == k * 32);
}

/// No scaled side exceeds `max_side` by one or more.
proof fn lemma_scale(w: u32, h: u32, max_side: u32, side: u32)
    requires
        w >= 1,
        h >= 1,
        max_side < 0x40_0000,
        side == w || side == h,
    ensures
        ({
            let p = Single::product(Single::whole(side as int), scale_of(w, h, max_side));
            &&& p.finite()
            &&& !p.negative()
            &&& p.units() <= (max_side + 1) * crate::single::unit()
        }),
{
    let u: nat = crate::single::unit();
    lemma2_to64();
    lemma_pow2_pos(149);
    let short: nat = shorter(w, h) as nat;
    let long: nat = longer(w, h) as nat;
    crate::bounds::lemma_whole(1);
    assert(1 * u == u);
    crate::bounds::lemma_whole_ordered(1, short);
    crate::bounds::lemma_whole_ordered(1, long);
    crate::bounds::lemma_whole_ordered(side as nat, long);
    crate::bounds::lemma_whole(max_side as int);
    let one: Single = Single { bits: crate::single::ONE };
    assert(one.units() == u) by {
        crate::single::lemma_step_scaled(0x80_0000, 126);
        lemma_pow2_adds(23, 126);
    }
    let up: Single = if short < LIMIT_SIDE_LEN {
        Single::quotient(Single::whole(LIMIT_SIDE_LEN as int), Single::whole(short as int))
    } else {
        one
    };
    crate::bounds::lemma_scaled_to(Single::whole(short as int), LIMIT_SIDE_LEN as nat);
    assert(up.finite() && !up.negative());
    let l: Single = Single::whole(long as int);
    crate::bounds::lemma_product(l, up);
    let s: Single = Single::whole(side as int);
    let scale: Single = scale_of(w, h, max_side);
    let cap: Single = Single::whole(max_side as int);
    if cap.below(Single::product(l, up)) {
        crate::bounds::lemma_scaled_to(l, max_side as nat);
    } else {
        assert(Single::product(l, up).units() <= max_side * u);
        assert(max_side * u <= (max_side + 1) * u) by (nonlinear_arith);
    }
    assert(scale.finite() && !scale.negative());
    crate::bounds::lemma_product(l, scale);
    assert(Single::product(l, scale).units() <= (max_side + 1) * u);
    crate::bounds::lemma_product(s, scale);
    crate::bounds::lemma_product_ordered(s, l, scale);
    let m: nat = crate::bounds::lemma_whole_on_scale((max_side + 1) as nat);
    crate::bounds::lemma_top();
    if Single::product(s, scale).infinite() {
        lemma_pow2_adds(23, 149);
        lemma_pow2_strictly_increases(172, 277);
        assert((max_side + 1) * u <= 0x80_0000 * u) by (nonlinear_arith)
            requires
                max_side < 0x40_0000,
        ;
        assert(false);
    }
}

/// A side shrunk by what takes `top` to 4000 comes out as at most 4000.
proof fn lemma_shrunk_side(side: int, top: int)
    requires
        32 <= side <= top < 0x80_0000,
    ensures
        ({
            let shrink = Single::quotient(
                Single::whole(MAX_SIDE_LEN as int),
                Single::whole(top),
            );
            &&& 32 <= shrunk_side(side, shrink) <= MAX_SIDE_LEN
            &&& shrunk_side(side, shrink) % 32 == 0
        }),
{
    let u: nat = crate::single::unit();
    lemma2_to64();
    lemma_pow2_pos(149);
    crate::bounds::lemma_whole(1);
    assert(1 * u == u);
    crate::bounds::lemma_whole_ordered(1, side as nat);
    crate::bounds::lemma_whole_ordered(side as nat, top as nat);
    let (s, l): (Single, Single) = (Single::whole(side), Single::whole(top));
    crate::bounds::lemma_scaled_to(l, MAX_SIDE_LEN as nat);
    let shrink: Single = Single::quotient(Single::whole(MAX_SIDE_LEN as int), l);
    crate::bounds::lemma_product(l, shrink);
    crate::bounds::lemma_product(s, shrink);
    crate::bounds::lemma_product_ordered(s, l, shrink);
    let p: Single = Single::product(s, shrink);
    reveal(Single::to_whole);
    let pu: nat = p.units() as nat;
    assert(pu / u <= 4001) by (nonlinear_arith)
        requires
            pu <= 4001 * u,
            u > 0,
    ;
}

/// A finite number that is not negative is at least a value of the scale where its magnitude
/// is.
proof fn lemma_at_least(x: Single, m: nat)
    requires
        !x.nan(),
        !x.negative(),
        x.magnitude() >= m,
    ensures
        x.units() >= crate::single::step(m),
{
    if x.magnitude() > m {
        crate::single::lemma_step_increases(m, x.magnitude());
    }
}

/// Enlarging a side below 736 to 736 and multiplying out gives at least 735.
proof fn lemma_enlarged(short: u32)
    requires
        1 <= short < LIMIT_SIDE_LEN,
    ensures
        ({
            let s = Single::whole(short as int);
            let up = Single::quotient(Single::whole(LIMIT_SIDE_LEN as int), s);
            &&& up.finite()
            &&& !up.negative()
            &&& Single::product(s, up).units() >= 735 * crate::single::unit()
        }),
{
    let u: nat = crate::single::unit();
    lemma2_to64();
    lemma_pow2_pos(149);
    crate::bounds::lemma_whole(short as int);
    crate::bounds::lemma_whole(736);
    let s: Single = Single::whole(short as int);
    let l: nat = short as nat * u;
    assert(l >= u && l <= 735 * u && l > 0) by (nonlinear_arith)
        requires
            l == short as nat * u,
            1 <= short < 736,
            u > 0,
    ;
    crate::bounds::lemma_scaled_to(s, 736);
    let up: Single = Single::quotient(Single::whole(736), s);
    crate::bounds::lemma_quotient(Single::whole(736), s);
    let num: nat = (736 * u) * u;
    let r: nat = up.units() as nat;
    // the ratio is at least one
    let one: nat = crate::bounds::lemma_whole_on_scale(1);
    assert(1 * u == u);
    assert(num >= u * l) by (nonlinear_arith)
        requires
            num == (736 * u) * u,
            l <= 735 * u,
            u > 0,
    ;
    crate::bounds::lemma_nearest_at_least(num, l, one);
    lemma_at_least(up, one);
    assert(u >= 0x80_0000) by {
        lemma_pow2_strictly_increases(23, 149);
    }
    crate::bounds::lemma_nearest_close(num, l);
    assert(0x100_0000 * (num - r * l) <= r * l);
    // and back
    let p: Single = Single::product(s, up);
    crate::bounds::lemma_product(s, up);
    let m: nat = crate::bounds::lemma_whole_on_scale(735);
    assert(l * r >= (735 * u) * u) by (nonlinear_arith)
        requires
            0x100_0000 * (num - r * l) <= r * l,
            num == (736 * u) * u,
            u > 0,
    ;
    crate::bounds::lemma_nearest_at_least(l * r, u, m);
    lemma_at_least(p, m);
}

/// A length of at least 735 comes out as at least 23 steps of 32.
proof fn lemma_scaled_side_least(side: u32, scale: Single)
    requires
        ({
            let p = Single::product(Single::whole(side as int), scale);
            &&& p.finite()
            &&& !p.negative()
            &&& 735 * crate::single::unit() <= p.units() <= 4001 * crate::single::unit()
        }),
    ensures
        scaled_side(side, scale) >= LIMIT_SIDE_LEN,
{
    let u: nat = crate::single::unit();
    let p: Single = Single::product(Single::whole(side as int), scale);
    let thirty_two: Single = Single { bits: THIRTY_TWO };
    lemma2_to64();
    lemma_pow2_pos(149);
    lemma_pow2_pos(144);
    lemma_pow2_adds(5, 144);
    assert(thirty_two.units() == 32 * u) by {
        crate::single::lemma_step_scaled(0x80_0000, 131);
        lemma_pow2_adds(23, 131);
        lemma_pow2_adds(5, 149);
    }
    let one: Single = Single { bits: crate::single::ONE };
    crate::bounds::lemma_one();
    let x: Single = Single::quotient(p, thirty_two);
    crate::bounds::lemma_quotient(p, thirty_two);
    let h: nat = pow2(144);
    assert(u == 32 * h);
    let pu: nat = p.units() as nat;
    // between 735 / 32 and 4001 / 32
    assert(735 * h <= 0x100_0000 * h && 4001 * h <= 0x100_0000 * h);
    lemma_pow2_adds(24, 144);
    lemma_pow2_strictly_increases(168, 277);
    let low: nat = crate::bounds::lemma_on_scale(735, 144);
    let high: nat = crate::bounds::lemma_on_scale(4001, 144);
    assert((735 * h) * (32 * u) <= pu * u <= (4001 * h) * (32 * u)) by (nonlinear_arith)
        requires
            735 * u <= pu <= 4001 * u,
            u == 32 * h,
    ;
    crate::bounds::lemma_nearest_at_least(pu * u, 32 * u, low);
    crate::bounds::lemma_nearest_at_most(pu * u, 32 * u, high);
    lemma_at_least(x, low);
    let xm: nat = x.magnitude();
    if xm < high {
        crate::single::lemma_step_increases(xm, high);
    }
    crate::bounds::lemma_top();
    assert(x.finite());
    let xu: nat = x.units() as nat;
    let n: nat = (2 * xu + u) / (2 * u);
    assert(23 <= n <= 126) by (nonlinear_arith)
        requires
            n == (2 * xu + u) / (2 * u),
            735 * h <= xu <= 4001 * h,
            u == 32 * h,
            h > 0,
    ;
    let r: Single = x.rounded_off();
    reveal(Single::rounded_off);
    let mn: nat = crate::bounds::lemma_whole_on_scale(n);
    crate::bounds::lemma_rounded(x.negative(), n * u, 1);
    assert(r.units() == n * u);
    assert(n * u >= u) by (nonlinear_arith)
        requires
            n >= 1,
    ;
    let l: Single = Single::larger(r, one);
    assert(l.units() == n * u);
    reveal(Single::to_whole);
    assert((n * u) / u == n) by (nonlinear_arith)
        requires
            u > 0,
    ;
}

/// A page whose longer side stays within the limit is fed with both sides at least 736: a
/// shorter side below that is enlarged to it.
pub proof fn lemma_short_pages_enlarged(w: u32, h: u32, max_side: u32)
    requires
        w >= 1,
        h >= 1,
        LIMIT_SIDE_LEN <= max_side <= MAX_SIDE_LEN,
        !too_long(w, h, max_side),
    ensures
        fed_sides(w, h, max_side).0 >= LIMIT_SIDE_LEN,
        fed_sides(w, h, max_side).1 >= LIMIT_SIDE_LEN,
{
    let u: nat = crate::single::unit();
    lemma_pow2_pos(149);
    let short: u32 = shorter(w, h);
    let scale: Single = scale_of(w, h, max_side);
    let s: Single = Single::whole(short as int);
    lemma_scale(w, h, max_side, w);
    lemma_scale(w, h, max_side, h);
    crate::bounds::lemma_whole_ordered(short as nat, w as nat);
    crate::bounds::lemma_whole_ordered(short as nat, h as nat);
    if short < LIMIT_SIDE_LEN {
        lemma_enlarged(short);
    } else {
        crate::bounds::lemma_one();
        crate::bounds::lemma_whole(736);
        crate::bounds::lemma_whole_ordered(736, short as nat);
        crate::bounds::lemma_product(s, scale);
        let m: nat = crate::bounds::lemma_whole_on_scale(736);
        let su: nat = s.units() as nat;
        assert(su * u >= (736 * u) * u) by (nonlinear_arith)
            requires
                su >= 736 * u,
        ;
        crate::bounds::lemma_nearest_at_least(su * u, u, m);
        lemma_at_least(Single::product(s, scale), m);
        assert(736 * u >= 735 * u);
    }
    crate::bounds::lemma_product_ordered(s, Single::whole(w as int), scale);
    crate::bounds::lemma_product_ordered(s, Single::whole(h as int), scale);
    assert((max_side + 1) * u <= 4001 * u) by (nonlinear_arith)
        requires
            max_side <= 4000,
    ;
    lemma_scaled_side(w, scale, max_side as nat);
    lemma_scaled_side(h, scale, max_side as nat);
    lemma_scaled_side_least(w, scale);
    lemma_scaled_side_least(h, scale);
}

/// The sides at which a page of these sides is fed to the model.
///
/// Both are multiples of 32 between 32 and 4000, and neither exceeds `max_det_side` where that
/// is at least 32.
pub fn resize_for_test(w: u32, h: u32, max_det_side: u32) -> (r: (u32, u32))
    requires
        w >= 1,
        h >= 1,
        max_det_side < 0x40_0000,
    ensures
        (r.0 as int, r.1 as int) == fed_sides(w, h, max_det_side),
        r.0 % 32 == 0,
        r.1 % 32 == 0,
        32 <= r.0 <= MAX_SIDE_LEN,
        32 <= r.1 <= MAX_SIDE_LEN,
        max_det_side >= 32 ==> r.0 <= max_det_side && r.1 <= max_det_side,
{
    let short: u32 = if w < h {
        w
    } else {
        h
    };
    let long: u32 = if w > h {
        w
    } else {
        h
    };
    let one: Single = Single::from_bits(crate::single::ONE);
    let mut ratio: Single = if short < LIMIT_SIDE_LEN {
        Single::from_u64(LIMIT_SIDE_LEN as u64).over(Single::from_u64(short as u64))
    } else {
        one
    };
    let long_side: Single = Single::from_u64(long as u64);
    let cap: Single = Single::from_u64(max_det_side as u64);
    if cap.lt(long_side.times(ratio)) {
        ratio = cap.over(long_side);
    }
    assert(ratio == scale_of(w, h, max_det_side));
    proof {
        lemma_scale(w, h, max_det_side, w);
        lemma_scale(w, h, max_det_side, h);
        lemma_scaled_side(w, ratio, max_det_side as nat);
        lemma_scaled_side(h, ratio, max_det_side as nat);
    }
    let step: Single = Single::from_bits(THIRTY_TWO);
    let sw: u32 = Single::from_u64(w as u64).times(ratio).over(step).round().max(one).to_u32() * 32;
    let sh: u32 = Single::from_u64(h as u64).times(ratio).over(step).round().max(one).to_u32() * 32;
    let most: u32 = if max_det_side < 32 {
        32
    } else {
        max_det_side / 32 * 32
    };
    let rw: u32 = if sw < most {
        sw
    } else {
        most
    };
    let rh: u32 = if sh < most {
        sh
    } else {
        most
    };
    let top: u32 = if rw > rh {
        rw
    } else {
        rh
    };
    if top > MAX_SIDE_LEN {
        proof {
            lemma_shrunk_side(rw as int, top as int);
            lemma_shrunk_side(rh as int, top as int);
        }
        let scale: Single = Single::from_u64(MAX_SIDE_LEN as u64).over(
            Single::from_u64(top as u64),
        );
        let nw: u32 = Single::from_u64(rw as u64).times(scale).to_u32() / 32;
        let nh: u32 = Single::from_u64(rh as u64).times(scale).to_u32() / 32;
        ((if nw < 1 { 1 } else { nw }) * 32, (if nh < 1 { 1 } else { nh }) * 32)
    } else {
        (rw, rh)
    }
}

} // verus!
