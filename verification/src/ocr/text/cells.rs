//! The convex hull of places on a grid, in exact arithmetic.
//!
//! A chain that takes in places in order and drops those where it does not turn left has all
//! of them on its left. Two such chains, there and back, are the hull.
use vstd::prelude::*;

verus! {

/// A place of the grid, or a step between two.
pub type Cell = (int, int);

/// The step from one place to another.
pub open spec fn step_to(from: Cell, to: Cell) -> Cell {
    (to.0 - from.0, to.1 - from.1)
}

/// Twice the area between two steps, positive where the second is to the left.
pub open spec fn wedge_of(u: Cell, v: Cell) -> int {
    u.0 * v.1 - u.1 * v.0
}

/// Which way the path `o`, `a`, `b` turns at `a`: positive to the left.
#[verifier::opaque]
pub open spec fn turn_of(o: Cell, a: Cell, b: Cell) -> int {
    wedge_of(step_to(o, a), step_to(o, b))
}

/// The step goes right, or straight up.
pub open spec fn rightward(u: Cell) -> bool {
    u.0 > 0 || u.0 == 0 && u.1 > 0
}

/// The step goes right, or straight up; the other way where `forward` is false.
pub open spec fn onward(u: Cell, forward: bool) -> bool {
    if forward {
        rightward(u)
    } else {
        rightward((-u.0, -u.1))
    }
}

/// The second place comes after the first.
#[verifier::opaque]
pub open spec fn after(a: Cell, b: Cell, forward: bool) -> bool {
    onward(step_to(a, b), forward)
}

/// How the areas between three steps are related.
pub proof fn lemma_three_steps(u: Cell, v: Cell, w: Cell)
    ensures
        wedge_of(u, w) * v.0 == wedge_of(v, w) * u.0 + wedge_of(u, v) * w.0,
        wedge_of(u, w) * v.1 == wedge_of(v, w) * u.1 + wedge_of(u, v) * w.1,
{
    let (a, b): (int, int) = (u.0, u.1);
    let (c, d): (int, int) = (v.0, v.1);
    let (e, f): (int, int) = (w.0, w.1);
    let (af, be, cf, de, ad, bc): (int, int, int, int, int, int) = (
        a * f,
        b * e,
        c * f,
        d * e,
        a * d,
        b * c,
    );
    assert((af - be) * c == af * c - be * c && (cf - de) * a == cf * a - de * a && (ad - bc) * e
        == ad * e - bc * e) by (nonlinear_arith);
    assert((af - be) * d == af * d - be * d && (cf - de) * b == cf * b - de * b && (ad - bc) * f
        == ad * f - bc * f) by (nonlinear_arith);
    assert((a * f) * c == (c * f) * a && (b * e) * c == (b * c) * e && (d * e) * a == (a * d) * e)
        by (nonlinear_arith);
    assert((a * f) * d == (a * d) * f && (b * e) * d == (d * e) * b && (c * f) * b == (b * c) * f)
        by (nonlinear_arith);
}

/// Among steps that go right, being to the left of is transitive.
proof fn lemma_left_rightward(u: Cell, v: Cell, w: Cell)
    requires
        rightward(u),
        rightward(v),
        rightward(w),
        wedge_of(u, v) >= 0,
        wedge_of(v, w) >= 0,
    ensures
        wedge_of(u, w) >= 0,
        wedge_of(u, v) > 0 || wedge_of(v, w) > 0 ==> wedge_of(u, w) > 0,
{
    let (ux, uy, vx, vy, wx, wy) = (u.0, u.1, v.0, v.1, w.0, w.1);
    let (uv, vw, uw): (int, int, int) = (wedge_of(u, v), wedge_of(v, w), wedge_of(u, w));
    lemma_three_steps(u, v, w);
    if vx > 0 {
        assert(vw * ux >= 0 && uv * wx >= 0) by (nonlinear_arith)
            requires
                vw >= 0,
                ux >= 0,
                uv >= 0,
                wx >= 0,
        ;
        assert(uw >= 0) by (nonlinear_arith)
            requires
                uw * vx >= 0,
                vx > 0,
        ;
        if ux == 0 {
            // straight up is to the left of nothing further right
            assert(uv < 0) by (nonlinear_arith)
                requires
                    uv == ux * vy - uy * vx,
                    ux == 0,
                    uy > 0,
                    vx > 0,
            ;
        }
        if wx == 0 {
            assert(uw > 0) by (nonlinear_arith)
                requires
                    uw == ux * wy - uy * wx,
                    wx == 0,
                    wy > 0,
                    ux > 0,
            ;
        } else if uv > 0 || vw > 0 {
            assert(uw * vx > 0) by (nonlinear_arith)
                requires
                    uw * vx == vw * ux + uv * wx,
                    ux > 0,
                    wx > 0,
                    uv >= 0,
                    vw >= 0,
                    uv > 0 || vw > 0,
            ;
            assert(uw > 0) by (nonlinear_arith)
                requires
                    uw * vx > 0,
                    vx > 0,
            ;
        }
    } else {
        assert(wx == 0) by (nonlinear_arith)
            requires
                vw == vx * wy - vy * wx,
                vw >= 0,
                vx == 0,
                vy > 0,
                wx >= 0,
        ;
        assert(vw == 0) by (nonlinear_arith)
            requires
                vw == vx * wy - vy * wx,
                vx == 0,
                wx == 0,
        ;
        assert(uv > 0 ==> ux > 0) by (nonlinear_arith)
            requires
                uv == ux * vy - uy * vx,
                vx == 0,
                ux >= 0,
        ;
        assert(uw >= 0 && (ux > 0 ==> uw > 0)) by (nonlinear_arith)
            requires
                uw == ux * wy - uy * wx,
                wx == 0,
                wy > 0,
                ux >= 0,
        ;
    }
}

/// Among steps that go one way, being to the left of is transitive.
proof fn lemma_left(u: Cell, v: Cell, w: Cell, forward: bool)
    requires
        onward(u, forward),
        onward(v, forward),
        onward(w, forward),
        wedge_of(u, v) >= 0,
        wedge_of(v, w) >= 0,
    ensures
        wedge_of(u, w) >= 0,
        wedge_of(u, v) > 0 || wedge_of(v, w) > 0 ==> wedge_of(u, w) > 0,
{
    if forward {
        lemma_left_rightward(u, v, w);
    } else {
        let (a, b, c): (Cell, Cell, Cell) = ((-u.0, -u.1), (-v.0, -v.1), (-w.0, -w.1));
        lemma_opposite(u, v);
        lemma_opposite(v, w);
        lemma_opposite(u, w);
        lemma_left_rightward(a, b, c);
    }
}

/// Turning both steps around keeps the area.
proof fn lemma_opposite(u: Cell, v: Cell)
    ensures
        wedge_of((-u.0, -u.1), (-v.0, -v.1)) == wedge_of(u, v),
{
    let (a, b, c, d): (int, int, int, int) = (u.0, u.1, v.0, v.1);
    assert((-a) * (-d) - (-b) * (-c) == a * d - b * c) by (nonlinear_arith);
}

/// A turn measured from its middle: the step that arrives against the step that leaves.
pub proof fn lemma_turn_steps(o: Cell, a: Cell, b: Cell)
    ensures
        turn_of(o, a, b) == wedge_of(step_to(o, a), step_to(a, b)),
        turn_of(o, a, b) == -wedge_of(step_to(o, a), step_to(b, a)),
        turn_of(o, a, b) == -turn_of(o, b, a),
        turn_of(a, b, o) == turn_of(o, a, b),
        turn_of(o, a, a) == 0,
        turn_of(o, a, o) == 0,
{
    reveal(turn_of);
    let (x, y): (int, int) = (a.0 - o.0, a.1 - o.1);
    let (p, q): (int, int) = (b.0 - a.0, b.1 - a.1);
    assert(x * (y + q) - y * (x + p) == x * q - y * p) by (nonlinear_arith);
    assert(x * (-q) - y * (-p) == -(x * q - y * p)) by (nonlinear_arith);
    assert((x + p) * y - (y + q) * x == -(x * q - y * p)) by (nonlinear_arith);
    assert(p * (-y) - q * (-x) == x * q - y * p) by (nonlinear_arith);
    assert(x * y - y * x == 0) by (nonlinear_arith);
    assert(x * 0 - y * 0 == 0);
}

/// Nothing comes after what comes after it, and nothing after itself.
pub proof fn lemma_after(a: Cell, b: Cell, forward: bool)
    ensures
        !(after(a, b, forward) && after(b, a, forward)),
        !after(a, a, forward),
{
    reveal(after);
}

/// None of places in order comes before the first or after the last.
pub proof fn lemma_ends(cells: Seq<Cell>, m: int, forward: bool)
    requires
        increasing(cells, forward),
        0 <= m < cells.len(),
    ensures
        !after(cells[m], cells.first(), forward),
        !after(cells.last(), cells[m], forward),
{
    let last: int = cells.len() - 1;
    lemma_after(cells[0], cells[m], forward);
    lemma_after(cells[last], cells[m], forward);
    if m > 0 {
        assert(after(cells[0], cells[m], forward));
    }
    if m < last {
        assert(after(cells[m], cells[last], forward));
    }
}

/// Three places after `o`, seen from there: being to the left of is transitive.
proof fn lemma_fan(o: Cell, p: Cell, t: Cell, q: Cell, forward: bool)
    requires
        after(o, p, forward),
        after(o, t, forward),
        after(o, q, forward),
        turn_of(o, t, p) <= 0,
        turn_of(o, t, q) >= 0,
    ensures
        turn_of(o, p, q) >= 0,
{
    lemma_turn_steps(o, t, p);
    assert(wedge_of(step_to(o, p), step_to(o, t)) >= 0 && wedge_of(step_to(o, t), step_to(o, q))
        >= 0) by {
        reveal(turn_of);
    }
    reveal(after);
    lemma_left(step_to(o, p), step_to(o, t), step_to(o, q), forward);
    reveal(turn_of);
}

/// A path that keeps turning left ends up on the left of where it began.
proof fn lemma_bend(x: Cell, y: Cell, z: Cell, p: Cell, forward: bool)
    requires
        after(x, y, forward),
        after(y, z, forward),
        after(y, p, forward),
        turn_of(x, y, z) > 0,
        turn_of(y, z, p) > 0,
    ensures
        turn_of(x, y, p) > 0,
{
    lemma_turn_steps(x, y, z);
    lemma_turn_steps(x, y, p);
    assert(wedge_of(step_to(y, z), step_to(y, p)) > 0) by {
        reveal(turn_of);
    }
    reveal(after);
    lemma_left(step_to(x, y), step_to(y, z), step_to(y, p), forward);
}

/// What lies behind on the left of a path stays on its left when the path turns left.
proof fn lemma_behind(s: Cell, t: Cell, p: Cell, q: Cell, forward: bool)
    requires
        after(s, t, forward),
        after(q, t, forward),
        after(t, p, forward),
        turn_of(s, t, q) >= 0,
        turn_of(s, t, p) > 0,
    ensures
        turn_of(t, p, q) >= 0,
{
    lemma_turn_steps(s, t, q);
    lemma_turn_steps(s, t, p);
    lemma_turn_steps(q, t, p);
    lemma_swap(step_to(s, t), step_to(q, t));
    reveal(after);
    lemma_left(step_to(q, t), step_to(s, t), step_to(t, p), forward);
}

proof fn lemma_swap(u: Cell, v: Cell)
    ensures
        wedge_of(u, v) == -wedge_of(v, u),
{
    let (a, b, c, d): (int, int, int, int) = (u.0, u.1, v.0, v.1);
    assert(a * d - b * c == -(c * b - d * a)) by (nonlinear_arith);
}

/// The chain with `p` at its end, after dropping the end places at which the path to `p`
/// would not turn left, down to `kept`.
pub open spec fn settled_cells(chain: Seq<Cell>, kept: nat, p: Cell) -> Seq<Cell>
    decreases chain.len(),
{
    if chain.len() > kept && chain.len() >= 2 && turn_of(
        chain[chain.len() - 2],
        chain[chain.len() - 1],
        p,
    ) <= 0 {
        settled_cells(chain.drop_last(), kept, p)
    } else {
        chain.push(p)
    }
}

/// The chain after taking in the places one by one.
pub open spec fn chained_cells(chain: Seq<Cell>, kept: nat, cells: Seq<Cell>) -> Seq<Cell>
    decreases cells.len(),
{
    if cells.len() == 0 {
        chain
    } else {
        settled_cells(chained_cells(chain, kept, cells.drop_last()), kept, cells.last())
    }
}

/// Each place comes after those before it.
pub open spec fn increasing(cells: Seq<Cell>, forward: bool) -> bool {
    forall|i: int, j: int|
        0 <= i < j < cells.len() ==> after(#[trigger] cells[i], #[trigger] cells[j], forward)
}

/// The edge at `i` has the place on its left or on it.
pub open spec fn edge_keeps(chain: Seq<Cell>, i: int, q: Cell) -> bool {
    turn_of(chain[i], chain[i + 1], q) >= 0
}

/// The path turns left at the corner after `i`.
pub open spec fn bends_at(chain: Seq<Cell>, i: int) -> bool {
    turn_of(chain[i], chain[i + 1], chain[i + 2]) > 0
}

/// Every corner of the chain is a turn to the left.
pub open spec fn bends_left(chain: Seq<Cell>) -> bool {
    forall|i: int| 0 <= i < chain.len() - 2 ==> #[trigger] bends_at(chain, i)
}

/// Every edge of the chain has all the places on its left or on it.
pub open spec fn keeps(chain: Seq<Cell>, cells: Seq<Cell>) -> bool {
    forall|i: int, k: int|
        0 <= i < chain.len() - 1 && 0 <= k < cells.len() ==> #[trigger] edge_keeps(
            chain,
            i,
            cells[k],
        )
}

/// All places of the chain are among the places.
pub open spec fn among(chain: Seq<Cell>, cells: Seq<Cell>) -> bool {
    forall|i: int| 0 <= i < chain.len() ==> cells.contains(#[trigger] chain[i])
}

/// The chain runs onward from the first of some places to the last, over some of them, bends
/// left, and has all of them on its left.
pub open spec fn is_chain(chain: Seq<Cell>, cells: Seq<Cell>, forward: bool) -> bool {
    &&& chain.len() >= 1
    &&& chain.first() == cells.first()
    &&& chain.last() == cells.last()
    &&& increasing(chain, forward)
    &&& bends_left(chain)
    &&& keeps(chain, cells)
    &&& among(chain, cells)
}

/// A place to the left of the last edge is to the left of all edges of a chain that bends left.
proof fn lemma_left_of_all(chain: Seq<Cell>, p: Cell, forward: bool, i: int)
    requires
        chain.len() >= 2,
        increasing(chain, forward),
        bends_left(chain),
        all_before(chain, p, forward),
        turn_of(chain[chain.len() - 2], chain[chain.len() - 1], p) > 0,
        0 <= i < chain.len() - 1,
    ensures
        turn_of(chain[i], chain[i + 1], p) > 0,
    decreases chain.len() - i,
{
    if i < chain.len() - 2 {
        lemma_left_of_all(chain, p, forward, i + 1);
        assert(bends_at(chain, i));
        lemma_bend(chain[i], chain[i + 1], chain[i + 2], p, forward);
    }
}

/// All the places come before `p`.
spec fn all_before(cells: Seq<Cell>, p: Cell, forward: bool) -> bool {
    forall|k: int| 0 <= k < cells.len() ==> after(#[trigger] cells[k], p, forward)
}

/// The path from `t` to `p` has the places after `t` on its left.
spec fn keeps_later(t: Cell, p: Cell, cells: Seq<Cell>, forward: bool) -> bool {
    forall|k: int|
        0 <= k < cells.len() && after(t, #[trigger] cells[k], forward) ==> turn_of(t, p, cells[k])
            >= 0
}

/// What is known of a chain while a new place is taken in: it is the beginning of a chain of
/// the earlier places, and the path from its end to the new place has the later ones of them
/// on its left.
spec fn is_settling(chain: Seq<Cell>, cells: Seq<Cell>, p: Cell, forward: bool) -> bool {
    &&& chain.len() >= 1
    &&& chain.first() == cells.first()
    &&& increasing(chain, forward)
    &&& bends_left(chain)
    &&& keeps(chain, cells)
    &&& among(chain, cells)
    &&& keeps_later(chain.last(), p, cells, forward)
}

/// A place of a chain comes before what all the places come before.
proof fn lemma_member_before(
    chain: Seq<Cell>,
    cells: Seq<Cell>,
    p: Cell,
    forward: bool,
)
    requires
        among(chain, cells),
        all_before(cells, p, forward),
    ensures
        all_before(chain, p, forward),
{
    assert forall|i: int| 0 <= i < chain.len() implies after(#[trigger] chain[i], p, forward) by {
        assert(cells.contains(chain[i]));
        let k: int = choose|k: int| 0 <= k < cells.len() && cells[k] == chain[i];
        assert(after(cells[k], p, forward));
    }
}

/// Dropping the end of a chain where the path does not turn left.
proof fn lemma_drop(chain: Seq<Cell>, cells: Seq<Cell>, p: Cell, forward: bool)
    requires
        is_settling(chain, cells, p, forward),
        chain.len() >= 2,
        turn_of(chain[chain.len() - 2], chain[chain.len() - 1], p) <= 0,
        all_before(cells, p, forward),
    ensures
        is_settling(chain.drop_last(), cells, p, forward),
{
    let n: int = chain.len() as int;
    let (s, t): (Cell, Cell) = (chain[n - 2], chain[n - 1]);
    let short: Seq<Cell> = chain.drop_last();
    assert(keeps_later(short.last(), p, cells, forward)) by {
        lemma_member_before(chain, cells, p, forward);
        assert forall|k: int| 0 <= k < cells.len() && after(
            s,
            #[trigger] cells[k],
            forward,
        ) implies turn_of(s, p, cells[k]) >= 0 by {
            assert(edge_keeps(chain, n - 2, cells[k]));
            lemma_fan(s, p, t, cells[k], forward);
        }
    }
    assert(keeps(short, cells)) by {
        assert forall|i: int, k: int|
            0 <= i < short.len() - 1 && 0 <= k < cells.len() implies #[trigger] edge_keeps(
            short,
            i,
            cells[k],
        ) by {
            assert(edge_keeps(chain, i, cells[k]));
        }
    }
    assert(among(short, cells)) by {
        assert forall|i: int| 0 <= i < short.len() implies cells.contains(#[trigger] short[i]) by {
            assert(cells.contains(chain[i]));
        }
    }
    assert(bends_left(short)) by {
        assert forall|i: int| 0 <= i < short.len() - 2 implies #[trigger] bends_at(short, i) by {
            assert(bends_at(chain, i));
        }
    }
}

/// The edge to a new place has every earlier place on its left.
proof fn lemma_new_edge(chain: Seq<Cell>, cells: Seq<Cell>, p: Cell, forward: bool, k: int)
    requires
        is_settling(chain, cells, p, forward),
        increasing(cells, forward),
        chain.len() >= 2 ==> turn_of(chain[chain.len() - 2], chain[chain.len() - 1], p) > 0,
        all_before(cells, p, forward),
        0 <= k < cells.len(),
    ensures
        turn_of(chain.last(), p, cells[k]) >= 0,
{
    let n: int = chain.len() as int;
    let (t, q): (Cell, Cell) = (chain[n - 1], cells[k]);
    assert(cells.contains(chain[n - 1]));
    let m: int = choose|m: int| 0 <= m < cells.len() && cells[m] == t;
    if k < m {
        // before the end of the chain
        if n == 1 {
            // the end is the first place, so nothing is before it
            assert(after(cells[0], cells[m], forward));
            lemma_after(t, t, forward);
        } else {
            assert(edge_keeps(chain, n - 2, cells[k]));
            lemma_behind(chain[n - 2], t, p, q, forward);
        }
    } else if k == m {
        lemma_turn_steps(t, p, q);
    }
}

/// Adding a place to the end of a chain where the path turns left.
proof fn lemma_add(chain: Seq<Cell>, cells: Seq<Cell>, p: Cell, forward: bool)
    requires
        cells.len() >= 1,
        is_settling(chain, cells, p, forward),
        increasing(cells, forward),
        chain.len() >= 2 ==> turn_of(chain[chain.len() - 2], chain[chain.len() - 1], p) > 0,
        all_before(cells, p, forward),
    ensures
        is_chain(chain.push(p), cells.push(p), forward),
{
    let n: int = chain.len() as int;
    let done: Seq<Cell> = chain.push(p);
    let all: Seq<Cell> = cells.push(p);
    lemma_member_before(chain, cells, p, forward);
    assert(keeps(done, all)) by {
        assert forall|i: int, k: int|
            0 <= i < done.len() - 1 && 0 <= k < all.len() implies #[trigger] edge_keeps(
            done,
            i,
            all[k],
        ) by {
            if i < n - 1 {
                if k < cells.len() {
                    assert(edge_keeps(chain, i, cells[k]));
                } else {
                    lemma_left_of_all(chain, p, forward, i);
                }
            } else if k < cells.len() {
                lemma_new_edge(chain, cells, p, forward, k);
            } else {
                lemma_turn_steps(chain[i], p, p);
            }
        }
    }
    assert(bends_left(done)) by {
        assert forall|i: int| 0 <= i < done.len() - 2 implies #[trigger] bends_at(done, i) by {
            if i < n - 2 {
                assert(bends_at(chain, i));
            }
        }
    }
    assert(among(done, all)) by {
        assert forall|i: int| 0 <= i < done.len() implies all.contains(#[trigger] done[i]) by {
            if i < n {
                assert(cells.contains(chain[i]));
                let k: int = choose|k: int| 0 <= k < cells.len() && cells[k] == chain[i];
                assert(all[k] == done[i]);
            } else {
                assert(all[cells.len() as int] == p);
            }
        }
    }
    assert(increasing(done, forward)) by {
        assert forall|i: int, j: int| 0 <= i < j < done.len() implies after(
            #[trigger] done[i],
            #[trigger] done[j],
            forward,
        ) by {
            assert(done[i] == chain[i]);
            if j < n {
                assert(done[j] == chain[j]);
            }
        }
    }
}

/// Taking in a place further on yields a chain again.
proof fn lemma_settled_chain(chain: Seq<Cell>, cells: Seq<Cell>, p: Cell, forward: bool)
    requires
        cells.len() >= 1,
        is_settling(chain, cells, p, forward),
        increasing(cells, forward),
        all_before(cells, p, forward),
    ensures
        is_chain(settled_cells(chain, 1, p), cells.push(p), forward),
    decreases chain.len(),
{
    let n: int = chain.len() as int;
    if n >= 2 && turn_of(chain[n - 2], chain[n - 1], p) <= 0 {
        lemma_drop(chain, cells, p, forward);
        lemma_settled_chain(chain.drop_last(), cells, p, forward);
    } else {
        lemma_add(chain, cells, p, forward);
    }
}

/// Taking in places one after another, each further on, yields a chain of them.
proof fn lemma_chain(cells: Seq<Cell>, forward: bool)
    requires
        cells.len() >= 1,
        increasing(cells, forward),
    ensures
        is_chain(chained_cells(Seq::empty(), 1, cells), cells, forward),
    decreases cells.len(),
{
    let rest: Seq<Cell> = cells.drop_last();
    let p: Cell = cells.last();
    assert(cells =~= rest.push(p));
    if rest.len() == 0 {
        let only: Seq<Cell> = Seq::<Cell>::empty().push(p);
        assert(chained_cells(Seq::empty(), 1, rest) == Seq::<Cell>::empty());
        assert(chained_cells(Seq::empty(), 1, cells) == only);
        assert(cells[0] == p);
        assert(only.len() == 1);
    } else {
        assert(increasing(rest, forward)) by {
            assert forall|i: int, j: int| 0 <= i < j < rest.len() implies after(
                #[trigger] rest[i],
                #[trigger] rest[j],
                forward,
            ) by {
                assert(after(cells[i], cells[j], forward));
            }
        }
        lemma_chain(rest, forward);
        let chain: Seq<Cell> = chained_cells(Seq::empty(), 1, rest);
        assert(all_before(rest, p, forward)) by {
            assert forall|k: int| 0 <= k < rest.len() implies after(
                #[trigger] rest[k],
                p,
                forward,
            ) by {
                assert(after(cells[k], cells[cells.len() - 1], forward));
            }
        }
        assert(keeps_later(chain.last(), p, rest, forward)) by {
            let last: int = rest.len() - 1;
            assert forall|k: int| 0 <= k < rest.len() && after(
                rest[last],
                #[trigger] rest[k],
                forward,
            ) implies turn_of(rest[last], p, rest[k]) >= 0 by {
                // nothing comes after the last place
                lemma_after(rest[k], rest[last], forward);
                assert(k < last ==> after(rest[k], rest[last], forward));
            }
        }
        lemma_settled_chain(chain, rest, p, forward);
    }
}

/// The corners of the hull of places that are in order and distinct.
pub open spec fn hull_cells(cells: Seq<Cell>) -> Seq<Cell> {
    let lower = chained_cells(Seq::empty(), 1, cells);
    chained_cells(lower, lower.len(), cells.drop_last().reverse()).drop_last()
}

/// A prefix that is kept plays no part in taking a place in.
proof fn lemma_settled_prefix(front: Seq<Cell>, chain: Seq<Cell>, p: Cell)
    requires
        chain.len() >= 1,
    ensures
        settled_cells(front + chain, (front.len() + 1) as nat, p) == front + settled_cells(
            chain,
            1,
            p,
        ),
        settled_cells(chain, 1, p).len() >= 1,
    decreases chain.len(),
{
    let whole: Seq<Cell> = front + chain;
    let n: int = whole.len() as int;
    if chain.len() >= 2 {
        assert(whole[n - 2] == chain[chain.len() - 2]);
        assert(whole[n - 1] == chain[chain.len() - 1]);
        assert(whole.drop_last() =~= front + chain.drop_last());
        lemma_settled_prefix(front, chain.drop_last(), p);
    }
    assert(whole.push(p) =~= front + chain.push(p));
}

/// A prefix that is kept plays no part in taking places in.
proof fn lemma_chained_prefix(front: Seq<Cell>, chain: Seq<Cell>, cells: Seq<Cell>)
    requires
        chain.len() >= 1,
    ensures
        chained_cells(front + chain, (front.len() + 1) as nat, cells) == front + chained_cells(
            chain,
            1,
            cells,
        ),
        chained_cells(chain, 1, cells).len() >= 1,
    decreases cells.len(),
{
    if cells.len() > 0 {
        lemma_chained_prefix(front, chain, cells.drop_last());
        lemma_settled_prefix(front, chained_cells(chain, 1, cells.drop_last()), cells.last());
    }
}

/// Beginning with a place is the same as taking it in first.
proof fn lemma_chained_first(first: Cell, cells: Seq<Cell>)
    ensures
        chained_cells(Seq::empty(), 1, seq![first] + cells) == chained_cells(seq![first], 1, cells),
    decreases cells.len(),
{
    let all: Seq<Cell> = seq![first] + cells;
    if cells.len() == 0 {
        assert(all.drop_last() =~= Seq::<Cell>::empty());
        assert(chained_cells(Seq::empty(), 1, all.drop_last()) == Seq::<Cell>::empty());
        assert(chained_cells(Seq::empty(), 1, all) =~= seq![first]);
    } else {
        assert(all.drop_last() =~= seq![first] + cells.drop_last());
        assert(all.last() == cells.last());
        lemma_chained_first(first, cells.drop_last());
    }
}

/// The hull is the chain below and the chain above, each without its end.
proof fn lemma_two_chains(cells: Seq<Cell>)
    requires
        cells.len() >= 2,
        increasing(cells, true),
    ensures
        ({
            let lower = chained_cells(Seq::empty(), 1, cells);
            let upper = chained_cells(Seq::empty(), 1, cells.reverse());
            &&& is_chain(lower, cells, true)
            &&& is_chain(upper, cells.reverse(), false)
            &&& lower.len() >= 2
            &&& upper.len() >= 2
            &&& hull_cells(cells) == lower.drop_last() + upper.drop_last()
        }),
{
    let back: Seq<Cell> = cells.reverse();
    let n: int = cells.len() as int;
    assert(increasing(back, false)) by {
        assert forall|i: int, j: int| 0 <= i < j < back.len() implies after(
            #[trigger] back[i],
            #[trigger] back[j],
            false,
        ) by {
            assert(back[i] == cells[n - 1 - i] && back[j] == cells[n - 1 - j]);
            assert(after(cells[n - 1 - j], cells[n - 1 - i], true));
            reveal(after);
        }
    }
    lemma_chain(cells, true);
    lemma_chain(back, false);
    let lower: Seq<Cell> = chained_cells(Seq::empty(), 1, cells);
    let upper: Seq<Cell> = chained_cells(Seq::empty(), 1, back);
    assert(after(cells[0], cells[n - 1], true));
    lemma_after(cells[0], cells[n - 1], true);
    assert(back[0] == cells[n - 1] && back[n - 1] == cells[0]);
    let front: Seq<Cell> = lower.drop_last();
    let last: Cell = cells.last();
    let rest: Seq<Cell> = cells.drop_last().reverse();
    assert(lower =~= front + seq![last]);
    lemma_chained_prefix(front, seq![last], rest);
    lemma_chained_first(last, rest);
    assert(back =~= seq![last] + rest);
    assert(hull_cells(cells) =~= front + upper.drop_last());
}

/// Where the path along an edge and on, backward, does not turn, everything is in line.
proof fn lemma_in_line(s: Cell, z: Cell, t: Cell, q: Cell, forward: bool)
    requires
        after(s, z, forward),
        after(z, t, !forward),
        turn_of(s, z, t) == 0,
        turn_of(s, z, q) >= 0,
        turn_of(z, t, q) >= 0,
    ensures
        turn_of(s, z, q) == 0,
{
    lemma_turn_steps(s, z, t);
    lemma_turn_steps(s, z, q);
    reveal(after);
    let (c, b, w): (Cell, Cell, Cell) = (step_to(s, z), step_to(z, t), step_to(z, q));
    assert(wedge_of(b, w) >= 0) by {
        reveal(turn_of);
    }
    if forward {
        lemma_opposed(c, b, w);
    } else {
        let (c2, b2, w2): (Cell, Cell, Cell) = ((-c.0, -c.1), (-b.0, -b.1), (-w.0, -w.1));
        lemma_opposite(c, b);
        lemma_opposite(c, w);
        lemma_opposite(b, w);
        lemma_opposed(c2, b2, w2);
    }
}

/// What is to the left of two opposite steps is in line with them.
proof fn lemma_opposed(c: Cell, b: Cell, w: Cell)
    requires
        rightward(c),
        rightward((-b.0, -b.1)),
        wedge_of(c, b) == 0,
        wedge_of(c, w) >= 0,
        wedge_of(b, w) >= 0,
    ensures
        wedge_of(c, w) == 0,
{
    let (cx, cy, bx, by_, wx, wy) = (c.0, c.1, b.0, b.1, w.0, w.1);
    let (cw, bw): (int, int) = (wedge_of(c, w), wedge_of(b, w));
    let cb: int = wedge_of(c, b);
    lemma_three_steps(c, b, w);
    assert(cb * wx == 0 && cb * wy == 0);
    if cx > 0 {
        assert(bx < 0) by (nonlinear_arith)
            requires
                cx * by_ - cy * bx == 0,
                cx > 0,
                bx < 0 || bx == 0 && by_ < 0,
        ;
        assert(cw == 0) by (nonlinear_arith)
            requires
                cw * bx == bw * cx,
                bw >= 0,
                cx > 0,
                bx < 0,
                cw >= 0,
        ;
    } else {
        assert(bx == 0) by (nonlinear_arith)
            requires
                cx * by_ - cy * bx == 0,
                cx == 0,
                cy > 0,
        ;
        assert(cw == 0) by (nonlinear_arith)
            requires
                cw * by_ == bw * cy,
                bw >= 0,
                cy > 0,
                by_ < 0,
                cw >= 0,
        ;
    }
}

/// Three places on one line make no turn.
proof fn lemma_line(s: Cell, z: Cell, x: Cell, y: Cell, v: Cell)
    requires
        s != z,
        turn_of(s, z, x) == 0,
        turn_of(s, z, y) == 0,
        turn_of(s, z, v) == 0,
    ensures
        turn_of(x, y, v) == 0,
{
    reveal(turn_of);
    let (cx, cy): (int, int) = (z.0 - s.0, z.1 - s.1);
    let (ax, ay): (int, int) = (y.0 - x.0, y.1 - x.1);
    let (bx, by_): (int, int) = (v.0 - x.0, v.1 - x.1);
    let (x0, x1, y0, y1, v0, v1) = (x.0 - s.0, x.1 - s.1, y.0 - s.0, y.1 - s.1, v.0 - s.0, v.1
        - s.1);
    assert(cx * ay == cy * ax) by (nonlinear_arith)
        requires
            cx * x1 - cy * x0 == 0,
            cx * y1 - cy * y0 == 0,
            ax == y0 - x0,
            ay == y1 - x1,
    ;
    assert(cx * by_ == cy * bx) by (nonlinear_arith)
        requires
            cx * x1 - cy * x0 == 0,
            cx * v1 - cy * v0 == 0,
            bx == v0 - x0,
            by_ == v1 - x1,
    ;
    let r: int = ax * by_ - ay * bx;
    assert(r * cx == 0 && r * cy == 0) by (nonlinear_arith)
        requires
            r == ax * by_ - ay * bx,
            cx * ay == cy * ax,
            cx * by_ == cy * bx,
    ;
    assert(r == 0) by (nonlinear_arith)
        requires
            r * cx == 0,
            r * cy == 0,
            cx != 0 || cy != 0,
    ;
}

/// The path turns left where one chain ends and the other begins, unless both are a single
/// edge.
proof fn lemma_joint(one: Seq<Cell>, other: Seq<Cell>, cells: Seq<Cell>, forward: bool)
    requires
        one.len() >= 2,
        other.len() >= 2,
        one.len() + other.len() >= 5,
        one.last() == other.first(),
        increasing(one, forward),
        increasing(other, !forward),
        keeps(one, cells),
        keeps(other, cells),
        among(one, cells),
        among(other, cells),
        bends_left(one),
        bends_left(other),
    ensures
        turn_of(one[one.len() - 2], one[one.len() - 1], other[1]) > 0,
{
    let n: int = one.len() as int;
    let (s, z, t): (Cell, Cell, Cell) = (one[n - 2], one[n - 1], other[1]);
    assert(after(one[n - 2], one[n - 1], forward));
    assert(after(other[0], other[1], !forward));
    lemma_after(s, z, forward);
    assert forall|q: Cell| cells.contains(q) implies #[trigger] turn_of(s, z, q) >= 0 by {
        let k: int = choose|k: int| 0 <= k < cells.len() && cells[k] == q;
        assert(edge_keeps(one, n - 2, cells[k]));
    }
    assert(cells.contains(other[1]));
    if turn_of(s, z, t) <= 0 {
        assert forall|q: Cell| cells.contains(q) implies #[trigger] turn_of(s, z, q) == 0 by {
            let k: int = choose|k: int| 0 <= k < cells.len() && cells[k] == q;
            assert(edge_keeps(other, 0, cells[k]));
            lemma_in_line(s, z, t, q, forward);
        }
        let long: Seq<Cell> = if n >= 3 {
            one
        } else {
            other
        };
        assert(cells.contains(long[0]) && cells.contains(long[1]) && cells.contains(long[2]));
        assert(bends_at(long, 0));
        lemma_line(s, z, long[0], long[1], long[2]);
    }
}

/// The position, counted round from the beginning again.
pub open spec fn wrapped(i: int, n: int) -> int {
    if i < n {
        i
    } else {
        i - n
    }
}

/// The edge from corner `i` to the next has the place on its left or on it.
pub open spec fn side_keeps(hull: Seq<Cell>, i: int, q: Cell) -> bool {
    turn_of(hull[i], hull[wrapped(i + 1, hull.len() as int)], q) >= 0
}

/// The path round turns left at the corner after `i`.
pub open spec fn corner_bends(hull: Seq<Cell>, i: int) -> bool {
    let n = hull.len() as int;
    turn_of(hull[i], hull[wrapped(i + 1, n)], hull[wrapped(i + 2, n)]) > 0
}

/// No three of the places make a turn.
pub open spec fn in_line(cells: Seq<Cell>) -> bool {
    forall|i: int, j: int, k: int|
        0 <= i < cells.len() && 0 <= j < cells.len() && 0 <= k < cells.len() ==> #[trigger] turn_of(
            cells[i],
            cells[j],
            cells[k],
        ) == 0
}

/// The corners go round the places to the left, from the first of them: all places are on the
/// left of each edge, or on it, no corner comes twice, and, where there are more than two
/// corners, the path turns left at each. Of places in line there are two corners, the first and
/// the last.
pub open spec fn goes_round(hull: Seq<Cell>, cells: Seq<Cell>) -> bool {
    let n = hull.len() as int;
    &&& n >= 2
    &&& hull.first() == cells.first()
    &&& hull.no_duplicates()
    &&& n == 2 ==> hull.last() == cells.last()
    &&& in_line(cells) ==> n == 2
    &&& forall|i: int, k: int|
        0 <= i < n && 0 <= k < cells.len() ==> #[trigger] side_keeps(hull, i, cells[k])
    &&& n >= 3 ==> forall|i: int| 0 <= i < n ==> #[trigger] corner_bends(hull, i)
    &&& among(hull, cells)
}

/// What a chain back over some places has on its left and is among, in their order.
proof fn lemma_turned_back(chain: Seq<Cell>, cells: Seq<Cell>)
    requires
        keeps(chain, cells.reverse()),
        among(chain, cells.reverse()),
    ensures
        keeps(chain, cells),
        among(chain, cells),
{
    let back: Seq<Cell> = cells.reverse();
    assert forall|i: int, k: int|
        0 <= i < chain.len() - 1 && 0 <= k < cells.len() implies #[trigger] edge_keeps(
        chain,
        i,
        cells[k],
    ) by {
        assert(edge_keeps(chain, i, back[cells.len() - 1 - k]));
    }
    assert forall|i: int| 0 <= i < chain.len() implies cells.contains(#[trigger] chain[i]) by {
        assert(back.contains(chain[i]));
        let k: int = choose|k: int| 0 <= k < back.len() && back[k] == chain[i];
        assert(cells[cells.len() - 1 - k] == chain[i]);
    }
}

/// A chain over places in line does not bend, so it has no corner.
proof fn lemma_no_bend(chain: Seq<Cell>, cells: Seq<Cell>)
    requires
        in_line(cells),
        among(chain, cells),
        bends_left(chain),
    ensures
        chain.len() < 3,
{
    if chain.len() >= 3 {
        assert(bends_at(chain, 0));
        assert(cells.contains(chain[0]) && cells.contains(chain[1]) && cells.contains(chain[2]));
        let i: int = choose|i: int| 0 <= i < cells.len() && cells[i] == chain[0];
        let j: int = choose|j: int| 0 <= j < cells.len() && cells[j] == chain[1];
        let k: int = choose|k: int| 0 <= k < cells.len() && cells[k] == chain[2];
        assert(turn_of(cells[i], cells[j], cells[k]) == 0);
    }
}

/// A place inside one chain is not inside the other, which goes the other way.
proof fn lemma_chains_apart(
    lower: Seq<Cell>,
    upper: Seq<Cell>,
    cells: Seq<Cell>,
    i: int,
    j: int,
)
    requires
        increasing(lower, true),
        increasing(upper, false),
        bends_left(lower),
        bends_left(upper),
        keeps(lower, cells),
        keeps(upper, cells),
        among(lower, cells),
        among(upper, cells),
        0 < i < lower.len() - 1,
        0 < j < upper.len() - 1,
    ensures
        lower[i] != upper[j],
{
    if lower[i] == upper[j] {
        let c: Cell = lower[i];
        let (p, n): (Cell, Cell) = (lower[i - 1], lower[i + 1]);
        let (q, r): (Cell, Cell) = (upper[j - 1], upper[j + 1]);
        // all steps to the right: from p to c, from c to n, from c to q, from r to c
        assert(after(lower[i - 1], lower[i], true) && after(lower[i], lower[i + 1], true));
        assert(after(upper[j - 1], upper[j], false) && after(upper[j], upper[j + 1], false));
        let (a, b): (Cell, Cell) = (step_to(p, c), step_to(r, c));
        let (d, e): (Cell, Cell) = (step_to(c, n), step_to(c, q));
        assert(rightward(a) && rightward(b) && rightward(d) && rightward(e)) by {
            reveal(after);
        }
        assert(bends_at(lower, i - 1) && bends_at(upper, j - 1));
        assert(cells.contains(upper[j - 1]) && cells.contains(upper[j + 1]));
        let kq: int = choose|k: int| 0 <= k < cells.len() && cells[k] == q;
        let kr: int = choose|k: int| 0 <= k < cells.len() && cells[k] == r;
        assert(edge_keeps(lower, i, cells[kq]));
        assert(edge_keeps(lower, i - 1, cells[kr]));
        lemma_turn_steps(p, c, n);
        lemma_turn_steps(q, c, r);
        lemma_turn_steps(p, c, r);
        assert(wedge_of(a, d) > 0);
        assert(wedge_of(d, e) >= 0) by {
            reveal(turn_of);
        }
        lemma_opposite(step_to(q, c), step_to(c, r));
        assert(wedge_of(e, b) > 0) by {
            assert((-step_to(q, c).0, -step_to(q, c).1) == e);
            assert((-step_to(c, r).0, -step_to(c, r).1) == b);
        }
        assert(wedge_of(a, b) <= 0);
        lemma_left_rightward(a, d, e);
        lemma_left_rightward(a, e, b);
    }
}

/// Two chains over the same places, there and back, go round them.
proof fn lemma_there_and_back(lower: Seq<Cell>, upper: Seq<Cell>, cells: Seq<Cell>)
    requires
        lower.len() >= 2,
        upper.len() >= 2,
        lower.last() == upper.first(),
        upper.last() == lower.first(),
        increasing(lower, true),
        increasing(upper, false),
        bends_left(lower),
        bends_left(upper),
        keeps(lower, cells),
        keeps(upper, cells),
        among(lower, cells),
        among(upper, cells),
        lower.first() == cells.first(),
        lower.last() == cells.last(),
    ensures
        goes_round(lower.drop_last() + upper.drop_last(), cells),
{
    let hull: Seq<Cell> = lower.drop_last() + upper.drop_last();
    let (a, b): (int, int) = (lower.len() - 1, upper.len() - 1);
    let n: int = hull.len() as int;
    assert forall|i: int, k: int| 0 <= i < n && 0 <= k < cells.len() implies #[trigger] side_keeps(
        hull,
        i,
        cells[k],
    ) by {
        if i < a {
            assert(edge_keeps(lower, i, cells[k]));
        } else {
            assert(edge_keeps(upper, i - a, cells[k]));
        }
    }
    assert forall|i: int| 0 <= i < n implies cells.contains(#[trigger] hull[i]) by {
        if i < a {
            assert(cells.contains(lower[i]));
        } else {
            assert(cells.contains(upper[i - a]));
        }
    }
    assert forall|i: int, j: int| 0 <= i < j < n implies hull[i] != hull[j] by {
        if j < a {
            assert(after(lower[i], lower[j], true));
            lemma_after(lower[i], lower[j], true);
        } else if i >= a {
            assert(after(upper[i - a], upper[j - a], false));
            lemma_after(upper[i - a], upper[j - a], false);
        } else if i == 0 {
            assert(after(upper[j - a], upper[b], false));
            lemma_after(upper[j - a], upper[b], false);
        } else if j == a {
            assert(after(lower[i], lower[a], true));
            lemma_after(lower[i], lower[a], true);
        } else {
            lemma_chains_apart(lower, upper, cells, i, j - a);
        }
    }
    assert(hull.no_duplicates());
    if in_line(cells) {
        if a >= 2 {
            lemma_no_bend(lower, cells);
        }
        if b >= 2 {
            lemma_no_bend(upper, cells);
        }
    }
    if n >= 3 {
        lemma_joint(lower, upper, cells, true);
        lemma_joint(upper, lower, cells, false);
        assert forall|i: int| 0 <= i < n implies #[trigger] corner_bends(hull, i) by {
            if i + 2 <= a {
                assert(bends_at(lower, i));
            } else if a <= i && i + 2 <= n {
                assert(bends_at(upper, i - a));
            }
        }
    }
}

/// The hull goes round the places.
pub proof fn lemma_goes_round(cells: Seq<Cell>)
    requires
        cells.len() >= 2,
        increasing(cells, true),
    ensures
        goes_round(hull_cells(cells), cells),
{
    let back: Seq<Cell> = cells.reverse();
    assert(back[0] == cells[cells.len() - 1] && back[cells.len() - 1] == cells[0]);
    lemma_two_chains(cells);
    let lower: Seq<Cell> = chained_cells(Seq::empty(), 1, cells);
    let upper: Seq<Cell> = chained_cells(Seq::empty(), 1, back);
    lemma_turned_back(upper, cells);
    lemma_there_and_back(lower, upper, cells);
}

} // verus!
