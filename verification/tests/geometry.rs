use fusion_ocr::ocr::text::geometry::{
    convex_hull, cross, maxf, min_area_quad, minf, short_side, signed_area, unclip, Point, Quad,
};
use fusion_ocr::single::Single;

fn s(v: f32) -> Single {
    Single::from_bits(v.to_bits())
}

fn f(v: Single) -> f32 {
    f32::from_bits(v.to_bits())
}

fn points(list: &[(f32, f32)]) -> Vec<Point> {
    list.iter().map(|p| (s(p.0), s(p.1))).collect()
}

fn plain(list: &[Point]) -> Vec<(f32, f32)> {
    list.iter().map(|p| (f(p.0), f(p.1))).collect()
}

fn quad(list: [(f32, f32); 4]) -> Quad {
    list.map(|p| (s(p.0), s(p.1)))
}

struct Patterns(u64);

impl Patterns {
    fn next(&mut self) -> u64 {
        self.0 = self.0.wrapping_mul(6364136223846793005).wrapping_add(1442695040888963407);
        self.0 >> 33
    }

    fn below(&mut self, n: u64) -> f32 {
        (self.next() % n) as f32
    }
}

// The same geometry on hardware numbers.

fn hypot(x: f32, y: f32) -> f32 {
    ((x as f64) * (x as f64) + (y as f64) * (y as f64)).sqrt() as f32
}

fn turn(o: (f32, f32), a: (f32, f32), b: (f32, f32)) -> f32 {
    (a.0 - o.0) * (b.1 - o.1) - (a.1 - o.1) * (b.0 - o.0)
}

fn hull(list: &[(f32, f32)]) -> Vec<(f32, f32)> {
    let mut sorted = list.to_vec();
    sorted.sort_by(|a, b| a.partial_cmp(b).unwrap());
    sorted.dedup();
    if sorted.len() <= 1 {
        return sorted;
    }
    let mut chain: Vec<(f32, f32)> = Vec::new();
    for &p in &sorted {
        while chain.len() >= 2 && turn(chain[chain.len() - 2], chain[chain.len() - 1], p) <= 0.0 {
            chain.pop();
        }
        chain.push(p);
    }
    let lower = chain.len();
    for &p in sorted.iter().rev().skip(1) {
        while chain.len() > lower && turn(chain[chain.len() - 2], chain[chain.len() - 1], p) <= 0.0 {
            chain.pop();
        }
        chain.push(p);
    }
    chain.pop();
    chain
}

fn rectangle(list: &[(f32, f32)]) -> [(f32, f32); 4] {
    let corners = hull(list);
    let n = corners.len();
    if n == 0 {
        return [(0.0, 0.0); 4];
    }
    if n < 3 {
        return [corners[0], corners[n - 1], corners[n - 1], corners[0]];
    }
    let (mut least, mut best) = (f32::INFINITY, [(0.0, 0.0); 4]);
    for i in 0..n {
        let (a, b) = (corners[i], corners[(i + 1) % n]);
        let (dx, dy) = (b.0 - a.0, b.1 - a.1);
        let len = hypot(dx, dy);
        if len < 1e-6 {
            continue;
        }
        let (ux, uy) = (dx / len, dy / len);
        let (nx, ny) = (-uy, ux);
        let (mut u0, mut u1) = (f32::INFINITY, f32::NEG_INFINITY);
        let (mut v0, mut v1) = (f32::INFINITY, f32::NEG_INFINITY);
        for p in &corners {
            let u = p.0 * ux + p.1 * uy;
            let v = p.0 * nx + p.1 * ny;
            (u0, u1) = (u0.min(u), u1.max(u));
            (v0, v1) = (v0.min(v), v1.max(v));
        }
        let area = (u1 - u0) * (v1 - v0);
        if area < least {
            least = area;
            let at = |u: f32, v: f32| (u * ux + v * nx, u * uy + v * ny);
            best = [at(u0, v0), at(u1, v0), at(u1, v1), at(u0, v1)];
        }
    }
    best
}

fn area(q: &[(f32, f32); 4]) -> f32 {
    let t = |i: usize| q[i].0 * q[(i + 1) % 4].1 - q[(i + 1) % 4].0 * q[i].1;
    (((t(0) + t(1)) + t(2)) + t(3)) / 2.0
}

fn expanded(quad: &[(f32, f32); 4], ratio: f32) -> [(f32, f32); 4] {
    let mut q = *quad;
    if area(&q) < 0.0 {
        q.swap(1, 3);
    }
    let size = area(&q).abs();
    let side = |i: usize| {
        let (a, b) = (q[i], q[(i + 1) % 4]);
        (b.0 - a.0, b.1 - a.1, hypot(b.0 - a.0, b.1 - a.1))
    };
    let around = ((side(0).2 + side(1).2) + side(2).2) + side(3).2;
    if around < 1e-6 {
        return *quad;
    }
    let d = size * ratio / around;
    let mut moved = [((0.0, 0.0), (0.0, 0.0)); 4];
    for i in 0..4 {
        let (dx, dy, len) = side(i);
        if len < 1e-6 {
            return *quad;
        }
        let (nx, ny) = (dy / len, -dx / len);
        moved[i] = ((q[i].0 + nx * d, q[i].1 + ny * d), (dx / len, dy / len));
    }
    let mut out = *quad;
    for i in 0..4 {
        let (p1, d1) = moved[(i + 3) % 4];
        let (p2, d2) = moved[i];
        let sine = d1.0 * d2.1 - d1.1 * d2.0;
        if sine.abs() < 1e-8 {
            return *quad;
        }
        let t = ((p2.0 - p1.0) * d2.1 - (p2.1 - p1.1) * d2.0) / sine;
        out[i] = (p1.0 + t * d1.0, p1.1 + t * d1.1);
    }
    out
}

fn bits(list: &[(f32, f32)]) -> Vec<(u32, u32)> {
    // the two zeros are the same place
    list.iter().map(|p| ((p.0 + 0.0).to_bits(), (p.1 + 0.0).to_bits())).collect()
}

#[test]
fn extremes_of_values() {
    let v: Vec<Single> = [3.0, -1.0, f32::NAN, 7.5].iter().map(|x| s(*x)).collect();
    assert_eq!(f(minf(&v)), -1.0);
    assert_eq!(f(maxf(&v)), 7.5);
    assert_eq!(f(minf(&[])), f32::INFINITY);
    assert_eq!(f(maxf(&[])), f32::NEG_INFINITY);
    assert_eq!(f(minf(&[s(f32::NAN)])), f32::INFINITY);
}

#[test]
fn turns_have_signs() {
    let (o, a) = ((s(0.0), s(0.0)), (s(2.0), s(0.0)));
    assert_eq!(f(cross(o, a, (s(2.0), s(3.0)))), 6.0);
    assert_eq!(f(cross(o, a, (s(2.0), s(-3.0)))), -6.0);
    assert_eq!(f(cross(o, a, (s(9.0), s(0.0)))), 0.0);
}

#[test]
fn hulls_of_few_points() {
    assert!(convex_hull(&[]).is_empty());
    let one = points(&[(1.0, 2.0), (1.0, 2.0)]);
    assert_eq!(plain(&convex_hull(&one)), [(1.0, 2.0)]);
    let two = points(&[(3.0, 1.0), (1.0, 2.0), (3.0, 1.0)]);
    assert_eq!(plain(&convex_hull(&two)), [(1.0, 2.0), (3.0, 1.0)]);
    let row = points(&[(0.0, 0.0), (1.0, 1.0), (2.0, 2.0), (3.0, 3.0)]);
    assert_eq!(plain(&convex_hull(&row)), [(0.0, 0.0), (3.0, 3.0)]);
}

#[test]
fn hull_of_a_square_with_points_inside() {
    let list = points(&[(4.0, 0.0), (2.0, 2.0), (0.0, 0.0), (0.0, 4.0), (4.0, 4.0), (2.0, 0.0)]);
    assert_eq!(plain(&convex_hull(&list)), [(0.0, 0.0), (4.0, 0.0), (4.0, 4.0), (0.0, 4.0)]);
}

#[test]
fn hulls_match_hardware() {
    let mut p = Patterns(11);
    for round in 0..400 {
        let n = 1 + p.next() % 40;
        let side = if round % 2 == 0 { 30 } else { 4000 };
        let list: Vec<(f32, f32)> = (0..n).map(|_| (p.below(side), p.below(side))).collect();
        let got = plain(&convex_hull(&points(&list)));
        assert_eq!(got, hull(&list));
        // every point lies to the left of every edge
        if got.len() >= 3 {
            for i in 0..got.len() {
                for q in &list {
                    assert!(turn(got[i], got[(i + 1) % got.len()], *q) >= 0.0);
                }
            }
        }
    }
}

#[test]
fn hulls_of_pixels_are_exact() {
    let mut p = Patterns(13);
    let turn = |o: (i64, i64), a: (i64, i64), b: (i64, i64)| {
        (a.0 - o.0) * (b.1 - o.1) - (a.1 - o.1) * (b.0 - o.0)
    };
    for round in 0..300 {
        let n = 1 + p.next() % 60;
        // many points in line on the small grids, the largest coordinates on the others
        let (side, from) = [(4, 0.0), (12, -6.0), (4097, -1.0), (4097, -3000.0)][round % 4];
        let list: Vec<(f32, f32)> =
            (0..n).map(|_| (p.below(side) + from, p.below(side) + from)).collect();
        let whole = |q: &(f32, f32)| (q.0 as i64, q.1 as i64);
        let all: Vec<(i64, i64)> = list.iter().map(whole).collect();
        let hull: Vec<(i64, i64)> =
            plain(&convex_hull(&points(&list))).iter().map(whole).collect();
        let m = hull.len();
        assert!(hull.iter().all(|c| all.contains(c)));
        if m == 1 {
            assert!(all.iter().all(|q| *q == hull[0]));
        }
        // from the least point, no corner twice, the two ends of points in line
        assert_eq!(hull[0], *all.iter().min().unwrap());
        for i in 0..m {
            assert!(!hull[..i].contains(&hull[i]));
        }
        if m == 2 {
            assert_eq!(hull[1], *all.iter().max().unwrap());
        }
        let (least, most) = (*all.iter().min().unwrap(), *all.iter().max().unwrap());
        if all.iter().all(|q| turn(least, most, *q) == 0) {
            assert!(m <= 2);
        }
        for i in 0..m {
            let (a, b, c) = (hull[i], hull[(i + 1) % m], hull[(i + 2) % m]);
            assert!(all.iter().all(|q| turn(a, b, *q) >= 0));
            assert!(m < 3 || turn(a, b, c) > 0);
        }
    }
}

#[test]
fn rectangles_match_hardware() {
    let mut p = Patterns(12);
    for _ in 0..200 {
        let n = 1 + p.next() % 30;
        let list: Vec<(f32, f32)> = (0..n).map(|_| (p.below(900), p.below(400))).collect();
        let got = min_area_quad(&points(&list));
        assert_eq!(bits(&plain(&got)), bits(&rectangle(&list)));
        let sides: Vec<f32> = (0..4)
            .map(|i| {
                let (a, b) = (plain(&got)[i], plain(&got)[(i + 1) % 4]);
                hypot(b.0 - a.0, b.1 - a.1)
            })
            .collect();
        assert_eq!(f(short_side(&got)), sides.iter().cloned().fold(f32::INFINITY, f32::min));
    }
}

#[test]
fn rectangles_hold_their_points() {
    let mut p = Patterns(14);
    for round in 0..200 {
        let n = 3 + p.next() % 40;
        let side = [5, 40, 4000][round % 3];
        let list: Vec<(f32, f32)> = (0..n).map(|_| (p.below(side), p.below(side))).collect();
        let q = plain(&min_area_quad(&points(&list)));
        let (a, b, d) = (q[0], q[1], q[3]);
        let (long, high) = (hypot(b.0 - a.0, b.1 - a.1), hypot(d.0 - a.0, d.1 - a.1));
        if long < 1.0 || high < 1.0 {
            continue;
        }
        for c in &list {
            let v = (f64::from(c.0 - a.0), f64::from(c.1 - a.1));
            let along = |t: (f32, f32), l: f32| {
                (v.0 * f64::from(t.0 - a.0) + v.1 * f64::from(t.1 - a.1)) / f64::from(l)
            };
            let (u, w) = (along(b, long), along(d, high));
            assert!(u > -0.02 && u < f64::from(long) + 0.02);
            assert!(w > -0.02 && w < f64::from(high) + 0.02);
        }
    }
}

#[test]
fn no_direction_gives_a_smaller_rectangle() {
    let mut patterns = Patterns(41);
    for round in 0..60u64 {
        let size = 3 + 9 * round;
        let list: Vec<(f32, f32)> = (0..3 + round % 25)
            .map(|_| (patterns.below(size) - 40.0, patterns.below(size)))
            .collect();
        let q = plain(&min_area_quad(&points(&list)));
        let side = |a: (f32, f32), b: (f32, f32)| hypot(b.0 - a.0, b.1 - a.1) as f64;
        let chosen = side(q[0], q[1]) * side(q[1], q[2]);
        for dx in -11i32..12 {
            for dy in 0i32..12 {
                if dx == 0 && dy == 0 {
                    continue;
                }
                let extent = |x: f64, y: f64| {
                    let all = list.iter().map(|p| x * p.0 as f64 + y * p.1 as f64);
                    all.clone().fold(f64::MIN, f64::max) - all.fold(f64::MAX, f64::min)
                };
                let (x, y) = (dx as f64, dy as f64);
                let tight = extent(x, y) * extent(-y, x) / (x * x + y * y);
                assert!(chosen <= tight + (size + 1) as f64 / 32.0);
            }
        }
    }
}

#[test]
fn rectangle_of_an_upright_box() {
    let list = points(&[(1.0, 2.0), (5.0, 2.0), (5.0, 4.0), (1.0, 4.0)]);
    let got = min_area_quad(&list);
    assert_eq!(plain(&got), [(1.0, 2.0), (5.0, 2.0), (5.0, 4.0), (1.0, 4.0)]);
    assert_eq!(f(short_side(&got)), 2.0);
    assert_eq!(f(signed_area(&got)), 8.0);
}

#[test]
fn rectangles_of_degenerate_points() {
    assert_eq!(plain(&min_area_quad(&[])), [(0.0, 0.0); 4]);
    let two = points(&[(1.0, 1.0), (4.0, 5.0)]);
    let got = min_area_quad(&two);
    assert_eq!(plain(&got), [(1.0, 1.0), (4.0, 5.0), (4.0, 5.0), (1.0, 1.0)]);
    assert_eq!(f(short_side(&got)), 0.0);
}

#[test]
fn unclip_moves_every_side_outward() {
    // area 8, perimeter 12, so every side moves by 8 * 1.5 / 12 = 1
    let box_ = quad([(1.0, 2.0), (5.0, 2.0), (5.0, 4.0), (1.0, 4.0)]);
    let got = unclip(&box_, s(1.5));
    assert_eq!(plain(&got), [(0.0, 1.0), (6.0, 1.0), (6.0, 5.0), (0.0, 5.0)]);
    // the other way round as well
    let turned = quad([(1.0, 2.0), (1.0, 4.0), (5.0, 4.0), (5.0, 2.0)]);
    assert_eq!(f(signed_area(&turned)), -8.0);
    let got = unclip(&turned, s(1.5));
    assert_eq!(plain(&got), [(0.0, 1.0), (6.0, 1.0), (6.0, 5.0), (0.0, 5.0)]);
}

#[test]
fn unclip_leaves_what_has_no_sides() {
    let dot = quad([(1.0, 1.0); 4]);
    assert_eq!(plain(&unclip(&dot, s(1.4))), [(1.0, 1.0); 4]);
    let flat = quad([(0.0, 0.0), (2.0, 0.0), (4.0, 0.0), (6.0, 0.0)]);
    assert_eq!(plain(&unclip(&flat, s(1.4))), plain(&flat));
    let short = quad([(0.0, 0.0), (0.0, 0.0), (4.0, 0.0), (4.0, 3.0)]);
    assert_eq!(plain(&unclip(&short, s(1.4))), plain(&short));
}

#[test]
fn unclip_matches_hardware() {
    let mut p = Patterns(13);
    for _ in 0..300 {
        let n = 3 + p.next() % 20;
        let list: Vec<(f32, f32)> = (0..n).map(|_| (p.below(700), p.below(300))).collect();
        let start = rectangle(&list);
        let got = unclip(&quad(start), s(1.4));
        assert_eq!(bits(&plain(&got)), bits(&expanded(&start, 1.4)));
    }
}
