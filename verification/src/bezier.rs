//! Paths of lines and Bezier curves: transforming them, distorting them, and
//! rounding their corners.
use crate::bignum::lemma_power_positive;
use crate::double::{Double, INFINITE, SIGN};
use crate::float::{
    abs, at_most, divided, exact, f_add, f_at_most, f_div, f_less, f_max, f_min, f_mul, f_neg,
    f_same, f_sqrt, f_sub, from_count, half, halved, infinity, lemma_half_is_number, lemma_positive,
    lemma_rounded_exists, lemma_rounded_scaled, lemma_self_difference, lemma_whole, less, maximum,
    minimum, minus, negated, one_units, plus, same, square_root, times, whole,
};
use crate::steps::{
    is_plain, lemma_add, lemma_neg, lemma_nothing_times, lemma_one, lemma_order, lemma_plain,
    lemma_plus_nothing, lemma_same_value, lemma_steps, lemma_sub, lemma_sum_commutes,
    lemma_times_one, lemma_zero_rounds, lemma_zero_value,
};
use vstd::prelude::*;

verus! {

/// 1e-9 as a number: what is shorter counts as nothing.
pub const TINY: u64 = 0x3e11_2e0b_e826_d695;

/// 0.3 as a number.
pub const HANDLE_SHARE: u64 = 0x3fd3_3333_3333_3333;

/// 1e-3 as a number.
pub const EDGE_MARGIN: u64 = 0x3f50_624d_d2f1_a9fc;

/// 1 as a number.
pub const ONE: u64 = 0x3ff0_0000_0000_0000;

#[derive(Debug, Clone, Copy, PartialEq, Eq, Structural)]
pub struct Point {
    pub x: Double,
    pub y: Double,
}

/// An element of a path.
#[derive(Debug, Clone, Copy, PartialEq, Eq, Structural)]
pub enum PathEl {
    MoveTo(Point),
    LineTo(Point),
    QuadTo(Point, Point),
    CurveTo(Point, Point, Point),
    ClosePath,
}

/// An affine map: `x` goes to `a x + c y + e`, `y` to `b x + d y + f`.
#[derive(Debug, Clone, Copy, PartialEq, Eq, Structural)]
pub struct Affine {
    pub a: Double,
    pub b: Double,
    pub c: Double,
    pub d: Double,
    pub e: Double,
    pub f: Double,
}

pub open spec fn zero_point() -> Point {
    Point { x: (Double { bits: 0 }), y: (Double { bits: 0 }) }
}

/// Where a map sends a point.
pub open spec fn mapped(m: Affine, p: Point) -> Point {
    Point {
        x: f_add(f_add(f_mul(m.a, p.x), f_mul(m.c, p.y)), m.e),
        y: f_add(f_add(f_mul(m.b, p.x), f_mul(m.d, p.y)), m.f),
    }
}

pub fn map_point(m: &Affine, p: Point) -> (r: Point)
    ensures
        r == mapped(*m, p),
{
    Point {
        x: plus(plus(times(m.a, p.x), times(m.c, p.y)), m.e),
        y: plus(plus(times(m.b, p.x), times(m.d, p.y)), m.f),
    }
}

/// An element with every point of it replaced.
pub open spec fn with_points(el: PathEl, f: spec_fn(Point) -> Point) -> PathEl {
    match el {
        PathEl::MoveTo(p) => PathEl::MoveTo(f(p)),
        PathEl::LineTo(p) => PathEl::LineTo(f(p)),
        PathEl::QuadTo(c, p) => PathEl::QuadTo(f(c), f(p)),
        PathEl::CurveTo(c1, c2, p) => PathEl::CurveTo(f(c1), f(c2), f(p)),
        PathEl::ClosePath => PathEl::ClosePath,
    }
}

/// A path with every point of it replaced.
pub open spec fn path_with_points(path: Seq<PathEl>, f: spec_fn(Point) -> Point) -> Seq<PathEl> {
    path.map_values(|el: PathEl| with_points(el, f))
}

/// The path with the map baked into its coordinates.
pub fn apply_affine_to_path(path: &Vec<PathEl>, m: &Affine) -> (r: Vec<PathEl>)
    ensures
        r@ == path_with_points(path@, |p: Point| mapped(*m, p)),
{
    let ghost f = |p: Point| mapped(*m, p);
    let mut out: Vec<PathEl> = Vec::new();
    let mut i: usize = 0;
    while i < path.len()
        invariant
            i <= path.len(),
            f == (|p: Point| mapped(*m, p)),
            out@ == path_with_points(path@, f).take(i as int),
        decreases path.len() - i,
    {
        let el = match path[i] {
            PathEl::MoveTo(p) => PathEl::MoveTo(map_point(m, p)),
            PathEl::LineTo(p) => PathEl::LineTo(map_point(m, p)),
            PathEl::QuadTo(c, p) => PathEl::QuadTo(map_point(m, c), map_point(m, p)),
            PathEl::CurveTo(c1, c2, p) => PathEl::CurveTo(
                map_point(m, c1),
                map_point(m, c2),
                map_point(m, p),
            ),
            PathEl::ClosePath => PathEl::ClosePath,
        };
        assert(el == path_with_points(path@, f)[i as int]);
        out.push(el);
        i += 1;
        assert(out@ =~= path_with_points(path@, f).take(i as int));
    }
    assert(path_with_points(path@, f).take(path@.len() as int) =~= path_with_points(path@, f));
    out
}

/// The distance over which `dx` and `dy` lead.
pub open spec fn span(dx: Double, dy: Double) -> Double {
    f_sqrt(f_add(f_mul(dx, dx), f_mul(dy, dy)))
}

fn span_of(dx: Double, dy: Double) -> (r: Double)
    ensures
        r == span(dx, dy),
{
    square_root(plus(times(dx, dx), times(dy, dy)))
}

/// A point moved away from `center` in proportion to its distance.
pub open spec fn displaced(p: Point, strength: Double, center: Point) -> Point {
    let dx = f_sub(p.x, center.x);
    let dy = f_sub(p.y, center.y);
    let factor = f_add((Double { bits: ONE }), strength);
    if f_less(span(dx, dy), (Double { bits: TINY })) {
        p
    } else {
        Point {
            x: f_add(center.x, f_mul(dx, factor)),
            y: f_add(center.y, f_mul(dy, factor)),
        }
    }
}

fn displace(p: Point, strength: Double, center: Point) -> (r: Point)
    ensures
        r == displaced(p, strength, center),
{
    let dx = minus(p.x, center.x);
    let dy = minus(p.y, center.y);
    if less(span_of(dx, dy), (Double { bits: TINY })) {
        return p;
    }
    let factor = plus((Double { bits: ONE }), strength);
    Point { x: plus(center.x, times(dx, factor)), y: plus(center.y, times(dy, factor)) }
}

/// Displaces every point radially from `center`: outward where `strength` is
/// positive, inward where it is negative.
pub fn apply_pucker_bloat(path: &Vec<PathEl>, strength: Double, center: Point) -> (r: Vec<PathEl>)
    ensures
        r@ == path_with_points(path@, |p: Point| displaced(p, strength, center)),
{
    let ghost f = |p: Point| displaced(p, strength, center);
    let mut out: Vec<PathEl> = Vec::new();
    let mut i: usize = 0;
    while i < path.len()
        invariant
            i <= path.len(),
            f == (|p: Point| displaced(p, strength, center)),
            out@ == path_with_points(path@, f).take(i as int),
        decreases path.len() - i,
    {
        let el = match path[i] {
            PathEl::MoveTo(p) => PathEl::MoveTo(displace(p, strength, center)),
            PathEl::LineTo(p) => PathEl::LineTo(displace(p, strength, center)),
            PathEl::QuadTo(c, p) => PathEl::QuadTo(
                displace(c, strength, center),
                displace(p, strength, center),
            ),
            PathEl::CurveTo(c1, c2, p) => PathEl::CurveTo(
                displace(c1, strength, center),
                displace(c2, strength, center),
                displace(p, strength, center),
            ),
            PathEl::ClosePath => PathEl::ClosePath,
        };
        assert(el == path_with_points(path@, f)[i as int]);
        out.push(el);
        i += 1;
        assert(out@ =~= path_with_points(path@, f).take(i as int));
    }
    assert(path_with_points(path@, f).take(path@.len() as int) =~= path_with_points(path@, f));
    out
}

/// How many points an element has.
pub open spec fn point_count(el: PathEl) -> nat {
    match el {
        PathEl::MoveTo(_) => 1,
        PathEl::LineTo(_) => 1,
        PathEl::QuadTo(_, _) => 2,
        PathEl::CurveTo(_, _, _) => 3,
        PathEl::ClosePath => 0,
    }
}

/// How many points a path has.
pub open spec fn points_in(path: Seq<PathEl>) -> nat
    decreases path.len(),
{
    if path.len() == 0 {
        0
    } else {
        points_in(path.drop_last()) + point_count(path.last())
    }
}

proof fn lemma_points_grow(path: Seq<PathEl>, i: int)
    requires
        0 <= i < path.len(),
    ensures
        points_in(path.take(i)) + point_count(path[i]) <= points_in(path),
    decreases path.len(),
{
    if i == path.len() - 1 {
        assert(path.take(i) =~= path.drop_last());
    } else {
        lemma_points_grow(path.drop_last(), i);
        assert(path.drop_last().take(i) =~= path.take(i));
    }
}

/// The point number `k` of a path, moved by the random numbers that belong to it.
pub open spec fn roughened(p: Point, size: Double, values: Seq<(Double, Double)>, k: nat) -> Point {
    Point {
        x: f_add(p.x, f_mul(values[k as int].0, size)),
        y: f_add(p.y, f_mul(values[k as int].1, size)),
    }
}

/// An element whose first point is number `k` of the path.
pub open spec fn rough_element(
    el: PathEl,
    size: Double,
    values: Seq<(Double, Double)>,
    k: nat,
) -> PathEl {
    match el {
        PathEl::MoveTo(p) => PathEl::MoveTo(roughened(p, size, values, k)),
        PathEl::LineTo(p) => PathEl::LineTo(roughened(p, size, values, k)),
        PathEl::QuadTo(c, p) => PathEl::QuadTo(
            roughened(c, size, values, k),
            roughened(p, size, values, k + 1),
        ),
        PathEl::CurveTo(c1, c2, p) => PathEl::CurveTo(
            roughened(c1, size, values, k),
            roughened(c2, size, values, k + 1),
            roughened(p, size, values, k + 2),
        ),
        PathEl::ClosePath => PathEl::ClosePath,
    }
}

/// The path with every point moved by its random numbers.
pub open spec fn rough_path(
    path: Seq<PathEl>,
    size: Double,
    values: Seq<(Double, Double)>,
) -> Seq<PathEl> {
    Seq::new(
        path.len(),
        |i: int| rough_element(path[i], size, values, points_in(path.take(i))),
    )
}

fn roughen(p: Point, size: Double, values: &Vec<(Double, Double)>, k: usize) -> (r: Point)
    requires
        k < values.len(),
    ensures
        r == roughened(p, size, values@, k as nat),
{
    Point { x: plus(p.x, times(values[k].0, size)), y: plus(p.y, times(values[k].1, size)) }
}

/// Displaces every point by random numbers between -1 and 1, times `size`: each
/// point takes the next pair of `values`.
pub fn apply_roughen(path: &Vec<PathEl>, size: Double, values: &Vec<(Double, Double)>) -> (r: Vec<
    PathEl,
>)
    requires
        points_in(path@) <= values.len(),
    ensures
        r@ == rough_path(path@, size, values@),
{
    let ghost goal = rough_path(path@, size, values@);
    let mut out: Vec<PathEl> = Vec::new();
    let mut k: usize = 0;
    let mut i: usize = 0;
    assert(path@.take(0) =~= Seq::<PathEl>::empty());
    while i < path.len()
        invariant
            i <= path.len(),
            goal == rough_path(path@, size, values@),
            points_in(path@) <= values.len(),
            k == points_in(path@.take(i as int)),
            out@ == goal.take(i as int),
        decreases path.len() - i,
    {
        proof {
            lemma_points_grow(path@, i as int);
            assert(path@.take(i + 1).drop_last() =~= path@.take(i as int));
            assert(path@.take(i + 1).last() == path@[i as int]);
        }
        let el = match path[i] {
            PathEl::MoveTo(p) => {
                k += 1;
                PathEl::MoveTo(roughen(p, size, values, k - 1))
            },
            PathEl::LineTo(p) => {
                k += 1;
                PathEl::LineTo(roughen(p, size, values, k - 1))
            },
            PathEl::QuadTo(c, p) => {
                k += 2;
                PathEl::QuadTo(roughen(c, size, values, k - 2), roughen(p, size, values, k - 1))
            },
            PathEl::CurveTo(c1, c2, p) => {
                k += 3;
                PathEl::CurveTo(
                    roughen(c1, size, values, k - 3),
                    roughen(c2, size, values, k - 2),
                    roughen(p, size, values, k - 1),
                )
            },
            PathEl::ClosePath => PathEl::ClosePath,
        };
        assert(el == goal[i as int]);
        out.push(el);
        i += 1;
        assert(out@ =~= goal.take(i as int));
    }
    assert(goal.take(path@.len() as int) =~= goal);
    out
}

/// The points of an element.
pub open spec fn element_points(el: PathEl) -> Seq<Point> {
    match el {
        PathEl::MoveTo(p) => seq![p],
        PathEl::LineTo(p) => seq![p],
        PathEl::QuadTo(c, p) => seq![c, p],
        PathEl::CurveTo(c1, c2, p) => seq![c1, c2, p],
        PathEl::ClosePath => Seq::empty(),
    }
}

/// The points of a path, in order.
pub open spec fn all_points(path: Seq<PathEl>) -> Seq<Point>
    decreases path.len(),
{
    if path.len() == 0 {
        Seq::empty()
    } else {
        all_points(path.drop_last()) + element_points(path.last())
    }
}

/// The points of a path, in order.
pub fn path_points(path: &Vec<PathEl>) -> (r: Vec<Point>)
    ensures
        r@ == all_points(path@),
{
    let mut out: Vec<Point> = Vec::new();
    let mut i: usize = 0;
    assert(path@.take(0) =~= Seq::<PathEl>::empty());
    while i < path.len()
        invariant
            i <= path.len(),
            out@ == all_points(path@.take(i as int)),
        decreases path.len() - i,
    {
        proof {
            assert(path@.take(i + 1).drop_last() =~= path@.take(i as int));
            assert(path@.take(i + 1).last() == path@[i as int]);
        }
        let ghost before = out@;
        match path[i] {
            PathEl::MoveTo(p) => out.push(p),
            PathEl::LineTo(p) => out.push(p),
            PathEl::QuadTo(c, p) => {
                out.push(c);
                out.push(p);
            },
            PathEl::CurveTo(c1, c2, p) => {
                out.push(c1);
                out.push(c2);
                out.push(p);
            },
            PathEl::ClosePath => {},
        }
        assert(out@ =~= before + element_points(path@[i as int]));
        i += 1;
    }
    assert(path@.take(path@.len() as int) =~= path@);
    out
}

/// The distance of a point from `center`.
pub open spec fn reach(p: Point, center: Point) -> Double {
    span(f_sub(p.x, center.x), f_sub(p.y, center.y))
}

/// The largest distance of a point from `center`, at least zero.
pub open spec fn longest_reach(points: Seq<Point>, center: Point) -> Double
    decreases points.len(),
{
    if points.len() == 0 {
        Double { bits: 0 }
    } else {
        let before = longest_reach(points.drop_last(), center);
        let here = reach(points.last(), center);
        if f_less(before, here) {
            here
        } else {
            before
        }
    }
}

/// By how much a point is turned: fully at the centre, not at all at the largest
/// distance.
pub open spec fn twirl_angle(p: Point, angle: Double, center: Point, longest: Double) -> Double {
    let one = (Double { bits: ONE });
    f_mul(angle, f_sub(one, f_min(f_div(reach(p, center), longest), one)))
}

/// The angles by which the points of a path are turned; `None` where the whole
/// path lies at the centre and stays as it is.
pub open spec fn twirl_angles(path: Seq<PathEl>, angle: Double, center: Point) -> Option<
    Seq<Double>,
> {
    let points = all_points(path);
    let longest = longest_reach(points, center);
    if f_less(longest, (Double { bits: TINY })) {
        None
    } else {
        Some(points.map_values(|p: Point| twirl_angle(p, angle, center, longest)))
    }
}

fn longest_reach_of(points: &Vec<Point>, center: Point) -> (r: Double)
    ensures
        r == longest_reach(points@, center),
{
    let mut best = Double { bits: 0 };
    let mut i: usize = 0;
    assert(points@.take(0) =~= Seq::<Point>::empty());
    while i < points.len()
        invariant
            i <= points.len(),
            best == longest_reach(points@.take(i as int), center),
        decreases points.len() - i,
    {
        proof {
            assert(points@.take(i + 1).drop_last() =~= points@.take(i as int));
            assert(points@.take(i + 1).last() == points@[i as int]);
        }
        let p = points[i];
        let here = span_of(minus(p.x, center.x), minus(p.y, center.y));
        if less(best, here) {
            best = here;
        }
        i += 1;
    }
    assert(points@.take(points@.len() as int) =~= points@);
    best
}

/// The angles by which a twirl turns the points of a path.
pub fn find_twirl_angles(path: &Vec<PathEl>, angle: Double, center: Point) -> (r: Option<
    Vec<Double>,
>)
    ensures
        match r {
            Some(v) => twirl_angles(path@, angle, center) == Some(v@),
            None => twirl_angles(path@, angle, center) is None,
        },
{
    let points = path_points(path);
    let longest = longest_reach_of(&points, center);
    if less(longest, (Double { bits: TINY })) {
        return None;
    }
    let one = Double { bits: ONE };
    let ghost goal = points@.map_values(|p: Point| twirl_angle(p, angle, center, longest));
    let mut out: Vec<Double> = Vec::new();
    let mut i: usize = 0;
    while i < points.len()
        invariant
            i <= points.len(),
            longest.key() != 0,
            one == (Double { bits: ONE }),
            goal == points@.map_values(|p: Point| twirl_angle(p, angle, center, longest)),
            out@ == goal.take(i as int),
        decreases points.len() - i,
    {
        let p = points[i];
        let here = span_of(minus(p.x, center.x), minus(p.y, center.y));
        let a = times(angle, minus(one, minimum(divided(here, longest), one)));
        assert(a == goal[i as int]);
        out.push(a);
        i += 1;
        assert(out@ =~= goal.take(i as int));
    }
    assert(goal.take(points@.len() as int) =~= goal);
    Some(out)
}

/// A point turned around `center` by the angle with this cosine and sine.
pub open spec fn turned(p: Point, center: Point, cosine: Double, sine: Double) -> Point {
    let dx = f_sub(p.x, center.x);
    let dy = f_sub(p.y, center.y);
    Point {
        x: f_sub(f_add(center.x, f_mul(dx, cosine)), f_mul(dy, sine)),
        y: f_add(f_add(center.y, f_mul(dx, sine)), f_mul(dy, cosine)),
    }
}

pub fn turn_point(p: Point, center: Point, cosine: Double, sine: Double) -> (r: Point)
    ensures
        r == turned(p, center, cosine, sine),
{
    let dx = minus(p.x, center.x);
    let dy = minus(p.y, center.y);
    Point {
        x: minus(plus(center.x, times(dx, cosine)), times(dy, sine)),
        y: plus(plus(center.y, times(dx, sine)), times(dy, cosine)),
    }
}

/// An element whose first point is number `k` of the path, turned.
pub open spec fn turned_element(
    el: PathEl,
    center: Point,
    turns: Seq<(Double, Double)>,
    k: nat,
) -> PathEl {
    match el {
        PathEl::MoveTo(p) => PathEl::MoveTo(turned_by(p, center, turns, k)),
        PathEl::LineTo(p) => PathEl::LineTo(turned_by(p, center, turns, k)),
        PathEl::QuadTo(c, p) => PathEl::QuadTo(
            turned_by(c, center, turns, k),
            turned_by(p, center, turns, k + 1),
        ),
        PathEl::CurveTo(c1, c2, p) => PathEl::CurveTo(
            turned_by(c1, center, turns, k),
            turned_by(c2, center, turns, k + 1),
            turned_by(p, center, turns, k + 2),
        ),
        PathEl::ClosePath => PathEl::ClosePath,
    }
}

pub open spec fn turned_by(p: Point, center: Point, turns: Seq<(Double, Double)>, k: nat) -> Point {
    turned(p, center, turns[k as int].0, turns[k as int].1)
}

/// The path with point number `k` turned by the cosine and sine number `k`.
pub open spec fn turned_path(
    path: Seq<PathEl>,
    center: Point,
    turns: Seq<(Double, Double)>,
) -> Seq<PathEl> {
    Seq::new(
        path.len(),
        |i: int| turned_element(path[i], center, turns, points_in(path.take(i))),
    )
}

fn turn_by(p: Point, center: Point, turns: &Vec<(Double, Double)>, k: usize) -> (r: Point)
    requires
        k < turns.len(),
    ensures
        r == turned_by(p, center, turns@, k as nat),
{
    turn_point(p, center, turns[k].0, turns[k].1)
}

/// Turns every point of a path around `center` by its own cosine and sine.
pub fn apply_twirl(path: &Vec<PathEl>, center: Point, turns: &Vec<(Double, Double)>) -> (r: Vec<
    PathEl,
>)
    requires
        points_in(path@) <= turns.len(),
    ensures
        r@ == turned_path(path@, center, turns@),
{
    let ghost goal = turned_path(path@, center, turns@);
    let mut out: Vec<PathEl> = Vec::new();
    let mut k: usize = 0;
    let mut i: usize = 0;
    assert(path@.take(0) =~= Seq::<PathEl>::empty());
    while i < path.len()
        invariant
            i <= path.len(),
            goal == turned_path(path@, center, turns@),
            points_in(path@) <= turns.len(),
            k == points_in(path@.take(i as int)),
            out@ == goal.take(i as int),
        decreases path.len() - i,
    {
        proof {
            lemma_points_grow(path@, i as int);
            assert(path@.take(i + 1).drop_last() =~= path@.take(i as int));
            assert(path@.take(i + 1).last() == path@[i as int]);
        }
        let el = match path[i] {
            PathEl::MoveTo(p) => {
                k += 1;
                PathEl::MoveTo(turn_by(p, center, turns, k - 1))
            },
            PathEl::LineTo(p) => {
                k += 1;
                PathEl::LineTo(turn_by(p, center, turns, k - 1))
            },
            PathEl::QuadTo(c, p) => {
                k += 2;
                PathEl::QuadTo(turn_by(c, center, turns, k - 2), turn_by(p, center, turns, k - 1))
            },
            PathEl::CurveTo(c1, c2, p) => {
                k += 3;
                PathEl::CurveTo(
                    turn_by(c1, center, turns, k - 3),
                    turn_by(c2, center, turns, k - 2),
                    turn_by(p, center, turns, k - 1),
                )
            },
            PathEl::ClosePath => PathEl::ClosePath,
        };
        assert(el == goal[i as int]);
        out.push(el);
        i += 1;
        assert(out@ =~= goal.take(i as int));
    }
    assert(goal.take(path@.len() as int) =~= goal);
    out
}

/// A twirl turns as many points as the path has, so its angles suffice for it.
pub proof fn law_twirl_has_all_angles(path: Seq<PathEl>, angle: Double, center: Point)
    ensures
        twirl_angles(path, angle, center) matches Some(v) ==> v.len() == points_in(path),
{
    lemma_all_points_len(path);
}

proof fn lemma_all_points_len(path: Seq<PathEl>)
    ensures
        all_points(path).len() == points_in(path),
    decreases path.len(),
{
    if path.len() > 0 {
        lemma_all_points_len(path.drop_last());
    }
}

/// Where an element ends; a closing element does not say.
pub open spec fn element_end(el: PathEl) -> Option<Point> {
    match el {
        PathEl::MoveTo(p) => Some(p),
        PathEl::LineTo(p) => Some(p),
        PathEl::QuadTo(_, p) => Some(p),
        PathEl::CurveTo(_, _, p) => Some(p),
        PathEl::ClosePath => None,
    }
}

/// Where the last element that says so ends, or the origin.
pub open spec fn last_end(path: Seq<PathEl>) -> Point
    decreases path.len(),
{
    if path.len() == 0 {
        zero_point()
    } else {
        match element_end(path.last()) {
            Some(p) => p,
            None => last_end(path.drop_last()),
        }
    }
}

fn find_last_end(path: &Vec<PathEl>) -> (r: Point)
    ensures
        r == last_end(path@),
{
    let mut n: usize = path.len();
    assert(path@.take(n as int) =~= path@);
    while n > 0
        invariant
            n <= path.len(),
            last_end(path@) == last_end(path@.take(n as int)),
        decreases n,
    {
        proof {
            assert(path@.take(n as int).last() == path@[n - 1]);
            assert(path@.take(n as int).drop_last() =~= path@.take(n - 1));
        }
        match path[n - 1] {
            PathEl::MoveTo(p) => {
                return p;
            },
            PathEl::LineTo(p) => {
                return p;
            },
            PathEl::QuadTo(_, p) => {
                return p;
            },
            PathEl::CurveTo(_, _, p) => {
                return p;
            },
            PathEl::ClosePath => {},
        }
        n -= 1;
    }
    Point { x: (Double { bits: 0 }), y: (Double { bits: 0 }) }
}

/// A zig-zag between two points.
pub struct ZigZag {
    pub from: Point,
    pub to: Point,
    pub size: Double,
    pub steps: nat,
    pub smooth: bool,
}

impl ZigZag {
    pub open spec fn dx(self) -> Double {
        f_sub(self.to.x, self.from.x)
    }

    pub open spec fn dy(self) -> Double {
        f_sub(self.to.y, self.from.y)
    }

    pub open spec fn length(self) -> Double {
        span(self.dx(), self.dy())
    }

    /// The direction from start to end.
    pub open spec fn tangent(self) -> Point {
        Point { x: f_div(self.dx(), self.length()), y: f_div(self.dy(), self.length()) }
    }

    /// How far step `i` lies beside the line: half the size, on alternating
    /// sides; the two ends lie on it.
    pub open spec fn offset(self, i: nat) -> Double {
        if i == 0 || i == self.steps {
            Double { bits: 0 }
        } else if i % 2 == 1 {
            half(self.size)
        } else {
            half(f_neg(self.size))
        }
    }

    /// Where step `i` ends.
    pub open spec fn corner(self, i: nat) -> Point {
        let t = f_div(whole(i), whole(self.steps));
        Point {
            x: f_add(
                f_add(self.from.x, f_mul(self.dx(), t)),
                f_mul(f_neg(self.tangent().y), self.offset(i)),
            ),
            y: f_add(
                f_add(self.from.y, f_mul(self.dy(), t)),
                f_mul(self.tangent().x, self.offset(i)),
            ),
        }
    }

    /// How far the handles of a smooth step reach.
    pub open spec fn handle(self) -> Double {
        f_mul(f_div(self.length(), whole(self.steps)), (Double { bits: HANDLE_SHARE }))
    }

    /// The element of step `i`: a curve where the zig-zag is smooth, except for
    /// the last step.
    pub open spec fn step(self, i: nat) -> PathEl {
        let p = self.corner(i);
        if self.smooth && i < self.steps {
            let q = self.corner((i - 1) as nat);
            let t = self.tangent();
            PathEl::CurveTo(
                Point {
                    x: f_add(q.x, f_mul(t.x, self.handle())),
                    y: f_add(q.y, f_mul(t.y, self.handle())),
                },
                Point {
                    x: f_sub(p.x, f_mul(t.x, self.handle())),
                    y: f_sub(p.y, f_mul(t.y, self.handle())),
                },
                p,
            )
        } else {
            PathEl::LineTo(p)
        }
    }

    /// All steps; one line where the ends are the same point.
    pub open spec fn elements(self) -> Seq<PathEl> {
        if f_less(self.length(), (Double { bits: TINY })) {
            seq![PathEl::LineTo(self.to)]
        } else {
            Seq::new(self.steps, |i: int| self.step((i + 1) as nat))
        }
    }
}

/// A zig-zag with `ridges` peaks.
pub open spec fn zig_zag(
    from: Point,
    to: Point,
    size: Double,
    ridges: usize,
    smooth: bool,
) -> Seq<PathEl> {
    ZigZag { from, to, size, steps: (ridges * 2) as nat, smooth }.elements()
}

fn offset_of(i: usize, steps: usize, size: Double) -> (r: Double)
    ensures
        forall|z: ZigZag|
            z.size == size && z.steps == steps ==> r == #[trigger] z.offset(i as nat),
{
    if i == 0 || i == steps {
        Double { bits: 0 }
    } else if i % 2 == 1 {
        halved(size)
    } else {
        halved(negated(size))
    }
}

fn corner_of(
    from: Point,
    dx: Double,
    dy: Double,
    tangent: Point,
    size: Double,
    i: usize,
    steps: usize,
    z: Ghost<ZigZag>,
) -> (r: Point)
    requires
        0 < steps < usize::MAX,
        z@.from == from,
        z@.dx() == dx,
        z@.dy() == dy,
        z@.tangent() == tangent,
        z@.size == size,
        z@.steps == steps,
    ensures
        r == z@.corner(i as nat),
{
    proof {
        lemma_positive(steps as nat);
    }
    let t = divided(from_count(i as u64), from_count(steps as u64));
    let offset = offset_of(i, steps, size);
    Point {
        x: plus(plus(from.x, times(dx, t)), times(negated(tangent.y), offset)),
        y: plus(plus(from.y, times(dy, t)), times(tangent.x, offset)),
    }
}

/// Appends a zig-zag from `from`, where the path ends, to `to`.
pub fn zig_zag_segment(
    path: &mut Vec<PathEl>,
    from: Point,
    to: Point,
    size: Double,
    ridges: usize,
    smooth: bool,
)
    requires
        ridges * 2 < usize::MAX,
    ensures
        final(path)@ == old(path)@ + zig_zag(from, to, size, ridges, smooth),
{
    let ghost start = path@;
    let ghost z = ZigZag { from, to, size, steps: (ridges * 2) as nat, smooth };
    let dx = minus(to.x, from.x);
    let dy = minus(to.y, from.y);
    let length = span_of(dx, dy);
    if less(length, (Double { bits: TINY })) {
        path.push(PathEl::LineTo(to));
        assert(path@ =~= start + z.elements());
        return;
    }
    let steps: usize = ridges * 2;
    if steps == 0 {
        assert(path@ =~= start + z.elements());
        return;
    }
    proof {
        lemma_positive(steps as nat);
    }
    let tangent = Point { x: divided(dx, length), y: divided(dy, length) };
    let handle = times(
        divided(length, from_count(steps as u64)),
        (Double { bits: HANDLE_SHARE }),
    );
    let mut last = corner_of(from, dx, dy, tangent, size, 0, steps, Ghost(z));
    let mut i: usize = 1;
    while i <= steps
        invariant
            1 <= i <= steps + 1,
            0 < steps < usize::MAX,
            z == (ZigZag { from, to, size, steps: steps as nat, smooth }),
            !f_less(z.length(), (Double { bits: TINY })),
            z.dx() == dx,
            z.dy() == dy,
            z.tangent() == tangent,
            z.handle() == handle,
            last == z.corner((i - 1) as nat),
            path@ == start + z.elements().take(i - 1),
        decreases steps + 1 - i,
    {
        let p = corner_of(from, dx, dy, tangent, size, i, steps, Ghost(z));
        let el = if smooth && i < steps {
            PathEl::CurveTo(
                Point {
                    x: plus(last.x, times(tangent.x, handle)),
                    y: plus(last.y, times(tangent.y, handle)),
                },
                Point {
                    x: minus(p.x, times(tangent.x, handle)),
                    y: minus(p.y, times(tangent.y, handle)),
                },
                p,
            )
        } else {
            PathEl::LineTo(p)
        };
        proof {
            assert(el == z.step(i as nat));
            assert(z.elements()[i - 1] == el);
            assert(z.elements().take(i as int) =~= z.elements().take(i - 1).push(el));
        }
        path.push(el);
        last = p;
        i += 1;
    }
    assert(z.elements().take(steps as int) =~= z.elements());
}

/// What is known of a path while it is distorted: what was written, where the
/// pen is, and where the subpath started.
pub struct ZigZagState {
    pub out: Seq<PathEl>,
    pub current: Point,
    pub start: Point,
}

pub open spec fn same_point(a: Point, b: Point) -> bool {
    f_same(a.x, b.x) && f_same(a.y, b.y)
}

/// What one element adds.
pub open spec fn zig_zag_step(
    s: ZigZagState,
    el: PathEl,
    size: Double,
    ridges: usize,
    smooth: bool,
) -> ZigZagState {
    match el {
        PathEl::MoveTo(p) => ZigZagState { out: s.out.push(el), current: p, start: p },
        PathEl::ClosePath => {
            let closed = if same_point(s.current, s.start) {
                s.out
            } else {
                s.out + zig_zag(s.current, s.start, size, ridges, smooth)
            };
            ZigZagState {
                out: closed.push(PathEl::ClosePath),
                current: s.start,
                start: s.start,
            }
        },
        _ => {
            let p = element_end(el)->0;
            ZigZagState {
                out: s.out + zig_zag(last_end(s.out), p, size, ridges, smooth),
                current: p,
                start: s.start,
            }
        },
    }
}

/// A path with every segment, curves by their chords, replaced by a zig-zag.
pub open spec fn zig_zag_path(
    path: Seq<PathEl>,
    size: Double,
    ridges: usize,
    smooth: bool,
) -> ZigZagState
    decreases path.len(),
{
    if path.len() == 0 {
        ZigZagState { out: Seq::empty(), current: zero_point(), start: zero_point() }
    } else {
        zig_zag_step(
            zig_zag_path(path.drop_last(), size, ridges, smooth),
            path.last(),
            size,
            ridges,
            smooth,
        )
    }
}

/// Replaces every segment of a path by a zig-zag.
pub fn apply_zig_zag(path: &Vec<PathEl>, size: Double, ridges: usize, smooth: bool) -> (r: Vec<
    PathEl,
>)
    requires
        ridges * 2 < usize::MAX,
    ensures
        r@ == zig_zag_path(path@, size, ridges, smooth).out,
{
    let zero = Double { bits: 0 };
    let mut out: Vec<PathEl> = Vec::new();
    let mut current = Point { x: zero, y: zero };
    let mut start = Point { x: zero, y: zero };
    let mut i: usize = 0;
    assert(path@.take(0) =~= Seq::<PathEl>::empty());
    while i < path.len()
        invariant
            i <= path.len(),
            ridges * 2 < usize::MAX,
            zig_zag_path(path@.take(i as int), size, ridges, smooth) == (ZigZagState {
                out: out@,
                current,
                start,
            }),
        decreases path.len() - i,
    {
        proof {
            assert(path@.take(i + 1).drop_last() =~= path@.take(i as int));
            assert(path@.take(i + 1).last() == path@[i as int]);
        }
        match path[i] {
            PathEl::MoveTo(p) => {
                out.push(path[i]);
                current = p;
                start = p;
            },
            PathEl::ClosePath => {
                if !(same(current.x, start.x) && same(current.y, start.y)) {
                    zig_zag_segment(&mut out, current, start, size, ridges, smooth);
                }
                out.push(PathEl::ClosePath);
                current = start;
            },
            PathEl::LineTo(p) => {
                let from = find_last_end(&out);
                zig_zag_segment(&mut out, from, p, size, ridges, smooth);
                current = p;
            },
            PathEl::QuadTo(_, p) => {
                let from = find_last_end(&out);
                zig_zag_segment(&mut out, from, p, size, ridges, smooth);
                current = p;
            },
            PathEl::CurveTo(_, _, p) => {
                let from = find_last_end(&out);
                zig_zag_segment(&mut out, from, p, size, ridges, smooth);
                current = p;
            },
        }
        i += 1;
    }
    assert(path@.take(path@.len() as int) =~= path@);
    out
}

/// The corners of one subpath and whether it is closed.
pub struct Outline {
    pub corners: Seq<Point>,
    pub closed: bool,
}

impl Outline {
    pub open spec fn before(self, i: int) -> Point {
        if i > 0 {
            self.corners[i - 1]
        } else if self.closed {
            self.corners.last()
        } else {
            self.corners[0]
        }
    }

    pub open spec fn behind(self, i: int) -> Point {
        if i < self.corners.len() - 1 {
            self.corners[i + 1]
        } else if self.closed {
            self.corners[0]
        } else {
            self.corners.last()
        }
    }

    /// An end of an open outline is no corner.
    pub open spec fn is_end(self, i: int) -> bool {
        !self.closed && (i == 0 || i == self.corners.len() - 1)
    }

    /// How much of the edge before corner `i` its fillet may take: half where the
    /// corner before it is rounded too, else almost all.
    pub open spec fn room_before(self, i: int, length: Double) -> Double {
        if self.closed || i >= 2 {
            half(length)
        } else {
            f_mul(length, f_sub((Double { bits: ONE }), (Double { bits: EDGE_MARGIN })))
        }
    }

    /// How much of the edge behind corner `i` its fillet may take.
    pub open spec fn room_behind(self, i: int, length: Double) -> Double {
        if self.closed || i < self.corners.len() - 2 {
            half(length)
        } else {
            f_mul(length, f_sub((Double { bits: ONE }), (Double { bits: EDGE_MARGIN })))
        }
    }

    /// The radius of the fillet at corner `i`, between edges of the given lengths.
    pub open spec fn fillet(
        self,
        i: int,
        radius: Double,
        len_in: Double,
        len_out: Double,
    ) -> Double {
        f_min(f_min(radius, self.room_before(i, len_in)), self.room_behind(i, len_out))
    }

    /// The elements of corner `i`: a line to where the fillet starts and a curve
    /// around the corner; a plain line at the ends and where an edge has no
    /// length. The first element of the outline is a move.
    pub open spec fn corner_elements(self, i: int, radius: Double) -> Seq<PathEl> {
        let p = self.corners[i];
        let a = self.before(i);
        let b = self.behind(i);
        let dx_in = f_sub(p.x, a.x);
        let dy_in = f_sub(p.y, a.y);
        let dx_out = f_sub(b.x, p.x);
        let dy_out = f_sub(b.y, p.y);
        let len_in = span(dx_in, dy_in);
        let len_out = span(dx_out, dy_out);
        if self.is_end(i) || f_less(len_in, (Double { bits: TINY })) || f_less(
            len_out,
            (Double { bits: TINY }),
        ) {
            seq![first_or_line(i, p)]
        } else {
            let r = self.fillet(i, radius, len_in, len_out);
            let from = Point {
                x: f_sub(p.x, f_mul(f_div(dx_in, len_in), r)),
                y: f_sub(p.y, f_mul(f_div(dy_in, len_in), r)),
            };
            let to = Point {
                x: f_add(p.x, f_mul(f_div(dx_out, len_out), r)),
                y: f_add(p.y, f_mul(f_div(dy_out, len_out), r)),
            };
            seq![first_or_line(i, from), PathEl::QuadTo(p, to)]
        }
    }

    /// The elements of the first `n` corners.
    pub open spec fn elements_to(self, n: nat, radius: Double) -> Seq<PathEl>
        decreases n,
    {
        if n == 0 {
            Seq::empty()
        } else {
            self.elements_to((n - 1) as nat, radius) + self.corner_elements(n - 1, radius)
        }
    }

    /// The rounded outline.
    pub open spec fn rounded(self, radius: Double) -> Seq<PathEl> {
        if self.corners.len() == 0 {
            Seq::empty()
        } else if self.corners.len() == 1 {
            seq![PathEl::MoveTo(self.corners[0])]
        } else {
            let body = self.elements_to(self.corners.len(), radius);
            if self.closed {
                body.push(PathEl::ClosePath)
            } else {
                body
            }
        }
    }
}

pub open spec fn first_or_line(i: int, p: Point) -> PathEl {
    if i == 0 {
        PathEl::MoveTo(p)
    } else {
        PathEl::LineTo(p)
    }
}

fn push_corner(out: &mut Vec<PathEl>, i: usize, p: Point)
    ensures
        final(out)@ == old(out)@.push(first_or_line(i as int, p)),
{
    if i == 0 {
        out.push(PathEl::MoveTo(p));
    } else {
        out.push(PathEl::LineTo(p));
    }
}

fn round_corner(
    out: &mut Vec<PathEl>,
    corners: &Vec<Point>,
    closed: bool,
    i: usize,
    radius: Double,
)
    requires
        i < corners.len(),
        corners.len() >= 2,
    ensures
        final(out)@ == old(out)@ + (Outline { corners: corners@, closed }).corner_elements(
            i as int,
            radius,
        ),
{
    let ghost start = out@;
    let ghost o = Outline { corners: corners@, closed };
    let n: usize = corners.len();
    let p = corners[i];
    let a = if i > 0 {
        corners[i - 1]
    } else if closed {
        corners[n - 1]
    } else {
        corners[0]
    };
    let b = if i < n - 1 {
        corners[i + 1]
    } else if closed {
        corners[0]
    } else {
        corners[n - 1]
    };
    let dx_in = minus(p.x, a.x);
    let dy_in = minus(p.y, a.y);
    let dx_out = minus(b.x, p.x);
    let dy_out = minus(b.y, p.y);
    let len_in = span_of(dx_in, dy_in);
    let len_out = span_of(dx_out, dy_out);
    let tiny = Double { bits: TINY };
    if (!closed && (i == 0 || i == n - 1)) || less(len_in, tiny) || less(len_out, tiny) {
        push_corner(out, i, p);
        assert(out@ =~= start + o.corner_elements(i as int, radius));
        return;
    }
    let almost = minus((Double { bits: ONE }), (Double { bits: EDGE_MARGIN }));
    let room_before = if closed || i >= 2 {
        halved(len_in)
    } else {
        times(len_in, almost)
    };
    let room_behind = if closed || i < n - 2 {
        halved(len_out)
    } else {
        times(len_out, almost)
    };
    let r = minimum(minimum(radius, room_before), room_behind);
    let from = Point {
        x: minus(p.x, times(divided(dx_in, len_in), r)),
        y: minus(p.y, times(divided(dy_in, len_in), r)),
    };
    let to = Point {
        x: plus(p.x, times(divided(dx_out, len_out), r)),
        y: plus(p.y, times(divided(dy_out, len_out), r)),
    };
    push_corner(out, i, from);
    out.push(PathEl::QuadTo(p, to));
    assert(out@ =~= start + o.corner_elements(i as int, radius));
}

fn round_outline(out: &mut Vec<PathEl>, corners: &Vec<Point>, closed: bool, radius: Double)
    ensures
        final(out)@ == old(out)@ + (Outline { corners: corners@, closed }).rounded(radius),
{
    let ghost start = out@;
    let ghost o = Outline { corners: corners@, closed };
    if corners.len() < 2 {
        if corners.len() == 1 {
            out.push(PathEl::MoveTo(corners[0]));
        }
        assert(out@ =~= start + o.rounded(radius));
        return;
    }
    let mut i: usize = 0;
    assert(out@ =~= start + o.elements_to(0, radius));
    while i < corners.len()
        invariant
            i <= corners.len(),
            corners.len() >= 2,
            o == (Outline { corners: corners@, closed }),
            out@ == start + o.elements_to(i as nat, radius),
        decreases corners.len() - i,
    {
        round_corner(out, corners, closed, i, radius);
        i += 1;
        assert(out@ =~= start + o.elements_to(i as nat, radius));
    }
    if closed {
        out.push(PathEl::ClosePath);
    }
    assert(out@ =~= start + o.rounded(radius));
}

/// What is known of a path while its corners are rounded: what was written, and
/// the subpath that is being read.
pub struct RoundState {
    pub out: Seq<PathEl>,
    pub corners: Seq<Point>,
    pub closed: bool,
}

/// What one element adds: a move finishes the subpath before it.
pub open spec fn round_step(s: RoundState, el: PathEl, radius: Double) -> RoundState {
    match el {
        PathEl::MoveTo(p) => RoundState {
            out: s.out + (Outline { corners: s.corners, closed: s.closed }).rounded(radius),
            corners: seq![p],
            closed: false,
        },
        PathEl::ClosePath => RoundState { out: s.out, corners: s.corners, closed: true },
        _ => RoundState {
            out: s.out,
            corners: s.corners.push(element_end(el)->0),
            closed: s.closed,
        },
    }
}

pub open spec fn round_steps(path: Seq<PathEl>, radius: Double) -> RoundState
    decreases path.len(),
{
    if path.len() == 0 {
        RoundState { out: Seq::empty(), corners: Seq::empty(), closed: false }
    } else {
        round_step(round_steps(path.drop_last(), radius), path.last(), radius)
    }
}

/// The path with rounded corners; a radius that is not above zero leaves it as it
/// is.
pub open spec fn rounded_path(path: Seq<PathEl>, radius: Double) -> Seq<PathEl> {
    if path.len() == 0 || f_at_most(radius, (Double { bits: 0 })) {
        path
    } else {
        let s = round_steps(path, radius);
        s.out + (Outline { corners: s.corners, closed: s.closed }).rounded(radius)
    }
}

fn copied(path: &Vec<PathEl>) -> (r: Vec<PathEl>)
    ensures
        r@ == path@,
{
    let mut out: Vec<PathEl> = Vec::new();
    let mut i: usize = 0;
    while i < path.len()
        invariant
            i <= path.len(),
            out@ == path@.take(i as int),
        decreases path.len() - i,
    {
        out.push(path[i]);
        i += 1;
        assert(out@ =~= path@.take(i as int));
    }
    assert(path@.take(path@.len() as int) =~= path@);
    out
}

/// Rounds the corners of a path by replacing each with a quadratic curve.
pub fn apply_round_corners(path: &Vec<PathEl>, radius: Double) -> (r: Vec<PathEl>)
    ensures
        r@ == rounded_path(path@, radius),
{
    if path.len() == 0 || at_most(radius, (Double { bits: 0 })) {
        return copied(path);
    }
    let mut out: Vec<PathEl> = Vec::new();
    let mut corners: Vec<Point> = Vec::new();
    let mut closed = false;
    let mut i: usize = 0;
    assert(path@.take(0) =~= Seq::<PathEl>::empty());
    assert(out@ =~= Seq::<PathEl>::empty());
    assert(corners@ =~= Seq::<Point>::empty());
    while i < path.len()
        invariant
            i <= path.len(),
            round_steps(path@.take(i as int), radius) == (RoundState {
                out: out@,
                corners: corners@,
                closed,
            }),
        decreases path.len() - i,
    {
        proof {
            assert(path@.take(i + 1).drop_last() =~= path@.take(i as int));
            assert(path@.take(i + 1).last() == path@[i as int]);
        }
        match path[i] {
            PathEl::MoveTo(p) => {
                round_outline(&mut out, &corners, closed, radius);
                let mut fresh: Vec<Point> = Vec::new();
                fresh.push(p);
                assert(fresh@ =~= seq![p]);
                corners = fresh;
                closed = false;
            },
            PathEl::LineTo(p) => {
                corners.push(p);
            },
            PathEl::QuadTo(_, p) => {
                corners.push(p);
            },
            PathEl::CurveTo(_, _, p) => {
                corners.push(p);
            },
            PathEl::ClosePath => {
                closed = true;
            },
        }
        i += 1;
    }
    assert(path@.take(path@.len() as int) =~= path@);
    round_outline(&mut out, &corners, closed, radius);
    out
}

/// A box by its two corners.
#[derive(Debug, Clone, Copy, PartialEq, Eq, Structural)]
pub struct Bounds {
    pub x0: Double,
    pub y0: Double,
    pub x1: Double,
    pub y1: Double,
}

pub open spec fn least(a: Double, b: Double, c: Double, d: Double) -> Double {
    f_min(f_min(f_min(f_min(infinity(false), a), b), c), d)
}

pub open spec fn greatest(a: Double, b: Double, c: Double, d: Double) -> Double {
    f_max(f_max(f_max(f_max(infinity(true), a), b), c), d)
}

/// The smallest box with upright sides around four points.
pub open spec fn box_around(p: Point, q: Point, r: Point, s: Point) -> Bounds {
    Bounds {
        x0: least(p.x, q.x, r.x, s.x),
        y0: least(p.y, q.y, r.y, s.y),
        x1: greatest(p.x, q.x, r.x, s.x),
        y1: greatest(p.y, q.y, r.y, s.y),
    }
}

/// The box around a transformed box.
pub open spec fn world_bounds(b: Bounds, m: Affine) -> Bounds {
    box_around(
        mapped(m, (Point { x: b.x0, y: b.y0 })),
        mapped(m, (Point { x: b.x1, y: b.y0 })),
        mapped(m, (Point { x: b.x1, y: b.y1 })),
        mapped(m, (Point { x: b.x0, y: b.y1 })),
    )
}

fn least_of(a: Double, b: Double, c: Double, d: Double) -> (r: Double)
    ensures
        r == least(a, b, c, d),
{
    minimum(minimum(minimum(minimum((Double { bits: INFINITE }), a), b), c), d)
}

fn greatest_of(a: Double, b: Double, c: Double, d: Double) -> (r: Double)
    ensures
        r == greatest(a, b, c, d),
{
    maximum(maximum(maximum(maximum((Double { bits: INFINITE + SIGN }), a), b), c), d)
}

pub fn world_box(b: &Bounds, m: &Affine) -> (r: Bounds)
    ensures
        r == world_bounds(*b, *m),
{
    let p = map_point(m, (Point { x: b.x0, y: b.y0 }));
    let q = map_point(m, (Point { x: b.x1, y: b.y0 }));
    let s = map_point(m, (Point { x: b.x1, y: b.y1 }));
    let t = map_point(m, (Point { x: b.x0, y: b.y1 }));
    Bounds {
        x0: least_of(p.x, q.x, s.x, t.x),
        y0: least_of(p.y, q.y, s.y, t.y),
        x1: greatest_of(p.x, q.x, s.x, t.x),
        y1: greatest_of(p.y, q.y, s.y, t.y),
    }
}

/// The box around a node in the world, as its corner and its size: all four
/// corners of the local bounds are transformed, so it is right for rotation,
/// shear and reflection too. A node without bounds has none.
pub fn world_aabb(local: Option<Bounds>, m: &Affine) -> (r: Option<[Double; 4]>)
    ensures
        match local {
            None => r is None,
            Some(b) => r matches Some(v) && v@ == seq![
                world_bounds(b, *m).x0,
                world_bounds(b, *m).y0,
                f_sub(world_bounds(b, *m).x1, world_bounds(b, *m).x0),
                f_sub(world_bounds(b, *m).y1, world_bounds(b, *m).y0),
            ] && reaches_to(v@[0], v@[2], world_bounds(b, *m).x1) && reaches_to(
                v@[1],
                v@[3],
                world_bounds(b, *m).y1,
            ),
        },
{
    match local {
        None => None,
        Some(b) => {
            let w = world_box(&b, m);
            proof {
                lemma_reaches_to(w.x0, w.x1);
                lemma_reaches_to(w.y0, w.y1);
            }
            let v = [w.x0, w.y0, minus(w.x1, w.x0), minus(w.y1, w.y0)];
            assert(v@ =~= seq![
                w.x0,
                w.y0,
                f_sub(w.x1, w.x0),
                f_sub(w.y1, w.y0),
            ]);
            Some(v)
        },
    }
}

/// The box around a transformed box contains every transformed corner.
pub proof fn law_box_contains_corners(b: Bounds, m: Affine)
    ensures
        forall|p: Point|
            #![trigger mapped(m, p)]
            (p.x == b.x0 || p.x == b.x1) && (p.y == b.y0 || p.y == b.y1) && !mapped(m, p).x.is_nan()
                && !mapped(m, p).y.is_nan() ==> world_bounds(b, m).x0.key() <= mapped(m, p).x.key()
                && mapped(m, p).x.key() <= world_bounds(b, m).x1.key() && world_bounds(b, m).y0.key()
                <= mapped(m, p).y.key() && mapped(m, p).y.key() <= world_bounds(b, m).y1.key(),
{
    assert forall|p: Point|
        #![trigger mapped(m, p)]
        (p.x == b.x0 || p.x == b.x1) && (p.y == b.y0 || p.y == b.y1) && !mapped(m, p).x.is_nan()
            && !mapped(m, p).y.is_nan() implies world_bounds(b, m).x0.key() <= mapped(m, p).x.key()
        && mapped(m, p).x.key() <= world_bounds(b, m).x1.key() && world_bounds(b, m).y0.key()
        <= mapped(m, p).y.key() && mapped(m, p).y.key() <= world_bounds(b, m).y1.key() by {
        let k0 = mapped(m, (Point { x: b.x0, y: b.y0 }));
        let k1 = mapped(m, (Point { x: b.x1, y: b.y0 }));
        let k2 = mapped(m, (Point { x: b.x1, y: b.y1 }));
        let k3 = mapped(m, (Point { x: b.x0, y: b.y1 }));
        assert(mapped(m, p) == k0 || mapped(m, p) == k1 || mapped(m, p) == k2 || mapped(m, p)
            == k3);
        lemma_extremes(k0.x, k1.x, k2.x, k3.x);
        lemma_extremes(k0.y, k1.y, k2.y, k3.y);
    }
}

proof fn lemma_extremes(a: Double, b: Double, c: Double, d: Double)
    ensures
        !a.is_nan() ==> least(a, b, c, d).key() <= a.key() <= greatest(a, b, c, d).key(),
        !b.is_nan() ==> least(a, b, c, d).key() <= b.key() <= greatest(a, b, c, d).key(),
        !c.is_nan() ==> least(a, b, c, d).key() <= c.key() <= greatest(a, b, c, d).key(),
        !d.is_nan() ==> least(a, b, c, d).key() <= d.key() <= greatest(a, b, c, d).key(),
{
}

/// Fillets never overlap: one takes at most half of an edge to a corner that is
/// rounded too, whatever radius is asked for.
pub proof fn law_fillets_share_edges(
    o: Outline,
    i: int,
    radius: Double,
    len_in: Double,
    len_out: Double,
)
    requires
        0 <= i < o.corners.len(),
        !o.is_end(i),
    ensures
        !len_in.is_nan() && (o.closed || !o.is_end(i - 1)) ==> o.fillet(
            i,
            radius,
            len_in,
            len_out,
        ).key() <= half(len_in).key(),
        !len_out.is_nan() && (o.closed || !o.is_end(i + 1)) ==> o.fillet(
            i,
            radius,
            len_in,
            len_out,
        ).key() <= half(len_out).key(),
{
    if !len_in.is_nan() {
        lemma_half_is_number(len_in);
    }
    if !len_out.is_nan() {
        lemma_half_is_number(len_out);
    }
}

/// Distorting a path by its points keeps its elements: there are as many, and
/// each is of the same sort.
pub proof fn law_points_only(path: Seq<PathEl>, f: spec_fn(Point) -> Point)
    ensures
        path_with_points(path, f).len() == path.len(),
        forall|i: int|
            0 <= i < path.len() ==> point_count(#[trigger] path_with_points(path, f)[i])
                == point_count(path[i]),
{
}


/// A point with what is across and what is down exchanged.
pub open spec fn transposed(p: Point) -> Point {
    Point { x: p.y, y: p.x }
}

/// A matrix brings the unit across to its first column and the unit down to its second, and
/// the origin to its place.
pub proof fn law_mapped_units(m: Affine)
    requires
        m.a.wf(),
        m.b.wf(),
        m.c.wf(),
        m.d.wf(),
        m.e.wf(),
        m.f.wf(),
    ensures
        ({
            let still = Affine { e: Double { bits: 0 }, f: Double { bits: 0 }, ..m };
            let across = mapped(still, Point { x: whole(1), y: Double { bits: 0 } });
            let down = mapped(still, Point { x: Double { bits: 0 }, y: whole(1) });
            let origin = mapped(m, zero_point());
            &&& across.x.key() == m.a.key() && across.y.key() == m.b.key()
            &&& down.x.key() == m.c.key() && down.y.key() == m.d.key()
            &&& origin.x.key() == m.e.key() && origin.y.key() == m.f.key()
        }),
{
    lemma_row_on_units(m.a, m.c, m.e);
    lemma_row_on_units(m.b, m.d, m.f);
}

proof fn lemma_row_on_units(a: Double, c: Double, e: Double)
    requires
        a.wf(),
        c.wf(),
        e.wf(),
    ensures
        ({
            let zero = (Double { bits: 0 });
            let one = whole(1);
            &&& f_add(f_add(f_mul(a, one), f_mul(c, zero)), zero).key() == a.key()
            &&& f_add(f_add(f_mul(a, zero), f_mul(c, one)), zero).key() == c.key()
            &&& f_add(f_add(f_mul(a, zero), f_mul(c, zero)), e).key() == e.key()
        }),
{
    let zero = (Double { bits: 0 });
    lemma_times_one(a);
    lemma_times_one(c);
    lemma_nothing_times(zero, a);
    lemma_nothing_times(zero, c);
    let za = f_mul(a, zero);
    let zc = f_mul(c, zero);
    lemma_plus_nothing(a, zc);
    lemma_plus_nothing(c, za);
    lemma_plus_nothing(f_add(a, zc), zero);
    lemma_plus_nothing(f_add(za, c), zero);
    lemma_plus_nothing(za, zc);
    lemma_plus_nothing(e, f_add(za, zc));
}

/// Exchanging across and down everywhere exchanges them in the result.
pub proof fn law_axes_are_treated_alike(
    m: Affine,
    p: Point,
    strength: Double,
    center: Point,
    size: Double,
    values: Seq<(Double, Double)>,
    k: nat,
)
    requires
        k < values.len(),
    ensures
        mapped(Affine { a: m.d, b: m.c, c: m.b, d: m.a, e: m.f, f: m.e }, transposed(p))
            == transposed(mapped(m, p)),
        displaced(transposed(p), strength, transposed(center)) == transposed(
            displaced(p, strength, center),
        ),
        reach(transposed(p), transposed(center)) == reach(p, center),
        roughened(
            transposed(p),
            size,
            Seq::new(values.len(), |i: int| (values[i].1, values[i].0)),
            k,
        ) == transposed(roughened(p, size, values, k)),
{
    lemma_sum_commutes(f_mul(m.a, p.x), f_mul(m.c, p.y));
    lemma_sum_commutes(f_mul(m.b, p.x), f_mul(m.d, p.y));
    let dx = f_sub(p.x, center.x);
    let dy = f_sub(p.y, center.y);
    lemma_sum_commutes(f_mul(dx, dx), f_mul(dy, dy));
}

/// A point is displaced along the line through it and the centre: what is level with the
/// centre stays level with it; without strength it stays where it is, and the strength -1
/// brings it to the centre.
pub proof fn law_displaced_points_stay_in_line(p: Point, strength: Double, center: Point, j: nat)
    requires
        is_plain(p.x, j),
        is_plain(p.y, j),
        is_plain(center.x, j),
        is_plain(center.y, j),
        strength.wf(),
        f_add(Double { bits: ONE }, strength).wf(),
    ensures
        ({
            let q = displaced(p, strength, center);
            let far = !f_less(
                span(f_sub(p.x, center.x), f_sub(p.y, center.y)),
                Double { bits: TINY },
            );
            &&& p.x == center.x ==> q.x.key() == center.x.key()
            &&& p.y == center.y ==> q.y.key() == center.y.key()
            &&& strength.key() == 0 ==> q.x.key() == p.x.key() && q.y.key() == p.y.key()
            &&& far && f_add(Double { bits: ONE }, strength).key() == 0 ==> q.x.key()
                == center.x.key() && q.y.key() == center.y.key()
            &&& !far ==> q == p
        }),
{
    lemma_displaced(p.x, center.x, strength, j);
    lemma_displaced(p.y, center.y, strength, j);
}

proof fn lemma_displaced(p: Double, c: Double, strength: Double, j: nat)
    requires
        is_plain(p, j),
        is_plain(c, j),
        strength.wf(),
        f_add(Double { bits: ONE }, strength).wf(),
    ensures
        ({
            let factor = f_add(Double { bits: ONE }, strength);
            let q = f_add(c, f_mul(f_sub(p, c), factor));
            &&& p == c ==> q.key() == c.key()
            &&& strength.key() == 0 ==> q.key() == p.key()
            &&& factor.key() == 0 ==> q.key() == c.key()
        }),
{
    let factor = f_add(Double { bits: ONE }, strength);
    let d = f_sub(p, c);
    lemma_plain(p, j);
    lemma_plain(c, j);
    lemma_sub(p, c, j, 0x4000_0000, 0x4000_0000);
    lemma_one();
    if p == c {
        lemma_self_difference(p);
        lemma_nothing_times(d, factor);
        lemma_plus_nothing(c, f_mul(d, factor));
    }
    if strength.key() == 0 {
        lemma_plus_nothing(whole(1), strength);
        lemma_times_one(d);
        lemma_add(c, d, j, 0x4000_0000, 0x8000_0000);
        lemma_order(f_add(c, d), p);
    }
    if factor.key() == 0 {
        lemma_nothing_times(factor, d);
        lemma_plus_nothing(c, f_mul(d, factor));
    }
}

/// No turn leaves a point where it is; a quarter turn brings what lies to the right of the
/// centre below it, and what lies below to the left.
pub proof fn law_turned_points_go_round(p: Point, center: Point, j: nat)
    requires
        is_plain(p.x, j),
        is_plain(p.y, j),
        is_plain(center.x, j),
        is_plain(center.y, j),
    ensures
        ({
            let still = turned(p, center, whole(1), Double { bits: 0 });
            let quarter = turned(p, center, Double { bits: 0 }, whole(1));
            &&& exact(still.x) == exact(p.x) && exact(still.y) == exact(p.y)
            &&& exact(quarter.x) - exact(center.x) == -(exact(p.y) - exact(center.y))
            &&& exact(quarter.y) - exact(center.y) == exact(p.x) - exact(center.x)
        }),
{
    let zero = (Double { bits: 0 });
    lemma_plain(p.x, j);
    lemma_plain(p.y, j);
    lemma_plain(center.x, j);
    lemma_plain(center.y, j);
    lemma_sub(p.x, center.x, j, 0x4000_0000, 0x4000_0000);
    lemma_sub(p.y, center.y, j, 0x4000_0000, 0x4000_0000);
    let dx = f_sub(p.x, center.x);
    let dy = f_sub(p.y, center.y);
    lemma_times_one(dx);
    lemma_times_one(dy);
    lemma_nothing_times(zero, dx);
    lemma_nothing_times(zero, dy);
    lemma_add(center.x, dx, j, 0x4000_0000, 0x8000_0000);
    lemma_add(center.y, dy, j, 0x4000_0000, 0x8000_0000);
    lemma_add(center.y, dx, j, 0x4000_0000, 0x8000_0000);
    lemma_sub(center.x, dy, j, 0x4000_0000, 0x8000_0000);
    let zx = f_mul(dx, zero);
    let zy = f_mul(dy, zero);
    lemma_neg(zy);
    lemma_plus_nothing(f_add(center.x, dx), f_neg(zy));
    lemma_same_value(f_sub(f_add(center.x, dx), zy), f_add(center.x, dx));
    lemma_plus_nothing(center.y, zx);
    lemma_plus_nothing(center.x, zx);
    lemma_same_value(f_add(center.y, zx), center.y);
    lemma_same_value(f_add(center.x, zx), center.x);
    lemma_steps(f_add(center.y, zx), j, crate::steps::steps(center.y, j));
    lemma_steps(f_add(center.x, zx), j, crate::steps::steps(center.x, j));
    lemma_add(f_add(center.y, zx), dy, j, 0x4000_0000, 0x8000_0000);
    lemma_sub(f_add(center.x, zx), dy, j, 0x4000_0000, 0x8000_0000);
    lemma_plus_nothing(f_add(center.y, dx), zy);
    lemma_same_value(f_add(f_add(center.y, dx), zy), f_add(center.y, dx));
}

proof fn lemma_points_of(path: Seq<PathEl>)
    ensures
        all_points(path).len() == points_in(path),
    decreases path.len(),
{
    if path.len() > 0 {
        lemma_points_of(path.drop_last());
    }
}

/// Every point of a path is moved by the pair of random numbers that has its place among the
/// points of the path.
pub proof fn law_every_point_is_roughened_by_its_own(
    path: Seq<PathEl>,
    size: Double,
    values: Seq<(Double, Double)>,
    i: int,
)
    requires
        0 <= i < all_points(path).len(),
    ensures
        all_points(rough_path(path, size, values)).len() == all_points(path).len(),
        all_points(rough_path(path, size, values))[i] == roughened(
            all_points(path)[i],
            size,
            values,
            i as nat,
        ),
    decreases path.len(),
{
    let less = path.drop_last();
    let out = rough_path(path, size, values);
    assert(out.drop_last() =~= rough_path(less, size, values)) by {
        assert forall|k: int| 0 <= k < less.len() implies out[k] == rough_path(
            less,
            size,
            values,
        )[k] by {
            assert(path.take(k) =~= less.take(k));
        }
    }
    lemma_points_of(less);
    lemma_points_of(path);
    assert(path.take(path.len() - 1) =~= less);
    if i < all_points(less).len() {
        law_every_point_is_roughened_by_its_own(less, size, values, i);
    } else if all_points(less).len() > 0 {
        law_every_point_is_roughened_by_its_own(less, size, values, 0);
    } else {
        lemma_no_points(less, size, values);
    }
}

proof fn lemma_no_points(path: Seq<PathEl>, size: Double, values: Seq<(Double, Double)>)
    requires
        all_points(path).len() == 0,
    ensures
        all_points(rough_path(path, size, values)).len() == 0,
    decreases path.len(),
{
    if path.len() > 0 {
        let less = path.drop_last();
        let out = rough_path(path, size, values);
        assert(out.drop_last() =~= rough_path(less, size, values)) by {
            assert forall|k: int| 0 <= k < less.len() implies out[k] == rough_path(
                less,
                size,
                values,
            )[k] by {
                assert(path.take(k) =~= less.take(k));
            }
        }
        lemma_no_points(less, size, values);
    }
}

/// Every point of a path is turned by the turn that has its place among the points.
pub proof fn law_every_point_is_turned_by_its_own(
    path: Seq<PathEl>,
    center: Point,
    turns: Seq<(Double, Double)>,
    i: int,
)
    requires
        0 <= i < all_points(path).len(),
    ensures
        all_points(turned_path(path, center, turns)).len() == all_points(path).len(),
        all_points(turned_path(path, center, turns))[i] == turned(
            all_points(path)[i],
            center,
            turns[i].0,
            turns[i].1,
        ),
    decreases path.len(),
{
    let less = path.drop_last();
    lemma_turned_less(path, center, turns);
    lemma_points_of(less);
    lemma_points_of(path);
    assert(path.take(path.len() - 1) =~= less);
    if i < all_points(less).len() {
        law_every_point_is_turned_by_its_own(less, center, turns, i);
    } else if all_points(less).len() > 0 {
        law_every_point_is_turned_by_its_own(less, center, turns, 0);
    } else {
        lemma_no_turned_points(less, center, turns);
    }
}

proof fn lemma_turned_less(path: Seq<PathEl>, center: Point, turns: Seq<(Double, Double)>)
    requires
        path.len() > 0,
    ensures
        turned_path(path, center, turns).drop_last() == turned_path(
            path.drop_last(),
            center,
            turns,
        ),
{
    let less = path.drop_last();
    let out = turned_path(path, center, turns);
    assert(out.drop_last() =~= turned_path(less, center, turns)) by {
        assert forall|k: int| 0 <= k < less.len() implies out[k] == turned_path(
            less,
            center,
            turns,
        )[k] by {
            assert(path.take(k) =~= less.take(k));
        }
    }
}

proof fn lemma_no_turned_points(path: Seq<PathEl>, center: Point, turns: Seq<(Double, Double)>)
    requires
        all_points(path).len() == 0,
    ensures
        all_points(turned_path(path, center, turns)).len() == 0,
    decreases path.len(),
{
    if path.len() > 0 {
        lemma_turned_less(path, center, turns);
        lemma_no_turned_points(path.drop_last(), center, turns);
    }
}

/// A zig-zag starts where its line starts and ends where that ends.
pub proof fn law_zig_zag_joins_its_ends(z: ZigZag, j: nat)
    requires
        z.steps > 0,
        z.steps < 0x1_0000_0000,
        is_plain(z.from.x, j),
        is_plain(z.from.y, j),
        is_plain(z.to.x, j),
        is_plain(z.to.y, j),
        z.tangent().x.wf(),
        z.tangent().y.wf(),
    ensures
        exact(z.corner(0).x) == exact(z.from.x),
        exact(z.corner(0).y) == exact(z.from.y),
        exact(z.corner(z.steps).x) == exact(z.to.x),
        exact(z.corner(z.steps).y) == exact(z.to.y),
{
    let zero = (Double { bits: 0 });
    let t = z.tangent();
    lemma_neg(t.y);
    lemma_nothing_times(zero, f_neg(t.y));
    lemma_nothing_times(zero, t.x);
    lemma_on_line(z.from.x, z.to.x, z.steps, f_mul(f_neg(t.y), zero), j);
    lemma_on_line(z.from.y, z.to.y, z.steps, f_mul(t.x, zero), j);
}

proof fn lemma_on_line(from: Double, to: Double, steps: nat, nothing: Double, j: nat)
    requires
        0 < steps < 0x1_0000_0000,
        is_plain(from, j),
        is_plain(to, j),
        nothing.key() == 0,
    ensures
        exact(
            f_add(
                f_add(from, f_mul(f_sub(to, from), f_div(whole(0), whole(steps)))),
                nothing,
            ),
        ) == exact(from),
        exact(
            f_add(
                f_add(from, f_mul(f_sub(to, from), f_div(whole(steps), whole(steps)))),
                nothing,
            ),
        ) == exact(to),
{
    lemma_plain(from, j);
    lemma_plain(to, j);
    lemma_sub(to, from, j, 0x4000_0000, 0x4000_0000);
    let d = f_sub(to, from);
    lemma_share_of_itself(steps);
    lemma_times_one(d);
    lemma_add(from, d, j, 0x4000_0000, 0x8000_0000);
    lemma_plus_nothing(f_add(from, d), nothing);
    lemma_same_value(f_add(f_add(from, d), nothing), f_add(from, d));
    let z = f_mul(d, f_div(whole(0), whole(steps)));
    lemma_nothing_times(f_div(whole(0), whole(steps)), d);
    lemma_plus_nothing(from, z);
    lemma_same_value(f_add(from, z), from);
    lemma_plus_nothing(f_add(from, z), nothing);
    lemma_same_value(f_add(f_add(from, z), nothing), f_add(from, z));
}

/// None of so many parts is nothing, and all of them are one.
pub proof fn lemma_share_of_itself(n: nat)
    requires
        0 < n < 0x1_0000_0000,
    ensures
        f_div(whole(0), whole(n)).key() == 0,
        f_div(whole(n), whole(n)) == whole(1),
{
    lemma_whole(0);
    lemma_whole(n);
    lemma_positive(n);
    lemma_one();
    reveal(f_div);
    lemma_power_positive(2, 1074);
    let u = one_units();
    let e = exact(whole(n));
    assert(e == n * u);
    lemma_whole(1);
    lemma_rounded_exists(u as int, u);
    lemma_rounded_scaled(u as int, u, n, whole(1));
    assert(u * n == n * u) by (nonlinear_arith);
}

/// Where the edge into a corner runs straight down or straight across, its fillet starts on
/// that edge; and it ends on the edge out of the corner. The corner itself is its handle.
pub proof fn law_fillets_lie_on_their_edges(o: Outline, i: int, radius: Double)
    requires
        0 <= i < o.corners.len(),
        o.corner_elements(i, radius).len() == 2,
        ({
            let p = o.corners[i];
            let a = o.before(i);
            let b = o.behind(i);
            let len_in = span(f_sub(p.x, a.x), f_sub(p.y, a.y));
            let len_out = span(f_sub(b.x, p.x), f_sub(b.y, p.y));
            &&& p.x.wf() && p.y.wf()
            &&& len_in.wf() && len_in.key() > 0
            &&& len_out.wf() && len_out.key() > 0
            &&& o.fillet(i, radius, len_in, len_out).wf()
        }),
    ensures
        ({
            let p = o.corners[i];
            let a = o.before(i);
            let b = o.behind(i);
            let e = o.corner_elements(i, radius);
            let from = element_end(e[0])->0;
            let to = element_end(e[1])->0;
            &&& a.x == p.x ==> from.x.key() == p.x.key()
            &&& a.y == p.y ==> from.y.key() == p.y.key()
            &&& b.x == p.x ==> to.x.key() == p.x.key()
            &&& b.y == p.y ==> to.y.key() == p.y.key()
            &&& e[1] == PathEl::QuadTo(p, to)
        }),
{
    let p = o.corners[i];
    let a = o.before(i);
    let b = o.behind(i);
    let len_in = span(f_sub(p.x, a.x), f_sub(p.y, a.y));
    let len_out = span(f_sub(b.x, p.x), f_sub(b.y, p.y));
    let r = o.fillet(i, radius, len_in, len_out);
    lemma_no_way(p.x, len_in, r);
    lemma_no_way(p.y, len_in, r);
    lemma_no_way(p.x, len_out, r);
    lemma_no_way(p.y, len_out, r);
}

proof fn lemma_no_way(p: Double, length: Double, r: Double)
    requires
        p.wf(),
        length.wf(),
        length.key() > 0,
        r.wf(),
    ensures
        f_sub(p, f_mul(f_div(f_sub(p, p), length), r)).key() == p.key(),
        f_add(p, f_mul(f_div(f_sub(p, p), length), r)).key() == p.key(),
{
    lemma_self_difference(p);
    let d = f_sub(p, p);
    lemma_zero_value(d);
    lemma_zero_value(length);
    let t = f_div(d, length);
    assert(t.key() == 0) by {
        reveal(f_div);
        lemma_zero_rounds(abs(exact(length)));
    }
    lemma_nothing_times(t, r);
    let z = f_mul(t, r);
    lemma_neg(z);
    lemma_plus_nothing(p, z);
    lemma_plus_nothing(p, f_neg(z));
}

/// Exchanging across and down everywhere exchanges them in a rounded corner.
pub proof fn law_corners_treat_axes_alike(o: Outline, i: int, radius: Double)
    requires
        0 <= i < o.corners.len(),
    ensures
        ({
            let t = Outline {
                corners: o.corners.map_values(|p: Point| transposed(p)),
                closed: o.closed,
            };
            let a = o.corner_elements(i, radius);
            let b = t.corner_elements(i, radius);
            &&& a.len() == b.len()
            &&& b[0] == with_points(a[0], |p: Point| transposed(p))
            &&& a.len() == 2 ==> b[1] == with_points(a[1], |p: Point| transposed(p))
        }),
{
    let p = o.corners[i];
    let a = o.before(i);
    let b = o.behind(i);
    let dx_in = f_sub(p.x, a.x);
    let dy_in = f_sub(p.y, a.y);
    let dx_out = f_sub(b.x, p.x);
    let dy_out = f_sub(b.y, p.y);
    lemma_sum_commutes(f_mul(dx_in, dx_in), f_mul(dy_in, dy_in));
    lemma_sum_commutes(f_mul(dx_out, dx_out), f_mul(dy_out, dy_out));
    let t = Outline {
        corners: o.corners.map_values(|p: Point| transposed(p)),
        closed: o.closed,
    };
    assert(t.before(i) == transposed(a));
    assert(t.behind(i) == transposed(b));
}


/// What starts at the first number and is as long as the second ends at the third, wherever
/// nothing has to be rounded.
pub open spec fn reaches_to(from: Double, length: Double, to: Double) -> bool {
    forall|j: nat|
        #![trigger is_plain(from, j)]
        is_plain(from, j) && is_plain(to, j) ==> exact(from) + exact(length) == exact(to)
}

proof fn lemma_reaches_to(from: Double, to: Double)
    ensures
        reaches_to(from, f_sub(to, from), to),
{
    assert forall|j: nat|
        #![trigger is_plain(from, j)]
        is_plain(from, j) && is_plain(to, j) implies exact(from) + exact(f_sub(to, from)) == exact(
        to,
    ) by {
        lemma_plain(from, j);
        lemma_plain(to, j);
        lemma_sub(to, from, j, 0x4000_0000, 0x4000_0000);
    }
}


/// The pen of a zig-zag is where the last element ended; closing the outline brings it back
/// to where the outline started.
pub proof fn law_pen_follows_the_outline(
    s: ZigZagState,
    el: PathEl,
    size: Double,
    ridges: usize,
    smooth: bool,
)
    ensures
        ({
            let t = zig_zag_step(s, el, size, ridges, smooth);
            &&& el is ClosePath ==> t.current == s.start && t.start == s.start && t.out.last() == el
            &&& el is MoveTo ==> t.start == el->MoveTo_0 && t.current == el->MoveTo_0
            &&& !(el is MoveTo) ==> t.start == s.start
            &&& element_end(el) matches Some(p) ==> t.current == p
        }),
{
}

} // verus!
