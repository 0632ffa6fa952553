//! The outlines of ready-made shapes, from their measures and from the cosines and
//! sines of their angles.
use crate::arrange::{given_or_default, or_default};
use crate::bezier::{lemma_share_of_itself, transposed, with_points, PathEl, Point, ONE};
use crate::bignum::power;
use crate::copies::FULL_TURN;
use crate::double::Double;
use crate::float::{
    absolute, at_most, clamped, divided, exact, f_abs, f_add, f_at_most, f_clamp, f_div, f_less,
    f_max, f_min, f_mul, f_neg, f_sub, from_count, half, halved, lemma_positive, less, maximum,
    minimum, minus, negated, plus, times, to_count, truncated, whole,
};
use crate::steps::{
    is_plain, lemma_add, lemma_half, lemma_neg, lemma_nothing_times, lemma_order, lemma_plain,
    lemma_plus_nothing, lemma_product_commutes, lemma_product_keeps_order, lemma_product_value,
    lemma_same_value, lemma_share_of_steps, lemma_steps, lemma_sub, lemma_sum_commutes,
    lemma_sum_keeps_order, lemma_sum_mirrors, lemma_times, lemma_times_half, lemma_times_one,
    lemma_zero_value, steps,
};
use vstd::prelude::*;

verus! {

/// The cosine and the sine of an angle.
#[derive(Debug, Clone, Copy, PartialEq, Eq, Structural)]
pub struct Direction {
    pub cosine: Double,
    pub sine: Double,
}

pub open spec fn point(x: Double, y: Double) -> Point {
    Point { x, y }
}

/// The point at a distance from the centre.
pub open spec fn polar(cx: Double, cy: Double, r: Double, d: Direction) -> Point {
    Point { x: f_add(cx, f_mul(r, d.cosine)), y: f_add(cy, f_mul(r, d.sine)) }
}

fn polar_point(cx: Double, cy: Double, r: Double, d: Direction) -> (p: Point)
    ensures
        p == polar(cx, cy, r, d),
{
    Point { x: plus(cx, times(r, d.cosine)), y: plus(cy, times(r, d.sine)) }
}

/// The elements of a line through points: a move to the first, lines to the others.
pub open spec fn line_through(points: Seq<Point>) -> Seq<PathEl> {
    Seq::new(
        points.len(),
        |i: int|
            if i == 0 {
                PathEl::MoveTo(points[i])
            } else {
                PathEl::LineTo(points[i])
            },
    )
}

/// A line through points.
pub fn polyline(points: &Vec<Point>) -> (r: Vec<PathEl>)
    ensures
        r@ == line_through(points@),
{
    let mut out: Vec<PathEl> = Vec::new();
    let mut i: usize = 0;
    while i < points.len()
        invariant
            i <= points.len(),
            out@ == line_through(points@).take(i as int),
        decreases points.len() - i,
    {
        if i == 0 {
            out.push(PathEl::MoveTo(points[i]));
        } else {
            out.push(PathEl::LineTo(points[i]));
        }
        i += 1;
        assert(out@ =~= line_through(points@).take(i as int));
    }
    assert(out@ =~= line_through(points@));
    out
}

/// A closed line through points.
pub open spec fn polygon_through(points: Seq<Point>) -> Seq<PathEl> {
    line_through(points).push(PathEl::ClosePath)
}

/// A closed line through points.
pub fn polygon(points: &Vec<Point>) -> (r: Vec<PathEl>)
    ensures
        r@ == polygon_through(points@),
{
    let mut out = polyline(points);
    out.push(PathEl::ClosePath);
    out
}

/// 0.3 as a number.
pub const P3: u64 = 0x3fd3_3333_3333_3333;

/// 0.4 as a number.
pub const P4: u64 = 0x3fd9_9999_9999_999a;

/// 0.6 as a number.
pub const P6: u64 = 0x3fe3_3333_3333_3333;

/// 0.9 as a number.
pub const P9: u64 = 0x3fec_cccc_cccc_cccd;

/// 1.2 as a number.
pub const P12: u64 = 0x3ff3_3333_3333_3333;

/// 1.4 as a number.
pub const P14: u64 = 0x3ff6_6666_6666_6666;

/// 1.6 as a number.
pub const P16: u64 = 0x3ff9_9999_9999_999a;

/// 1.7 as a number.
pub const P17: u64 = 0x3ffb_3333_3333_3333;

/// A point of a heart: so many half widths to the right of the tip, so many above.
pub open spec fn heart_point(cx: Double, cy: Double, h: Double, right: u64, up: u64) -> Point {
    Point {
        x: f_add(cx, f_mul(h, Double { bits: right })),
        y: f_sub(cy, f_mul(h, Double { bits: up })),
    }
}

/// A point of a heart on the left.
pub open spec fn heart_left(cx: Double, cy: Double, h: Double, left: u64, up: u64) -> Point {
    Point {
        x: f_sub(cx, f_mul(h, Double { bits: left })),
        y: f_sub(cy, f_mul(h, Double { bits: up })),
    }
}

/// A point of a heart at its widest, on the right or on the left.
pub open spec fn heart_side(cx: Double, cy: Double, h: Double, right: bool, up: u64) -> Point {
    Point {
        x: if right {
            f_add(cx, h)
        } else {
            f_sub(cx, h)
        },
        y: f_sub(cy, f_mul(h, Double { bits: up })),
    }
}

/// A heart of the width `size` with its tip at `(cx, cy)`.
pub open spec fn heart(cx: Double, cy: Double, size: Double) -> Seq<PathEl> {
    let h = half(size);
    let tip = point(cx, cy);
    let dip = Point { x: cx, y: f_sub(cy, f_mul(h, Double { bits: P14 })) };
    seq![
        PathEl::MoveTo(tip),
        PathEl::CurveTo(
            heart_left(cx, cy, h, P3, P6),
            heart_side(cx, cy, h, false, P9),
            heart_side(cx, cy, h, false, P12),
        ),
        PathEl::CurveTo(
            heart_side(cx, cy, h, false, P16),
            heart_left(cx, cy, h, P4, P17),
            dip,
        ),
        PathEl::CurveTo(
            heart_point(cx, cy, h, P4, P17),
            heart_side(cx, cy, h, true, P16),
            heart_side(cx, cy, h, true, P12),
        ),
        PathEl::CurveTo(
            heart_side(cx, cy, h, true, P9),
            heart_point(cx, cy, h, P3, P6),
            tip,
        ),
        PathEl::ClosePath,
    ]
}

fn left_of_heart(cx: Double, cy: Double, h: Double, left: u64, up: u64) -> (r: Point)
    ensures
        r == heart_left(cx, cy, h, left, up),
{
    Point {
        x: minus(cx, times(h, Double { bits: left })),
        y: minus(cy, times(h, Double { bits: up })),
    }
}

fn right_of_heart(cx: Double, cy: Double, h: Double, right: u64, up: u64) -> (r: Point)
    ensures
        r == heart_point(cx, cy, h, right, up),
{
    Point {
        x: plus(cx, times(h, Double { bits: right })),
        y: minus(cy, times(h, Double { bits: up })),
    }
}

fn side_of_heart(cx: Double, cy: Double, h: Double, right: bool, up: u64) -> (r: Point)
    ensures
        r == heart_side(cx, cy, h, right, up),
{
    Point {
        x: if right {
            plus(cx, h)
        } else {
            minus(cx, h)
        },
        y: minus(cy, times(h, Double { bits: up })),
    }
}

/// A heart, 60 wide where no size is given, with its tip at `(cx, cy)`.
pub fn create_heart(cx: Double, cy: Double, size: Option<Double>) -> (r: Vec<PathEl>)
    ensures
        r@ == heart(cx, cy, or_default(size, whole(60))),
{
    let s = given_or_default(size, from_count(60));
    let h = halved(s);
    let tip = Point { x: cx, y: cy };
    let dip = Point { x: cx, y: minus(cy, times(h, Double { bits: P14 })) };
    let mut out: Vec<PathEl> = Vec::new();
    out.push(PathEl::MoveTo(tip));
    out.push(
        PathEl::CurveTo(
            left_of_heart(cx, cy, h, P3, P6),
            side_of_heart(cx, cy, h, false, P9),
            side_of_heart(cx, cy, h, false, P12),
        ),
    );
    out.push(
        PathEl::CurveTo(
            side_of_heart(cx, cy, h, false, P16),
            left_of_heart(cx, cy, h, P4, P17),
            dip,
        ),
    );
    out.push(
        PathEl::CurveTo(
            right_of_heart(cx, cy, h, P4, P17),
            side_of_heart(cx, cy, h, true, P16),
            side_of_heart(cx, cy, h, true, P12),
        ),
    );
    out.push(
        PathEl::CurveTo(
            side_of_heart(cx, cy, h, true, P9),
            right_of_heart(cx, cy, h, P3, P6),
            tip,
        ),
    );
    out.push(PathEl::ClosePath);
    assert(out@ =~= heart(cx, cy, s));
    out
}

/// A gear without its hole.
#[derive(Debug, Clone, Copy, PartialEq, Eq, Structural)]
pub struct Gear {
    pub cx: Double,
    pub cy: Double,
    pub outer: Double,
    pub inner: Double,
    pub teeth: usize,
}

/// A gear as it is asked for.
#[derive(Debug, Clone, Copy, PartialEq, Eq, Structural)]
pub struct GearArgs {
    pub cx: Double,
    pub cy: Double,
    pub outer_radius: Option<Double>,
    pub inner_radius: Option<Double>,
    pub hole_radius: Option<Double>,
    pub teeth: Option<usize>,
}

/// The number of teeth: 12 where none is given, at least 3.
pub open spec fn teeth_of(teeth: Option<usize>) -> nat {
    match teeth {
        Some(t) => if t >= 3 {
            t as nat
        } else {
            3
        },
        None => 12,
    }
}

/// The gear that is drawn, and the radius of its hole where it has one.
pub fn choose_gear(args: &GearArgs) -> (r: (Gear, Option<Double>))
    ensures
        r.0 == (Gear {
            cx: args.cx,
            cy: args.cy,
            outer: or_default(args.outer_radius, whole(50)),
            inner: or_default(args.inner_radius, whole(35)),
            teeth: teeth_of(args.teeth) as usize,
        }),
        r.1 == if f_less(Double { bits: 0 }, or_default(args.hole_radius, whole(10))) {
            Some(or_default(args.hole_radius, whole(10)))
        } else {
            None::<Double>
        },
{
    let hole = given_or_default(args.hole_radius, from_count(10));
    let gear = Gear {
        cx: args.cx,
        cy: args.cy,
        outer: given_or_default(args.outer_radius, from_count(50)),
        inner: given_or_default(args.inner_radius, from_count(35)),
        teeth: count_teeth(args.teeth),
    };
    (
        gear,
        if less(Double { bits: 0 }, hole) {
            Some(hole)
        } else {
            None
        },
    )
}

/// The number of teeth of a gear.
pub fn count_teeth(teeth: Option<usize>) -> (r: usize)
    ensures
        r == teeth_of(teeth),
        r >= 3,
{
    match teeth {
        Some(t) => if t >= 3 {
            t
        } else {
            3
        },
        None => 12,
    }
}

/// 0.5 as a number.
pub const P5: u64 = 0x3fe0_0000_0000_0000;

/// 0.25 as a number.
pub const P25: u64 = 0x3fd0_0000_0000_0000;

/// The share of a tooth's angle that lies between the teeth.
pub open spec fn gap_share() -> Double {
    f_sub(Double { bits: ONE }, Double { bits: P4 })
}

/// Where the five points of a tooth lie, as shares of its angle.
pub open spec fn tooth_share(j: int) -> Double {
    let side = f_mul(gap_share(), Double { bits: P5 });
    let top = f_mul(Double { bits: P4 }, Double { bits: P25 });
    if j == 2 {
        f_add(side, top)
    } else if j == 3 {
        f_sub(f_sub(Double { bits: ONE }, side), top)
    } else {
        f_sub(Double { bits: ONE }, side)
    }
}

/// The angle, in radians, of point `j` of tooth `i`. The second point is reckoned in
/// two steps.
pub open spec fn tooth_angle(teeth: nat, i: nat, j: int) -> Double {
    let step = f_div(Double { bits: FULL_TURN }, whole(teeth));
    let base = f_mul(step, whole(i));
    if j == 0 {
        base
    } else if j == 1 {
        f_add(base, f_mul(f_mul(step, gap_share()), Double { bits: P5 }))
    } else {
        f_add(base, f_mul(step, tooth_share(j)))
    }
}

/// The angles of all points of all teeth.
pub open spec fn gear_angles_of(teeth: nat) -> Seq<Double> {
    Seq::new(5 * teeth, |k: int| tooth_angle(teeth, (k / 5) as nat, k % 5))
}

/// The angles of all points of all teeth, in radians.
pub fn gear_angles(teeth: usize) -> (r: Vec<Double>)
    requires
        0 < teeth,
        5 * teeth <= usize::MAX,
    ensures
        r@ == gear_angles_of(teeth as nat),
{
    proof {
        lemma_positive(teeth as nat);
    }
    let one = Double { bits: ONE };
    let step = divided(Double { bits: FULL_TURN }, from_count(teeth as u64));
    let gap = minus(one, Double { bits: P4 });
    let side = times(gap, Double { bits: P5 });
    let top = times(Double { bits: P4 }, Double { bits: P25 });
    let ghost goal = gear_angles_of(teeth as nat);
    let mut out: Vec<Double> = Vec::new();
    let mut k: usize = 0;
    while k < 5 * teeth
        invariant
            k <= 5 * teeth <= usize::MAX,
            goal == gear_angles_of(teeth as nat),
            one == (Double { bits: ONE }),
            step == f_div(Double { bits: FULL_TURN }, whole(teeth as nat)),
            gap == gap_share(),
            side == f_mul(gap_share(), Double { bits: P5 }),
            top == f_mul(Double { bits: P4 }, Double { bits: P25 }),
            out@ == goal.take(k as int),
        decreases 5 * teeth - k,
    {
        let base = times(step, from_count((k / 5) as u64));
        let j: usize = k % 5;
        let angle = if j == 0 {
            base
        } else if j == 1 {
            plus(base, times(times(step, gap), Double { bits: P5 }))
        } else if j == 2 {
            plus(base, times(step, plus(side, top)))
        } else if j == 3 {
            plus(base, times(step, minus(minus(one, side), top)))
        } else {
            plus(base, times(step, minus(one, side)))
        };
        out.push(angle);
        k += 1;
        assert(out@ =~= goal.take(k as int));
    }
    assert(out@ =~= goal);
    out
}

/// The points of a gear, from the directions of its angles. The third and the fourth
/// point of every tooth lie on its top.
pub open spec fn gear_points(g: Gear, directions: Seq<Direction>) -> Seq<Point> {
    Seq::new(
        directions.len(),
        |k: int|
            polar(
                g.cx,
                g.cy,
                if k % 5 == 2 || k % 5 == 3 {
                    g.outer
                } else {
                    g.inner
                },
                directions[k],
            ),
    )
}

/// The outline of a gear.
pub fn create_gear(g: &Gear, directions: &Vec<Direction>) -> (r: Vec<PathEl>)
    ensures
        r@ == polygon_through(gear_points(*g, directions@)),
{
    let ghost goal = gear_points(*g, directions@);
    let mut points: Vec<Point> = Vec::new();
    let mut k: usize = 0;
    while k < directions.len()
        invariant
            k <= directions.len(),
            goal == gear_points(*g, directions@),
            points@ == goal.take(k as int),
        decreases directions.len() - k,
    {
        let r = if k % 5 == 2 || k % 5 == 3 {
            g.outer
        } else {
            g.inner
        };
        points.push(polar_point(g.cx, g.cy, r, directions[k]));
        k += 1;
        assert(points@ =~= goal.take(k as int));
    }
    assert(points@ =~= goal);
    polygon(&points)
}

/// A point turned about the origin and shifted.
pub open spec fn spun(p: Point, d: Direction, x: Double, y: Double) -> Point {
    Point {
        x: f_add(f_sub(f_mul(p.x, d.cosine), f_mul(p.y, d.sine)), x),
        y: f_add(f_add(f_mul(p.x, d.sine), f_mul(p.y, d.cosine)), y),
    }
}

pub open spec fn spun_points(points: Seq<Point>, d: Direction, x: Double, y: Double) -> Seq<Point> {
    Seq::new(points.len(), |i: int| spun(points[i], d, x, y))
}

fn spin(points: &Vec<Point>, d: Direction, x: Double, y: Double) -> (r: Vec<Point>)
    ensures
        r@ == spun_points(points@, d, x, y),
{
    let mut out: Vec<Point> = Vec::new();
    let mut i: usize = 0;
    while i < points.len()
        invariant
            i <= points.len(),
            out@ == spun_points(points@, d, x, y).take(i as int),
        decreases points.len() - i,
    {
        let p = points[i];
        out.push(
            Point {
                x: plus(minus(times(p.x, d.cosine), times(p.y, d.sine)), x),
                y: plus(plus(times(p.x, d.sine), times(p.y, d.cosine)), y),
            },
        );
        i += 1;
        assert(out@ =~= spun_points(points@, d, x, y).take(i as int));
    }
    assert(out@ =~= spun_points(points@, d, x, y));
    out
}

/// The corners of a cross about the origin, with arms that reach to `s` and are
/// `2 t` thick.
pub open spec fn cross_corners(s: Double, t: Double) -> Seq<Point> {
    let ns = f_neg(s);
    let nt = f_neg(t);
    seq![
        point(nt, ns),
        point(t, ns),
        point(t, nt),
        point(s, nt),
        point(s, t),
        point(t, t),
        point(t, s),
        point(nt, s),
        point(nt, t),
        point(ns, t),
        point(ns, nt),
        point(nt, nt),
    ]
}

/// A cross about its middle, turned; its arms are no broader than it is large.
pub open spec fn cross(
    cx: Double,
    cy: Double,
    size: Option<Double>,
    thickness: Option<Double>,
    turn: Direction,
) -> Seq<PathEl> {
    let s = or_default(size, whole(60));
    let t = f_min(or_default(thickness, whole(20)), s);
    polygon_through(spun_points(cross_corners(half(s), half(t)), turn, cx, cy))
}

/// A cross. Its arms are at most as thick as it is large.
pub fn create_cross(
    cx: Double,
    cy: Double,
    size: Option<Double>,
    thickness: Option<Double>,
    turn: Direction,
) -> (r: Vec<PathEl>)
    ensures
        ({
            let s = or_default(size, whole(60));
            let t = f_min(or_default(thickness, whole(20)), s);
            r@ == polygon_through(spun_points(cross_corners(half(s), half(t)), turn, cx, cy))
        }),
        r@ == cross(cx, cy, size, thickness, turn),
{
    let size = given_or_default(size, from_count(60));
    let s = halved(size);
    let t = halved(minimum(given_or_default(thickness, from_count(20)), size));
    let ns = negated(s);
    let nt = negated(t);
    let mut corners: Vec<Point> = Vec::new();
    corners.push(Point { x: nt, y: ns });
    corners.push(Point { x: t, y: ns });
    corners.push(Point { x: t, y: nt });
    corners.push(Point { x: s, y: nt });
    corners.push(Point { x: s, y: t });
    corners.push(Point { x: t, y: t });
    corners.push(Point { x: t, y: s });
    corners.push(Point { x: nt, y: s });
    corners.push(Point { x: nt, y: t });
    corners.push(Point { x: ns, y: t });
    corners.push(Point { x: ns, y: nt });
    corners.push(Point { x: nt, y: nt });
    assert(corners@ =~= cross_corners(s, t));
    polygon(&spin(&corners, turn, cx, cy))
}

/// 0.1 as a number.
pub const P1: u64 = 0x3fb9_9999_9999_999a;

/// An arrow by its measures.
#[derive(Debug, Clone, Copy, PartialEq, Eq, Structural)]
pub struct ArrowArgs {
    pub x: Double,
    pub y: Double,
    pub length: Option<Double>,
    pub head_width: Option<Double>,
    pub head_depth: Option<Double>,
    pub shaft_width: Option<Double>,
}

/// The corners of an arrow that points to the right, with its tip at the origin.
pub open spec fn arrow_corners(args: ArrowArgs) -> Seq<Point> {
    let length = or_default(args.length, whole(100));
    let depth = f_clamp(
        or_default(args.head_depth, Double { bits: P4 }),
        Double { bits: P1 },
        Double { bits: P9 },
    );
    let back = f_neg(f_mul(length, depth));
    let end = f_neg(length);
    let wing = half(or_default(args.head_width, whole(40)));
    let shaft = half(or_default(args.shaft_width, whole(16)));
    seq![
        point(Double { bits: 0 }, Double { bits: 0 }),
        point(back, f_neg(wing)),
        point(back, f_neg(shaft)),
        point(end, f_neg(shaft)),
        point(end, shaft),
        point(back, shaft),
        point(back, wing),
    ]
}

/// An arrow with its tip at a point.
pub fn create_arrow_shape(args: &ArrowArgs, turn: Direction) -> (r: Vec<PathEl>)
    ensures
        r@ == polygon_through(spun_points(arrow_corners(*args), turn, args.x, args.y)),
{
    let length = given_or_default(args.length, from_count(100));
    let depth = clamped(
        given_or_default(args.head_depth, Double { bits: P4 }),
        Double { bits: P1 },
        Double { bits: P9 },
    );
    let back = negated(times(length, depth));
    let end = negated(length);
    let wing = halved(given_or_default(args.head_width, from_count(40)));
    let shaft = halved(given_or_default(args.shaft_width, from_count(16)));
    let mut corners: Vec<Point> = Vec::new();
    corners.push(Point { x: Double { bits: 0 }, y: Double { bits: 0 } });
    corners.push(Point { x: back, y: negated(wing) });
    corners.push(Point { x: back, y: negated(shaft) });
    corners.push(Point { x: end, y: negated(shaft) });
    corners.push(Point { x: end, y: shaft });
    corners.push(Point { x: back, y: shaft });
    corners.push(Point { x: back, y: wing });
    assert(corners@ =~= arrow_corners(*args));
    polygon(&spin(&corners, turn, args.x, args.y))
}

/// A speech bubble by its measures.
#[derive(Debug, Clone, Copy, PartialEq, Eq, Structural)]
pub struct BubbleArgs {
    pub cx: Double,
    pub cy: Double,
    pub width: Option<Double>,
    pub height: Option<Double>,
    pub corner_radius: Option<Double>,
    pub tail_x: Option<Double>,
    pub tail_y: Option<Double>,
    pub tail_width: Option<Double>,
}

/// A rounded box whose bottom edge runs out to the tip of a tail. The foot of the
/// tail does not reach into the corners.
pub open spec fn bubble(args: BubbleArgs) -> Seq<PathEl> {
    let w = or_default(args.width, whole(120));
    let h = or_default(args.height, whole(60));
    let r = f_min(f_min(or_default(args.corner_radius, whole(15)), half(w)), half(h));
    let tail_w = or_default(args.tail_width, whole(20));
    let left = f_sub(args.cx, half(w));
    let right = f_add(args.cx, half(w));
    let top = f_sub(args.cy, half(h));
    let bottom = f_add(args.cy, half(h));
    let tip = point(
        or_default(args.tail_x, f_sub(args.cx, whole(10))),
        or_default(args.tail_y, f_add(f_add(args.cy, half(h)), whole(30))),
    );
    let foot_left = f_max(f_sub(args.cx, half(tail_w)), f_add(left, r));
    let foot_right = f_min(f_add(args.cx, half(tail_w)), f_sub(right, r));
    seq![
        PathEl::MoveTo(point(f_add(left, r), top)),
        PathEl::LineTo(point(f_sub(right, r), top)),
        PathEl::QuadTo(point(right, top), point(right, f_add(top, r))),
        PathEl::LineTo(point(right, f_sub(bottom, r))),
        PathEl::QuadTo(point(right, bottom), point(f_sub(right, r), bottom)),
        PathEl::LineTo(point(foot_right, bottom)),
        PathEl::LineTo(tip),
        PathEl::LineTo(point(foot_left, bottom)),
        PathEl::LineTo(point(f_add(left, r), bottom)),
        PathEl::QuadTo(point(left, bottom), point(left, f_sub(bottom, r))),
        PathEl::LineTo(point(left, f_add(top, r))),
        PathEl::QuadTo(point(left, top), point(f_add(left, r), top)),
        PathEl::ClosePath,
    ]
}

/// The outline of a speech bubble.
pub fn create_speech_bubble(args: &BubbleArgs) -> (out: Vec<PathEl>)
    ensures
        out@ == bubble(*args),
{
    let w = given_or_default(args.width, from_count(120));
    let h = given_or_default(args.height, from_count(60));
    let r = minimum(
        minimum(given_or_default(args.corner_radius, from_count(15)), halved(w)),
        halved(h),
    );
    let tail_w = given_or_default(args.tail_width, from_count(20));
    let left = minus(args.cx, halved(w));
    let right = plus(args.cx, halved(w));
    let top = minus(args.cy, halved(h));
    let bottom = plus(args.cy, halved(h));
    let tip = Point {
        x: given_or_default(args.tail_x, minus(args.cx, from_count(10))),
        y: given_or_default(args.tail_y, plus(plus(args.cy, halved(h)), from_count(30))),
    };
    let foot_left = maximum(minus(args.cx, halved(tail_w)), plus(left, r));
    let foot_right = minimum(plus(args.cx, halved(tail_w)), minus(right, r));
    let mut out: Vec<PathEl> = Vec::new();
    out.push(PathEl::MoveTo(Point { x: plus(left, r), y: top }));
    out.push(PathEl::LineTo(Point { x: minus(right, r), y: top }));
    out.push(PathEl::QuadTo(Point { x: right, y: top }, Point { x: right, y: plus(top, r) }));
    out.push(PathEl::LineTo(Point { x: right, y: minus(bottom, r) }));
    out.push(
        PathEl::QuadTo(Point { x: right, y: bottom }, Point { x: minus(right, r), y: bottom }),
    );
    out.push(PathEl::LineTo(Point { x: foot_right, y: bottom }));
    out.push(PathEl::LineTo(tip));
    out.push(PathEl::LineTo(Point { x: foot_left, y: bottom }));
    out.push(PathEl::LineTo(Point { x: plus(left, r), y: bottom }));
    out.push(
        PathEl::QuadTo(Point { x: left, y: bottom }, Point { x: left, y: minus(bottom, r) }),
    );
    out.push(PathEl::LineTo(Point { x: left, y: plus(top, r) }));
    out.push(PathEl::QuadTo(Point { x: left, y: top }, Point { x: plus(left, r), y: top }));
    out.push(PathEl::ClosePath);
    assert(out@ =~= bubble(*args));
    out
}

/// 359.9 as a number: from here on a ring counts as closed.
pub const ALMOST_FULL: u64 = 0x4076_7e66_6666_6666;

/// How many pieces the arcs of an open ring have.
pub const ARC_PIECES: usize = 32;

/// A ring, or a part of one.
#[derive(Debug, Clone, Copy, PartialEq, Eq, Structural)]
pub struct Ring {
    pub cx: Double,
    pub cy: Double,
    pub outer: Double,
    pub inner: Double,
    pub full: bool,
}

/// A ring as it is asked for; the angles are in degrees.
#[derive(Debug, Clone, Copy, PartialEq, Eq, Structural)]
pub struct DonutArgs {
    pub cx: Double,
    pub cy: Double,
    pub outer_radius: Option<Double>,
    pub inner_radius: Option<Double>,
    pub start_angle: Option<Double>,
    pub end_angle: Option<Double>,
}

/// The ring that is drawn: the outer radius is at least 1, and the inner one lies
/// between 0 and just below the outer one.
pub open spec fn ring_of(args: DonutArgs) -> Ring {
    let outer = f_max(or_default(args.outer_radius, whole(50)), Double { bits: ONE });
    let start = or_default(args.start_angle, Double { bits: 0 });
    let end = or_default(args.end_angle, whole(360));
    Ring {
        cx: args.cx,
        cy: args.cy,
        outer,
        inner: f_min(
            f_max(or_default(args.inner_radius, whole(25)), Double { bits: 0 }),
            f_sub(outer, Double { bits: P1 }),
        ),
        full: f_at_most(Double { bits: ALMOST_FULL }, f_abs(f_sub(end, start))),
    }
}

/// The ring that is drawn.
pub fn create_donut(args: &DonutArgs) -> (r: Ring)
    ensures
        r == ring_of(*args),
{
    let outer = maximum(given_or_default(args.outer_radius, from_count(50)), Double { bits: ONE });
    let start = given_or_default(args.start_angle, Double { bits: 0 });
    let end = given_or_default(args.end_angle, from_count(360));
    Ring {
        cx: args.cx,
        cy: args.cy,
        outer,
        inner: minimum(
            maximum(given_or_default(args.inner_radius, from_count(25)), Double { bits: 0 }),
            minus(outer, Double { bits: P1 }),
        ),
        full: at_most(Double { bits: ALMOST_FULL }, absolute(minus(end, start))),
    }
}

/// The angles of the points of an arc between two angles in radians.
pub open spec fn arc_angles_of(start: Double, end: Double) -> Seq<Double> {
    Seq::new(
        (ARC_PIECES + 1) as nat,
        |i: int|
            f_add(
                start,
                f_mul(f_sub(end, start), f_div(whole(i as nat), whole(ARC_PIECES as nat))),
            ),
    )
}

/// The angles of the points of an arc, in radians.
pub fn arc_angles(start: Double, end: Double) -> (r: Vec<Double>)
    ensures
        r@ == arc_angles_of(start, end),
{
    proof {
        lemma_positive(ARC_PIECES as nat);
    }
    let mut out: Vec<Double> = Vec::new();
    let mut i: usize = 0;
    while i <= ARC_PIECES
        invariant
            i <= ARC_PIECES + 1,
            whole(ARC_PIECES as nat).key() > 0,
            out@ == arc_angles_of(start, end).take(i as int),
        decreases ARC_PIECES + 1 - i,
    {
        let t = divided(from_count(i as u64), from_count(ARC_PIECES as u64));
        out.push(plus(start, times(minus(end, start), t)));
        i += 1;
        assert(out@ =~= arc_angles_of(start, end).take(i as int));
    }
    assert(out@ =~= arc_angles_of(start, end));
    out
}

/// The points of an open ring: along the outer arc, across to the inner one at
/// `end`, and back along it.
pub open spec fn open_ring_points(g: Ring, directions: Seq<Direction>, end: Direction) -> Seq<Point> {
    let n = directions.len() as int;
    Seq::new(
        (2 * n + 1) as nat,
        |k: int|
            if k < n {
                polar(g.cx, g.cy, g.outer, directions[k])
            } else if k == n {
                polar(g.cx, g.cy, g.inner, end)
            } else {
                polar(g.cx, g.cy, g.inner, directions[2 * n - k])
            },
    )
}

/// The outline of an open ring.
pub fn open_ring(g: &Ring, directions: &Vec<Direction>, end: Direction) -> (r: Vec<PathEl>)
    ensures
        r@ == polygon_through(open_ring_points(*g, directions@, end)),
{
    let ghost goal = open_ring_points(*g, directions@, end);
    let n: usize = directions.len();
    let mut points: Vec<Point> = Vec::new();
    let mut k: usize = 0;
    while k < n
        invariant
            k <= n,
            n == directions.len(),
            goal == open_ring_points(*g, directions@, end),
            points@ == goal.take(k as int),
        decreases n - k,
    {
        points.push(polar_point(g.cx, g.cy, g.outer, directions[k]));
        k += 1;
        assert(points@ =~= goal.take(k as int));
    }
    points.push(polar_point(g.cx, g.cy, g.inner, end));
    assert(points@ =~= goal.take(n + 1));
    let mut j: usize = n;
    while j > 0
        invariant
            j <= n,
            n == directions.len(),
            goal == open_ring_points(*g, directions@, end),
            points@ == goal.take(2 * n + 1 - j),
        decreases j,
    {
        j -= 1;
        points.push(polar_point(g.cx, g.cy, g.inner, directions[j]));
        assert(points@ =~= goal.take(2 * n + 1 - j));
    }
    assert(points@ =~= goal);
    polygon(&points)
}

/// A sunburst.
#[derive(Debug, Clone, Copy, PartialEq, Eq, Structural)]
pub struct Sunburst {
    pub cx: Double,
    pub cy: Double,
    pub inner: Double,
    pub outer: Double,
    pub rays: usize,
}

/// The sunburst that is drawn: the inner radius is at least 0, the outer one at
/// least 1, and there are at least 4 rays.
pub fn create_sunburst(
    cx: Double,
    cy: Double,
    inner: Option<Double>,
    outer: Option<Double>,
    rays: Option<usize>,
) -> (r: Sunburst)
    ensures
        r.cx == cx,
        r.cy == cy,
        r.inner == f_max(or_default(inner, whole(20)), Double { bits: 0 }),
        r.outer == f_max(or_default(outer, whole(100)), Double { bits: ONE }),
        r.rays == match rays {
            Some(n) => if n >= 4 {
                n as int
            } else {
                4
            },
            None => 24,
        },
{
    Sunburst {
        cx,
        cy,
        inner: maximum(given_or_default(inner, from_count(20)), Double { bits: 0 }),
        outer: maximum(given_or_default(outer, from_count(100)), Double { bits: ONE }),
        rays: match rays {
            Some(n) => if n >= 4 {
                n
            } else {
                4
            },
            None => 24,
        },
    }
}

/// The angles of a wedge: its start, its end, and its middle, in radians.
pub open spec fn wedge_angles_of(rays: nat, i: nat) -> (Double, Double, Double) {
    let step = f_div(Double { bits: FULL_TURN }, whole(rays));
    let a = f_mul(step, whole(i));
    let b = f_mul(step, whole(i + 1));
    (a, b, half(f_add(a, b)))
}

/// The angles of a wedge.
pub fn wedge_angles(rays: usize, i: usize) -> (r: (Double, Double, Double))
    requires
        rays > 0,
        i < usize::MAX,
    ensures
        r == wedge_angles_of(rays as nat, i as nat),
{
    proof {
        lemma_positive(rays as nat);
    }
    let step = divided(Double { bits: FULL_TURN }, from_count(rays as u64));
    let a = times(step, from_count(i as u64));
    let b = times(step, from_count((i + 1) as u64));
    (a, b, halved(plus(a, b)))
}

/// The control point of a quadratic curve through `m`, in the middle between `a` and
/// `b`.
pub open spec fn through(m: Point, a: Point, b: Point) -> Point {
    Point {
        x: f_sub(f_mul(whole(2), m.x), f_mul(Double { bits: P5 }, f_add(a.x, b.x))),
        y: f_sub(f_mul(whole(2), m.y), f_mul(Double { bits: P5 }, f_add(a.y, b.y))),
    }
}

fn control_through(m: Point, a: Point, b: Point) -> (r: Point)
    ensures
        r == through(m, a, b),
{
    let two = from_count(2);
    Point {
        x: minus(times(two, m.x), times(Double { bits: P5 }, plus(a.x, b.x))),
        y: minus(times(two, m.y), times(Double { bits: P5 }, plus(a.y, b.y))),
    }
}

/// A wedge between two directions, with curved ends.
pub open spec fn wedge_of(g: Sunburst, a: Direction, b: Direction, mid: Direction) -> Seq<PathEl> {
    let i0 = polar(g.cx, g.cy, g.inner, a);
    let o0 = polar(g.cx, g.cy, g.outer, a);
    let o1 = polar(g.cx, g.cy, g.outer, b);
    let i1 = polar(g.cx, g.cy, g.inner, b);
    seq![
        PathEl::MoveTo(i0),
        PathEl::LineTo(o0),
        PathEl::QuadTo(through(polar(g.cx, g.cy, g.outer, mid), o0, o1), o1),
        PathEl::LineTo(i1),
        PathEl::QuadTo(through(polar(g.cx, g.cy, g.inner, mid), i1, i0), i0),
        PathEl::ClosePath,
    ]
}

/// A wedge of a sunburst.
pub fn wedge(g: &Sunburst, a: Direction, b: Direction, mid: Direction) -> (r: Vec<PathEl>)
    ensures
        r@ == wedge_of(*g, a, b, mid),
{
    let i0 = polar_point(g.cx, g.cy, g.inner, a);
    let o0 = polar_point(g.cx, g.cy, g.outer, a);
    let o1 = polar_point(g.cx, g.cy, g.outer, b);
    let i1 = polar_point(g.cx, g.cy, g.inner, b);
    let outer_mid = polar_point(g.cx, g.cy, g.outer, mid);
    let inner_mid = polar_point(g.cx, g.cy, g.inner, mid);
    let mut out: Vec<PathEl> = Vec::new();
    out.push(PathEl::MoveTo(i0));
    out.push(PathEl::LineTo(o0));
    out.push(PathEl::QuadTo(control_through(outer_mid, o0, o1), o1));
    out.push(PathEl::LineTo(i1));
    out.push(PathEl::QuadTo(control_through(inner_mid, i1, i0), i0));
    out.push(PathEl::ClosePath);
    assert(out@ =~= wedge_of(*g, a, b, mid));
    out
}

/// The wedges that are drawn: every second one, from the first on.
pub open spec fn every_second(rays: nat) -> Seq<nat> {
    Seq::new((rays + 1) / 2, |k: int| (2 * k) as nat)
}

/// The numbers of the wedges that a sunburst draws.
pub fn drawn_wedges(rays: usize) -> (r: Vec<usize>)
    ensures
        r@.map_values(|i: usize| i as nat) == every_second(rays as nat),
{
    let ghost goal = every_second(rays as nat);
    let mut out: Vec<usize> = Vec::new();
    let mut k: usize = 0;
    while k < rays / 2 + rays % 2
        invariant
            k <= rays / 2 + rays % 2,
            goal == every_second(rays as nat),
            goal.len() == rays / 2 + rays % 2,
            out@.map_values(|i: usize| i as nat) == goal.take(k as int),
        decreases rays / 2 + rays % 2 - k,
    {
        let ghost before = out@;
        out.push(2 * k);
        k += 1;
        assert(out@.map_values(|i: usize| i as nat) =~= before.map_values(|i: usize| i as nat).push(
            goal[k - 1],
        ));
        assert(goal.take(k as int) =~= goal.take(k - 1).push(goal[k - 1]));
    }
    assert(goal.take(goal.len() as int) =~= goal);
    out
}

/// The first `n` wedges as one path.
pub open spec fn sunburst_of(
    g: Sunburst,
    turns: Seq<(Direction, Direction, Direction)>,
    n: nat,
) -> Seq<PathEl>
    decreases n,
{
    if n == 0 {
        Seq::empty()
    } else {
        let (a, b, mid) = turns[n - 1];
        sunburst_of(g, turns, (n - 1) as nat) + wedge_of(g, a, b, mid)
    }
}

/// The outline of a sunburst: one wedge for each start, end and middle.
pub fn sunburst_outline(g: &Sunburst, turns: &Vec<(Direction, Direction, Direction)>) -> (r: Vec<
    PathEl,
>)
    ensures
        r@ == sunburst_of(*g, turns@, turns@.len()),
{
    let mut out: Vec<PathEl> = Vec::new();
    let mut i: usize = 0;
    while i < turns.len()
        invariant
            i <= turns.len(),
            out@ == sunburst_of(*g, turns@, i as nat),
        decreases turns.len() - i,
    {
        let (a, b, mid) = turns[i];
        let mut next = wedge(g, a, b, mid);
        out.append(&mut next);
        i += 1;
    }
    out
}

/// Lines in the shape of waves.
#[derive(Debug, Clone, Copy, PartialEq, Eq, Structural)]
pub struct WaveArgs {
    pub x: Double,
    pub y: Double,
    pub width: Double,
    pub height: Double,
    pub lines: Option<usize>,
    pub wavelength: Option<Double>,
    pub amplitude: Option<Double>,
}

/// The number of lines: 8 where none is given, at least 1.
pub open spec fn wave_lines(args: WaveArgs) -> nat {
    match args.lines {
        Some(n) => if n >= 1 {
            n as nat
        } else {
            1
        },
        None => 8,
    }
}

pub open spec fn wavelength_of(args: WaveArgs) -> Double {
    f_max(or_default(args.wavelength, whole(40)), Double { bits: ONE })
}

/// How many pieces a wave has: 20 for every wavelength, and one more.
pub open spec fn wave_pieces(args: WaveArgs) -> nat {
    truncated(
        f_mul(f_div(args.width, wavelength_of(args)), whole(20)),
        (usize::MAX - 1) as nat,
    ) + 1
}

/// The share of point `i` of a wave.
pub open spec fn wave_share(args: WaveArgs, i: nat) -> Double {
    f_div(whole(i), whole(wave_pieces(args)))
}

/// The phase of point `i` of a wave, in radians.
pub open spec fn wave_phase(args: WaveArgs, i: nat) -> Double {
    f_mul(
        f_div(f_mul(wave_share(args, i), args.width), wavelength_of(args)),
        Double { bits: FULL_TURN },
    )
}

fn find_wavelength(args: &WaveArgs) -> (r: Double)
    ensures
        r == wavelength_of(*args),
        r.key() > 0,
{
    maximum(given_or_default(args.wavelength, from_count(40)), Double { bits: ONE })
}

/// How many lines a wave pattern has.
pub fn count_waves(args: &WaveArgs) -> (r: usize)
    ensures
        r == wave_lines(*args),
        r >= 1,
{
    match args.lines {
        Some(n) => if n >= 1 {
            n
        } else {
            1
        },
        None => 8,
    }
}

fn count_pieces(args: &WaveArgs) -> (r: usize)
    ensures
        r == wave_pieces(*args),
        r >= 1,
{
    let n: u64 = to_count(
        times(divided(args.width, find_wavelength(args)), from_count(20)),
        (usize::MAX - 1) as u64,
    );
    (n as usize) + 1
}

/// The phases of the points of a wave, in radians.
pub fn wave_phases(args: &WaveArgs) -> (r: Vec<Double>)
    requires
        wave_pieces(*args) < usize::MAX,
    ensures
        r@ == Seq::new(wave_pieces(*args) + 1, |i: int| wave_phase(*args, i as nat)),
{
    let ghost goal = Seq::new(wave_pieces(*args) + 1, |i: int| wave_phase(*args, i as nat));
    let n: usize = count_pieces(args);
    let wavelength = find_wavelength(args);
    proof {
        lemma_positive(n as nat);
    }
    let mut out: Vec<Double> = Vec::new();
    let mut i: usize = 0;
    while i <= n
        invariant
            i <= n + 1,
            n < usize::MAX,
            n == wave_pieces(*args),
            whole(n as nat).key() > 0,
            wavelength == wavelength_of(*args),
            wavelength.key() > 0,
            goal == Seq::new(wave_pieces(*args) + 1, |i: int| wave_phase(*args, i as nat)),
            out@ == goal.take(i as int),
        decreases n + 1 - i,
    {
        let t = divided(from_count(i as u64), from_count(n as u64));
        out.push(times(divided(times(t, args.width), wavelength), Double { bits: FULL_TURN }));
        i += 1;
        assert(out@ =~= goal.take(i as int));
    }
    assert(out@ =~= goal);
    out
}

/// The height of line `k` of a wave pattern.
pub open spec fn wave_base(args: WaveArgs, k: nat) -> Double {
    f_add(
        args.y,
        f_mul(
            f_div(args.height, whole(wave_lines(args))),
            f_add(whole(k), Double { bits: P5 }),
        ),
    )
}

/// The points of line `k`, from the sines of the phases.
pub open spec fn wave_points_of(args: WaveArgs, k: nat, sines: Seq<Double>) -> Seq<Point> {
    Seq::new(
        sines.len(),
        |i: int|
            Point {
                x: f_add(args.x, f_mul(wave_share(args, i as nat), args.width)),
                y: f_add(
                    wave_base(args, k),
                    f_mul(or_default(args.amplitude, whole(10)), sines[i]),
                ),
            },
    )
}

/// The points of line `k` of a wave pattern.
pub fn wave_points(args: &WaveArgs, k: usize, sines: &Vec<Double>) -> (r: Vec<Point>)
    ensures
        r@ == wave_points_of(*args, k as nat, sines@),
{
    let lines: usize = count_waves(args);
    let n: usize = count_pieces(args);
    let amplitude = given_or_default(args.amplitude, from_count(10));
    proof {
        lemma_positive(lines as nat);
        lemma_positive(n as nat);
    }
    let base = plus(
        args.y,
        times(
            divided(args.height, from_count(lines as u64)),
            plus(from_count(k as u64), Double { bits: P5 }),
        ),
    );
    let ghost goal = wave_points_of(*args, k as nat, sines@);
    let mut out: Vec<Point> = Vec::new();
    let mut i: usize = 0;
    while i < sines.len()
        invariant
            i <= sines.len(),
            n == wave_pieces(*args),
            whole(n as nat).key() > 0,
            base == wave_base(*args, k as nat),
            amplitude == or_default(args.amplitude, whole(10)),
            goal == wave_points_of(*args, k as nat, sines@),
            out@ == goal.take(i as int),
        decreases sines.len() - i,
    {
        let t = divided(from_count(i as u64), from_count(n as u64));
        out.push(
            Point {
                x: plus(args.x, times(t, args.width)),
                y: plus(base, times(amplitude, sines[i])),
            },
        );
        i += 1;
        assert(out@ =~= goal.take(i as int));
    }
    assert(out@ =~= goal);
    out
}

/// `b` seen from `a`, on the other side of `a`.
pub open spec fn opposite(a: Point, b: Point) -> Point {
    Point { x: f_sub(f_mul(whole(2), a.x), b.x), y: f_sub(f_mul(whole(2), a.y), b.y) }
}

/// The point before point `i` of a smooth curve; before the first one, the second one
/// mirrored.
pub open spec fn smooth_before(p: Seq<Point>, i: int) -> Point {
    if i > 0 {
        p[i - 1]
    } else {
        opposite(p[0], p[1])
    }
}

/// The second point behind point `i`; behind the last one, the last but one mirrored.
pub open spec fn smooth_behind(p: Seq<Point>, i: int) -> Point {
    let n = p.len() as int;
    if i + 2 < n {
        p[i + 2]
    } else {
        opposite(p[n - 1], p[n - 2])
    }
}

/// The curve from point `i` to the next one. Its handles follow the neighbours.
pub open spec fn smooth_curve(p: Seq<Point>, i: int) -> PathEl {
    let a = smooth_before(p, i);
    let d = smooth_behind(p, i);
    let b = p[i];
    let c = p[i + 1];
    PathEl::CurveTo(
        Point {
            x: f_add(b.x, f_div(f_sub(c.x, a.x), whole(6))),
            y: f_add(b.y, f_div(f_sub(c.y, a.y), whole(6))),
        },
        Point {
            x: f_sub(c.x, f_div(f_sub(d.x, b.x), whole(6))),
            y: f_sub(c.y, f_div(f_sub(d.y, b.y), whole(6))),
        },
        c,
    )
}

/// A smooth curve through points.
pub open spec fn smooth_path_of(p: Seq<Point>) -> Seq<PathEl> {
    if p.len() < 2 {
        Seq::empty()
    } else {
        Seq::new(
            p.len(),
            |i: int|
                if i == 0 {
                    PathEl::MoveTo(p[0])
                } else {
                    smooth_curve(p, i - 1)
                },
        )
    }
}

fn mirrored(a: Point, b: Point) -> (r: Point)
    ensures
        r == opposite(a, b),
{
    let two = from_count(2);
    Point { x: minus(times(two, a.x), b.x), y: minus(times(two, a.y), b.y) }
}

/// A smooth curve through points; nothing where there are fewer than two.
pub fn smooth_line(p: &Vec<Point>) -> (r: Vec<PathEl>)
    ensures
        r@ == smooth_path_of(p@),
{
    let mut out: Vec<PathEl> = Vec::new();
    let n: usize = p.len();
    if n < 2 {
        return out;
    }
    let ghost goal = smooth_path_of(p@);
    proof {
        lemma_positive(6);
    }
    let six = from_count(6);
    out.push(PathEl::MoveTo(p[0]));
    let mut i: usize = 0;
    assert(out@ =~= goal.take(1));
    while i < n - 1
        invariant
            i <= n - 1,
            2 <= n == p.len(),
            six == whole(6),
            six.key() > 0,
            goal == smooth_path_of(p@),
            out@ == goal.take(i + 1),
        decreases n - i,
    {
        let a = if i > 0 {
            p[i - 1]
        } else {
            mirrored(p[0], p[1])
        };
        let d = if i + 2 < n {
            p[i + 2]
        } else {
            mirrored(p[n - 1], p[n - 2])
        };
        let b = p[i];
        let c = p[i + 1];
        out.push(
            PathEl::CurveTo(
                Point {
                    x: plus(b.x, divided(minus(c.x, a.x), six)),
                    y: plus(b.y, divided(minus(c.y, a.y), six)),
                },
                Point {
                    x: minus(c.x, divided(minus(d.x, b.x), six)),
                    y: minus(c.y, divided(minus(d.y, b.y), six)),
                },
                c,
            ),
        );
        i += 1;
        assert(out@ =~= goal.take(i + 1));
    }
    assert(out@ =~= goal);
    out
}

/// Line `k` of a wave pattern, from the sines of the phases.
pub fn create_wave_pattern(args: &WaveArgs, k: usize, sines: &Vec<Double>) -> (r: Vec<PathEl>)
    ensures
        r@ == smooth_path_of(wave_points_of(*args, k as nat, sines@)),
{
    smooth_line(&wave_points(args, k, sines))
}

/// A smooth curve passes through its points: its element `i` ends at point `i`.
pub proof fn law_smooth_curve_meets_points(p: Seq<Point>, i: int)
    requires
        p.len() >= 2,
        0 <= i < p.len(),
    ensures
        crate::bezier::element_end(smooth_path_of(p)[i]) == Some(p[i]),
{
}


/// A point at an angle lies to the right of the centre for a cosine of 1 and below it for a
/// sine of 1, as far away as the radius says; across it depends on the cosine alone, down on
/// the sine.
pub proof fn law_polar_points_go_round(
    cx: Double,
    cy: Double,
    r: Double,
    d: Direction,
    e: Direction,
    j: nat,
)
    requires
        is_plain(cx, j),
        is_plain(cy, j),
        is_plain(r, j),
    ensures
        d.cosine == whole(1) ==> exact(polar(cx, cy, r, d).x) == exact(cx) + exact(r),
        d.sine == whole(1) ==> exact(polar(cx, cy, r, d).y) == exact(cy) + exact(r),
        d.cosine.key() == 0 ==> polar(cx, cy, r, d).x.key() == cx.key(),
        d.sine.key() == 0 ==> polar(cx, cy, r, d).y.key() == cy.key(),
        d.cosine == e.cosine ==> polar(cx, cy, r, d).x == polar(cx, cx, r, e).x,
        d.sine == e.sine ==> polar(cx, cy, r, d).y == polar(cy, cy, r, e).y,
        polar(cy, cx, r, Direction { cosine: d.sine, sine: d.cosine }) == point(
            polar(cx, cy, r, d).y,
            polar(cx, cy, r, d).x,
        ),
{
    lemma_plain(cx, j);
    lemma_plain(cy, j);
    lemma_plain(r, j);
    lemma_times_one(r);
    lemma_add(cx, r, j, 0x4000_0000, 0x4000_0000);
    lemma_add(cy, r, j, 0x4000_0000, 0x4000_0000);
    if d.cosine.key() == 0 {
        lemma_nothing_times(d.cosine, r);
        lemma_plus_nothing(cx, f_mul(r, d.cosine));
    }
    if d.sine.key() == 0 {
        lemma_nothing_times(d.sine, r);
        lemma_plus_nothing(cy, f_mul(r, d.sine));
    }
}

/// One number is the opposite of another, wherever they are numbers.
pub open spec fn mirrors(a: Double, b: Double) -> bool {
    a.is_nan() || b.key() == -a.key()
}

proof fn lemma_sides_mirror(c: Double, v: Double)
    ensures
        mirrors(f_add(c, v), f_sub(f_neg(c), v)),
        mirrors(f_sub(c, v), f_add(f_neg(c), v)),
{
    lemma_neg(c);
    lemma_neg(v);
    lemma_sum_mirrors(c, v);
    lemma_sum_mirrors(c, f_neg(v));
}

/// A heart is its own mirror image: about the opposite centre it is drawn the same way, from
/// its end to its start.
pub proof fn law_heart_is_its_mirror_image(cx: Double, cy: Double, size: Double)
    ensures
        ({
            let a = heart(cx, cy, size);
            let b = heart(f_neg(cx), cy, size);
            &&& a.len() == b.len() == 6
            &&& is_mirrored(a[1]->CurveTo_0, b[4]->CurveTo_1)
            &&& is_mirrored(a[1]->CurveTo_1, b[4]->CurveTo_0)
            &&& is_mirrored(a[1]->CurveTo_2, b[3]->CurveTo_2)
            &&& is_mirrored(a[2]->CurveTo_0, b[3]->CurveTo_1)
            &&& is_mirrored(a[2]->CurveTo_1, b[3]->CurveTo_0)
            &&& is_mirrored(a[2]->CurveTo_2, b[2]->CurveTo_2)
            &&& is_mirrored(a[4]->CurveTo_2, b[0]->MoveTo_0)
            &&& is_mirrored(a[0]->MoveTo_0, b[0]->MoveTo_0)
        }),
{
    let h = half(size);
    lemma_neg(cx);
    lemma_sides_mirror(cx, f_mul(h, Double { bits: P3 }));
    lemma_sides_mirror(cx, f_mul(h, Double { bits: P4 }));
    lemma_sides_mirror(cx, h);
}

/// One point is the mirror image of another, across.
pub open spec fn is_mirrored(p: Point, q: Point) -> bool {
    mirrors(p.x, q.x) && q.y == p.y
}

/// A heart rises from its tip: each of its points on the way up is no lower than the one
/// before, and the dip between its halves is above their outermost points.
pub proof fn law_heart_rises(cx: Double, cy: Double, size: Double)
    requires
        cy.wf(),
        half(size).wf(),
        half(size).key() >= 0,
        f_mul(Double { bits: P17 }, half(size)).wf(),
    ensures
        ({
            let a = heart(cx, cy, size);
            &&& a[1]->CurveTo_0.y.key() <= a[0]->MoveTo_0.y.key()
            &&& a[1]->CurveTo_1.y.key() <= a[1]->CurveTo_0.y.key()
            &&& a[1]->CurveTo_2.y.key() <= a[1]->CurveTo_1.y.key()
            &&& a[2]->CurveTo_0.y.key() <= a[1]->CurveTo_2.y.key()
            &&& a[2]->CurveTo_1.y.key() <= a[2]->CurveTo_0.y.key()
            &&& a[2]->CurveTo_2.y.key() <= a[1]->CurveTo_2.y.key()
            &&& a[2]->CurveTo_0.y.key() <= a[2]->CurveTo_2.y.key()
        }),
{
    let h = half(size);
    let zero = (Double { bits: 0 });
    lemma_nothing_times(zero, h);
    lemma_higher(cy, h, 0, P6);
    lemma_higher(cy, h, P6, P9);
    lemma_higher(cy, h, P9, P12);
    lemma_higher(cy, h, P12, P14);
    lemma_higher(cy, h, P14, P16);
    lemma_higher(cy, h, P12, P16);
    lemma_higher(cy, h, P16, P17);
    let z = f_mul(h, zero);
    lemma_neg(z);
    lemma_plus_nothing(cy, f_neg(z));
}

proof fn lemma_higher(cy: Double, h: Double, a: u64, b: u64)
    requires
        cy.wf(),
        h.wf(),
        h.key() >= 0,
        a <= b <= P17,
        f_mul(Double { bits: P17 }, h).wf(),
    ensures
        f_sub(cy, f_mul(h, Double { bits: b })).key() <= f_sub(
            cy,
            f_mul(h, Double { bits: a }),
        ).key(),
{
    let x = (Double { bits: a });
    let y = (Double { bits: b });
    let top = (Double { bits: P17 });
    let zero = (Double { bits: 0 });
    lemma_product_keeps_order(x, y, h);
    lemma_product_keeps_order(y, top, h);
    lemma_product_keeps_order(zero, x, h);
    lemma_nothing_times(zero, h);
    lemma_product_commutes(x, h);
    lemma_product_commutes(y, h);
    lemma_product_value(x, h);
    lemma_product_value(y, h);
    let p = f_mul(h, x);
    let q = f_mul(h, y);
    lemma_neg(p);
    lemma_neg(q);
    assert(p.wf() && q.wf());
    lemma_sum_keeps_order(f_neg(q), f_neg(p), cy);
    lemma_sum_commutes(f_neg(q), cy);
    lemma_sum_commutes(f_neg(p), cy);
}

/// The tops of the teeth of a gear lie on its outer circle, whatever the inner one is, and
/// the other points on the inner circle, whatever the outer one is.
pub proof fn law_gear_has_two_circles(g: Gear, h: Gear, directions: Seq<Direction>, k: int)
    requires
        0 <= k < directions.len(),
        g.cx == h.cx,
        g.cy == h.cy,
    ensures
        (k % 5 == 2 || k % 5 == 3) && g.outer == h.outer ==> gear_points(g, directions)[k]
            == gear_points(h, directions)[k],
        (k % 5 == 0 || k % 5 == 1 || k % 5 == 4) && g.inner == h.inner ==> gear_points(
            g,
            directions,
        )[k] == gear_points(h, directions)[k],
        gear_points(g, directions).len() == directions.len(),
{
}

/// No turn only moves a point; a quarter turn brings what is to the right below and what is
/// below to the left.
pub proof fn law_spun_points_go_round(p: Point, x: Double, y: Double, j: nat)
    requires
        is_plain(p.x, j),
        is_plain(p.y, j),
        is_plain(x, j),
        is_plain(y, j),
    ensures
        ({
            let zero = (Double { bits: 0 });
            let still = spun(p, Direction { cosine: whole(1), sine: zero }, x, y);
            let quarter = spun(p, Direction { cosine: zero, sine: whole(1) }, x, y);
            &&& exact(still.x) == exact(p.x) + exact(x)
            &&& exact(still.y) == exact(p.y) + exact(y)
            &&& exact(quarter.x) == exact(x) - exact(p.y)
            &&& exact(quarter.y) == exact(p.x) + exact(y)
        }),
{
    let zero = (Double { bits: 0 });
    lemma_times_one(p.x);
    lemma_times_one(p.y);
    lemma_nothing_times(zero, p.x);
    lemma_nothing_times(zero, p.y);
    let zx = f_mul(p.x, zero);
    let zy = f_mul(p.y, zero);
    lemma_neg(zy);
    lemma_neg(p.y);
    lemma_moved_value(f_sub(p.x, zy), p.x, x, j);
    lemma_moved_value(f_add(zx, p.y), p.y, y, j);
    lemma_moved_value(f_add(p.x, zy), p.x, y, j);
    lemma_plus_nothing(p.x, f_neg(zy));
    lemma_plus_nothing(p.y, zx);
    lemma_plus_nothing(p.x, zy);
    let m = f_neg(p.y);
    lemma_plus_nothing(m, zx);
    lemma_plain(p.y, j);
    let k = steps(p.y, j);
    let w = power(2, j);
    assert((-k) * w == -(k * w)) by (nonlinear_arith);
    lemma_moved_multiple(f_sub(zx, p.y), m, x, j, -k);
}

proof fn lemma_moved_value(a: Double, p: Double, x: Double, j: nat)
    requires
        is_plain(p, j),
        is_plain(x, j),
    ensures
        a.key() == p.key() ==> exact(f_add(a, x)) == exact(p) + exact(x),
{
    if a.key() == p.key() {
        lemma_plain(p, j);
        lemma_moved_multiple(a, p, x, j, steps(p, j));
    }
}

proof fn lemma_moved_multiple(a: Double, p: Double, x: Double, j: nat, k: int)
    requires
        p.wf(),
        a.key() == p.key(),
        exact(p) == k * power(2, j),
        -0x4000_0000 <= k <= 0x4000_0000,
        is_plain(x, j),
    ensures
        exact(f_add(a, x)) == exact(p) + exact(x),
{
    lemma_same_value(a, p);
    lemma_steps(a, j, k);
    lemma_plain(x, j);
    lemma_add(a, x, j, 0x4000_0000, 0x4000_0000);
}

/// A cross is the same after a quarter turn, and its arms reach as far as its size, as broad
/// as its arms are said to be.
pub proof fn law_cross_is_the_same_after_a_quarter(s: Double, t: Double, k: int)
    requires
        0 <= k < 12,
    ensures
        ({
            let c = cross_corners(s, t);
            let p = c[k];
            let q = c[(k + 3) % 12];
            &&& c.len() == 12
            &&& q.x.key() == -p.y.key() && q.y.key() == p.x.key()
            &&& c[0].x.key() == -t.key() && c[1].x.key() == t.key()
            &&& c[0].y.key() == -s.key() && c[1].y.key() == -s.key()
            &&& c[2].x.key() == t.key() && c[2].y.key() == -t.key()
        }),
{
    lemma_neg(s);
    lemma_neg(t);
}

/// An arrow is its own mirror image about its axis, points at the origin and reaches back as
/// far as its length; its head is as broad as the head is said to be, its shaft as the shaft.
pub proof fn law_arrow_is_its_mirror_image(args: ArrowArgs, k: int, j: nat)
    requires
        1 <= k <= 3,
        is_plain(or_default(args.length, whole(100)), j),
        is_plain(or_default(args.head_width, whole(40)), j),
        is_plain(or_default(args.shaft_width, whole(16)), j),
    ensures
        ({
            let c = arrow_corners(args);
            &&& c.len() == 7
            &&& exact(c[0].x) == 0 && exact(c[0].y) == 0
            &&& c[k].x == c[7 - k].x && c[k].y.key() == -c[7 - k].y.key()
            &&& exact(c[3].x) == -exact(or_default(args.length, whole(100)))
            &&& c[1].x == c[2].x
            &&& exact(c[6].y) - exact(c[1].y) == exact(or_default(args.head_width, whole(40)))
            &&& exact(c[4].y) - exact(c[3].y) == exact(or_default(args.shaft_width, whole(16)))
            &&& c[2].y == c[3].y
        }),
{
    let length = or_default(args.length, whole(100));
    let head = or_default(args.head_width, whole(40));
    let shaft = or_default(args.shaft_width, whole(16));
    lemma_plain(length, j);
    lemma_plain(head, j);
    lemma_plain(shaft, j);
    lemma_neg(length);
    lemma_half(head, j, 0x4000_0000);
    lemma_half(shaft, j, 0x4000_0000);
    lemma_neg(half(head));
    lemma_neg(half(shaft));
    lemma_zero_value(Double { bits: 0 });
}

/// A speech bubble has its middle where it is said to be and is as wide and as high as it is
/// said to be: each of its corners is where two edges would meet, and the fillet round it
/// starts and ends one radius from it.
pub proof fn law_bubble_fills_its_box(args: BubbleArgs, j: nat)
    requires
        is_plain(args.cx, j),
        is_plain(args.cy, j),
        is_plain(or_default(args.width, whole(120)), j),
        is_plain(or_default(args.height, whole(60)), j),
        is_plain(or_default(args.corner_radius, whole(15)), j),
        exact(or_default(args.corner_radius, whole(15))) * 2 < exact(
            or_default(args.width, whole(120)),
        ),
        exact(or_default(args.corner_radius, whole(15))) * 2 < exact(
            or_default(args.height, whole(60)),
        ),
    ensures
        ({
            let p = bubble(args);
            let w = exact(or_default(args.width, whole(120)));
            let h = exact(or_default(args.height, whole(60)));
            let r = exact(or_default(args.corner_radius, whole(15)));
            let top_left = p[11]->QuadTo_0;
            let top_right = p[2]->QuadTo_0;
            let bottom_right = p[4]->QuadTo_0;
            let bottom_left = p[9]->QuadTo_0;
            &&& p.len() == 13
            &&& 2 * exact(top_left.x) == 2 * exact(args.cx) - w
            &&& 2 * exact(top_left.y) == 2 * exact(args.cy) - h
            &&& 2 * exact(bottom_right.x) == 2 * exact(args.cx) + w
            &&& 2 * exact(bottom_right.y) == 2 * exact(args.cy) + h
            &&& top_right.x == bottom_right.x && top_right.y == top_left.y
            &&& bottom_left.x == top_left.x && bottom_left.y == bottom_right.y
            &&& exact(p[0]->MoveTo_0.x) == exact(top_left.x) + r && p[0]->MoveTo_0.y == top_left.y
            &&& exact(p[1]->LineTo_0.x) == exact(top_right.x) - r && p[1]->LineTo_0.y
                == top_right.y
            &&& p[2]->QuadTo_1.x == top_right.x && exact(p[2]->QuadTo_1.y) == exact(top_right.y)
                + r
            &&& p[3]->LineTo_0.x == bottom_right.x && exact(p[3]->LineTo_0.y) == exact(
                bottom_right.y,
            ) - r
            &&& exact(p[4]->QuadTo_1.x) == exact(bottom_right.x) - r && p[4]->QuadTo_1.y
                == bottom_right.y
            &&& exact(p[8]->LineTo_0.x) == exact(bottom_left.x) + r && p[8]->LineTo_0.y
                == bottom_left.y
            &&& p[9]->QuadTo_1.x == bottom_left.x && exact(p[9]->QuadTo_1.y) == exact(
                bottom_left.y,
            ) - r
            &&& p[10]->LineTo_0.x == top_left.x && exact(p[10]->LineTo_0.y) == exact(top_left.y)
                + r
            &&& p[11]->QuadTo_1 == p[0]->MoveTo_0
            &&& p[5]->LineTo_0.y == bottom_right.y && p[7]->LineTo_0.y == bottom_right.y
            &&& args.tail_x matches Some(x) ==> p[6]->LineTo_0.x == x
            &&& args.tail_y matches Some(y) ==> p[6]->LineTo_0.y == y
        }),
{
    let w = or_default(args.width, whole(120));
    let h = or_default(args.height, whole(60));
    let given = or_default(args.corner_radius, whole(15));
    lemma_plain(given, j);
    lemma_plain(w, j);
    lemma_plain(h, j);
    lemma_half(w, j, 0x4000_0000);
    lemma_half(h, j, 0x4000_0000);
    lemma_order(given, half(w));
    assert(f_min(given, half(w)) == given);
    lemma_order(given, half(h));
    assert(f_min(given, half(h)) == given);
    lemma_rounded_side(args.cx, w, given, j);
    lemma_rounded_side(args.cy, h, given, j);
}

proof fn lemma_rounded_side(c: Double, size: Double, r: Double, j: nat)
    requires
        is_plain(c, j),
        is_plain(size, j),
        is_plain(r, j),
    ensures
        ({
            let near = f_sub(c, half(size));
            let far = f_add(c, half(size));
            &&& 2 * exact(near) == 2 * exact(c) - exact(size)
            &&& 2 * exact(far) == 2 * exact(c) + exact(size)
            &&& exact(f_add(near, r)) == exact(near) + exact(r)
            &&& exact(f_sub(far, r)) == exact(far) - exact(r)
        }),
{
    let h = (j - 1) as nat;
    lemma_plain(c, j);
    lemma_plain(size, j);
    lemma_plain(r, j);
    lemma_half(size, j, 0x4000_0000);
    lemma_sub(c, half(size), h, 0x8000_0000, 0x4000_0000);
    lemma_add(c, half(size), h, 0x8000_0000, 0x4000_0000);
    lemma_add(f_sub(c, half(size)), r, h, 0xc000_0000, 0x8000_0000);
    lemma_sub(f_add(c, half(size)), r, h, 0xc000_0000, 0x8000_0000);
}

/// An open ring goes out along its outer circle and comes back along the inner one: the
/// directions of the way back are those of the way out, last first.
pub proof fn law_open_ring_goes_out_and_back(
    g: Ring,
    h: Ring,
    directions: Seq<Direction>,
    end: Direction,
    k: int,
)
    requires
        0 <= k < directions.len(),
        g.cx == h.cx,
        g.cy == h.cy,
    ensures
        ({
            let n = directions.len() as int;
            let p = open_ring_points(g, directions, end);
            let q = open_ring_points(h, directions, end);
            let same = Ring { outer: g.inner, ..g };
            let back = open_ring_points(same, directions, end);
            &&& p.len() == 2 * n + 1
            &&& g.outer == h.outer ==> p[k] == q[k]
            &&& g.inner == h.inner ==> p[2 * n - k] == q[2 * n - k] && p[n] == q[n]
            &&& k > 0 ==> back[k] == back[2 * n - k]
        }),
{
}

/// The curve from `a` to `b` whose handle is through `m` passes through `m` half way.
pub proof fn law_curve_passes_through(m: Point, a: Point, b: Point, j: nat)
    requires
        is_plain(m.x, j),
        is_plain(m.y, j),
        is_plain(a.x, j),
        is_plain(a.y, j),
        is_plain(b.x, j),
        is_plain(b.y, j),
    ensures
        exact(a.x) + 2 * exact(through(m, a, b).x) + exact(b.x) == 4 * exact(m.x),
        exact(a.y) + 2 * exact(through(m, a, b).y) + exact(b.y) == 4 * exact(m.y),
{
    lemma_through(m.x, a.x, b.x, j);
    lemma_through(m.y, a.y, b.y, j);
}

proof fn lemma_through(m: Double, a: Double, b: Double, j: nat)
    requires
        is_plain(m, j),
        is_plain(a, j),
        is_plain(b, j),
    ensures
        exact(a) + 2 * exact(f_sub(f_mul(whole(2), m), f_mul(Double { bits: P5 }, f_add(a, b))))
            + exact(b) == 4 * exact(m),
{
    let h = (j - 1) as nat;
    lemma_plain(m, j);
    lemma_plain(a, j);
    lemma_plain(b, j);
    lemma_add(a, b, j, 0x4000_0000, 0x4000_0000);
    lemma_times(2, m, h, 0x8000_0000);
    lemma_times_half(f_add(a, b), j, 0x8000_0000);
    lemma_sub(
        f_mul(whole(2), m),
        f_mul(Double { bits: P5 }, f_add(a, b)),
        h,
        0x1_0000_0000,
        0x8000_0000,
    );
}

/// A wedge runs from the inner circle to the outer one at its first direction, along the
/// outer one to its second, and back to where it started.
pub proof fn law_wedge_goes_round(
    g: Sunburst,
    h: Sunburst,
    a: Direction,
    b: Direction,
    c: Direction,
    mid: Direction,
)
    requires
        g.cx == h.cx,
        g.cy == h.cy,
    ensures
        ({
            let p = wedge_of(g, a, b, mid);
            let q = wedge_of(h, a, b, mid);
            &&& p.len() == 6
            &&& p[4]->QuadTo_1 == p[0]->MoveTo_0
            &&& g.inner == h.inner ==> p[0] == q[0] && p[3] == q[3] && p[4] == q[4]
            &&& g.outer == h.outer ==> p[1] == q[1] && p[2] == q[2]
            &&& p[0] == wedge_of(g, a, c, c)[0] && p[1] == wedge_of(g, a, c, c)[1]
            &&& p[3] == wedge_of(g, c, b, c)[3] && p[2]->QuadTo_1 == wedge_of(
                g,
                c,
                b,
                c,
            )[2]->QuadTo_1
        }),
{
}

/// A wave runs across from its left edge: across, a point depends on nothing that is down;
/// where the sine is 0 it lies on the base line, and the base lines share the height evenly.
pub proof fn law_wave_runs_along_its_base(
    a: WaveArgs,
    b: WaveArgs,
    k: nat,
    sines: Seq<Double>,
    i: int,
)
    requires
        0 <= i < sines.len(),
        wave_base(a, k).wf(),
        or_default(a.amplitude, whole(10)).wf(),
        a.x.wf(),
        a.width.wf(),
        0 < wave_pieces(a) < 0x1_0000_0000,
    ensures
        sines[i].key() == 0 ==> wave_points_of(a, k, sines)[i].y.key() == wave_base(a, k).key(),
        wave_points_of(a, k, sines)[0].x.key() == a.x.key(),
        a.x == b.x && a.width == b.width && a.wavelength == b.wavelength ==> wave_points_of(
            a,
            k,
            sines,
        )[i].x == wave_points_of(b, k, sines)[i].x,
        a.y == b.y && a.height == b.height && a.lines == b.lines ==> wave_base(a, k) == wave_base(
            b,
            k,
        ),
{
    let m = or_default(a.amplitude, whole(10));
    if sines[i].key() == 0 {
        lemma_nothing_times(sines[i], m);
        lemma_plus_nothing(wave_base(a, k), f_mul(m, sines[i]));
    }
    lemma_share_of_itself(wave_pieces(a));
    lemma_nothing_times(wave_share(a, 0), a.width);
    lemma_plus_nothing(a.x, f_mul(wave_share(a, 0), a.width));
}

/// A smooth path is smooth: at each of its inner points the handle before it and the handle
/// behind it lie opposite each other, equally far away.
pub proof fn law_smooth_path_is_smooth(p: Seq<Point>, i: int, nx: int, ny: int, j: nat)
    requires
        0 <= i,
        i + 2 < p.len(),
        is_plain(p[i].x, j),
        is_plain(p[i].y, j),
        is_plain(p[i + 1].x, j),
        is_plain(p[i + 1].y, j),
        is_plain(p[i + 2].x, j),
        is_plain(p[i + 2].y, j),
        exact(p[i + 2].x) - exact(p[i].x) == 6 * (nx * power(2, j)),
        exact(p[i + 2].y) - exact(p[i].y) == 6 * (ny * power(2, j)),
        -0x4000_0000 <= nx <= 0x4000_0000,
        -0x4000_0000 <= ny <= 0x4000_0000,
    ensures
        ({
            let path = smooth_path_of(p);
            let before = path[i + 1]->CurveTo_1;
            let behind = path[i + 2]->CurveTo_0;
            &&& path[i + 1]->CurveTo_2 == p[i + 1]
            &&& exact(before.x) + exact(behind.x) == 2 * exact(p[i + 1].x)
            &&& exact(before.y) + exact(behind.y) == 2 * exact(p[i + 1].y)
            &&& 6 * (exact(behind.x) - exact(p[i + 1].x)) == exact(p[i + 2].x) - exact(p[i].x)
            &&& 6 * (exact(behind.y) - exact(p[i + 1].y)) == exact(p[i + 2].y) - exact(p[i].y)
        }),
{
    lemma_sixth(p[i].x, p[i + 1].x, p[i + 2].x, nx, j);
    lemma_sixth(p[i].y, p[i + 1].y, p[i + 2].y, ny, j);
    let path = smooth_path_of(p);
    assert(path[i + 1] == smooth_curve(p, i));
    assert(path[i + 2] == smooth_curve(p, i + 1));
}

proof fn lemma_sixth(a: Double, b: Double, c: Double, n: int, j: nat)
    requires
        is_plain(a, j),
        is_plain(b, j),
        is_plain(c, j),
        exact(c) - exact(a) == 6 * (n * power(2, j)),
        -0x4000_0000 <= n <= 0x4000_0000,
    ensures
        exact(f_sub(b, f_div(f_sub(c, a), whole(6)))) == exact(b) - n * power(2, j),
        exact(f_add(b, f_div(f_sub(c, a), whole(6)))) == exact(b) + n * power(2, j),
{
    lemma_plain(a, j);
    lemma_plain(b, j);
    lemma_plain(c, j);
    lemma_sub(c, a, j, 0x4000_0000, 0x4000_0000);
    let d = f_sub(c, a);
    let w = power(2, j);
    assert((6 * n) * w == 6 * (n * w)) by (nonlinear_arith);
    lemma_share_of_steps(d, 6, j, n);
    let v = f_div(d, whole(6));
    lemma_steps(v, j, n);
    lemma_sub(b, v, j, 0x4000_0000, 0x4000_0000);
    lemma_add(b, v, j, 0x4000_0000, 0x4000_0000);
}

/// Exchanging across and down everywhere exchanges them in a smooth path.
pub proof fn law_smooth_path_treats_axes_alike(p: Seq<Point>, i: int)
    requires
        0 <= i < p.len() - 1,
    ensures
        ({
            let t = p.map_values(|a: Point| transposed(a));
            smooth_curve(t, i) == with_points(
                smooth_curve(p, i),
                |a: Point| transposed(a),
            )
        }),
{
}


/// A cross that is not turned reaches up half of its size from its middle with the end of an
/// arm that is as broad as the arms are said to be.
pub proof fn law_cross_reaches_its_size(
    cx: Double,
    cy: Double,
    size: Double,
    thickness: Double,
    turn: Direction,
    j: nat,
)
    requires
        turn.cosine == whole(1),
        turn.sine.bits == 0,
        1 < j,
        is_plain(cx, j),
        is_plain(cy, j),
        is_plain(size, j),
        is_plain(thickness, j),
        is_plain(half(size), j),
        is_plain(half(thickness), j),
        exact(thickness) <= exact(size),
    ensures
        ({
            let p = cross(cx, cy, Some(size), Some(thickness), turn);
            let a = p[0]->MoveTo_0;
            let b = p[1]->LineTo_0;
            &&& p.len() == 13
            &&& 2 * exact(a.x) == 2 * exact(cx) - exact(thickness)
            &&& 2 * exact(b.x) == 2 * exact(cx) + exact(thickness)
            &&& 2 * exact(a.y) == 2 * exact(cy) - exact(size)
            &&& 2 * exact(b.y) == 2 * exact(cy) - exact(size)
        }),
{
    lemma_order(thickness, size);
    lemma_plain(size, j);
    lemma_plain(thickness, j);
    lemma_half(size, j, 0x4000_0000);
    lemma_half(thickness, j, 0x4000_0000);
    let t = f_min(thickness, size);
    assert(t == thickness || (t == size && exact(size) == exact(thickness)));
    lemma_half(t, j, 0x4000_0000);
    let hs = half(size);
    let ht = half(t);
    lemma_neg(hs);
    lemma_neg(ht);
    if t != thickness {
        assert(exact(ht) == exact(half(thickness)));
        assert(is_plain(ht, j));
    }
    lemma_plain_negated(hs, j);
    lemma_plain_negated(ht, j);
    law_spun_points_go_round(point(f_neg(ht), f_neg(hs)), cx, cy, j);
    law_spun_points_go_round(point(ht, f_neg(hs)), cx, cy, j);
    let corners = cross_corners(hs, ht);
    let p = cross(cx, cy, Some(size), Some(thickness), turn);
    let d = Direction { cosine: whole(1), sine: Double { bits: 0 } };
    assert(turn == d);
    assert(p[0] == PathEl::MoveTo(spun(corners[0], turn, cx, cy)));
    assert(p[1] == PathEl::LineTo(spun(corners[1], turn, cx, cy)));
}

proof fn lemma_plain_negated(x: Double, j: nat)
    requires
        is_plain(x, j),
    ensures
        is_plain(f_neg(x), j),
{
    lemma_neg(x);
    lemma_plain(x, j);
    let k = steps(x, j);
    let w = power(2, j);
    assert((-k) * w == -(k * w)) by (nonlinear_arith);
    lemma_steps(f_neg(x), j, -k);
}


/// The pieces of an arc start at its start and end at its end.
pub proof fn law_arc_goes_from_start_to_end(start: Double, end: Double, j: nat)
    requires
        is_plain(start, j),
        is_plain(end, j),
    ensures
        arc_angles_of(start, end).len() == ARC_PIECES + 1,
        exact(arc_angles_of(start, end)[0]) == exact(start),
        exact(arc_angles_of(start, end)[ARC_PIECES as int]) == exact(end),
{
    let n = ARC_PIECES as nat;
    lemma_plain(start, j);
    lemma_plain(end, j);
    lemma_sub(end, start, j, 0x4000_0000, 0x4000_0000);
    let d = f_sub(end, start);
    lemma_share_of_itself(n);
    lemma_times_one(d);
    lemma_add(start, d, j, 0x4000_0000, 0x8000_0000);
    let z = f_mul(d, f_div(whole(0), whole(n)));
    lemma_nothing_times(f_div(whole(0), whole(n)), d);
    lemma_plus_nothing(start, z);
    lemma_same_value(f_add(start, z), start);
}

/// A ring has its centre where it is said to be, and its inner circle is inside the outer one.
pub proof fn law_ring_is_hollow(args: DonutArgs)
    requires
        f_sub(
            f_max(or_default(args.outer_radius, whole(50)), Double { bits: ONE }),
            Double { bits: P1 },
        ).wf(),
    ensures
        ({
            let g = ring_of(args);
            &&& g.cx == args.cx && g.cy == args.cy
            &&& g.inner.key() <= f_sub(g.outer, Double { bits: P1 }).key()
            &&& g.outer.key() >= ONE
            &&& args.outer_radius matches Some(r) ==> (r.wf() && r.key() >= ONE ==> g.outer.key()
                == r.key())
            &&& args.inner_radius matches Some(r) ==> (r.wf() && 0 <= r.key() <= f_sub(
                g.outer,
                Double { bits: P1 },
            ).key() ==> g.inner.key() == r.key())
        }),
{
}

/// The wedges of a sunburst come one after the other.
pub proof fn law_sunburst_has_all_wedges(
    g: Sunburst,
    turns: Seq<(Direction, Direction, Direction)>,
    n: nat,
    i: int,
)
    requires
        0 <= i < n <= turns.len(),
    ensures
        sunburst_of(g, turns, n).len() == 6 * n,
        sunburst_of(g, turns, n).subrange(6 * i, 6 * i + 6) == wedge_of(
            g,
            turns[i].0,
            turns[i].1,
            turns[i].2,
        ),
    decreases n,
{
    let (a, b, mid) = turns[n - 1];
    let before = sunburst_of(g, turns, (n - 1) as nat);
    if n > 1 {
        law_sunburst_has_all_wedges(
            g,
            turns,
            (n - 1) as nat,
            if i < n - 1 {
                i
            } else {
                0
            },
        );
    } else {
        assert(sunburst_of(g, turns, 0).len() == 0);
    }
    let all = sunburst_of(g, turns, n);
    if i < n - 1 {
        assert(all.subrange(6 * i, 6 * i + 6) =~= before.subrange(6 * i, 6 * i + 6));
    } else {
        assert(all.subrange(6 * i, 6 * i + 6) =~= wedge_of(g, a, b, mid));
    }
}

} // verus!
