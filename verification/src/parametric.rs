//! Curves that are drawn from a parameter: Lissajous curves, superellipses, roses,
//! and the traces of rolling circles.
use crate::arrange::{given_or_default, or_default};
use crate::bezier::{PathEl, Point, ONE, TINY};
use crate::copies::FULL_TURN;
use crate::double::{Double, SIGN};
use crate::float::{
    absolute, clamped, divided, exact, f_abs, f_add, f_clamp, f_div, f_less, f_max, f_mul, f_neg,
    f_over, f_round, f_sub, f_trunc, from_count, lemma_positive, less, maximum, minus, negated,
    over, plus, raised, raised_count, round_number, times, to_count, truncated, whole, whole_part,
};
use crate::outlines::{polygon, polygon_through, P1, P3, P4};
use crate::steps::{
    is_plain, lemma_add, lemma_neg, lemma_plain, lemma_product_commutes, lemma_product_mirrors,
    lemma_product_sign, lemma_sub, lemma_times_nothing, lemma_times_one,
};
use vstd::prelude::*;

verus! {

#[derive(Debug, Clone, Copy, PartialEq, Eq, Structural)]
pub enum ParametricShapeType {
    Lissajous,
    Superellipse,
    Rose,
    Hypotrochoid,
    Epicycloid,
}

#[derive(Debug, Clone, Copy, PartialEq, Eq, Structural)]
pub struct CurveArgs {
    pub shape_type: ParametricShapeType,
    pub cx: Double,
    pub cy: Double,
    pub radius: Option<Double>,
    pub points: Option<usize>,
    pub ratio_x: Option<Double>,
    pub ratio_y: Option<Double>,
    pub freq_a: Option<Double>,
    pub freq_b: Option<Double>,
    pub delta_deg: Option<Double>,
    pub exponent: Option<Double>,
    pub petals: Option<Double>,
    pub inner_ratio: Option<Double>,
    pub pen_ratio: Option<Double>,
}

/// The bits of half a turn in radians.
pub const HALF_TURN: u64 = 0x4009_21fb_5444_2d18;

/// A degree in radians.
pub const DEGREE: u64 = 0x3f91_df46_a252_9d39;

/// 0.01 as a number.
pub const P01: u64 = 0x3f84_7ae1_47ae_147b;

/// 0.99 as a number.
pub const P99: u64 = 0x3fef_ae14_7ae1_47ae;

/// 2.5 as a number.
pub const TWO_AND_A_HALF: u64 = 0x4004_0000_0000_0000;

pub open spec fn radius_of(args: CurveArgs) -> Double {
    or_default(args.radius, whole(80))
}

/// The number of points: 360 where none is given, from 3 to 4096.
pub open spec fn point_count(args: CurveArgs) -> nat {
    match args.points {
        Some(n) => if n < 3 {
            3
        } else if n > 4096 {
            4096
        } else {
            n as nat
        },
        None => 360,
    }
}

/// The share of point `i`.
pub open spec fn share(args: CurveArgs, i: nat) -> Double {
    f_div(whole(i), whole(point_count(args)))
}

/// The nearest whole number, as a 64 bit one with a sign, is even.
pub open spec fn rounds_to_even(k: Double) -> bool {
    let r = f_round(k);
    if r.negative() && !r.is_nan() {
        truncated(f_neg(r), 0x8000_0000_0000_0000) % 2 == 0
    } else {
        truncated(r, 0x7fff_ffff_ffff_ffff) % 2 == 0
    }
}

/// How far the parameter of a rose runs: a full turn where the number of petals is
/// an even whole number, and half a turn else.
pub open spec fn rose_end(k: Double) -> Double {
    if rounds_to_even(k) && f_less(f_sub(k, f_trunc(k)), Double { bits: TINY }) {
        Double { bits: FULL_TURN }
    } else {
        Double { bits: HALF_TURN }
    }
}

/// The size of the rolling circle against the other one.
pub open spec fn rolling_ratio(args: CurveArgs, default: u64) -> Double {
    f_clamp(
        or_default(args.inner_ratio, Double { bits: default }),
        Double { bits: P01 },
        Double { bits: P99 },
    )
}

/// The circle that another rolls in: its radius, that of the rolling one, and the
/// distance of the pen from its centre.
pub open spec fn inner_circles(args: CurveArgs) -> (Double, Double, Double) {
    let one = (Double { bits: ONE });
    let q = rolling_ratio(args, P4);
    let pen = or_default(args.pen_ratio, one);
    let big = f_over(
        radius_of(args),
        f_add(f_add(one, f_mul(q, f_max(f_abs(f_sub(pen, one)), one))), q),
    );
    let small = f_mul(big, q);
    (big, small, f_mul(small, pen))
}

/// The circle that another rolls on.
pub open spec fn outer_circles(args: CurveArgs) -> (Double, Double, Double) {
    let one = (Double { bits: ONE });
    let q = rolling_ratio(args, P3);
    let big = f_over(radius_of(args), f_add(one, q));
    let small = f_mul(big, q);
    (big, small, f_mul(small, or_default(args.pen_ratio, one)))
}

/// A number with its fraction rounded up, for a number of which that is below 2 to
/// the power 63.
pub open spec fn up(x: Double) -> Double {
    whole(raised(x, 0x7fff_ffff_ffff_ffff))
}

/// The two angles of point `i`, in radians. A superellipse has one.
pub open spec fn curve_angles(args: CurveArgs, i: nat) -> (Double, Double) {
    let t = f_mul(share(args, i), Double { bits: FULL_TURN });
    match args.shape_type {
        ParametricShapeType::Lissajous => (
            f_add(
                f_mul(or_default(args.freq_a, whole(3)), t),
                f_mul(or_default(args.delta_deg, whole(90)), Double { bits: DEGREE }),
            ),
            f_mul(or_default(args.freq_b, whole(2)), t),
        ),
        ParametricShapeType::Superellipse => (t, t),
        ParametricShapeType::Rose => {
            let k = or_default(args.petals, whole(5));
            let u = f_mul(share(args, i), rose_end(k));
            (f_mul(k, u), u)
        },
        ParametricShapeType::Hypotrochoid => {
            let (big, small, d) = inner_circles(args);
            let u = f_mul(t, up(f_over(Double { bits: ONE }, rolling_ratio(args, P4))));
            (u, f_mul(f_over(f_sub(big, small), small), u))
        },
        ParametricShapeType::Epicycloid => {
            let (big, small, d) = outer_circles(args);
            let loops = truncated(
                f_max(
                    f_round(f_over(Double { bits: ONE }, rolling_ratio(args, P3))),
                    Double { bits: ONE },
                ),
                usize::MAX as nat,
            );
            let u = f_mul(t, whole(loops));
            (u, f_mul(f_over(f_add(big, small), small), u))
        },
    }
}

/// The exponent that a superellipse raises cosines and sines to.
pub open spec fn superellipse_power(args: CurveArgs) -> Double {
    f_div(
        whole(2),
        f_max(or_default(args.exponent, Double { bits: TWO_AND_A_HALF }), Double { bits: P1 }),
    )
}

/// What is known of the two angles of a point. For a superellipse, the powers of the
/// cosine's and the sine's magnitudes stand in place of the second angle.
#[derive(Debug, Clone, Copy, PartialEq, Eq, Structural)]
pub struct CurveValues {
    pub cosine: Double,
    pub sine: Double,
    pub second_cosine: Double,
    pub second_sine: Double,
}

/// The sign of a number as a number; a zero counts by its sign bit.
pub open spec fn sign_of(x: Double) -> Double {
    if x.is_nan() {
        x
    } else if x.negative() {
        f_neg(Double { bits: ONE })
    } else {
        Double { bits: ONE }
    }
}

/// A point of the curve about the origin.
pub open spec fn curve_point(args: CurveArgs, v: CurveValues) -> Point {
    let r = radius_of(args);
    let one = (Double { bits: ONE });
    let rx = f_mul(r, or_default(args.ratio_x, one));
    let ry = f_mul(r, or_default(args.ratio_y, one));
    match args.shape_type {
        ParametricShapeType::Lissajous => Point {
            x: f_mul(rx, v.sine),
            y: f_mul(ry, v.second_sine),
        },
        ParametricShapeType::Superellipse => Point {
            x: f_mul(f_mul(rx, sign_of(v.cosine)), v.second_cosine),
            y: f_mul(f_mul(ry, sign_of(v.sine)), v.second_sine),
        },
        ParametricShapeType::Rose => {
            let q = f_mul(r, v.cosine);
            Point { x: f_mul(q, v.second_cosine), y: f_mul(q, v.second_sine) }
        },
        ParametricShapeType::Hypotrochoid => {
            let (big, small, d) = inner_circles(args);
            let gap = f_sub(big, small);
            Point {
                x: f_add(f_mul(gap, v.cosine), f_mul(d, v.second_cosine)),
                y: f_sub(f_mul(gap, v.sine), f_mul(d, v.second_sine)),
            }
        },
        ParametricShapeType::Epicycloid => {
            let (big, small, d) = outer_circles(args);
            let sum = f_add(big, small);
            Point {
                x: f_sub(f_mul(sum, v.cosine), f_mul(d, v.second_cosine)),
                y: f_sub(f_mul(sum, v.sine), f_mul(d, v.second_sine)),
            }
        },
    }
}

/// The points of the curve about its centre.
pub open spec fn curve_points(args: CurveArgs, values: Seq<CurveValues>) -> Seq<Point> {
    Seq::new(
        values.len(),
        |i: int|
            {
                let p = curve_point(args, values[i]);
                Point { x: f_add(args.cx, p.x), y: f_add(args.cy, p.y) }
            },
    )
}

pub open spec fn shape_name_of(t: ParametricShapeType) -> Seq<char> {
    match t {
        ParametricShapeType::Lissajous => "Lissajous Curve"@,
        ParametricShapeType::Superellipse => "Superellipse"@,
        ParametricShapeType::Rose => "Rose Curve"@,
        ParametricShapeType::Hypotrochoid => "Hypotrochoid"@,
        ParametricShapeType::Epicycloid => "Epicycloid"@,
    }
}

/// The name of a curve.
pub fn shape_name(t: ParametricShapeType) -> (r: &'static str)
    ensures
        r@ == shape_name_of(t),
{
    match t {
        ParametricShapeType::Lissajous => "Lissajous Curve",
        ParametricShapeType::Superellipse => "Superellipse",
        ParametricShapeType::Rose => "Rose Curve",
        ParametricShapeType::Hypotrochoid => "Hypotrochoid",
        ParametricShapeType::Epicycloid => "Epicycloid",
    }
}

fn radius_number(args: &CurveArgs) -> (r: Double)
    ensures
        r == radius_of(*args),
{
    given_or_default(args.radius, from_count(80))
}

/// The number of points of a curve.
pub fn count_points(args: &CurveArgs) -> (r: usize)
    ensures
        r == point_count(*args),
        3 <= r <= 4096,
{
    match args.points {
        Some(n) => if n < 3 {
            3
        } else if n > 4096 {
            4096
        } else {
            n
        },
        None => 360,
    }
}

fn is_even_number(k: Double) -> (r: bool)
    ensures
        r == rounds_to_even(k),
{
    let x = round_number(k);
    if x.bits >= SIGN && x.bits <= 0xfff0_0000_0000_0000 {
        to_count(negated(x), 0x8000_0000_0000_0000) % 2 == 0
    } else {
        to_count(x, 0x7fff_ffff_ffff_ffff) % 2 == 0
    }
}

fn end_of_rose(k: Double) -> (r: Double)
    ensures
        r == rose_end(k),
{
    if is_even_number(k) && less(minus(k, whole_part(k)), Double { bits: TINY }) {
        Double { bits: FULL_TURN }
    } else {
        Double { bits: HALF_TURN }
    }
}

fn ratio_of(args: &CurveArgs, default: u64) -> (r: Double)
    ensures
        r == rolling_ratio(*args, default),
{
    clamped(
        given_or_default(args.inner_ratio, Double { bits: default }),
        Double { bits: P01 },
        Double { bits: P99 },
    )
}

fn circles_in(args: &CurveArgs) -> (r: (Double, Double, Double))
    ensures
        r == inner_circles(*args),
{
    let one = Double { bits: ONE };
    let q = ratio_of(args, P4);
    let pen = given_or_default(args.pen_ratio, one);
    let big = over(
        radius_number(args),
        plus(plus(one, times(q, maximum(absolute(minus(pen, one)), one))), q),
    );
    let small = times(big, q);
    (big, small, times(small, pen))
}

fn circles_on(args: &CurveArgs) -> (r: (Double, Double, Double))
    ensures
        r == outer_circles(*args),
{
    let one = Double { bits: ONE };
    let q = ratio_of(args, P3);
    let big = over(radius_number(args), plus(one, q));
    let small = times(big, q);
    (big, small, times(small, given_or_default(args.pen_ratio, one)))
}

/// The two angles of point `i`, in radians.
pub fn find_curve_angles(args: &CurveArgs, i: usize) -> (r: (Double, Double))
    ensures
        r == curve_angles(*args, i as nat),
{
    let n: usize = count_points(args);
    let one = Double { bits: ONE };
    proof {
        lemma_positive(n as nat);
    }
    let part = divided(from_count(i as u64), from_count(n as u64));
    let t = times(part, Double { bits: FULL_TURN });
    match args.shape_type {
        ParametricShapeType::Lissajous => (
            plus(
                times(given_or_default(args.freq_a, from_count(3)), t),
                times(
                    given_or_default(args.delta_deg, from_count(90)),
                    Double { bits: DEGREE },
                ),
            ),
            times(given_or_default(args.freq_b, from_count(2)), t),
        ),
        ParametricShapeType::Superellipse => (t, t),
        ParametricShapeType::Rose => {
            let k = given_or_default(args.petals, from_count(5));
            let u = times(part, end_of_rose(k));
            (times(k, u), u)
        },
        ParametricShapeType::Hypotrochoid => {
            let (big, small, _) = circles_in(args);
            let turns = raised_count(over(one, ratio_of(args, P4)), 0x7fff_ffff_ffff_ffff);
            let u = times(t, from_count(turns));
            (u, times(over(minus(big, small), small), u))
        },
        ParametricShapeType::Epicycloid => {
            let (big, small, _) = circles_on(args);
            let loops = to_count(
                maximum(round_number(over(one, ratio_of(args, P3))), one),
                usize::MAX as u64,
            );
            let u = times(t, from_count(loops));
            (u, times(over(plus(big, small), small), u))
        },
    }
}

/// The exponent of a superellipse.
pub fn find_superellipse_power(args: &CurveArgs) -> (r: Double)
    ensures
        r == superellipse_power(*args),
{
    divided(
        from_count(2),
        maximum(
            given_or_default(args.exponent, Double { bits: TWO_AND_A_HALF }),
            Double { bits: P1 },
        ),
    )
}

fn find_sign(x: Double) -> (r: Double)
    ensures
        r == sign_of(x),
{
    if x.bits >= SIGN {
        if x.bits > 0xfff0_0000_0000_0000 {
            x
        } else {
            Double { bits: ONE + SIGN }
        }
    } else if x.bits > 0x7ff0_0000_0000_0000 {
        x
    } else {
        Double { bits: ONE }
    }
}

fn find_curve_point(args: &CurveArgs, v: &CurveValues) -> (r: Point)
    ensures
        r == curve_point(*args, *v),
{
    let one = Double { bits: ONE };
    let r = radius_number(args);
    let rx = times(r, given_or_default(args.ratio_x, one));
    let ry = times(r, given_or_default(args.ratio_y, one));
    match args.shape_type {
        ParametricShapeType::Lissajous => Point {
            x: times(rx, v.sine),
            y: times(ry, v.second_sine),
        },
        ParametricShapeType::Superellipse => Point {
            x: times(times(rx, find_sign(v.cosine)), v.second_cosine),
            y: times(times(ry, find_sign(v.sine)), v.second_sine),
        },
        ParametricShapeType::Rose => {
            let q = times(r, v.cosine);
            Point { x: times(q, v.second_cosine), y: times(q, v.second_sine) }
        },
        ParametricShapeType::Hypotrochoid => {
            let (big, small, d) = circles_in(args);
            let gap = minus(big, small);
            Point {
                x: plus(times(gap, v.cosine), times(d, v.second_cosine)),
                y: minus(times(gap, v.sine), times(d, v.second_sine)),
            }
        },
        ParametricShapeType::Epicycloid => {
            let (big, small, d) = circles_on(args);
            let sum = plus(big, small);
            Point {
                x: minus(times(sum, v.cosine), times(d, v.second_cosine)),
                y: minus(times(sum, v.sine), times(d, v.second_sine)),
            }
        },
    }
}

/// The outline of a curve, from what is known of the angles of its points.
pub fn create_parametric_shape(args: &CurveArgs, values: &Vec<CurveValues>) -> (r: Vec<PathEl>)
    ensures
        r@ == polygon_through(curve_points(*args, values@)),
{
    let ghost goal = curve_points(*args, values@);
    let mut points: Vec<Point> = Vec::new();
    let mut i: usize = 0;
    while i < values.len()
        invariant
            i <= values.len(),
            goal == curve_points(*args, values@),
            points@ == goal.take(i as int),
        decreases values.len() - i,
    {
        let p = find_curve_point(args, &values[i]);
        points.push(Point { x: plus(args.cx, p.x), y: plus(args.cy, p.y) });
        i += 1;
        assert(points@ =~= goal.take(i as int));
    }
    assert(points@ =~= goal);
    polygon(&points)
}


/// A superellipse goes through all four quadrants: the point of an angle lies to the right
/// of the centre where the cosine is positive and below it where the sine is.
pub proof fn law_superellipse_fills_quadrants(args: CurveArgs, v: CurveValues)
    requires
        args.shape_type == ParametricShapeType::Superellipse,
        !radius_of(args).negative(),
        args.ratio_x matches Some(q) ==> !q.negative(),
        args.ratio_y matches Some(q) ==> !q.negative(),
        !v.cosine.is_nan(),
        !v.sine.is_nan(),
        !v.second_cosine.negative(),
        !v.second_sine.negative(),
    ensures
        !curve_point(args, v).x.is_nan() ==> curve_point(args, v).x.negative()
            == v.cosine.negative(),
        !curve_point(args, v).y.is_nan() ==> curve_point(args, v).y.negative()
            == v.sine.negative(),
{
    lemma_side_sign(radius_of(args), args.ratio_x, v.cosine, v.second_cosine);
    lemma_side_sign(radius_of(args), args.ratio_y, v.sine, v.second_sine);
}

proof fn lemma_side_sign(r: Double, ratio: Option<Double>, c: Double, power: Double)
    requires
        !r.negative(),
        ratio matches Some(q) ==> !q.negative(),
        !c.is_nan(),
        !power.negative(),
    ensures
        ({
            let rx = f_mul(r, or_default(ratio, Double { bits: ONE }));
            let x = f_mul(f_mul(rx, sign_of(c)), power);
            !x.is_nan() ==> x.negative() == c.negative()
        }),
{
    let rx = f_mul(r, or_default(ratio, Double { bits: ONE }));
    lemma_product_sign(r, or_default(ratio, Double { bits: ONE }));
    lemma_product_sign(rx, sign_of(c));
    lemma_product_sign(f_mul(rx, sign_of(c)), power);
    lemma_neg(Double { bits: ONE });
    assert(f_mul(f_mul(rx, sign_of(c)), power).is_nan() || !f_mul(rx, sign_of(c)).is_nan()) by {
        reveal(f_mul);
    }
    assert(f_mul(rx, sign_of(c)).is_nan() || !rx.is_nan()) by {
        reveal(f_mul);
    }
}

/// Opposite sines mirror a superellipse at its horizontal axis, and opposite cosines at its
/// vertical one.
pub proof fn law_superellipse_is_mirrored(args: CurveArgs, v: CurveValues, w: CurveValues)
    requires
        args.shape_type == ParametricShapeType::Superellipse,
        !v.sine.is_nan(),
        !v.cosine.is_nan(),
        v.second_cosine == w.second_cosine,
        v.second_sine == w.second_sine,
    ensures
        v.cosine == w.cosine ==> curve_point(args, v).x == curve_point(args, w).x,
        v.sine == w.sine ==> curve_point(args, v).y == curve_point(args, w).y,
        w.sine == f_neg(v.sine) ==> is_opposite(curve_point(args, v).y, curve_point(args, w).y),
        w.cosine == f_neg(v.cosine) ==> is_opposite(curve_point(args, v).x, curve_point(args, w).x),
{
    let one = (Double { bits: ONE });
    let rx = f_mul(radius_of(args), or_default(args.ratio_x, one));
    let ry = f_mul(radius_of(args), or_default(args.ratio_y, one));
    lemma_side_mirrors(rx, v.cosine, v.second_cosine);
    lemma_side_mirrors(ry, v.sine, v.second_sine);
}

/// Numbers of one magnitude and of opposite signs, or neither a number.
pub open spec fn is_opposite(a: Double, b: Double) -> bool {
    if a.is_nan() {
        b.is_nan()
    } else {
        b == f_neg(a)
    }
}

proof fn lemma_side_mirrors(rx: Double, c: Double, power: Double)
    requires
        !c.is_nan(),
    ensures
        is_opposite(
            f_mul(f_mul(rx, sign_of(c)), power),
            f_mul(f_mul(rx, sign_of(f_neg(c))), power),
        ),
{
    let one = (Double { bits: ONE });
    lemma_neg(c);
    lemma_neg(one);
    assert(sign_of(f_neg(c)) == f_neg(sign_of(c)));
    let s = sign_of(c);
    lemma_product_mirrors(rx, s);
    lemma_product_commutes(rx, f_neg(s));
    lemma_product_commutes(rx, s);
    let m = f_mul(rx, s);
    lemma_product_mirrors(m, power);
    reveal(f_mul);
}

/// The two coordinates of the points of a curve have nothing to do with each other: across,
/// the cosines decide, and the centre and the ratio across; down, the sines and those down.
/// A Lissajous curve takes the sine of its first angle across.
pub proof fn law_curve_axes_are_apart(
    a: CurveArgs,
    b: CurveArgs,
    v: Seq<CurveValues>,
    w: Seq<CurveValues>,
    i: int,
)
    requires
        0 <= i < v.len(),
        v.len() == w.len(),
        a.shape_type == b.shape_type,
        a.shape_type != ParametricShapeType::Rose,
        a.radius == b.radius,
        a.inner_ratio == b.inner_ratio,
        a.pen_ratio == b.pen_ratio,
    ensures
        ({
            let lissajous = a.shape_type == ParametricShapeType::Lissajous;
            &&& a.cx == b.cx && a.ratio_x == b.ratio_x && (if lissajous {
                v[i].sine == w[i].sine
            } else {
                v[i].cosine == w[i].cosine && v[i].second_cosine == w[i].second_cosine
            }) ==> curve_points(a, v)[i].x == curve_points(b, w)[i].x
            &&& a.cy == b.cy && a.ratio_y == b.ratio_y && (if lissajous {
                v[i].second_sine == w[i].second_sine
            } else {
                v[i].sine == w[i].sine && v[i].second_sine == w[i].second_sine
            }) ==> curve_points(a, v)[i].y == curve_points(b, w)[i].y
        }),
{
}

/// Where the distance of a rose from its centre changes its sign, the point goes to the
/// other side of the centre; across, the second cosine decides, and down the second sine.
pub proof fn law_rose_goes_through_its_centre(args: CurveArgs, v: CurveValues, w: CurveValues)
    requires
        args.shape_type == ParametricShapeType::Rose,
        v.second_cosine == w.second_cosine,
        v.second_sine == w.second_sine,
        w.cosine == f_neg(v.cosine),
    ensures
        is_opposite(curve_point(args, v).x, curve_point(args, w).x),
        is_opposite(curve_point(args, v).y, curve_point(args, w).y),
{
    let r = radius_of(args);
    lemma_product_commutes(r, v.cosine);
    lemma_product_commutes(r, w.cosine);
    lemma_product_mirrors(v.cosine, r);
    let q = f_mul(r, v.cosine);
    lemma_product_mirrors(q, v.second_cosine);
    lemma_product_mirrors(q, v.second_sine);
    reveal(f_mul);
}

/// A rose turned by a quarter: a point straight below its centre has no part across, and one
/// beside it none down.
pub proof fn law_rose_follows_its_angle(args: CurveArgs, v: CurveValues)
    requires
        args.shape_type == ParametricShapeType::Rose,
        radius_of(args).wf(),
        f_mul(radius_of(args), v.cosine).wf(),
    ensures
        v.second_cosine == whole(0) ==> curve_point(args, v).x.key() == 0,
        v.second_sine == whole(0) ==> curve_point(args, v).y.key() == 0,
        v.second_cosine == whole(1) ==> curve_point(args, v).x == f_mul(
            radius_of(args),
            v.cosine,
        ),
        v.second_sine == whole(1) ==> curve_point(args, v).y == f_mul(radius_of(args), v.cosine),
{
    let q = f_mul(radius_of(args), v.cosine);
    lemma_times_nothing(q);
    lemma_times_one(q);
}


/// Where both angles of a rolling circle point across, a circle that rolls inside another has
/// the reach of its pen added to the gap of the two circles, and one that rolls outside has it
/// taken off their sum; where both point down, the reach is taken off inside too, for the
/// circle turns the other way.
pub proof fn law_rolling_circles_reach(args: CurveArgs, v: CurveValues, j: nat)
    requires
        ({
            let (big, small, d) = inner_circles(args);
            is_plain(big, j) && is_plain(small, j) && is_plain(d, j)
        }),
        ({
            let (big, small, d) = outer_circles(args);
            is_plain(big, j) && is_plain(small, j) && is_plain(d, j)
        }),
    ensures
        ({
            let across = v.cosine == whole(1) && v.second_cosine == whole(1);
            let down = v.sine == whole(1) && v.second_sine == whole(1);
            let p = curve_point(args, v);
            &&& args.shape_type == ParametricShapeType::Hypotrochoid ==> ({
                let (big, small, d) = inner_circles(args);
                &&& across ==> exact(p.x) == exact(big) - exact(small) + exact(d)
                &&& down ==> exact(p.y) == exact(big) - exact(small) - exact(d)
            })
            &&& args.shape_type == ParametricShapeType::Epicycloid ==> ({
                let (big, small, d) = outer_circles(args);
                &&& across ==> exact(p.x) == exact(big) + exact(small) - exact(d)
                &&& down ==> exact(p.y) == exact(big) + exact(small) - exact(d)
            })
        }),
{
    lemma_rolled(inner_circles(args).0, inner_circles(args).1, inner_circles(args).2, j);
    lemma_rolled(outer_circles(args).0, outer_circles(args).1, outer_circles(args).2, j);
}

proof fn lemma_rolled(big: Double, small: Double, d: Double, j: nat)
    requires
        is_plain(big, j),
        is_plain(small, j),
        is_plain(d, j),
    ensures
        ({
            let one = whole(1);
            let gap = f_sub(big, small);
            let sum = f_add(big, small);
            &&& exact(f_add(f_mul(gap, one), f_mul(d, one))) == exact(big) - exact(small) + exact(d)
            &&& exact(f_sub(f_mul(gap, one), f_mul(d, one))) == exact(big) - exact(small) - exact(d)
            &&& exact(f_sub(f_mul(sum, one), f_mul(d, one))) == exact(big) + exact(small) - exact(d)
        }),
{
    lemma_plain(big, j);
    lemma_plain(small, j);
    lemma_plain(d, j);
    lemma_sub(big, small, j, 0x4000_0000, 0x4000_0000);
    lemma_add(big, small, j, 0x4000_0000, 0x4000_0000);
    lemma_times_one(d);
    lemma_times_one(f_sub(big, small));
    lemma_times_one(f_add(big, small));
    lemma_add(f_sub(big, small), d, j, 0x8000_0000, 0x4000_0000);
    lemma_sub(f_sub(big, small), d, j, 0x8000_0000, 0x4000_0000);
    lemma_sub(f_add(big, small), d, j, 0x8000_0000, 0x4000_0000);
}

/// Of a Lissajous curve the first angle goes by the first frequency and the shift, the second
/// one by the second frequency alone; both start together where nothing is shifted.
pub proof fn law_frequencies_are_apart(a: CurveArgs, b: CurveArgs, i: nat)
    requires
        a.shape_type == ParametricShapeType::Lissajous,
        b.shape_type == ParametricShapeType::Lissajous,
        a.points == b.points,
    ensures
        a.freq_a == b.freq_a && a.delta_deg == b.delta_deg ==> curve_angles(a, i).0
            == curve_angles(b, i).0,
        a.freq_b == b.freq_b ==> curve_angles(a, i).1 == curve_angles(b, i).1,
{
}

} // verus!
